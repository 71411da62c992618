//! Conversions between Shift JIS, the games' text encoding, and UTF-8.
use vstd::prelude::*;
use crate::util::text::{chars_of, decimal, decimal_chars, push_all, string_of};

verus! {

/// What `encoding_rs::SHIFT_JIS.decode` gives for `bytes`: the text, and whether malformed
/// sequences were replaced.
pub uninterp spec fn shift_jis_decode(bytes: Seq<u8>) -> (Seq<char>, bool);

/// What `encoding_rs::SHIFT_JIS.encode` gives for `text`: the bytes, and whether characters
/// that Shift JIS cannot hold were replaced.
pub uninterp spec fn shift_jis_encode(text: Seq<char>) -> (Seq<u8>, bool);

/// What `format!("{:?}", s)` writes for a string: the text quoted, with escapes.
pub uninterp spec fn debug_quoted(s: Seq<char>) -> Seq<char>;

/// `encoding_rs::SHIFT_JIS.decode`: decodes `bytes` as Shift JIS (a byte order mark switches
/// the encoding) and reports whether malformed sequences were replaced. The result is named,
/// not restated; the crate panics only when a buffer size overflows `usize`, which the bound
/// on the length rules out.
#[verifier::external_body]
fn decode_shift_jis(bytes: &[u8]) -> (r: (String, bool))
    requires
        bytes@.len() <= usize::MAX / 64,
    ensures
        (r.0@, r.1) == shift_jis_decode(bytes@),
{
    let (cow, _, had_errors) = encoding_rs::SHIFT_JIS.decode(bytes);
    (cow.into_owned(), had_errors)
}

/// `encoding_rs::SHIFT_JIS.encode`: encodes `text` as Shift JIS and reports whether
/// characters had to be replaced. The result is named, not restated.
#[verifier::external_body]
fn encode_shift_jis(text: &str) -> (r: (Vec<u8>, bool))
    requires
        text@.len() <= usize::MAX / 64,
    ensures
        (r.0@, r.1) == shift_jis_encode(text@),
{
    let (cow, _, had_errors) = encoding_rs::SHIFT_JIS.encode(text);
    (cow.into_owned(), had_errors)
}

/// `format!("{:?}", s)`, the standard library's quoted and escaped form of a string; the
/// escaping rules are named, not restated.
#[verifier::external_body]
fn format_debug(s: &str) -> (r: String)
    ensures
        r@ == debug_quoted(s@),
{
    format!("{:?}", s)
}

/// A text that could not be converted.
#[derive(Debug)]
pub enum InvalidSJIS {
    /// The text, which Shift JIS cannot hold.
    EncodeError(String),
    /// The bytes, which are not valid Shift JIS.
    DecodeError(Vec<u8>),
}

/// `bytes` written as a list: `[` then the numbers separated by `, `, then `]`.
pub open spec fn byte_list(bytes: Seq<u8>) -> Seq<char>
    decreases bytes.len(),
{
    if bytes.len() == 0 {
        seq!['[', ']']
    } else {
        seq!['['] + list_items(bytes) + seq![']']
    }
}

/// The numbers of `bytes` separated by `, `.
pub open spec fn list_items(bytes: Seq<u8>) -> Seq<char>
    decreases bytes.len(),
{
    if bytes.len() <= 1 {
        if bytes.len() == 0 {
            Seq::empty()
        } else {
            decimal(bytes[0] as nat)
        }
    } else {
        list_items(bytes.drop_last()) + seq![',', ' '] + decimal(bytes.last() as nat)
    }
}

impl InvalidSJIS {
    /// The message that describes the error.
    pub fn to_string(&self) -> (s: String)
        ensures
            s@ == match self {
                InvalidSJIS::EncodeError(text) => "failed to endode to sjis with string: "@ + debug_quoted(text@),
                InvalidSJIS::DecodeError(bytes) => "failed to decode to sjis with buffer: "@ + byte_list(bytes@),
            },
    {
        match self {
            InvalidSJIS::EncodeError(text) => {
                let mut out = chars_of("failed to endode to sjis with string: ");
                let quoted = chars_of(format_debug(text.as_str()).as_str());
                push_all(&mut out, quoted.as_slice());
                string_of(out.as_slice())
            },
            InvalidSJIS::DecodeError(bytes) => {
                let mut out = chars_of("failed to decode to sjis with buffer: ");
                let ghost prefix = out@;
                out.push('[');
                let mut i: usize = 0;
                while i < bytes.len()
                    invariant
                        i <= bytes@.len(),
                        out@ == prefix + seq!['['] + list_items(bytes@.take(i as int)),
                    decreases bytes@.len() - i,
                {
                    let ghost before = out@;
                    if i > 0 {
                        out.push(',');
                        out.push(' ');
                    }
                    let digits = decimal_chars(bytes[i] as u64);
                    push_all(&mut out, digits.as_slice());
                    proof {
                        assert(bytes@.take(i + 1).drop_last() =~= bytes@.take(i as int));
                        if i == 0 {
                            assert(out@ =~= prefix + seq!['['] + list_items(bytes@.take(i + 1)));
                        } else {
                            assert(out@ =~= prefix + seq!['['] + list_items(bytes@.take(i + 1)));
                        }
                    }
                    i += 1;
                }
                out.push(']');
                proof {
                    assert(bytes@.take(bytes@.len() as int) =~= bytes@);
                    if bytes@.len() == 0 {
                        assert(out@ =~= prefix + byte_list(bytes@));
                    } else {
                        assert(out@ =~= prefix + byte_list(bytes@));
                    }
                }
                string_of(out.as_slice())
            },
        }
    }
}

/// Decodes Shift JIS `sjis`; refused, with the bytes, when some sequence is malformed.
pub fn sjis_to_utf8(sjis: &[u8]) -> (r: Result<String, InvalidSJIS>)
    requires
        sjis@.len() <= usize::MAX / 64,
    ensures
        shift_jis_decode(sjis@).1 ==> (r matches Err(InvalidSJIS::DecodeError(b)) && b@ == sjis@),
        !shift_jis_decode(sjis@).1 ==> (r matches Ok(s) && s@ == shift_jis_decode(sjis@).0),
{
    let (text, had_errors) = decode_shift_jis(sjis);
    if had_errors {
        return Err(InvalidSJIS::DecodeError(vstd::slice::slice_to_vec(sjis)));
    }
    Ok(text)
}

/// Encodes `utf8` as Shift JIS; refused, with the text, when it holds a character that Shift
/// JIS cannot.
pub fn utf8_to_sjis(utf8: &str) -> (r: Result<Vec<u8>, InvalidSJIS>)
    requires
        utf8@.len() <= usize::MAX / 64,
    ensures
        shift_jis_encode(utf8@).1 ==> (r matches Err(InvalidSJIS::EncodeError(s)) && s@ == utf8@),
        !shift_jis_encode(utf8@).1 ==> (r matches Ok(b) && b@ == shift_jis_encode(utf8@).0),
{
    let (bytes, had_errors) = encode_shift_jis(utf8);
    if had_errors {
        return Err(InvalidSJIS::EncodeError(utf8.to_owned()));
    }
    Ok(bytes)
}

} // verus!
