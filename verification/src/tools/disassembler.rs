//! How disassembled scenarios are written: operands as text and instructions as lines.
use vstd::prelude::*;
use crate::util::text::{
    chars_of, decimal, decimal_chars, digit_char, hex_byte, push_all, push_hex_byte, signed_decimal,
    signed_decimal_chars, string_of, zero_padded, zero_padded_chars,
};
use crate::util::encoding::{InvalidSJIS, shift_jis_decode, sjis_to_utf8};
use crate::tools::params::{
    AsmError, ParamNum, Value, all_digits, digits_value, parse_int, scan_string, value_of,
};

verus! {

/// The text at the end of an obfuscated scenario file.
pub open spec fn signature() -> Seq<u8> {
    seq![83u8, 69, 67, 82, 69, 84, 70, 73, 76, 84, 69, 82, 49, 48, 48, 97]
}

/// The bytes that end an obfuscated scenario file: `SECRETFILTER100a`.
pub fn signature_bytes() -> (s: Vec<u8>)
    ensures
        s@ == signature(),
{
    let s = vec![83u8, 69, 67, 82, 69, 84, 70, 73, 76, 84, 69, 82, 49, 48, 48, 97];
    proof {
        assert(s@ =~= signature());
    }
    s
}

/// The length of the obfuscated part of `data`: everything before the signature, when
/// `data` ends with it.
pub fn get_obfuscated(data: &[u8]) -> (r: Option<usize>)
    ensures
        match r {
            Some(mid) => mid + 16 == data@.len() && data@.skip(mid as int) == signature(),
            None => data@.len() < 16 || data@.skip(data@.len() - 16) != signature(),
        },
{
    let sig = signature_bytes();
    if data.len() < sig.len() {
        return None;
    }
    let dlen = data.len();
    let mid = dlen - sig.len();
    let mut i: usize = 0;
    while i < sig.len()
        invariant
            i <= sig@.len(),
            sig@ == signature(),
            mid + sig@.len() == data@.len(),
            dlen == data@.len(),
            forall|j: int| 0 <= j < i ==> data@[mid + j] == sig@[j],
        decreases sig@.len() - i,
    {
        if data[mid + i] != sig[i] {
            proof {
                assert(data@.skip(mid as int)[i as int] != signature()[i as int]);
            }
            return None;
        }
        i += 1;
    }
    proof {
        assert(data@.skip(mid as int) =~= signature());
    }
    Some(mid)
}

/// `bytes` as upper-case hexadecimal pairs separated by spaces between `<` and `>`; nothing
/// for no bytes.
pub open spec fn bytes_text(bytes: Seq<u8>) -> Seq<char>
    decreases bytes.len(),
{
    if bytes.len() == 0 {
        Seq::empty()
    } else {
        seq!['<'] + hex_list(bytes) + seq!['>']
    }
}

/// The hexadecimal pairs of `bytes`, separated by spaces.
pub open spec fn hex_list(bytes: Seq<u8>) -> Seq<char>
    decreases bytes.len(),
{
    if bytes.len() <= 1 {
        if bytes.len() == 0 {
            Seq::empty()
        } else {
            hex_byte(bytes[0])
        }
    } else {
        hex_list(bytes.drop_last()) + seq![' '] + hex_byte(bytes.last())
    }
}

/// `bytes` as `<0A FF ..>`, or nothing when there are none.
pub fn display_bytes(bytes: &[u8]) -> (s: String)
    ensures
        s@ == bytes_text(bytes@),
{
    if bytes.len() == 0 {
        return string_of(Vec::new().as_slice());
    }
    let mut out: Vec<char> = vec!['<'];
    let mut i: usize = 0;
    while i < bytes.len()
        invariant
            i <= bytes@.len(),
            out@ == seq!['<'] + hex_list(bytes@.take(i as int)),
        decreases bytes@.len() - i,
    {
        if i > 0 {
            out.push(' ');
        }
        push_hex_byte(&mut out, bytes[i]);
        proof {
            assert(bytes@.take(i + 1).drop_last() =~= bytes@.take(i as int));
            assert(out@ =~= seq!['<'] + hex_list(bytes@.take(i + 1)));
        }
        i += 1;
    }
    out.push('>');
    proof {
        assert(bytes@.take(bytes@.len() as int) =~= bytes@);
        assert(out@ =~= bytes_text(bytes@));
    }
    string_of(out.as_slice())
}

/// The escaped form of `c` inside a quoted string.
pub open spec fn string_escape(c: char) -> Seq<char> {
    if c == '"' {
        seq!['\\', '"']
    } else if c == '\\' {
        seq!['\\', '\\']
    } else if c == '\n' {
        seq!['\\', 'n']
    } else if c == '\r' {
        seq!['\\', 'r']
    } else {
        seq![c]
    }
}

/// The escaped form of `c` inside a message.
pub open spec fn message_escape(c: char) -> Seq<char> {
    if c == '[' {
        seq!['\\', '[']
    } else if c == ']' {
        seq!['\\', ']']
    } else if c == '\\' {
        seq!['\\', '\\']
    } else if c == '\n' {
        seq!['\\', 'n']
    } else if c == '\r' {
        seq!['\\', 'r']
    } else {
        seq![c]
    }
}

/// The characters of `s`, each escaped as a string's characters are.
pub open spec fn escaped_string(s: Seq<char>) -> Seq<char>
    decreases s.len(),
{
    if s.len() == 0 {
        Seq::empty()
    } else {
        escaped_string(s.drop_last()) + string_escape(s.last())
    }
}

/// The characters of `s`, each escaped as a message's characters are.
pub open spec fn escaped_message(s: Seq<char>) -> Seq<char>
    decreases s.len(),
{
    if s.len() == 0 {
        Seq::empty()
    } else {
        escaped_message(s.drop_last()) + message_escape(s.last())
    }
}

/// `string` between double quotes, with `"`, `\`, line feeds and carriage returns escaped.
pub fn display_string(string: &str) -> (s: String)
    ensures
        s@ == seq!['"'] + escaped_string(string@) + seq!['"'],
{
    let chars = chars_of(string);
    let mut out: Vec<char> = vec!['"'];
    let mut i: usize = 0;
    while i < chars.len()
        invariant
            i <= chars@.len(),
            chars@ == string@,
            out@ == seq!['"'] + escaped_string(chars@.take(i as int)),
        decreases chars@.len() - i,
    {
        let c = chars[i];
        if c == '"' {
            out.push('\\');
            out.push('"');
        } else if c == '\\' {
            out.push('\\');
            out.push('\\');
        } else if c == '\n' {
            out.push('\\');
            out.push('n');
        } else if c == '\r' {
            out.push('\\');
            out.push('r');
        } else {
            out.push(c);
        }
        proof {
            assert(chars@.take(i + 1).drop_last() =~= chars@.take(i as int));
            assert(out@ =~= seq!['"'] + escaped_string(chars@.take(i + 1)));
        }
        i += 1;
    }
    out.push('"');
    proof {
        assert(chars@.take(chars@.len() as int) =~= chars@);
    }
    string_of(out.as_slice())
}

/// `message` between square brackets, with brackets, `\`, line feeds and carriage returns
/// escaped.
pub fn display_message(message: &str) -> (s: String)
    ensures
        s@ == seq!['['] + escaped_message(message@) + seq![']'],
{
    let chars = chars_of(message);
    let mut out: Vec<char> = vec!['['];
    let mut i: usize = 0;
    while i < chars.len()
        invariant
            i <= chars@.len(),
            chars@ == message@,
            out@ == seq!['['] + escaped_message(chars@.take(i as int)),
        decreases chars@.len() - i,
    {
        let c = chars[i];
        if c == '[' {
            out.push('\\');
            out.push('[');
        } else if c == ']' {
            out.push('\\');
            out.push(']');
        } else if c == '\\' {
            out.push('\\');
            out.push('\\');
        } else if c == '\n' {
            out.push('\\');
            out.push('n');
        } else if c == '\r' {
            out.push('\\');
            out.push('r');
        } else {
            out.push(c);
        }
        proof {
            assert(chars@.take(i + 1).drop_last() =~= chars@.take(i as int));
            assert(out@ =~= seq!['['] + escaped_message(chars@.take(i + 1)));
        }
        i += 1;
    }
    out.push(']');
    proof {
        assert(chars@.take(chars@.len() as int) =~= chars@);
    }
    string_of(out.as_slice())
}

/// How a value operand is written: a literal as a number, a register as `@` and its index,
/// a random bound as `%` and the bound.
pub open spec fn value_text(value: Value) -> Seq<char> {
    match value {
        Value::Literal(n) => signed_decimal(n as int),
        Value::Register(i) => seq!['@'] + decimal(i as nat),
        Value::Random(m) => seq!['%'] + signed_decimal(m as int),
    }
}

/// The value operand `value` as text.
pub fn display_value(value: Value) -> (s: String)
    ensures
        s@ == value_text(value),
{
    match value {
        Value::Literal(n) => string_of(signed_decimal_chars(n).as_slice()),
        Value::Register(i) => {
            let mut out = vec!['@'];
            push_all(&mut out, decimal_chars(i as u64).as_slice());
            string_of(out.as_slice())
        },
        Value::Random(m) => {
            let mut out = vec!['%'];
            push_all(&mut out, signed_decimal_chars(m).as_slice());
            string_of(out.as_slice())
        },
    }
}

/// The Shift JIS `bytes` as a quoted string; refused when they are not valid Shift JIS.
pub fn display_bytes_as_string(bytes: &[u8]) -> (r: Result<String, InvalidSJIS>)
    requires
        bytes@.len() <= usize::MAX / 64,
    ensures
        shift_jis_decode(bytes@).1 ==> (r matches Err(InvalidSJIS::DecodeError(b)) && b@ == bytes@),
        !shift_jis_decode(bytes@).1 ==> (r matches Ok(s) && s@ == seq!['"'] + escaped_string(
            shift_jis_decode(bytes@).0,
        ) + seq!['"']),
{
    match sjis_to_utf8(bytes) {
        Ok(text) => Ok(display_string(text.as_str())),
        Err(e) => Err(e),
    }
}

/// The name of the label of subroutine `index`: `LABEL_` and the index on four digits.
pub fn display_label(index: u16) -> (s: String)
    ensures
        s@ == seq!['L', 'A', 'B', 'E', 'L', '_'] + zero_padded(index as nat, 4),
{
    let mut out = vec!['L', 'A', 'B', 'E', 'L', '_'];
    push_all(&mut out, zero_padded_chars(index as u64, 4).as_slice());
    string_of(out.as_slice())
}

/// `s` padded on the right with spaces to `width` characters.
pub open spec fn pad_right(s: Seq<char>, width: nat) -> Seq<char> {
    if s.len() < width {
        s + Seq::new((width - s.len()) as nat, |i: int| ' ')
    } else {
        s
    }
}

/// One instruction being written: its mnemonic and its operands.
pub struct Formatter {
    mnemonic: Vec<char>,
    params: Vec<char>,
}

impl Formatter {
    /// The mnemonic.
    pub closed spec fn mnemonic(&self) -> Seq<char> {
        self.mnemonic@
    }

    /// The operands written so far, separated by `, `.
    pub closed spec fn params(&self) -> Seq<char> {
        self.params@
    }

    /// An instruction named `name`, or `<` and its opcode in hexadecimal and `>` when it has
    /// no name.
    pub fn new(name: &str, opcode: u8) -> (f: Self)
        ensures
            name@.len() > 0 ==> f.mnemonic() == name@,
            name@.len() == 0 ==> f.mnemonic() == seq!['<'] + hex_byte(opcode) + seq!['>'],
            f.params() == Seq::<char>::empty(),
    {
        let mut mnemonic = chars_of(name);
        if mnemonic.len() == 0 {
            mnemonic = vec!['<'];
            push_hex_byte(&mut mnemonic, opcode);
            mnemonic.push('>');
        }
        Formatter { mnemonic, params: Vec::new() }
    }

    /// Appends the operand `param`, after `, ` unless it is the first.
    pub fn add_param(&mut self, param: &str)
        ensures
            final(self).mnemonic() == old(self).mnemonic(),
            final(self).params() == if old(self).params().len() == 0 {
                param@
            } else {
                old(self).params() + seq![',', ' '] + param@
            },
    {
        let p = chars_of(param);
        if self.params.len() > 0 {
            self.params.push(',');
            self.params.push(' ');
        }
        push_all(&mut self.params, p.as_slice());
    }

    /// The line of the instruction: four spaces, then the mnemonic alone, or padded to 16
    /// characters and followed by a space and the operands; then a line feed.
    pub fn write(self) -> (line: String)
        ensures
            line@ == if self.params().len() == 0 {
                seq![' ', ' ', ' ', ' '] + self.mnemonic() + seq!['\n']
            } else {
                seq![' ', ' ', ' ', ' '] + pad_right(self.mnemonic(), 16) + seq![' '] + self.params()
                    + seq!['\n']
            },
    {
        let mut out = vec![' ', ' ', ' ', ' '];
        push_all(&mut out, self.mnemonic.as_slice());
        if self.params.len() > 0 {
            let mut n = self.mnemonic.len();
            let ghost before = out@;
            while n < 16
                invariant
                    self.mnemonic@.len() <= n <= 16 || (n == self.mnemonic@.len() && n >= 16),
                    out@ == before + Seq::new((n - self.mnemonic@.len()) as nat, |i: int| ' '),
                decreases 16 - n,
            {
                out.push(' ');
                n += 1;
                proof {
                    assert(out@ =~= before + Seq::new((n - self.mnemonic@.len()) as nat, |i: int| ' '));
                }
            }
            proof {
                if self.mnemonic@.len() >= 16 {
                    assert(out@ =~= before);
                }
            }
            out.push(' ');
            push_all(&mut out, self.params.as_slice());
        }
        out.push('\n');
        proof {
            assert(Seq::new(0, |i: int| ' ') =~= Seq::<char>::empty());
        }
        string_of(out.as_slice())
    }
}

/// The decimal digits of `n` are ASCII digits that stand for `n`.
pub(crate) proof fn lemma_decimal_reads_back(n: nat)
    ensures
        decimal(n).len() >= 1,
        all_digits(decimal(n)),
        digits_value(decimal(n)) == n,
        '0' <= decimal(n)[0] <= '9',
    decreases n,
{
    if n >= 10 {
        lemma_decimal_reads_back(n / 10);
        let d = decimal(n);
        assert(d.drop_last() =~= decimal(n / 10));
        assert(d[0] == decimal(n / 10)[0]);
        let r = (n % 10) as int;
        assert(d.last() == digit_char(r));
        assert(digit_char(r) as int == 48 + r);
        assert(digits_value(d) == digits_value(d.drop_last()) * 10 + (d.last() as int - 48));
        assert(n == (n / 10) * 10 + n % 10) by (nonlinear_arith);
    } else {
        let d = decimal(n);
        assert(d == seq![digit_char(n as int)]);
        assert(digit_char(n as int) as int == 48 + n);
        assert(d.drop_last() =~= Seq::<char>::empty());
        assert(digits_value(Seq::<char>::empty()) == 0);
        assert(digits_value(d) == digits_value(d.drop_last()) * 10 + (d.last() as int - 48));
    }
}

/// `decimal(n)` read as an integer, signed or not, is `n`.
pub(crate) proof fn lemma_parse_decimal(n: nat, signed: bool)
    ensures
        parse_int(decimal(n), signed) == Some(n as int),
{
    lemma_decimal_reads_back(n);
}

/// `signed_decimal(n)` read as a signed integer is `n`.
proof fn lemma_parse_signed_decimal(n: int)
    ensures
        parse_int(signed_decimal(n), true) == Some(n),
{
    if n < 0 {
        let m = (-n) as nat;
        lemma_decimal_reads_back(m);
        let s = seq!['-'] + decimal(m);
        assert(s.drop_first() =~= decimal(m));
    } else {
        lemma_parse_decimal(n as nat, true);
    }
}

/// A value operand written by the disassembler reads back, in the assembler, as the same
/// value.
pub proof fn lemma_value_text_round_trip(value: Value)
    ensures
        value_of(value_text(value)) == Ok::<Value, AsmError>(value),
{
    match value {
        Value::Literal(n) => {
            lemma_parse_signed_decimal(n as int);
            if n >= 0 {
                lemma_decimal_reads_back(n as nat);
            }
        },
        Value::Register(i) => {
            lemma_parse_decimal(i as nat, false);
            let s = seq!['@'] + decimal(i as nat);
            assert(s.drop_first() =~= decimal(i as nat));
        },
        Value::Random(m) => {
            lemma_parse_signed_decimal(m as int);
            let s = seq!['%'] + signed_decimal(m as int);
            assert(s.drop_first() =~= signed_decimal(m as int));
        },
    }
}

/// Escaping a string is escaping its first character, then the rest.
proof fn lemma_escaped_string_front(s: Seq<char>)
    requires
        s.len() > 0,
    ensures
        escaped_string(s) == string_escape(s[0]) + escaped_string(s.drop_first()),
    decreases s.len(),
{
    if s.len() == 1 {
        assert(s.drop_last() =~= Seq::<char>::empty());
        assert(s.drop_first() =~= Seq::<char>::empty());
        assert(escaped_string(s) =~= string_escape(s[0]) + escaped_string(s.drop_first()));
    } else {
        lemma_escaped_string_front(s.drop_last());
        assert(s.drop_last().drop_first() =~= s.drop_first().drop_last());
        assert(s.drop_first().last() == s.last());
        assert(escaped_string(s) =~= string_escape(s[0]) + escaped_string(s.drop_first()));
    }
}

/// Scanning after a prefix `p` is scanning without it, the end index moved by `p`'s length.
proof fn lemma_scan_shift(p: Seq<char>, y: Seq<char>, i: int, escaped: bool)
    requires
        0 <= i,
    ensures
        scan_string(p + y, p.len() + i, escaped) == match scan_string(y, i, escaped) {
            Ok((r, e)) => Ok::<(Seq<char>, int), AsmError>((r, e + p.len())),
            Err(x) => Err(x),
        },
    decreases y.len() - i,
{
    if i < y.len() {
        lemma_scan_shift(p, y, i + 1, false);
        lemma_scan_shift(p, y, i + 1, true);
        assert((p + y)[p.len() + i] == y[i]);
    }
}

/// Scanning an escaped character followed by the rest gives the character followed by what
/// the rest gives.
proof fn lemma_scan_escaped_char(c: char, y: Seq<char>)
    requires
        scan_string(y, 0, false) is Ok,
    ensures
        ({
            let (r, e) = scan_string(y, 0, false)->Ok_0;
            scan_string(string_escape(c) + y, 0, false) == Ok::<(Seq<char>, int), AsmError>(
                (seq![c] + r, e + string_escape(c).len()),
            )
        }),
{
    let esc = string_escape(c);
    lemma_scan_shift(esc, y, 0, false);
    let x = esc + y;
    if c == '"' || c == '\\' || c == '\n' || c == '\r' {
        assert(x[0] == '\\');
        assert(x[1] == esc[1]);
        assert(scan_string(x, 0, false) == scan_string(x, 1, true));
    } else {
        assert(x[0] == c);
    }
}

/// A string written by the disassembler reads back, in the assembler, as the same string:
/// scanning its escaped form followed by the closing quote gives the string, and stops at
/// the quote.
pub proof fn lemma_string_round_trip(s: Seq<char>, tail: Seq<char>)
    requires
        tail.len() > 0,
        tail[0] == '"',
    ensures
        scan_string(escaped_string(s) + tail, 0, false) == Ok::<(Seq<char>, int), AsmError>(
            (s, escaped_string(s).len() as int),
        ),
    decreases s.len(),
{
    if s.len() == 0 {
        assert(escaped_string(s) + tail =~= tail);
        assert(s =~= Seq::<char>::empty());
        assert(scan_string(tail, 0, false) == Ok::<(Seq<char>, int), AsmError>((Seq::<char>::empty(), 0)));
    } else {
        let c = s[0];
        let rest = s.drop_first();
        lemma_escaped_string_front(s);
        lemma_string_round_trip(rest, tail);
        let y = escaped_string(rest) + tail;
        assert(escaped_string(s) + tail =~= string_escape(c) + y);
        lemma_scan_escaped_char(c, y);
        assert(seq![c] + rest =~= s);
        assert(escaped_string(s).len() == string_escape(c).len() + escaped_string(rest).len());
    }
}

} // verus!
