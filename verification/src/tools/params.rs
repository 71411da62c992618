//! The parameters of one line of scenario assembly: comma-separated numbers, quoted strings,
//! labels and values.
use vstd::prelude::*;
use crate::util::text::{
    chars_of, find_char, first_index_of, is_white_space, string_of, sub_chars, trim, trim_chars,
};

verus! {

/// The longest asset name, in bytes.
pub const ASSET_NAME_LEN: usize = 12;

/// Why a line of assembly was refused.
#[derive(Debug, Clone, Copy, PartialEq, Eq, Structural)]
pub enum AsmError {
    /// A parameter was expected, and there are none left.
    UnexpectedEndOfParam,
    /// A parameter is not a number of the expected type.
    InvalidNumber,
    /// A parameter that should be a quoted string does not start with a quote.
    NotAString,
    /// A quoted string has no closing quote.
    UnexpectedEndOfString,
    /// A backslash in a quoted string is followed by this character, which it cannot escape.
    InvalidEscape(char),
    /// A label starts with a digit or a quote.
    InvalidLabel,
    /// A register index after `@` that is not a `u16`.
    InvalidRegister,
    /// A bound after `%` that is not an `i32`.
    InvalidRandom,
    /// A value that is neither a register, a random bound nor an `i32`.
    InvalidValue,
    /// An asset name longer than `ASSET_NAME_LEN` bytes.
    AssetNameTooLong,
    /// The label on this line is defined a second time.
    DuplicateLabel { line: usize },
    /// A jump names a label that is not defined.
    UndefinedLabel,
    /// A subroutine is placed under a label that is not defined.
    LabelNotFound,
    /// The mnemonic names no instruction.
    InvalidInstruction,
    /// The instruction exists but cannot be assembled.
    UnimplementedInstruction,
    /// A branching instruction has more than 255 branches.
    TooManyBranches,
}

/// A value operand: a literal, a register to read, or a random number below a bound.
#[derive(Debug, Clone, Copy, PartialEq, Eq, Structural)]
pub enum Value {
    Literal(i32),
    Register(u16),
    Random(i32),
}

/// Whether the character `c`, outside ASCII, is numeric in Unicode: what `char::is_numeric`
/// returns for it.
pub uninterp spec fn is_numeric_char(c: char) -> bool;

/// Whether `c` is numeric: among ASCII characters the digits alone are.
pub open spec fn numeric_char(c: char) -> bool {
    if (c as u32) < 0x80 {
        '0' <= c <= '9'
    } else {
        is_numeric_char(c)
    }
}

/// `char::is_numeric`, documented as whether `c` has one of the Unicode general categories
/// for numbers (Nd, Nl, No). Among ASCII characters only the digits `0` to `9` are in them;
/// for the other characters the categories are named, not restated, here.
#[verifier::external_body]
fn char_is_numeric(c: char) -> (r: bool)
    ensures
        r == if (c as u32) < 0x80 {
            '0' <= c <= '9'
        } else {
            is_numeric_char(c)
        },
{
    c.is_numeric()
}

/// Whether every character of `s` is an ASCII digit.
pub open spec fn all_digits(s: Seq<char>) -> bool {
    forall|i: int| 0 <= i < s.len() ==> '0' <= #[trigger] s[i] <= '9'
}

/// The number that the ASCII digits `s` stand for.
pub open spec fn digits_value(s: Seq<char>) -> nat
    decreases s.len(),
{
    if s.len() == 0 {
        0
    } else {
        (digits_value(s.drop_last()) * 10 + (s.last() as int - 48)) as nat
    }
}

/// The integer that `s` spells the way `str::parse` reads integers: an optional `+` (or `-`
/// for signed types) and one or more ASCII digits, nothing else.
pub open spec fn parse_int(s: Seq<char>, signed: bool) -> Option<int> {
    if s.len() == 0 || (s.len() == 1 && (s[0] == '+' || s[0] == '-')) {
        None
    } else {
        let negative = signed && s[0] == '-';
        let digits = if s[0] == '+' || negative {
            s.drop_first()
        } else {
            s
        };
        if all_digits(digits) {
            Some(
                if negative {
                    -digits_value(digits)
                } else {
                    digits_value(digits) as int
                },
            )
        } else {
            None
        }
    }
}

/// The integer that `s` spells, if it lies within `min..=max`.
pub open spec fn parse_in_range(s: Seq<char>, signed: bool, min: int, max: int) -> Option<int> {
    match parse_int(s, signed) {
        Some(v) => if min <= v <= max {
            Some(v)
        } else {
            None
        },
        None => None,
    }
}

/// The integer that `s` spells, if it lies within `min..=max`.
fn parse_bounded(s: &[char], signed: bool, min: i64, max: i64) -> (r: Option<i64>)
    requires
        -0x1_0000_0000 <= min <= 0 <= max <= 0x1_0000_0000,
    ensures
        match parse_in_range(s@, signed, min as int, max as int) {
            Some(v) => r == Some(v as i64),
            None => r is None,
        },
{
    let len = s.len();
    if len == 0 || (len == 1 && (s[0] == '+' || s[0] == '-')) {
        return None;
    }
    let negative = signed && s[0] == '-';
    let first: usize = if s[0] == '+' || negative {
        1
    } else {
        0
    };
    let ghost digits = s@.skip(first as int);
    proof {
        if first == 1 {
            assert(digits =~= s@.drop_first());
        } else {
            assert(digits =~= s@);
        }
    }
    let ghost expected = if all_digits(digits) {
        Some(if negative { -digits_value(digits) } else { digits_value(digits) as int })
    } else {
        None
    };
    assert(parse_int(s@, signed) == expected);
    let mut acc: u64 = 0;
    let mut over = false;
    let mut i: usize = first;
    while i < len
        invariant
            first <= i <= len,
            len == s@.len(),
            digits == s@.skip(first as int),
            parse_int(s@, signed) == expected,
            expected == if all_digits(digits) {
                Some(if negative { -digits_value(digits) } else { digits_value(digits) as int })
            } else {
                None
            },
            all_digits(s@.subrange(first as int, i as int)),
            !over ==> acc == digits_value(s@.subrange(first as int, i as int)) && acc <= 0x4_0000_0000,
            over ==> digits_value(s@.subrange(first as int, i as int)) > 0x4_0000_0000,
        decreases len - i,
    {
        let c = s[i];
        if !('0' <= c && c <= '9') {
            proof {
                assert(digits[i - first] == c);
                assert(!all_digits(digits));
            }
            return None;
        }
        proof {
            assert(s@.subrange(first as int, i + 1).drop_last() =~= s@.subrange(first as int, i as int));
            assert(s@.subrange(first as int, i + 1).last() == c);
        }
        if !over {
            let d = (c as u32 - 48) as u64;
            acc = acc * 10 + d;
            if acc > 0x4_0000_0000 {
                over = true;
            }
        }
        i += 1;
    }
    proof {
        assert(s@.subrange(first as int, len as int) =~= digits);
        assert(all_digits(digits));
    }
    if over {
        proof {
            assert(digits_value(digits) > 0x4_0000_0000);
        }
        return None;
    }
    let v: i64 = if negative {
        0 - acc as i64
    } else {
        acc as i64
    };
    if v < min || v > max {
        None
    } else {
        Some(v)
    }
}

/// An integer type that a parameter can be read as.
pub trait ParamNum: Sized {
    /// The number that `s` spells in this type, if it spells one.
    spec fn from_decimal(s: Seq<char>) -> Option<Self>;

    /// Reads `s` as a number of this type.
    fn parse_decimal(s: &[char]) -> (r: Option<Self>)
        ensures
            r == Self::from_decimal(s@),
    ;
}

impl ParamNum for u8 {
    open spec fn from_decimal(s: Seq<char>) -> Option<u8> {
        match parse_in_range(s, false, 0, u8::MAX as int) {
            Some(v) => Some(v as u8),
            None => None,
        }
    }

    fn parse_decimal(s: &[char]) -> (r: Option<u8>) {
        match parse_bounded(s, false, 0, u8::MAX as i64) {
            Some(v) => Some(v as u8),
            None => None,
        }
    }
}

impl ParamNum for u16 {
    open spec fn from_decimal(s: Seq<char>) -> Option<u16> {
        match parse_in_range(s, false, 0, u16::MAX as int) {
            Some(v) => Some(v as u16),
            None => None,
        }
    }

    fn parse_decimal(s: &[char]) -> (r: Option<u16>) {
        match parse_bounded(s, false, 0, u16::MAX as i64) {
            Some(v) => Some(v as u16),
            None => None,
        }
    }
}

impl ParamNum for u32 {
    open spec fn from_decimal(s: Seq<char>) -> Option<u32> {
        match parse_in_range(s, false, 0, u32::MAX as int) {
            Some(v) => Some(v as u32),
            None => None,
        }
    }

    fn parse_decimal(s: &[char]) -> (r: Option<u32>) {
        match parse_bounded(s, false, 0, u32::MAX as i64) {
            Some(v) => Some(v as u32),
            None => None,
        }
    }
}

impl ParamNum for i32 {
    open spec fn from_decimal(s: Seq<char>) -> Option<i32> {
        match parse_in_range(s, true, i32::MIN as int, i32::MAX as int) {
            Some(v) => Some(v as i32),
            None => None,
        }
    }

    fn parse_decimal(s: &[char]) -> (r: Option<i32>) {
        match parse_bounded(s, true, i32::MIN as i64, i32::MAX as i64) {
            Some(v) => Some(v as i32),
            None => None,
        }
    }
}

/// What taking the next parameter off `params` gives: the parameter, the parameters left,
/// and whether it was the last one. Parameters are separated by commas and trimmed of white
/// space; the last one is taken as it stands.
pub open spec fn next_outcome(params: Seq<char>) -> (Option<Seq<char>>, Seq<char>, bool) {
    match first_index_of(params, ',') {
        Some(i) => (Some(trim(params.take(i))), trim(params.skip(i + 1)), false),
        None => if params.len() == 0 {
            (None, params, false)
        } else {
            (Some(params), Seq::empty(), true)
        },
    }
}

/// What reading the body `s` of a quoted string from `i` on gives: the string, with the
/// escapes `\"`, `\\`, `\n` and `\r` replaced, and the index of the closing quote.
pub open spec fn scan_string(s: Seq<char>, i: int, escaped: bool) -> Result<(Seq<char>, int), AsmError>
    decreases s.len() - i,
{
    if i < 0 || i >= s.len() {
        Err(AsmError::UnexpectedEndOfString)
    } else if escaped {
        let c = s[i];
        let unescaped = if c == '"' || c == '\\' {
            Some(c)
        } else if c == 'n' {
            Some('\n')
        } else if c == 'r' {
            Some('\r')
        } else {
            None
        };
        match unescaped {
            Some(u) => match scan_string(s, i + 1, false) {
                Ok((rest, end)) => Ok((seq![u] + rest, end)),
                Err(e) => Err(e),
            },
            None => Err(AsmError::InvalidEscape(c)),
        }
    } else if s[i] == '"' {
        Ok((Seq::empty(), i))
    } else if s[i] == '\\' {
        scan_string(s, i + 1, true)
    } else {
        match scan_string(s, i + 1, false) {
            Ok((rest, end)) => Ok((seq![s[i]] + rest, end)),
            Err(e) => Err(e),
        }
    }
}

/// How many bytes `c` takes in UTF-8.
pub open spec fn utf8_char_len(c: char) -> nat {
    if (c as u32) < 0x80 {
        1
    } else if (c as u32) < 0x800 {
        2
    } else if (c as u32) < 0x10000 {
        3
    } else {
        4
    }
}

/// How many bytes `s` takes in UTF-8.
pub open spec fn utf8_len(s: Seq<char>) -> nat
    decreases s.len(),
{
    if s.len() == 0 {
        0
    } else {
        utf8_len(s.drop_last()) + utf8_char_len(s.last())
    }
}

/// Whether `s` takes more than `limit` bytes in UTF-8.
fn utf8_len_exceeds(s: &[char], limit: usize) -> (r: bool)
    ensures
        r == (utf8_len(s@) > limit),
{
    let mut total: usize = 0;
    let mut i: usize = 0;
    while i < s.len()
        invariant
            i <= s@.len(),
            total == utf8_len(s@.take(i as int)),
            total <= limit,
        decreases s@.len() - i,
    {
        let c = s[i];
        let n: usize = if (c as u32) < 0x80 {
            1
        } else if (c as u32) < 0x800 {
            2
        } else if (c as u32) < 0x10000 {
            3
        } else {
            4
        };
        proof {
            assert(s@.take(i + 1).drop_last() =~= s@.take(i as int));
        }
        if n > limit - total {
            proof {
                lemma_utf8_len_prefix(s@, i + 1);
            }
            return true;
        }
        total = total + n;
        i += 1;
    }
    proof {
        assert(s@.take(s@.len() as int) =~= s@);
    }
    false
}

/// The UTF-8 length of a prefix is at most that of the whole.
proof fn lemma_utf8_len_prefix(s: Seq<char>, k: int)
    requires
        0 <= k <= s.len(),
    ensures
        utf8_len(s.take(k)) <= utf8_len(s),
    decreases s.len(),
{
    if k < s.len() {
        assert(s.drop_last().take(k) =~= s.take(k));
        lemma_utf8_len_prefix(s.drop_last(), k);
    } else {
        assert(s.take(k) =~= s);
    }
}

/// What reading a number of type `T` gives, and the parameters it leaves.
pub open spec fn read_num_outcome<T: ParamNum>(params: Seq<char>) -> (Result<T, AsmError>, Seq<char>) {
    let (p, rest, _) = next_outcome(params);
    (
        match p {
            None => Err(AsmError::UnexpectedEndOfParam),
            Some(s) => match T::from_decimal(s) {
                Some(v) => Ok(v),
                None => Err(AsmError::InvalidNumber),
            },
        },
        rest,
    )
}

/// What reading a value gives, and the parameters it leaves.
pub open spec fn read_value_outcome(params: Seq<char>) -> (Result<Value, AsmError>, Seq<char>) {
    let (p, rest, _) = next_outcome(params);
    (
        match p {
            None => Err(AsmError::UnexpectedEndOfParam),
            Some(s) => value_of(s),
        },
        rest,
    )
}

/// What reading a label gives, and the parameters it leaves.
pub open spec fn read_label_outcome(params: Seq<char>) -> (Result<Seq<char>, AsmError>, Seq<char>) {
    let (p, rest, _) = next_outcome(params);
    (
        match p {
            None => Err(AsmError::UnexpectedEndOfParam),
            Some(s) => if s.len() > 0 && (numeric_char(s[0]) || s[0] == '"') {
                Err(AsmError::InvalidLabel)
            } else {
                Ok(s)
            },
        },
        rest,
    )
}

/// What reading a quoted string gives, and the parameters it leaves.
pub open spec fn read_string_outcome(params: Seq<char>) -> (Result<Seq<char>, AsmError>, Seq<char>) {
    if params.len() == 0 || params[0] != '"' {
        (Err(AsmError::NotAString), params)
    } else {
        let body = params.drop_first();
        match scan_string(body, 0, false) {
            Err(e) => (Err(e), params),
            Ok((s, end)) => (Ok(s), next_outcome(body.skip(end)).1),
        }
    }
}

/// What reading an asset name gives, and the parameters it leaves.
pub open spec fn read_assetname_outcome(params: Seq<char>) -> (Result<Seq<char>, AsmError>, Seq<char>) {
    let (r, rest) = read_string_outcome(params);
    (
        match r {
            Ok(s) => if utf8_len(s) > ASSET_NAME_LEN {
                Err(AsmError::AssetNameTooLong)
            } else {
                Ok(s)
            },
            Err(e) => Err(e),
        },
        rest,
    )
}

/// The text of a `String` result.
pub open spec fn text_result(r: Result<String, AsmError>) -> Result<Seq<char>, AsmError> {
    match r {
        Ok(s) => Ok(s@),
        Err(e) => Err(e),
    }
}

/// What `next_outcome` gives as the parameter, as a `String`.
pub open spec fn matches_param(r: Option<String>, p: Option<Seq<char>>) -> bool {
    match r {
        Some(s) => p == Some(s@),
        None => p is None,
    }
}

/// Reads the parameters of one line, left to right.
pub struct ParamParser {
    params: Vec<char>,
    param_read: usize,
}

impl ParamParser {
    #[verifier::type_invariant]
    spec fn counted_once(self) -> bool {
        &&& self.param_read <= 1
        &&& self.param_read == 1 ==> self.params@.len() == 0
    }

    /// The parameters not read yet.
    pub closed spec fn params(&self) -> Seq<char> {
        self.params@
    }

    /// How many times the last parameter was taken: once at most.
    pub closed spec fn param_read(&self) -> nat {
        self.param_read as nat
    }

    /// A parser over the parameters `params`.
    pub fn new(params: &str) -> (p: Self)
        ensures
            p.params() == params@,
            p.param_read() == 0,
    {
        ParamParser { params: chars_of(params), param_read: 0 }
    }

    /// A parser over the parameters `params`, given as characters.
    pub fn from_chars(params: Vec<char>) -> (p: Self)
        ensures
            p.params() == params@,
            p.param_read() == 0,
    {
        ParamParser { params, param_read: 0 }
    }

    /// Takes the next parameter, as `next_outcome` says.
    pub fn next(&mut self) -> (r: Option<String>)
        ensures
            ({
                let (p, rest, last) = next_outcome(old(self).params());
                &&& matches_param(r, p)
                &&& final(self).params() == rest
                &&& final(self).param_read() == old(self).param_read() + if last {
                    1nat
                } else {
                    0nat
                }
            }),
    {
        proof { use_type_invariant(&*self); }
        match find_char(self.params.as_slice(), ',') {
            Some(i) => {
                let len = self.params.len();
                let param = trim_chars(sub_chars(self.params.as_slice(), 0, i).as_slice());
                let rest = trim_chars(sub_chars(self.params.as_slice(), i + 1, len).as_slice());
                proof {
                    assert(self.params@.subrange(0, i as int) =~= self.params@.take(i as int));
                    assert(self.params@.subrange(i + 1, len as int) =~= self.params@.skip(i + 1));
                }
                let count = self.param_read;
                *self = ParamParser { params: rest, param_read: count };
                Some(string_of(param.as_slice()))
            },
            None => {
                if self.params.len() == 0 {
                    return None;
                }
                let param = string_of(self.params.as_slice());
                proof {
                    assert(self.param_read == 0);
                }
                *self = ParamParser { params: Vec::new(), param_read: 1 };
                Some(param)
            },
        }
    }

    /// Reads the next parameter as a number of type `T`.
    pub fn read_num<T: ParamNum>(&mut self) -> (r: Result<T, AsmError>)
        ensures
            (r, final(self).params()) == read_num_outcome::<T>(old(self).params()),
            ({
                let (p, rest, last) = next_outcome(old(self).params());
                &&& final(self).params() == rest
                &&& final(self).param_read() == old(self).param_read() + if last {
                    1nat
                } else {
                    0nat
                }
                &&& r == match p {
                    None => Err(AsmError::UnexpectedEndOfParam),
                    Some(s) => match T::from_decimal(s) {
                        Some(v) => Ok(v),
                        None => Err(AsmError::InvalidNumber),
                    },
                }
            }),
    {
        let param = match self.next() {
            Some(p) => p,
            None => return Err(AsmError::UnexpectedEndOfParam),
        };
        let chars = chars_of(param.as_str());
        match T::parse_decimal(chars.as_slice()) {
            Some(v) => Ok(v),
            None => Err(AsmError::InvalidNumber),
        }
    }

    /// Reads a quoted string; on success the parameters continue after the parameter that
    /// held its closing quote. Nothing is read when it fails.
    pub fn read_string(&mut self) -> (r: Result<String, AsmError>)
        ensures
            (text_result(r), final(self).params()) == read_string_outcome(old(self).params()),
            old(self).params().len() == 0 || old(self).params()[0] != '"' ==> r == Err::<
                String,
                AsmError,
            >(AsmError::NotAString) && final(self).params() == old(self).params()
                && final(self).param_read() == old(self).param_read(),
            old(self).params().len() > 0 && old(self).params()[0] == '"' ==> {
                let body = old(self).params().drop_first();
                match scan_string(body, 0, false) {
                    Err(e) => r == Err::<String, AsmError>(e) && final(self).params() == old(
                        self,
                    ).params() && final(self).param_read() == old(self).param_read(),
                    Ok((s, end)) => {
                        let (_, rest, last) = next_outcome(body.skip(end));
                        &&& r matches Ok(string) && string@ == s
                        &&& final(self).params() == rest
                        &&& final(self).param_read() == old(self).param_read() + if last {
                            1nat
                        } else {
                            0nat
                        }
                    },
                }
            },
    {
        proof { use_type_invariant(&*self); }
        let len = self.params.len();
        if len == 0 || self.params[0] != '"' {
            return Err(AsmError::NotAString);
        }
        let ghost body = self.params@.drop_first();
        let mut out: Vec<char> = Vec::new();
        let mut escaped = false;
        let mut i: usize = 1;
        let mut end: usize = 0;
        loop
            invariant
                1 <= i <= len,
                len == self.params@.len(),
                self.params@ == old(self).params(),
                self.param_read == old(self).param_read(),
                self.params@[0] == '"',
                body == self.params@.drop_first(),
                match scan_string(body, (i - 1) as int, escaped) {
                    Ok((rest, e)) => scan_string(body, 0, false) == Ok::<(Seq<char>, int), AsmError>(
                        (out@ + rest, e),
                    ),
                    Err(x) => scan_string(body, 0, false) == Err::<(Seq<char>, int), AsmError>(x),
                },
            ensures
                1 <= end < len,
                scan_string(body, 0, false) == Ok::<(Seq<char>, int), AsmError>((out@, end - 1)),
            decreases len - i,
        {
            if i >= len {
                return Err(AsmError::UnexpectedEndOfString);
            }
            let c = self.params[i];
            proof {
                assert(body[i - 1] == c);
            }
            if escaped {
                let u = if c == '"' || c == '\\' {
                    c
                } else if c == 'n' {
                    '\n'
                } else if c == 'r' {
                    '\r'
                } else {
                    return Err(AsmError::InvalidEscape(c));
                };
                proof {
                    match scan_string(body, i as int, false) {
                        Ok((rest, e)) => {
                            assert(out@.push(u) + rest =~= out@ + (seq![u] + rest));
                        },
                        Err(x) => {},
                    }
                }
                out.push(u);
                escaped = false;
            } else if c == '"' {
                proof {
                    assert(out@ + Seq::<char>::empty() =~= out@);
                }
                end = i;
                break;
            } else if c == '\\' {
                escaped = true;
            } else {
                proof {
                    match scan_string(body, i as int, false) {
                        Ok((rest, e)) => {
                            assert(out@.push(c) + rest =~= out@ + (seq![c] + rest));
                        },
                        Err(x) => {},
                    }
                }
                out.push(c);
            }
            i += 1;
        }
        let rest = sub_chars(self.params.as_slice(), end, len);
        proof {
            assert(rest@ =~= body.skip(end - 1));
        }
        let count = self.param_read;
        *self = ParamParser { params: rest, param_read: count };
        let _ = self.next();
        Ok(string_of(out.as_slice()))
    }

    /// Reads a quoted asset name, of at most `ASSET_NAME_LEN` bytes in UTF-8. A name that is
    /// too long is refused after it was read.
    pub fn read_assetname(&mut self) -> (r: Result<String, AsmError>)
        ensures
            (text_result(r), final(self).params()) == read_assetname_outcome(old(self).params()),
            old(self).params().len() == 0 || old(self).params()[0] != '"' ==> r == Err::<
                String,
                AsmError,
            >(AsmError::NotAString) && final(self).params() == old(self).params(),
            old(self).params().len() > 0 && old(self).params()[0] == '"' ==> {
                let body = old(self).params().drop_first();
                match scan_string(body, 0, false) {
                    Err(e) => r == Err::<String, AsmError>(e) && final(self).params() == old(
                        self,
                    ).params(),
                    Ok((s, end)) => {
                        &&& final(self).params() == next_outcome(body.skip(end)).1
                        &&& utf8_len(s) <= ASSET_NAME_LEN ==> (r matches Ok(
                            string,
                        ) && string@ == s)
                        &&& utf8_len(s) > ASSET_NAME_LEN ==> r == Err::<
                            String,
                            AsmError,
                        >(AsmError::AssetNameTooLong)
                    },
                }
            },
    {
        let string = match self.read_string() {
            Ok(s) => s,
            Err(e) => return Err(e),
        };
        let chars = chars_of(string.as_str());
        if utf8_len_exceeds(chars.as_slice(), ASSET_NAME_LEN) {
            return Err(AsmError::AssetNameTooLong);
        }
        Ok(string)
    }

    /// Reads a label: a parameter that does not start with a numeric character or a quote.
    pub fn read_label(&mut self) -> (r: Result<String, AsmError>)
        ensures
            (text_result(r), final(self).params()) == read_label_outcome(old(self).params()),
            ({
                let (p, rest, last) = next_outcome(old(self).params());
                &&& final(self).params() == rest
                &&& match p {
                    None => r == Err::<String, AsmError>(AsmError::UnexpectedEndOfParam),
                    Some(s) => if s.len() > 0 && (numeric_char(s[0]) || s[0] == '"') {
                        r == Err::<String, AsmError>(AsmError::InvalidLabel)
                    } else {
                        r matches Ok(label) && label@ == s
                    },
                }
            }),
    {
        let param = match self.next() {
            Some(p) => p,
            None => return Err(AsmError::UnexpectedEndOfParam),
        };
        let chars = chars_of(param.as_str());
        if chars.len() > 0 && (char_is_numeric(chars[0]) || chars[0] == '"') {
            return Err(AsmError::InvalidLabel);
        }
        Ok(param)
    }

    /// Reads a value: `@` and a `u16` register index, `%` and an `i32` random bound, or an
    /// `i32` literal.
    pub fn read_value(&mut self) -> (r: Result<Value, AsmError>)
        ensures
            (r, final(self).params()) == read_value_outcome(old(self).params()),
            ({
                let (p, rest, last) = next_outcome(old(self).params());
                &&& final(self).params() == rest
                &&& r == match p {
                    None => Err(AsmError::UnexpectedEndOfParam),
                    Some(s) => value_of(s),
                }
            }),
    {
        let param = match self.next() {
            Some(p) => p,
            None => return Err(AsmError::UnexpectedEndOfParam),
        };
        let chars = chars_of(param.as_str());
        let len = chars.len();
        if len > 0 && chars[0] == '@' {
            let digits = sub_chars(chars.as_slice(), 1, len);
            proof {
                assert(digits@ =~= chars@.drop_first());
            }
            match u16::parse_decimal(digits.as_slice()) {
                Some(v) => Ok(Value::Register(v)),
                None => Err(AsmError::InvalidRegister),
            }
        } else if len > 0 && chars[0] == '%' {
            let digits = sub_chars(chars.as_slice(), 1, len);
            proof {
                assert(digits@ =~= chars@.drop_first());
            }
            match i32::parse_decimal(digits.as_slice()) {
                Some(v) => Ok(Value::Random(v)),
                None => Err(AsmError::InvalidRandom),
            }
        } else {
            match i32::parse_decimal(chars.as_slice()) {
                Some(v) => Ok(Value::Literal(v)),
                None => Err(AsmError::InvalidValue),
            }
        }
    }

    /// Takes the next parameter and tells whether there was none.
    pub fn is_exhausted(&mut self) -> (b: bool)
        ensures
            ({
                let (p, rest, last) = next_outcome(old(self).params());
                &&& b == (p is None)
                &&& final(self).params() == rest
                &&& final(self).param_read() == old(self).param_read() + if last {
                    1nat
                } else {
                    0nat
                }
            }),
    {
        self.next().is_none()
    }

    /// Takes every parameter left and returns how many times the last parameter was taken.
    pub fn param_count(&mut self) -> (n: usize)
        ensures
            final(self).params().len() == 0,
            n == final(self).param_read(),
            n == read_count(old(self).params(), old(self).param_read()),
    {
        loop
            invariant
                read_count(self.params(), self.param_read()) == read_count(
                    old(self).params(),
                    old(self).param_read(),
                ),
            ensures
                self.params().len() == 0,
                self.param_read() == read_count(old(self).params(), old(self).param_read()),
            decreases self.params().len(),
        {
            let ghost before = self.params();
            match self.next() {
                Some(_) => {
                    proof {
                        lemma_next_shrinks(before);
                    }
                },
                None => {
                    proof {
                        lemma_first_index_of(before, ',');
                    }
                    break;
                },
            }
        }
        self.param_read
    }
}

/// How many times the last parameter has been taken once every parameter of `params` is
/// taken, starting from `read`.
pub open spec fn read_count(params: Seq<char>, read: nat) -> nat
    decreases params.len(),
{
    let (p, rest, last) = next_outcome(params);
    if p is None {
        read
    } else {
        proof {
            lemma_next_shrinks(params);
        }
        read_count(rest, read + if last { 1nat } else { 0nat })
    }
}

/// What `first_index_of` gives is the first occurrence, if any.
pub proof fn lemma_first_index_of(s: Seq<char>, c: char)
    ensures
        match first_index_of(s, c) {
            Some(i) => 0 <= i < s.len() && s[i] == c && forall|j: int| 0 <= j < i ==> s[j] != c,
            None => forall|j: int| 0 <= j < s.len() ==> s[j] != c,
        },
{
    if exists|i: int| 0 <= i < s.len() && s[i] == c {
        let w = choose|i: int| 0 <= i < s.len() && s[i] == c;
        lemma_first_occurrence_exists(s, c, w);
    }
}

proof fn lemma_first_occurrence_exists(s: Seq<char>, c: char, w: int)
    requires
        0 <= w < s.len(),
        s[w] == c,
    ensures
        exists|i: int| 0 <= i < s.len() && s[i] == c && forall|j: int| 0 <= j < i ==> s[j] != c,
    decreases w,
{
    if exists|j: int| 0 <= j < w && s[j] == c {
        let j = choose|j: int| 0 <= j < w && s[j] == c;
        lemma_first_occurrence_exists(s, c, j);
    } else {
        assert(forall|j: int| 0 <= j < w ==> s[j] != c);
    }
}

/// Taking a parameter leaves fewer characters, and the last one leaves none.
pub proof fn lemma_next_shrinks(params: Seq<char>)
    requires
        next_outcome(params).0 is Some,
    ensures
        next_outcome(params).1.len() < params.len(),
        next_outcome(params).2 ==> next_outcome(params).1.len() == 0,
        !next_outcome(params).2 ==> exists|i: int| 0 <= i < params.len() && params[i] == ',',
{
    lemma_first_index_of(params, ',');
    match first_index_of(params, ',') {
        Some(i) => {
            lemma_trim_len(params.skip(i + 1));
        },
        None => {},
    }
}

/// Trimming never lengthens.
pub proof fn lemma_trim_len(s: Seq<char>)
    ensures
        trim(s).len() <= s.len(),
{
    lemma_trim_start_len(s);
    lemma_trim_end_len(crate::util::text::trim_start(s));
}

proof fn lemma_trim_start_len(s: Seq<char>)
    ensures
        crate::util::text::trim_start(s).len() <= s.len(),
    decreases s.len(),
{
    if s.len() > 0 && is_white_space(s[0]) {
        lemma_trim_start_len(s.drop_first());
    }
}

proof fn lemma_trim_end_len(s: Seq<char>)
    ensures
        crate::util::text::trim_end(s).len() <= s.len(),
    decreases s.len(),
{
    if s.len() > 0 && is_white_space(s.last()) {
        lemma_trim_end_len(s.drop_last());
    }
}

/// The value that the parameter `s` spells.
pub open spec fn value_of(s: Seq<char>) -> Result<Value, AsmError> {
    if s.len() > 0 && s[0] == '@' {
        match u16::from_decimal(s.drop_first()) {
            Some(v) => Ok(Value::Register(v)),
            None => Err(AsmError::InvalidRegister),
        }
    } else if s.len() > 0 && s[0] == '%' {
        match i32::from_decimal(s.drop_first()) {
            Some(v) => Ok(Value::Random(v)),
            None => Err(AsmError::InvalidRandom),
        }
    } else {
        match i32::from_decimal(s) {
            Some(v) => Ok(Value::Literal(v)),
            None => Err(AsmError::InvalidValue),
        }
    }
}

} // verus!
