//! The "secret filter": a 2048-character table, kept in the game's executable, from which
//! the key that hides the game's files is derived and renewed.
use vstd::prelude::*;
use vstd::arithmetic::div_mod::{lemma_fundamental_div_mod, lemma_fundamental_div_mod_converse, lemma_add_mod_noop, lemma_small_mod};
use crate::util::text::{chars_eq, chars_of};

verus! {

/// Length of a filter.
pub const FILTER_LEN: usize = 2048;
/// Length of the part of a filter that renews the key.
pub const FILTER_CYCLE: usize = 1024;

/// Whether `b` is an ASCII digit or letter: a base-36 digit.
pub open spec fn is_base36_char(b: u8) -> bool {
    (48 <= b <= 57) || (65 <= b <= 90) || (97 <= b <= 122)
}

/// The value of the base-36 digit `b`; letters of either case count from ten.
pub open spec fn digit_value(b: u8) -> u8 {
    if b <= 57 {
        (b - 48) as u8
    } else if b <= 90 {
        (b - 55) as u8
    } else {
        (b - 87) as u8
    }
}

/// The table that the filter's characters are decoded through: the image of each digit
/// value below 36.
pub open spec fn map_value(v: int) -> u8 {
    if v == 0 {
        0x06
    } else if v == 1 {
        0x21
    } else if v == 2 {
        0x19
    } else if v == 3 {
        0x10
    } else if v == 4 {
        0x08
    } else if v == 5 {
        0x01
    } else if v == 6 {
        0x1E
    } else if v == 7 {
        0x16
    } else if v == 8 {
        0x1C
    } else if v == 9 {
        0x07
    } else if v == 10 {
        0x15
    } else if v == 11 {
        0x13
    } else if v == 12 {
        0x0E
    } else if v == 13 {
        0x23
    } else if v == 14 {
        0x12
    } else if v == 15 {
        0x02
    } else if v == 16 {
        0x00
    } else if v == 17 {
        0x17
    } else if v == 18 {
        0x04
    } else if v == 19 {
        0x0F
    } else if v == 20 {
        0x0C
    } else if v == 21 {
        0x05
    } else if v == 22 {
        0x09
    } else if v == 23 {
        0x22
    } else if v == 24 {
        0x11
    } else if v == 25 {
        0x0A
    } else if v == 26 {
        0x18
    } else if v == 27 {
        0x0B
    } else if v == 28 {
        0x1A
    } else if v == 29 {
        0x1F
    } else if v == 30 {
        0x1B
    } else if v == 31 {
        0x14
    } else if v == 32 {
        0x0D
    } else if v == 33 {
        0x03
    } else if v == 34 {
        0x1D
    } else {
        0x20
    }
}

/// The shuffled base-36 alphabet: the character that stands for each value below 36.
pub open spec fn base36_char(v: int) -> u8 {
    if v == 0 {
        71
    } else if v == 1 {
        53
    } else if v == 2 {
        70
    } else if v == 3 {
        88
    } else if v == 4 {
        73
    } else if v == 5 {
        76
    } else if v == 6 {
        48
    } else if v == 7 {
        57
    } else if v == 8 {
        52
    } else if v == 9 {
        77
    } else if v == 10 {
        80
    } else if v == 11 {
        82
    } else if v == 12 {
        75
    } else if v == 13 {
        87
    } else if v == 14 {
        67
    } else if v == 15 {
        74
    } else if v == 16 {
        51
    } else if v == 17 {
        79
    } else if v == 18 {
        69
    } else if v == 19 {
        66
    } else if v == 20 {
        86
    } else if v == 21 {
        65
    } else if v == 22 {
        55
    } else if v == 23 {
        72
    } else if v == 24 {
        81
    } else if v == 25 {
        50
    } else if v == 26 {
        83
    } else if v == 27 {
        85
    } else if v == 28 {
        56
    } else if v == 29 {
        89
    } else if v == 30 {
        54
    } else if v == 31 {
        84
    } else if v == 32 {
        90
    } else if v == 33 {
        49
    } else if v == 34 {
        78
    } else {
        68
    }
}

/// What the filter character `b` decodes to.
pub open spec fn decoded_char(b: u8) -> u8 {
    map_value(digit_value(b) as int)
}

/// Whether `base36_diff` is defined on `v1`, `v2`: the difference is in the alphabet's range.
pub open spec fn diff_in_range(v1: u8, v2: u8) -> bool {
    if v1 < v2 {
        v2 - v1 <= 36
    } else {
        v1 - v2 < 36
    }
}

/// The character of the shuffled alphabet that stands for `v1 - v2`, taken modulo 36.
pub open spec fn spec_base36_diff(v1: u8, v2: u8) -> u8 {
    if v1 < v2 {
        base36_char(36 - (v2 - v1))
    } else {
        base36_char(v1 - v2)
    }
}

/// Whether every byte of `filter` is a decoded value, below 36.
pub open spec fn is_decoded(filter: Seq<u8>) -> bool {
    forall|i: int| 0 <= i < filter.len() ==> #[trigger] filter[i] < 36
}

/// The key derived from a decoded filter: its length is given by two characters at 0x500 and
/// 0x100 and the next two, its characters by those from 0x510 and from 0x110 on.
pub open spec fn spec_key(filter: Seq<u8>) -> Seq<u8> {
    let hi = digit_value(spec_base36_diff(filter[0x500], filter[0x100]));
    let lo = digit_value(spec_base36_diff(filter[0x501], filter[0x101]));
    let len = (((hi << 4u8) as u8) | lo) as nat;
    Seq::new(len, |i: int| spec_base36_diff(filter[0x510 + i], filter[0x110 + i]))
}

/// The key renewed at data offset `start`: each character is decoded, the filter character
/// that follows `start` in the filter's first 1024 characters, read cyclically, is added,
/// and the sum modulo 36 is written back as a character of the shuffled alphabet.
pub open spec fn spec_update_key(key: Seq<u8>, start: int, filter: Seq<u8>) -> Seq<u8> {
    Seq::new(
        key.len(),
        |j: int| base36_char((decoded_char(key[j]) + filter[(start + j) % 1024]) % 36),
    )
}

/// The key that hides block `b` of the data, each block as long as the key: the first key
/// renewed at offset 0, then again at the start of each later block.
pub open spec fn key_for_block(key: Seq<u8>, filter: Seq<u8>, b: nat) -> Seq<u8>
    decreases b,
{
    if b == 0 {
        spec_update_key(key, 0, filter)
    } else {
        spec_update_key(key_for_block(key, filter, (b - 1) as nat), (b * key.len()) as int, filter)
    }
}

/// The data `data` with its byte `i` xored with character `i % L` of the key for block
/// `i / L`, where `L` is the key's length.
pub open spec fn spec_deobfuscate(key: Seq<u8>, filter: Seq<u8>, data: Seq<u8>) -> Seq<u8> {
    Seq::new(
        data.len(),
        |i: int| data[i] ^ key_for_block(key, filter, (i / key.len() as int) as nat)[i % key.len() as int],
    )
}

/// The key that is in use just before byte `i` is handled.
spec fn key_before(key: Seq<u8>, filter: Seq<u8>, i: int) -> Seq<u8> {
    if i == 0 {
        key
    } else {
        key_for_block(key, filter, ((i - 1) / key.len() as int) as nat)
    }
}

/// The position `b` that marks the start of a filter in `bytes`: the eight characters
/// `UOB0GMVM`.
pub open spec fn marker_at(bytes: Seq<u8>, p: int) -> bool {
    0 <= p && p + 8 <= bytes.len() && bytes[p] == 85 && bytes[p + 1] == 79 && bytes[p + 2] == 66
        && bytes[p + 3] == 48 && bytes[p + 4] == 71 && bytes[p + 5] == 77 && bytes[p + 6] == 86
        && bytes[p + 7] == 77
}

/// Whether `p` is the first position of the marker in `bytes`.
pub open spec fn first_marker(bytes: Seq<u8>, p: int) -> bool {
    marker_at(bytes, p) && forall|q: int| 0 <= q < p ==> !#[trigger] marker_at(bytes, q)
}

/// The value of the base-36 digit `digit`.
pub fn decode_base36_digit(digit: u8) -> (v: u8)
    requires
        is_base36_char(digit),
    ensures
        v == digit_value(digit),
        v < 36,
{
    if digit <= 57 {
        digit - 48
    } else if digit <= 90 {
        digit - 55
    } else {
        digit - 87
    }
}

fn map_table(v: u8) -> (r: u8)
    requires
        v < 36,
    ensures
        r == map_value(v as int),
        r < 36,
{
    match v {
        0 => 0x06,
        1 => 0x21,
        2 => 0x19,
        3 => 0x10,
        4 => 0x08,
        5 => 0x01,
        6 => 0x1E,
        7 => 0x16,
        8 => 0x1C,
        9 => 0x07,
        10 => 0x15,
        11 => 0x13,
        12 => 0x0E,
        13 => 0x23,
        14 => 0x12,
        15 => 0x02,
        16 => 0x00,
        17 => 0x17,
        18 => 0x04,
        19 => 0x0F,
        20 => 0x0C,
        21 => 0x05,
        22 => 0x09,
        23 => 0x22,
        24 => 0x11,
        25 => 0x0A,
        26 => 0x18,
        27 => 0x0B,
        28 => 0x1A,
        29 => 0x1F,
        30 => 0x1B,
        31 => 0x14,
        32 => 0x0D,
        33 => 0x03,
        34 => 0x1D,
        _ => 0x20,
    }
}

fn base36_digit(v: u8) -> (r: u8)
    requires
        v < 36,
    ensures
        r == base36_char(v as int),
        is_base36_char(r),
{
    match v {
        0 => 71,
        1 => 53,
        2 => 70,
        3 => 88,
        4 => 73,
        5 => 76,
        6 => 48,
        7 => 57,
        8 => 52,
        9 => 77,
        10 => 80,
        11 => 82,
        12 => 75,
        13 => 87,
        14 => 67,
        15 => 74,
        16 => 51,
        17 => 79,
        18 => 69,
        19 => 66,
        20 => 86,
        21 => 65,
        22 => 55,
        23 => 72,
        24 => 81,
        25 => 50,
        26 => 83,
        27 => 85,
        28 => 56,
        29 => 89,
        30 => 54,
        31 => 84,
        32 => 90,
        33 => 49,
        34 => 78,
        _ => 68,
    }
}

/// Decodes every character of `digits` in place.
pub fn decode(digits: &mut [u8])
    requires
        forall|i: int| 0 <= i < old(digits)@.len() ==> is_base36_char(#[trigger] old(digits)@[i]),
    ensures
        final(digits)@.len() == old(digits)@.len(),
        forall|i: int|
            0 <= i < old(digits)@.len() ==> #[trigger] final(digits)@[i] == decoded_char(old(digits)@[i]),
        is_decoded(final(digits)@),
{
    let mut i: usize = 0;
    while i < digits.len()
        invariant
            i <= digits@.len(),
            digits@.len() == old(digits)@.len(),
            forall|j: int| 0 <= j < old(digits)@.len() ==> is_base36_char(#[trigger] old(digits)@[j]),
            forall|j: int| 0 <= j < i ==> #[trigger] digits@[j] == decoded_char(old(digits)@[j]) && digits@[j] < 36,
            forall|j: int| i <= j < digits@.len() ==> #[trigger] digits@[j] == old(digits)@[j],
        decreases digits@.len() - i,
    {
        let d = decode_base36_digit(digits[i]);
        digits[i] = map_table(d);
        i += 1;
    }
}

/// The character of the shuffled alphabet that stands for `val1 - val2` modulo 36.
pub fn base36_diff(val1: u8, val2: u8) -> (r: u8)
    requires
        diff_in_range(val1, val2),
    ensures
        r == spec_base36_diff(val1, val2),
        is_base36_char(r),
{
    if val1 < val2 {
        base36_digit(36 - (val2 - val1))
    } else {
        base36_digit(val1 - val2)
    }
}

/// The key derived from the decoded filter `filter`.
pub fn get_key(filter: &[u8; FILTER_LEN]) -> (key: Vec<u8>)
    requires
        is_decoded(filter@),
    ensures
        key@ == spec_key(filter@),
        forall|i: int| 0 <= i < key@.len() ==> is_base36_char(#[trigger] key@[i]),
{
    let hi_digit = base36_diff(filter[0x500], filter[0x100]);
    let lo_digit = base36_diff(filter[0x501], filter[0x101]);
    let hi = decode_base36_digit(hi_digit);
    let lo = decode_base36_digit(lo_digit);
    let len = (hi << 4u8) | lo;
    let mut key: Vec<u8> = Vec::new();
    let mut i: usize = 0;
    while i < len as usize
        invariant
            i <= len,
            is_decoded(filter@),
            key@.len() == i,
            forall|j: int| 0 <= j < i ==> #[trigger] key@[j] == spec_base36_diff(filter@[0x510 + j], filter@[0x110 + j]),
            forall|j: int| 0 <= j < i ==> is_base36_char(#[trigger] key@[j]),
        decreases len - i,
    {
        key.push(base36_diff(filter[0x510 + i], filter[0x110 + i]));
        i += 1;
    }
    proof {
        assert(key@ =~= spec_key(filter@));
    }
    key
}

/// Renews `key` for the data that starts at offset `start`.
pub fn update_key(key: &mut [u8], start: usize, filter: &[u8; FILTER_LEN])
    requires
        is_decoded(filter@),
        forall|i: int| 0 <= i < old(key)@.len() ==> is_base36_char(#[trigger] old(key)@[i]),
    ensures
        final(key)@ == spec_update_key(old(key)@, start as int, filter@),
        forall|i: int| 0 <= i < final(key)@.len() ==> is_base36_char(#[trigger] final(key)@[i]),
{
    let mut j: usize = 0;
    let mut f: usize = start % FILTER_CYCLE;
    while j < key.len()
        invariant
            j <= key@.len(),
            key@.len() == old(key)@.len(),
            f < FILTER_CYCLE,
            f == (start + j) % 1024,
            is_decoded(filter@),
            forall|i: int| 0 <= i < j ==> #[trigger] key@[i] == spec_update_key(old(key)@, start as int, filter@)[i],
            forall|i: int| 0 <= i < key@.len() ==> is_base36_char(#[trigger] key@[i]),
            forall|i: int| j <= i < key@.len() ==> #[trigger] key@[i] == old(key)@[i],
        decreases key@.len() - j,
    {
        let k = map_table(decode_base36_digit(key[j]));
        let index = (k + filter[f]) % 36;
        key[j] = base36_digit(index);
        proof {
            lemma_add_mod_noop(start + j, 1, 1024);
            lemma_small_mod(1, 1024);
            if f + 1 < 1024 {
                lemma_small_mod((f + 1) as nat, 1024);
            }
        }
        f = if f + 1 == FILTER_CYCLE { 0 } else { f + 1 };
        j += 1;
    }
    proof {
        assert(key@ =~= spec_update_key(old(key)@, start as int, filter@));
    }
}

/// Which filter a known title uses.
#[derive(Debug, Clone, Copy, PartialEq, Eq, Structural)]
pub enum KnownFilter {
    Kanaoka,
    Kznr,
    Puruc,
    Purucx,
    Toshiaki,
    Uminoex,
    Yuki,
}

/// The filter that the game with title id `title` uses, if it is one of the known games.
pub open spec fn spec_known_filter(title: Seq<char>) -> Option<KnownFilter> {
    if title == "KANAOKA"@ {
        Some(KnownFilter::Kanaoka)
    } else if title == "KZNR"@ || title == "KZNRUS"@ {
        Some(KnownFilter::Kznr)
    } else if title == "PURUC"@ || title == "PURUCUS"@ || title == "PURUCX"@ || title == "PURUCXUS"@ {
        Some(KnownFilter::Puruc)
    } else if title == "TOSHIAKI"@ {
        Some(KnownFilter::Toshiaki)
    } else if title == "UMINOEX"@ {
        Some(KnownFilter::Uminoex)
    } else if title == "YUKI"@ || title == "YUKIUS"@ {
        Some(KnownFilter::Yuki)
    } else {
        None
    }
}

/// Whether `title` spells `name`.
fn is_title(title: &Vec<char>, name: &str) -> (r: bool)
    ensures
        r == (title@ == name@),
{
    let name = chars_of(name);
    chars_eq(title.as_slice(), name.as_slice())
}

/// The filter of the game with title id `title_id`. The two titles of the PURUCX game, like
/// those of PURUC, name the PURUC filter.
pub fn get_known_filter(title_id: &str) -> (r: Option<KnownFilter>)
    ensures
        r == spec_known_filter(title_id@),
{
    let t = chars_of(title_id);
    if is_title(&t, "KANAOKA") {
        Some(KnownFilter::Kanaoka)
    } else if is_title(&t, "KZNR") || is_title(&t, "KZNRUS") {
        Some(KnownFilter::Kznr)
    } else if is_title(&t, "PURUC") || is_title(&t, "PURUCUS") || is_title(&t, "PURUCX")
        || is_title(&t, "PURUCXUS") {
        Some(KnownFilter::Puruc)
    } else if is_title(&t, "TOSHIAKI") {
        Some(KnownFilter::Toshiaki)
    } else if is_title(&t, "UMINOEX") {
        Some(KnownFilter::Uminoex)
    } else if is_title(&t, "YUKI") || is_title(&t, "YUKIUS") {
        Some(KnownFilter::Yuki)
    } else {
        None
    }
}

/// The position of the first marker `UOB0GMVM` in `bytes`, if there is one.
pub fn find_marker(bytes: &[u8]) -> (r: Option<usize>)
    ensures
        match r {
            Some(p) => first_marker(bytes@, p as int),
            None => forall|q: int| !#[trigger] marker_at(bytes@, q),
        },
{
    let n = bytes.len();
    let mut p: usize = 0;
    while n >= 8 && p <= n - 8
        invariant
            n == bytes@.len(),
            forall|q: int| 0 <= q < p ==> !#[trigger] marker_at(bytes@, q),
        decreases n - p,
    {
        if bytes[p] == 85 && bytes[p + 1] == 79 && bytes[p + 2] == 66 && bytes[p + 3] == 48
            && bytes[p + 4] == 71 && bytes[p + 5] == 77 && bytes[p + 6] == 86 && bytes[p + 7] == 77 {
            return Some(p);
        }
        p += 1;
    }
    proof {
        assert forall|q: int| !#[trigger] marker_at(bytes@, q) by {
            if q >= p && marker_at(bytes@, q) {
                assert(q + 8 <= n);
            }
        }
    }
    None
}

/// The 2048 bytes of `bytes` from `start` on.
fn copy_filter(bytes: &[u8], start: usize) -> (f: [u8; FILTER_LEN])
    requires
        start + FILTER_LEN <= bytes@.len(),
    ensures
        forall|j: int| 0 <= j < FILTER_LEN ==> #[trigger] f@[j] == bytes@[start + j],
{
    let mut filter = [0u8; FILTER_LEN];
    let mut i: usize = 0;
    while i < FILTER_LEN
        invariant
            i <= FILTER_LEN,
            start + FILTER_LEN <= bytes.len(),
            forall|j: int| 0 <= j < i ==> #[trigger] filter@[j] == bytes@[start + j],
        decreases FILTER_LEN - i,
    {
        filter[i] = bytes[start + i];
        i += 1;
    }
    filter
}

/// Why no filter could be taken out of an executable.
#[derive(Debug, Clone, Copy, PartialEq, Eq, Structural)]
pub enum FilterError {
    /// The marker `UOB0GMVM` does not occur.
    NotFound,
    /// Fewer than 2048 bytes follow the first marker, or one of them is not an ASCII letter
    /// or digit.
    Invalid,
}

/// Whether the 2048 bytes of `bytes` from `p` on are there and all ASCII letters or digits.
pub open spec fn valid_filter_at(bytes: Seq<u8>, p: int) -> bool {
    p + FILTER_LEN <= bytes.len() && forall|i: int|
        p <= i < p + FILTER_LEN ==> is_base36_char(#[trigger] bytes[i])
}

/// The filter stored in an executable: the 2048 ASCII letters and digits that start at the
/// first marker `UOB0GMVM`.
pub fn extract_filter(executable: &[u8]) -> (r: Result<[u8; FILTER_LEN], FilterError>)
    ensures
        r == Err::<[u8; FILTER_LEN], FilterError>(FilterError::NotFound) <==> forall|q: int|
            !#[trigger] marker_at(executable@, q),
        match r {
            Ok(f) => exists|p: int|
                #![trigger first_marker(executable@, p)]
                first_marker(executable@, p) && valid_filter_at(executable@, p)
                    && f@ == executable@.subrange(p, p + FILTER_LEN),
            Err(FilterError::Invalid) => exists|p: int|
                #![trigger first_marker(executable@, p)]
                first_marker(executable@, p) && !valid_filter_at(executable@, p),
            Err(FilterError::NotFound) => true,
        },
{
    let n = executable.len();
    let p = match find_marker(executable) {
        Some(p) => p,
        None => return Err(FilterError::NotFound),
    };
    if n < FILTER_LEN || p > n - FILTER_LEN {
        return Err(FilterError::Invalid);
    }
    let mut i: usize = 0;
    while i < FILTER_LEN
        invariant
            i <= FILTER_LEN,
            p + FILTER_LEN <= n,
            n == executable@.len(),
            first_marker(executable@, p as int),
            forall|j: int| p <= j < p + i ==> is_base36_char(#[trigger] executable@[j]),
        decreases FILTER_LEN - i,
    {
        let b = executable[p + i];
        if !((48 <= b && b <= 57) || (65 <= b && b <= 90) || (97 <= b && b <= 122)) {
            assert(!valid_filter_at(executable@, p as int));
            return Err(FilterError::Invalid);
        }
        i += 1;
    }
    let filter = copy_filter(executable, p);
    proof {
        assert(filter@ =~= executable@.subrange(p as int, p + FILTER_LEN));
    }
    Ok(filter)
}

/// Undoes the obfuscation of a game's files with a key derived from a filter.
pub struct Deobfuscator {
    key: Vec<u8>,
    filter: [u8; FILTER_LEN],
}

impl Deobfuscator {
    #[verifier::type_invariant]
    spec fn well_formed(self) -> bool {
        &&& is_decoded(self.filter@)
        &&& forall|i: int| 0 <= i < self.key@.len() ==> is_base36_char(#[trigger] self.key@[i])
    }

    /// The first key, before any renewal.
    pub closed spec fn key(&self) -> Seq<u8> {
        self.key@
    }

    /// The decoded filter.
    pub closed spec fn filter(&self) -> Seq<u8> {
        self.filter@
    }

    /// The length of the key.
    pub fn key_len(&self) -> (n: usize)
        ensures
            n == self.key().len(),
    {
        self.key.len()
    }

    /// Decodes the filter `filter`, made of base-36 characters, and derives the key from it.
    pub fn new(filter: [u8; FILTER_LEN]) -> (d: Self)
        requires
            forall|i: int| 0 <= i < FILTER_LEN ==> is_base36_char(#[trigger] filter@[i]),
        ensures
            d.filter() == Seq::new(FILTER_LEN as nat, |i: int| decoded_char(filter@[i])),
            d.key() == spec_key(d.filter()),
    {
        let mut filter = filter;
        let ghost original = filter@;
        decode(&mut filter);
        let key = get_key(&filter);
        proof {
            assert(filter@ =~= Seq::new(FILTER_LEN as nat, |i: int| decoded_char(original[i])));
        }
        Self { key, filter }
    }

    /// The filter found in `executable`: the 2048 characters that start at the first marker
    /// `UOB0GMVM`. `None` when there is no marker, or too few bytes follow it.
    pub fn try_filter_search(executable: &[u8]) -> (r: Option<Self>)
        requires
            forall|p: int|
                #![trigger first_marker(executable@, p)]
                first_marker(executable@, p) && p + FILTER_LEN <= executable@.len() ==> forall|i: int|
                    p <= i < p + FILTER_LEN ==> is_base36_char(#[trigger] executable@[i]),
        ensures
            match r {
                Some(d) => exists|p: int|
                    #![trigger first_marker(executable@, p)]
                    first_marker(executable@, p) && p + FILTER_LEN <= executable@.len()
                        && d.filter() == Seq::new(
                        FILTER_LEN as nat,
                        |i: int| decoded_char(executable@[p + i]),
                    ) && d.key() == spec_key(d.filter()),
                None => forall|p: int|
                    first_marker(executable@, p) ==> p + FILTER_LEN > executable@.len(),
            },
    {
        let n = executable.len();
        let p = match find_marker(executable) {
            Some(p) => p,
            None => return None,
        };
        if n < FILTER_LEN || p > n - FILTER_LEN {
            return None;
        }
        let filter = copy_filter(executable, p);
        assert(forall|j: int| 0 <= j < FILTER_LEN ==> is_base36_char(#[trigger] filter@[j])) by {
            assert forall|j: int| 0 <= j < FILTER_LEN implies is_base36_char(#[trigger] filter@[j]) by {
                assert(is_base36_char(executable@[p + j]));
            }
        }
        let d = Self::new(filter);
        proof {
            assert(d.filter() =~= Seq::new(FILTER_LEN as nat, |i: int| decoded_char(executable@[p + i])));
        }
        Some(d)
    }

    /// Deobfuscates `data` in place. The key is renewed at the start of every block as long
    /// as the key, and each byte is xored with the matching character of the block's key.
    pub fn deobfuscate(&self, data: &mut [u8])
        requires
            self.key().len() > 0 || old(data)@.len() == 0,
        ensures
            final(data)@ == spec_deobfuscate(self.key(), self.filter(), old(data)@),
    {
        proof { use_type_invariant(self); }
        let mut key = self.key.clone();
        proof { assert(key@ =~= self.key@); }
        let key_len = key.len();
        let n = data.len();
        let mut i: usize = 0;
        while i < n
            invariant
                i <= n,
                n == data@.len(),
                n == old(data)@.len(),
                key_len == key@.len(),
                key_len == self.key@.len(),
                key_len > 0 || n == 0,
                is_decoded(self.filter@),
                forall|j: int| 0 <= j < key@.len() ==> is_base36_char(#[trigger] key@[j]),
                key@ == key_before(self.key@, self.filter@, i as int),
                forall|j: int| 0 <= j < i ==> #[trigger] data@[j] == spec_deobfuscate(self.key@, self.filter@, old(data)@)[j],
                forall|j: int| i <= j < n ==> #[trigger] data@[j] == old(data)@[j],
            decreases n - i,
        {
            proof { lemma_block_step(i as int, key_len as int); }
            if i % key_len == 0 {
                let ghost before = key@;
                update_key(key.as_mut_slice(), i, &self.filter);
                proof {
                    let b = (i / key_len) as nat;
                    assert(key@ == spec_update_key(before, i as int, self.filter@));
                    if i == 0 {
                        assert(before == self.key@);
                        assert(key@ == key_for_block(self.key@, self.filter@, 0));
                    }
                    if i > 0 {
                        assert(before == key_for_block(self.key@, self.filter@, (b - 1) as nat));
                        assert(b * self.key@.len() == i);
                        assert(key_for_block(self.key@, self.filter@, b) == spec_update_key(
                            key_for_block(self.key@, self.filter@, (b - 1) as nat),
                            (b * self.key@.len()) as int,
                            self.filter@,
                        ));
                    }
                }
            }
            proof {
                assert(key@ == key_for_block(self.key@, self.filter@, (i / key_len) as nat));
            }
            let b = data[i];
            data[i] = b ^ key[i % key_len];
            i += 1;
        }
        proof {
            assert(data@ =~= spec_deobfuscate(self.key@, self.filter@, old(data)@));
        }
    }
}

/// Obfuscation and deobfuscation are the same operation: deobfuscating twice with the same
/// key and filter gives the data back.
pub proof fn lemma_deobfuscate_twice(key: Seq<u8>, filter: Seq<u8>, data: Seq<u8>)
    ensures
        spec_deobfuscate(key, filter, spec_deobfuscate(key, filter, data)) == data,
{
    let once = spec_deobfuscate(key, filter, data);
    let twice = spec_deobfuscate(key, filter, once);
    assert forall|i: int| 0 <= i < data.len() implies #[trigger] twice[i] == data[i] by {
        let k = key_for_block(key, filter, (i / key.len() as int) as nat)[i % key.len() as int];
        let d = data[i];
        assert((d ^ k) ^ k == d) by (bit_vector);
    }
    assert(twice =~= data);
}

/// How the block of offset `i` relates to the block of the offset before it.
proof fn lemma_block_step(i: int, l: int)
    requires
        0 <= i,
        0 < l,
    ensures
        i % l == 0 ==> i == (i / l) * l,
        i % l == 0 && i > 0 ==> (i - 1) / l == i / l - 1,
        i % l != 0 ==> (i - 1) / l == i / l && i > 0,
        0 <= i / l,
{
    lemma_small_mod(0, l as nat);
    lemma_fundamental_div_mod(i, l);
    let q = i / l;
    let r = i % l;
    assert(i == q * l + r) by (nonlinear_arith)
        requires
            i == l * q + r,
    ;
    if r == 0 {
        if i > 0 {
            assert(i - 1 == (q - 1) * l + (l - 1)) by (nonlinear_arith)
                requires
                    i == q * l,
            ;
            lemma_fundamental_div_mod_converse(i - 1, l, q - 1, l - 1);
        }
    } else {
        lemma_fundamental_div_mod_converse(i - 1, l, q, r - 1);
    }
    assert(0 <= q) by (nonlinear_arith)
        requires
            i == q * l + r,
            0 <= r < l,
            0 <= i,
    ;
}


/// The shuffled alphabet and the decoding table undo each other: the character that stands
/// for a value below 36 decodes back to that value.
pub proof fn lemma_alphabet_decodes(v: int)
    requires
        0 <= v < 36,
    ensures
        is_base36_char(base36_char(v)),
        decoded_char(base36_char(v)) == v,
{
}

/// Renewing the key adds the filter: decoded, each renewed character is the decoded old
/// character plus the filter character that follows `start` in the filter's first 1024
/// characters, modulo 36.
pub proof fn lemma_renewal_adds_filter(key: Seq<u8>, start: int, filter: Seq<u8>)
    requires
        0 <= start,
    ensures
        spec_update_key(key, start, filter).len() == key.len(),
        forall|j: int|
            0 <= j < key.len() ==> decoded_char(#[trigger] spec_update_key(key, start, filter)[j]) == (
            decoded_char(key[j]) + filter[(start + j) % 1024]) % 36,
{
    assert forall|j: int| 0 <= j < key.len() implies decoded_char(
        #[trigger] spec_update_key(key, start, filter)[j],
    ) == (decoded_char(key[j]) + filter[(start + j) % 1024]) % 36 by {
        lemma_alphabet_decodes((decoded_char(key[j]) + filter[(start + j) % 1024]) % 36);
    }
}

/// Only the first 1024 characters of the filter renew the key: filters that agree there give
/// the same renewed keys, the same key for every block, and the same deobfuscated data.
pub proof fn lemma_renewal_reads_first_half(key: Seq<u8>, f1: Seq<u8>, f2: Seq<u8>, data: Seq<u8>)
    requires
        f1.len() == FILTER_LEN,
        f2.len() == FILTER_LEN,
        forall|i: int| 0 <= i < FILTER_CYCLE ==> #[trigger] f1[i] == f2[i],
    ensures
        forall|start: int| 0 <= start ==> #[trigger] spec_update_key(key, start, f1) == spec_update_key(key, start, f2),
        forall|b: nat| #[trigger] key_for_block(key, f1, b) == key_for_block(key, f2, b),
        spec_deobfuscate(key, f1, data) == spec_deobfuscate(key, f2, data),
{
    assert forall|k: Seq<u8>, start: int| 0 <= start implies #[trigger] spec_update_key(k, start, f1)
        == spec_update_key(k, start, f2) by {
        assert forall|j: int| 0 <= j < k.len() implies spec_update_key(k, start, f1)[j] == spec_update_key(
            k,
            start,
            f2,
        )[j] by {
            assert(f1[(start + j) % 1024] == f2[(start + j) % 1024]);
        }
        assert(spec_update_key(k, start, f1) =~= spec_update_key(k, start, f2));
    }
    assert forall|b: nat| #[trigger] key_for_block(key, f1, b) == key_for_block(key, f2, b) by {
        lemma_blocks_agree(key, f1, f2, b);
    }
    assert(spec_deobfuscate(key, f1, data) =~= spec_deobfuscate(key, f2, data));
}

proof fn lemma_blocks_agree(key: Seq<u8>, f1: Seq<u8>, f2: Seq<u8>, b: nat)
    requires
        forall|k: Seq<u8>, start: int|
            0 <= start ==> #[trigger] spec_update_key(k, start, f1) == spec_update_key(k, start, f2),
    ensures
        key_for_block(key, f1, b) == key_for_block(key, f2, b),
    decreases b,
{
    if b > 0 {
        lemma_blocks_agree(key, f1, f2, (b - 1) as nat);
        let prev = key_for_block(key, f1, (b - 1) as nat);
        assert(spec_update_key(prev, (b * key.len()) as int, f1) == spec_update_key(prev, (b * key.len()) as int, f2));
    }
}

/// Renewing the key at an offset 1024 further on gives the same key: the filter's first
/// 1024 characters are read cyclically.
pub proof fn lemma_renewal_period(key: Seq<u8>, start: int, filter: Seq<u8>)
    requires
        0 <= start,
    ensures
        spec_update_key(key, start + 1024, filter) == spec_update_key(key, start, filter),
{
    assert forall|j: int| 0 <= j < key.len() implies spec_update_key(key, start + 1024, filter)[j]
        == spec_update_key(key, start, filter)[j] by {
        vstd::arithmetic::div_mod::lemma_mod_add_multiples_vanish(start + j, 1024);
        assert(start + 1024 + j == 1024 + (start + j));
    }
    assert(spec_update_key(key, start + 1024, filter) =~= spec_update_key(key, start, filter));
}


/// The known games and their filters: KANAOKA; KZNR and KZNRUS; PURUC, PURUCUS, PURUCX and
/// PURUCXUS, which all use the PURUC filter; TOSHIAKI; UMINOEX; YUKI and YUKIUS. No other
/// title id has a filter.
pub proof fn lemma_known_titles(title: Seq<char>)
    ensures
        spec_known_filter("KANAOKA"@) == Some(KnownFilter::Kanaoka),
        spec_known_filter("KZNR"@) == Some(KnownFilter::Kznr),
        spec_known_filter("KZNRUS"@) == Some(KnownFilter::Kznr),
        spec_known_filter("PURUC"@) == Some(KnownFilter::Puruc),
        spec_known_filter("PURUCUS"@) == Some(KnownFilter::Puruc),
        spec_known_filter("PURUCX"@) == Some(KnownFilter::Puruc),
        spec_known_filter("PURUCXUS"@) == Some(KnownFilter::Puruc),
        spec_known_filter("TOSHIAKI"@) == Some(KnownFilter::Toshiaki),
        spec_known_filter("UMINOEX"@) == Some(KnownFilter::Uminoex),
        spec_known_filter("YUKI"@) == Some(KnownFilter::Yuki),
        spec_known_filter("YUKIUS"@) == Some(KnownFilter::Yuki),
        spec_known_filter(title) is Some <==> (title == "KANAOKA"@ || title == "KZNR"@ || title == "KZNRUS"@
            || title == "PURUC"@ || title == "PURUCUS"@ || title == "PURUCX"@ || title == "PURUCXUS"@
            || title == "TOSHIAKI"@ || title == "UMINOEX"@ || title == "YUKI"@ || title == "YUKIUS"@),
{
    reveal_strlit("KANAOKA");
    reveal_strlit("KZNR");
    reveal_strlit("KZNRUS");
    reveal_strlit("PURUC");
    reveal_strlit("PURUCUS");
    reveal_strlit("PURUCX");
    reveal_strlit("PURUCXUS");
    reveal_strlit("TOSHIAKI");
    reveal_strlit("UMINOEX");
    reveal_strlit("YUKI");
    reveal_strlit("YUKIUS");
    assert("KZNR"@.len() != "KANAOKA"@.len());
    assert("KZNRUS"@.len() != "KANAOKA"@.len());
    assert("KZNRUS"@.len() != "KZNR"@.len());
    assert("PURUC"@.len() != "KANAOKA"@.len());
    assert("PURUC"@.len() != "KZNR"@.len());
    assert("PURUC"@.len() != "KZNRUS"@.len());
    assert("PURUCUS"@[0] != "KANAOKA"@[0]);
    assert("PURUCUS"@.len() != "KZNR"@.len());
    assert("PURUCUS"@.len() != "KZNRUS"@.len());
    assert("PURUCUS"@.len() != "PURUC"@.len());
    assert("PURUCX"@.len() != "KANAOKA"@.len());
    assert("PURUCX"@.len() != "KZNR"@.len());
    assert("PURUCX"@[0] != "KZNRUS"@[0]);
    assert("PURUCX"@.len() != "PURUC"@.len());
    assert("PURUCX"@.len() != "PURUCUS"@.len());
    assert("PURUCXUS"@.len() != "KANAOKA"@.len());
    assert("PURUCXUS"@.len() != "KZNR"@.len());
    assert("PURUCXUS"@.len() != "KZNRUS"@.len());
    assert("PURUCXUS"@.len() != "PURUC"@.len());
    assert("PURUCXUS"@.len() != "PURUCUS"@.len());
    assert("PURUCXUS"@.len() != "PURUCX"@.len());
    assert("TOSHIAKI"@.len() != "KANAOKA"@.len());
    assert("TOSHIAKI"@.len() != "KZNR"@.len());
    assert("TOSHIAKI"@.len() != "KZNRUS"@.len());
    assert("TOSHIAKI"@.len() != "PURUC"@.len());
    assert("TOSHIAKI"@.len() != "PURUCUS"@.len());
    assert("TOSHIAKI"@.len() != "PURUCX"@.len());
    assert("TOSHIAKI"@[0] != "PURUCXUS"@[0]);
    assert("UMINOEX"@[0] != "KANAOKA"@[0]);
    assert("UMINOEX"@.len() != "KZNR"@.len());
    assert("UMINOEX"@.len() != "KZNRUS"@.len());
    assert("UMINOEX"@.len() != "PURUC"@.len());
    assert("UMINOEX"@[0] != "PURUCUS"@[0]);
    assert("UMINOEX"@.len() != "PURUCX"@.len());
    assert("UMINOEX"@.len() != "PURUCXUS"@.len());
    assert("UMINOEX"@.len() != "TOSHIAKI"@.len());
    assert("YUKI"@.len() != "KANAOKA"@.len());
    assert("YUKI"@[0] != "KZNR"@[0]);
    assert("YUKI"@.len() != "KZNRUS"@.len());
    assert("YUKI"@.len() != "PURUC"@.len());
    assert("YUKI"@.len() != "PURUCUS"@.len());
    assert("YUKI"@.len() != "PURUCX"@.len());
    assert("YUKI"@.len() != "PURUCXUS"@.len());
    assert("YUKI"@.len() != "TOSHIAKI"@.len());
    assert("YUKI"@.len() != "UMINOEX"@.len());
    assert("YUKIUS"@.len() != "KANAOKA"@.len());
    assert("YUKIUS"@.len() != "KZNR"@.len());
    assert("YUKIUS"@[0] != "KZNRUS"@[0]);
    assert("YUKIUS"@.len() != "PURUC"@.len());
    assert("YUKIUS"@.len() != "PURUCUS"@.len());
    assert("YUKIUS"@[0] != "PURUCX"@[0]);
    assert("YUKIUS"@.len() != "PURUCXUS"@.len());
    assert("YUKIUS"@.len() != "TOSHIAKI"@.len());
    assert("YUKIUS"@.len() != "UMINOEX"@.len());
    assert("YUKIUS"@.len() != "YUKI"@.len());
}

} // verus!
