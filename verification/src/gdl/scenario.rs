//! Scenario files: a fixed header, then a subroutine table and the bytecode, both enciphered
//! with the cipher that the header's version selects.
use vstd::prelude::*;

verus! {

/// Length of the fixed header; the subroutine table starts right after it.
pub const SUBROUTINE_TABLE_OFFSET: usize = 8;

/// Why a scenario file was refused.
#[derive(Debug, Clone, Copy, PartialEq, Eq, Structural)]
pub enum ScenarioError {
    /// The file is shorter than its fixed header.
    HeaderTooShort,
    /// The header names a version (its two bytes) whose cipher is unknown.
    UnsupportedVersion(u8, u8),
    /// The bytecode offset points inside the header or past the end of the file.
    InvalidCodeOffset(u32),
}

/// The cipher that hides everything after the header.
#[derive(Debug, Clone, Copy, PartialEq, Eq, Structural)]
pub enum Cipher {
    /// Each byte is xored with the key.
    Xor(u8),
    /// Each byte is rotated left by two bits; reading rotates it back.
    Rotate,
    /// Each byte is complemented.
    Invert,
    /// The debug version: nothing is hidden.
    Plain,
}

/// The fixed header at the start of a scenario file: the bytecode offset (`u32`, least
/// significant byte first), the two version bytes, the xor key and a reserved byte. This is
/// the layout the assembler writes; reading it back this way is this crate's own choice.
#[derive(Debug, Clone, Copy)]
pub struct IsfMetadata {
    /// Where the bytecode starts, counted from the start of the file.
    pub bytecode_offset: u32,
    /// Two bytes that select the cipher.
    pub version: [u8; 2],
    /// The key of the xor cipher.
    pub xor_key: u8,
    pub reserved: u8,
}

/// The little-endian `u32` stored at `at` in `bytes`.
pub open spec fn le_u32(bytes: Seq<u8>, at: int) -> nat {
    (bytes[at] + bytes[at + 1] * 256 + bytes[at + 2] * 65536 + bytes[at + 3] * 16777216) as nat
}

/// The cipher that the version bytes `v0`, `v1` select.
pub open spec fn version_cipher(v0: u8, v1: u8, xor_key: u8) -> Option<Cipher> {
    if v0 == 0x89 && v1 == 0xCE {
        Some(Cipher::Xor(xor_key))
    } else if v0 == 0x95 && v1 == 0x97 {
        Some(Cipher::Rotate)
    } else if v0 == 0x97 && v1 == 0xD1 {
        Some(Cipher::Invert)
    } else if v0 == 0x8D && v1 == 0xF7 {
        Some(Cipher::Plain)
    } else {
        None
    }
}

/// `b` rotated left by two bits: how the rotating cipher hides a byte.
pub open spec fn spec_encipher_rotate(b: u8) -> u8 {
    ((b << 2u8) | (b >> 6u8)) as u8
}

/// What `cipher` makes of the hidden byte `b`.
pub open spec fn spec_decipher(cipher: Cipher, b: u8) -> u8 {
    match cipher {
        Cipher::Xor(key) => b ^ key,
        Cipher::Rotate => ((b >> 2u8) | (b << 6u8)) as u8,
        Cipher::Invert => !b,
        Cipher::Plain => b,
    }
}

/// The file with everything after the header deciphered.
pub open spec fn deciphered(data: Seq<u8>, cipher: Cipher) -> Seq<u8> {
    Seq::new(
        data.len(),
        |i: int|
            if i < SUBROUTINE_TABLE_OFFSET {
                data[i]
            } else {
                spec_decipher(cipher, data[i])
            },
    )
}

/// The subroutine offsets held between the header and `code_offset`: one little-endian
/// `u32` per four bytes, a trailing partial entry ignored.
pub open spec fn subroutine_table(bytes: Seq<u8>, code_offset: nat) -> Seq<usize> {
    Seq::new(
        ((code_offset - SUBROUTINE_TABLE_OFFSET) / 4) as nat,
        |k: int| le_u32(bytes, SUBROUTINE_TABLE_OFFSET + 4 * k) as usize,
    )
}

/// The cipher that the header of `data` selects.
pub open spec fn header_cipher(data: Seq<u8>) -> Option<Cipher> {
    version_cipher(data[4], data[5], data[6])
}

/// The error with which a scenario file is refused, if it is.
pub open spec fn load_error(data: Seq<u8>) -> Option<ScenarioError> {
    if data.len() < SUBROUTINE_TABLE_OFFSET {
        Some(ScenarioError::HeaderTooShort)
    } else if header_cipher(data) is None {
        Some(ScenarioError::UnsupportedVersion(data[4], data[5]))
    } else if le_u32(data, 0) < SUBROUTINE_TABLE_OFFSET || le_u32(data, 0) > data.len() {
        Some(ScenarioError::InvalidCodeOffset(le_u32(data, 0) as u32))
    } else {
        None
    }
}

/// A loaded scenario: its bytecode and the offsets of its subroutines within it.
pub struct Scenario {
    /// Where the bytecode started in the file.
    pub code_offset: usize,
    pub name: String,
    /// The deciphered bytecode.
    pub code: Vec<u8>,
    /// The offset of each subroutine, counted from the start of the bytecode.
    pub subroutines: Vec<usize>,
}

/// The little-endian `u32` at `at`.
fn read_u32_le(bytes: &Vec<u8>, at: usize) -> (v: u32)
    requires
        at + 4 <= bytes@.len(),
    ensures
        v == le_u32(bytes@, at as int),
{
    assert(at + 4 <= bytes.len());
    bytes[at] as u32 + bytes[at + 1] as u32 * 256 + bytes[at + 2] as u32 * 65536 + bytes[at + 3]
        as u32 * 16777216
}

impl IsfMetadata {
    /// Reads the header at the start of `data`.
    pub fn parse(data: &[u8]) -> (r: Result<IsfMetadata, ScenarioError>)
        ensures
            data@.len() < SUBROUTINE_TABLE_OFFSET ==> r == Err::<IsfMetadata, ScenarioError>(
                ScenarioError::HeaderTooShort,
            ),
            data@.len() >= SUBROUTINE_TABLE_OFFSET ==> (r matches Ok(m) && m.bytecode_offset
                == le_u32(data@, 0) && m.version@ == data@.subrange(4, 6) && m.xor_key == data@[6]
                && m.reserved == data@[7]),
    {
        if data.len() < SUBROUTINE_TABLE_OFFSET {
            return Err(ScenarioError::HeaderTooShort);
        }
        let bytecode_offset = data[0] as u32 + data[1] as u32 * 256 + data[2] as u32 * 65536
            + data[3] as u32 * 16777216;
        let version = [data[4], data[5]];
        proof {
            assert(version@ =~= data@.subrange(4, 6));
        }
        Ok(IsfMetadata { bytecode_offset, version, xor_key: data[6], reserved: data[7] })
    }

    /// The cipher that the header's version selects, if it is known.
    pub fn cipher(&self) -> (c: Option<Cipher>)
        ensures
            c == version_cipher(self.version@[0], self.version@[1], self.xor_key),
    {
        let v0 = self.version[0];
        let v1 = self.version[1];
        if v0 == 0x89 && v1 == 0xCE {
            Some(Cipher::Xor(self.xor_key))
        } else if v0 == 0x95 && v1 == 0x97 {
            Some(Cipher::Rotate)
        } else if v0 == 0x97 && v1 == 0xD1 {
            Some(Cipher::Invert)
        } else if v0 == 0x8D && v1 == 0xF7 {
            Some(Cipher::Plain)
        } else {
            None
        }
    }
}

/// Deciphers one byte.
pub fn decipher(cipher: Cipher, b: u8) -> (r: u8)
    ensures
        r == spec_decipher(cipher, b),
{
    match cipher {
        Cipher::Xor(key) => b ^ key,
        Cipher::Rotate => (b >> 2u8) | (b << 6u8),
        Cipher::Invert => !b,
        Cipher::Plain => b,
    }
}

/// Hides one byte with the rotating cipher.
pub fn encipher_rotate(b: u8) -> (r: u8)
    ensures
        r == spec_encipher_rotate(b),
{
    (b << 2u8) | (b >> 6u8)
}

/// Deciphering undoes the rotating cipher.
pub proof fn lemma_rotate_round_trip(b: u8)
    ensures
        spec_decipher(Cipher::Rotate, spec_encipher_rotate(b)) == b,
{
    assert((((((b << 2u8) | (b >> 6u8)) as u8) >> 2u8) | ((((b << 2u8) | (b >> 6u8)) as u8)
        << 6u8)) as u8 == b) by (bit_vector);
}

impl Scenario {
    /// Reads the scenario file `data`: checks its header, deciphers everything after it, and
    /// splits the rest into the subroutine table and the bytecode.
    pub fn load(name: String, data: Vec<u8>) -> (r: Result<Scenario, ScenarioError>)
        ensures
            match load_error(data@) {
                Some(e) => r == Err::<Scenario, ScenarioError>(e),
                None => r matches Ok(s) && {
                    let plain = deciphered(data@, header_cipher(data@)->0);
                    &&& s.code_offset == le_u32(data@, 0)
                    &&& s.name@ == name@
                    &&& s.code@ == plain.subrange(s.code_offset as int, data@.len() as int)
                    &&& s.subroutines@ == subroutine_table(plain, s.code_offset as nat)
                },
            },
    {
        let isf = match IsfMetadata::parse(data.as_slice()) {
            Ok(isf) => isf,
            Err(e) => return Err(e),
        };
        let cipher = match isf.cipher() {
            Some(c) => c,
            None => return Err(ScenarioError::UnsupportedVersion(isf.version[0], isf.version[1])),
        };
        let code_offset = isf.bytecode_offset as usize;
        if code_offset < SUBROUTINE_TABLE_OFFSET || code_offset > data.len() {
            return Err(ScenarioError::InvalidCodeOffset(isf.bytecode_offset));
        }
        let ghost original = data@;
        let mut data = data;
        let len = data.len();
        let mut i: usize = SUBROUTINE_TABLE_OFFSET;
        while i < len
            invariant
                SUBROUTINE_TABLE_OFFSET <= i <= len,
                len == data@.len(),
                len == original.len(),
                forall|j: int| 0 <= j < i ==> data@[j] == deciphered(original, cipher)[j],
                forall|j: int| i <= j < len ==> data@[j] == original[j],
            decreases len - i,
        {
            let b = data[i];
            data.set(i, decipher(cipher, b));
            i += 1;
        }
        proof {
            assert(data@ =~= deciphered(original, cipher));
        }
        let count = (code_offset - SUBROUTINE_TABLE_OFFSET) / 4;
        let mut subroutines: Vec<usize> = Vec::with_capacity(count);
        let mut k: usize = 0;
        while k < count
            invariant
                k <= count,
                count == (code_offset - SUBROUTINE_TABLE_OFFSET) / 4,
                code_offset <= data@.len(),
                subroutines@.len() == k,
                forall|j: int|
                    0 <= j < k ==> subroutines@[j] == subroutine_table(data@, code_offset as nat)[j],
            decreases count - k,
        {
            let at = SUBROUTINE_TABLE_OFFSET + 4 * k;
            let v = read_u32_le(&data, at);
            subroutines.push(v as usize);
            k += 1;
        }
        proof {
            assert(subroutines@ =~= subroutine_table(data@, code_offset as nat));
        }
        let code = data.split_off(code_offset);
        Ok(Scenario { code_offset, name, code, subroutines })
    }

    /// The offset of subroutine `index`, if there is one.
    pub fn sub_offset(&self, index: usize) -> (r: Option<usize>)
        ensures
            r == if index < self.subroutines@.len() {
                Some(self.subroutines@[index as int])
            } else {
                None::<usize>
            },
    {
        if index < self.subroutines.len() {
            Some(self.subroutines[index])
        } else {
            None
        }
    }
}

} // verus!
