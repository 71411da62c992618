//! Turning a scenario's bytecode back into assembly text: each instruction on a line of its
//! own, its operands decoded in the layout the assembler writes, and a label line wherever a
//! subroutine starts.
//!
//! Instruction layout: the opcode, then the instruction's total length, then its
//! parameters. The length takes one byte when it is below 0x80; otherwise it takes two
//! bytes read least significant first, the first of them with its high bit set, and the
//! 0x8000 flag is dropped. A length of zero ends the bytecode.
//!
//! Where this reading of the length comes from: the assembler writes a length above 0x7f
//! as the little-endian word `0x8000 | length`, so the byte after the opcode is the low
//! byte of the length and the flag sits in the byte after it. When that low byte is below
//! 0x80, the long instruction begins with a whole instruction of that one-byte length
//! (`lemma_long_length_ambiguous`), so no reading of the bytes gets back every length the
//! assembler writes. The disassembler reads a byte below 0x80 as the whole length, which
//! gets back every instruction of up to 0x7f bytes, and otherwise reads the word with its
//! flag cleared, which gets back every longer instruction whose low length byte has its
//! high bit set (`lemma_instruction_round_trip`).
//!
//! An instruction without an operand layout here is written with all its parameter bytes
//! in hexadecimal. Messages name their characters by index in a character table that the
//! caller supplies.
use vstd::prelude::*;
use vstd::slice::slice_subrange;
use crate::util::encoding::shift_jis_decode;
use crate::util::text::{chars_of, decimal, decimal_chars, hex_byte, push_all, string_of, zero_padded, zero_padded_chars};
use crate::tools::params::{ParamNum, Value};
use crate::tools::assembler::{REG_TAG, RNG_TAG, instruction_bytes, instruction_len, value_bytes};
use crate::util::io::{WriteEndian, le_seq};
use crate::tools::assemble::{Operand, operands, operands_of, is_branching};
use crate::tools::disassembler::{
    Formatter, bytes_text, display_bytes, display_bytes_as_string, display_message, display_value,
    escaped_message, escaped_string, pad_right, value_text,
};
use crate::util::encoding::sjis_to_utf8;
use crate::util::io::WriteExt;

verus! {

/// Why a scenario could not be disassembled.
#[derive(Debug, Clone, Copy, PartialEq, Eq, Structural)]
pub enum DisasmError {
    /// The bytecode ends inside an instruction.
    EndOfScenario,
    /// An instruction is shorter than its own opcode and length.
    InvalidLength,
    /// An instruction's parameters end before its operands do.
    MissingParams,
    /// A string operand is not valid Shift JIS.
    InvalidText,
}

/// The name of opcode `op` in `names`; empty when it has none.
pub open spec fn name_for(names: Seq<String>, op: u8) -> Seq<char> {
    if (op as int) < names.len() {
        names[op as int]@
    } else {
        Seq::empty()
    }
}

/// The mnemonic written for opcode `op` named `name`: the name, or `<` and the opcode in
/// hexadecimal and `>` when the name is empty.
pub open spec fn mnemonic_text(name: Seq<char>, op: u8) -> Seq<char> {
    if name.len() > 0 {
        name
    } else {
        seq!['<'] + hex_byte(op) + seq!['>']
    }
}

/// `param` added to the operand list `acc`, after `, ` unless the list is empty.
pub open spec fn add_text(acc: Seq<char>, param: Seq<char>) -> Seq<char> {
    if acc.len() == 0 {
        param
    } else {
        acc + seq![',', ' '] + param
    }
}

/// The operand list made of `params`, in order.
pub open spec fn join_params(params: Seq<Seq<char>>) -> Seq<char>
    decreases params.len(),
{
    if params.len() == 0 {
        Seq::empty()
    } else {
        add_text(join_params(params.drop_last()), params.last())
    }
}

/// The line of an instruction: four spaces, the mnemonic alone or padded to 16 characters
/// and followed by a space and the operands, then a line feed.
pub open spec fn line_text(mnemonic: Seq<char>, joined: Seq<char>) -> Seq<char> {
    if joined.len() == 0 {
        seq![' ', ' ', ' ', ' '] + mnemonic + seq!['\n']
    } else {
        seq![' ', ' ', ' ', ' '] + pad_right(mnemonic, 16) + seq![' '] + joined + seq!['\n']
    }
}

/// The `u16` at `pos` in `p`, least significant byte first.
pub open spec fn word_at(p: Seq<u8>, pos: int) -> nat {
    (p[pos] + 256 * p[pos + 1]) as nat
}

/// The `u32` at `pos` in `p`, least significant byte first.
pub open spec fn dword_at(p: Seq<u8>, pos: int) -> u32 {
    (p[pos] + 256 * p[pos + 1] + 65536 * p[pos + 2] + 16777216 * p[pos + 3]) as u32
}

/// The value operand stored as `x`: a register when the high half is `REG_TAG`, a random
/// bound below 2^29 when the top three bits are those of `RNG_TAG`, and a literal otherwise.
pub open spec fn decode_value(x: u32) -> Value {
    if x & 0xFFFF_0000u32 == REG_TAG {
        Value::Register((x & 0xFFFFu32) as u16)
    } else if x & 0xE000_0000u32 == RNG_TAG {
        Value::Random((x & 0x1FFF_FFFFu32) as i32)
    } else {
        Value::Literal(x as i32)
    }
}

/// The name of the label of subroutine `k`.
pub open spec fn label_text(k: nat) -> Seq<char> {
    seq!['L', 'A', 'B', 'E', 'L', '_'] + zero_padded(k, 4)
}

/// `s` between double quotes, escaped.
pub open spec fn quoted(s: Seq<char>) -> Seq<char> {
    seq!['"'] + escaped_string(s) + seq!['"']
}

/// Decoding one operand of kind `kind` at `pos` in the parameters `p`: its text and where
/// the next operand starts. A string operand takes the rest of the parameters.
pub open spec fn operand_step(kind: Operand, p: Seq<u8>, pos: int) -> Result<(Seq<char>, int), DisasmError> {
    match kind {
        Operand::Byte => if pos + 1 > p.len() {
            Err(DisasmError::MissingParams)
        } else {
            Ok((decimal(p[pos] as nat), pos + 1))
        },
        Operand::Word => if pos + 2 > p.len() {
            Err(DisasmError::MissingParams)
        } else {
            Ok((decimal(word_at(p, pos)), pos + 2))
        },
        Operand::Val => if pos + 4 > p.len() {
            Err(DisasmError::MissingParams)
        } else {
            Ok((value_text(decode_value(dword_at(p, pos))), pos + 4))
        },
        Operand::Label => if pos + 2 > p.len() {
            Err(DisasmError::MissingParams)
        } else {
            Ok((label_text(word_at(p, pos)), pos + 2))
        },
        Operand::Asset | Operand::Text => {
            let (s, bad) = shift_jis_decode(p.subrange(pos, p.len() as int));
            if bad {
                Err(DisasmError::InvalidText)
            } else {
                Ok((quoted(s), p.len() as int))
            }
        },
    }
}

/// The texts of the operands `kinds`, from the `i`-th on, decoded from `pos` in `p`.
pub open spec fn operand_texts(kinds: Seq<Operand>, i: nat, p: Seq<u8>, pos: int) -> Result<Seq<Seq<char>>, DisasmError>
    decreases kinds.len() - i,
{
    if i >= kinds.len() {
        Ok(Seq::empty())
    } else {
        match operand_step(kinds[i as int], p, pos) {
            Err(e) => Err(e),
            Ok((t, next)) => match operand_texts(kinds, i + 1, p, next) {
                Ok(rest) => Ok(seq![t] + rest),
                Err(e) => Err(e),
            },
        }
    }
}

/// The operand layouts that only the disassembler reads, for instructions the assembler does
/// not write. An asset name takes the rest of the parameters.
pub open spec fn extra_operands_of(m: Seq<char>) -> Option<Seq<Operand>> {
    if m == "SCP"@ || m == "SSP"@ {
        Some(seq![Operand::Word, Operand::Byte])
    } else if m == "VSET"@ || m == "GN"@ {
        Some(seq![Operand::Val, Operand::Val, Operand::Val])
    } else if m == "GF"@ || m == "GI"@ || m == "MS"@ || m == "PCMEND"@ || m == "IGINIT"@ || m == "IGRELEASE"@ || m == "IHGC"@ || m == "OPPROP"@ || m == "AWAIT"@ {
        Some(seq![])
    } else if m == "GC"@ {
        Some(seq![Operand::Val, Operand::Byte, Operand::Byte, Operand::Byte])
    } else if m == "GO"@ {
        Some(seq![Operand::Val, Operand::Byte, Operand::Byte, Operand::Byte, Operand::Byte])
    } else if m == "GL"@ || m == "GAOPEN"@ {
        Some(seq![Operand::Val, Operand::Asset])
    } else if m == "GB"@ {
        Some(seq![Operand::Val, Operand::Byte, Operand::Byte, Operand::Byte, Operand::Byte, Operand::Val, Operand::Val, Operand::Val, Operand::Val])
    } else if m == "GPB"@ || m == "MF"@ || m == "SED"@ || m == "PCMS"@ || m == "IHKDEF"@ || m == "IGN"@ || m == "DAS"@ || m == "TIMERSET"@ || m == "ATIMES"@ {
        Some(seq![Operand::Val])
    } else if m == "GGE"@ {
        Some(seq![Operand::Val, Operand::Val, Operand::Val, Operand::Val, Operand::Val, Operand::Asset])
    } else if m == "GV"@ {
        Some(seq![Operand::Word, Operand::Byte, Operand::Byte, Operand::Val])
    } else if m == "PCMON"@ || m == "OPSL"@ || m == "PPF"@ || m == "SVF"@ {
        Some(seq![Operand::Byte])
    } else if m == "PCML"@ {
        Some(seq![Operand::Asset])
    } else if m == "SES"@ || m == "IXY"@ {
        Some(seq![Operand::Val, Operand::Val])
    } else if m == "IM"@ || m == "CNF"@ {
        Some(seq![Operand::Byte, Operand::Asset])
    } else if m == "IH"@ {
        Some(seq![Operand::Byte, Operand::Val, Operand::Val, Operand::Val, Operand::Val, Operand::Byte, Operand::Word, Operand::Byte, Operand::Byte, Operand::Byte])
    } else if m == "IG"@ {
        Some(seq![Operand::Word, Operand::Word, Operand::Byte, Operand::Byte])
    } else if m == "IHK"@ {
        Some(seq![Operand::Byte, Operand::Val, Operand::Val, Operand::Val, Operand::Val, Operand::Val, Operand::Val, Operand::Val, Operand::Val])
    } else if m == "CLK"@ || m == "SETINSIDEVOL"@ {
        Some(seq![Operand::Byte, Operand::Val])
    } else if m == "KIDHABA"@ {
        Some(seq![Operand::Byte, Operand::Word, Operand::Word])
    } else if m == "SETKIDWNDPUTPOS"@ || m == "SETMESWNDPUTPOS"@ {
        Some(seq![Operand::Byte, Operand::Val, Operand::Val, Operand::Val, Operand::Val])
    } else if m == "HSG"@ {
        Some(seq![Operand::Word, Operand::Word, Operand::Val])
    } else if m == "HT"@ {
        Some(seq![Operand::Word, Operand::Word, Operand::Word])
    } else if m == "EXA"@ {
        Some(seq![Operand::Word, Operand::Word])
    } else if m == "EXS"@ || m == "EXC"@ {
        Some(seq![Operand::Val, Operand::Val, Operand::Val, Operand::Byte])
    } else if m == "SETFONTSTYLE"@ {
        Some(seq![Operand::Byte, Operand::Byte])
    } else if m == "TIMERGET"@ {
        Some(seq![Operand::Word])
    } else if m == "AVIP"@ {
        Some(seq![Operand::Val, Operand::Val, Operand::Val, Operand::Val, Operand::Asset])
    } else if m == "KIDSCAN"@ {
        Some(seq![Operand::Word, Operand::Val])
    } else {
        None
    }
}

/// The operand layout the disassembler reads for the instruction `m`: the assembler's, or
/// one that only the disassembler reads.
pub open spec fn listing_operands_of(m: Seq<char>) -> Option<Seq<Operand>> {
    match operands_of(m) {
        Some(kinds) => Some(kinds),
        None => extra_operands_of(m),
    }
}

fn is_name(m: &Vec<char>, name: &str) -> (r: bool)
    ensures
        r == (m@ == name@),
{
    let n = chars_of(name);
    crate::util::text::chars_eq(m.as_slice(), n.as_slice())
}

/// The operand layouts that only the disassembler reads.
fn extra_operands(m: &Vec<char>) -> (r: Option<Vec<Operand>>)
    ensures
        match extra_operands_of(m@) {
            Some(kinds) => r matches Some(v) && v@ == kinds,
            None => r is None,
        },
{
    if is_name(m, "SCP") || is_name(m, "SSP") {
        Some(vec![Operand::Word, Operand::Byte])
    } else if is_name(m, "VSET") || is_name(m, "GN") {
        Some(vec![Operand::Val, Operand::Val, Operand::Val])
    } else if is_name(m, "GF") || is_name(m, "GI") || is_name(m, "MS") || is_name(m, "PCMEND") || is_name(m, "IGINIT") || is_name(m, "IGRELEASE") || is_name(m, "IHGC") || is_name(m, "OPPROP") || is_name(m, "AWAIT") {
        Some(vec![])
    } else if is_name(m, "GC") {
        Some(vec![Operand::Val, Operand::Byte, Operand::Byte, Operand::Byte])
    } else if is_name(m, "GO") {
        Some(vec![Operand::Val, Operand::Byte, Operand::Byte, Operand::Byte, Operand::Byte])
    } else if is_name(m, "GL") || is_name(m, "GAOPEN") {
        Some(vec![Operand::Val, Operand::Asset])
    } else if is_name(m, "GB") {
        Some(vec![Operand::Val, Operand::Byte, Operand::Byte, Operand::Byte, Operand::Byte, Operand::Val, Operand::Val, Operand::Val, Operand::Val])
    } else if is_name(m, "GPB") || is_name(m, "MF") || is_name(m, "SED") || is_name(m, "PCMS") || is_name(m, "IHKDEF") || is_name(m, "IGN") || is_name(m, "DAS") || is_name(m, "TIMERSET") || is_name(m, "ATIMES") {
        Some(vec![Operand::Val])
    } else if is_name(m, "GGE") {
        Some(vec![Operand::Val, Operand::Val, Operand::Val, Operand::Val, Operand::Val, Operand::Asset])
    } else if is_name(m, "GV") {
        Some(vec![Operand::Word, Operand::Byte, Operand::Byte, Operand::Val])
    } else if is_name(m, "PCMON") || is_name(m, "OPSL") || is_name(m, "PPF") || is_name(m, "SVF") {
        Some(vec![Operand::Byte])
    } else if is_name(m, "PCML") {
        Some(vec![Operand::Asset])
    } else if is_name(m, "SES") || is_name(m, "IXY") {
        Some(vec![Operand::Val, Operand::Val])
    } else if is_name(m, "IM") || is_name(m, "CNF") {
        Some(vec![Operand::Byte, Operand::Asset])
    } else if is_name(m, "IH") {
        Some(vec![Operand::Byte, Operand::Val, Operand::Val, Operand::Val, Operand::Val, Operand::Byte, Operand::Word, Operand::Byte, Operand::Byte, Operand::Byte])
    } else if is_name(m, "IG") {
        Some(vec![Operand::Word, Operand::Word, Operand::Byte, Operand::Byte])
    } else if is_name(m, "IHK") {
        Some(vec![Operand::Byte, Operand::Val, Operand::Val, Operand::Val, Operand::Val, Operand::Val, Operand::Val, Operand::Val, Operand::Val])
    } else if is_name(m, "CLK") || is_name(m, "SETINSIDEVOL") {
        Some(vec![Operand::Byte, Operand::Val])
    } else if is_name(m, "KIDHABA") {
        Some(vec![Operand::Byte, Operand::Word, Operand::Word])
    } else if is_name(m, "SETKIDWNDPUTPOS") || is_name(m, "SETMESWNDPUTPOS") {
        Some(vec![Operand::Byte, Operand::Val, Operand::Val, Operand::Val, Operand::Val])
    } else if is_name(m, "HSG") {
        Some(vec![Operand::Word, Operand::Word, Operand::Val])
    } else if is_name(m, "HT") {
        Some(vec![Operand::Word, Operand::Word, Operand::Word])
    } else if is_name(m, "EXA") {
        Some(vec![Operand::Word, Operand::Word])
    } else if is_name(m, "EXS") || is_name(m, "EXC") {
        Some(vec![Operand::Val, Operand::Val, Operand::Val, Operand::Byte])
    } else if is_name(m, "SETFONTSTYLE") {
        Some(vec![Operand::Byte, Operand::Byte])
    } else if is_name(m, "TIMERGET") {
        Some(vec![Operand::Word])
    } else if is_name(m, "AVIP") {
        Some(vec![Operand::Val, Operand::Val, Operand::Val, Operand::Val, Operand::Asset])
    } else if is_name(m, "KIDSCAN") {
        Some(vec![Operand::Word, Operand::Val])
    } else {
        None
    }
}

/// The operand layout the disassembler reads for the instruction `m`.
fn listing_operands(m: &Vec<char>) -> (r: Option<Vec<Operand>>)
    ensures
        match listing_operands_of(m@) {
            Some(kinds) => r matches Some(v) && v@ == kinds,
            None => r is None,
        },
{
    match operands(m) {
        Some(kinds) => Some(kinds),
        None => extra_operands(m),
    }
}

/// The texts of the operands of a branching instruction: the switch value, then the label
/// of each branch, as many as the count byte after the value says.
pub open spec fn branch_texts(p: Seq<u8>) -> Result<Seq<Seq<char>>, DisasmError> {
    if p.len() < 5 {
        Err(DisasmError::MissingParams)
    } else if 5 + 2 * p[4] > p.len() {
        Err(DisasmError::MissingParams)
    } else {
        Ok(seq![value_text(decode_value(dword_at(p, 0)))] + Seq::new(
            p[4] as nat,
            |j: int| label_text(word_at(p, 5 + 2 * j)),
        ))
    }
}

/// The bytes of character `index` of the character table `charset`; none past its end.
pub open spec fn charset_bytes(charset: Seq<Vec<u8>>, index: u8) -> Seq<u8> {
    if (index as int) < charset.len() {
        charset[index as int]@
    } else {
        Seq::empty()
    }
}

/// The longest message text, in Shift JIS bytes, that is decoded.
pub const MAX_MESSAGE_BYTES: usize = 0x100_0000;

/// `pre` put before the bytes of `r`.
pub open spec fn prefixed_bytes(pre: Seq<u8>, r: Result<(Seq<u8>, int), DisasmError>) -> Result<
    (Seq<u8>, int),
    DisasmError,
> {
    match r {
        Ok((bytes, next)) => Ok((pre + bytes, next)),
        Err(e) => Err(e),
    }
}

/// The Shift JIS text of a message from `pos` in `p`, up to its terminating zero, and where
/// its encoding ends: a byte from 1 to 0x7e stands for that character of `charset`, 0x7f
/// takes the next byte as it is, and a byte from 0x80 on starts a two-byte character.
pub open spec fn message_bytes(p: Seq<u8>, pos: int, charset: Seq<Vec<u8>>) -> Result<(Seq<u8>, int), DisasmError>
    decreases p.len() - pos,
{
    if pos < 0 || pos >= p.len() {
        Err(DisasmError::MissingParams)
    } else if p[pos] == 0 {
        Ok((Seq::empty(), pos + 1))
    } else if p[pos] < 0x7F {
        prefixed_bytes(charset_bytes(charset, p[pos]), message_bytes(p, pos + 1, charset))
    } else if pos + 1 >= p.len() {
        Err(DisasmError::MissingParams)
    } else if p[pos] == 0x7F {
        prefixed_bytes(seq![p[pos + 1]], message_bytes(p, pos + 2, charset))
    } else {
        prefixed_bytes(seq![p[pos], p[pos + 1]], message_bytes(p, pos + 2, charset))
    }
}

/// `texts` put before the texts of `r`.
pub open spec fn prefixed_texts(texts: Seq<Seq<char>>, r: Result<Seq<Seq<char>>, DisasmError>) -> Result<
    Seq<Seq<char>>,
    DisasmError,
> {
    match r {
        Ok(rest) => Ok(texts + rest),
        Err(e) => Err(e),
    }
}

/// Decoding one message command, not the ending 0, at `pos` in `p`: its operand texts and
/// where the next command starts. Command 1 takes four bytes, 4 one byte, 8 and 0x11 a
/// value, and 0xff a message, written between brackets; any other command stands alone. (The
/// engine follows command 0x13 with an asset name whose layout is not known here; it too is
/// read as a lone command.)
pub open spec fn command_step(p: Seq<u8>, pos: int, charset: Seq<Vec<u8>>) -> Result<(Seq<Seq<char>>, int), DisasmError> {
    let cmd = p[pos];
    if cmd == 1 {
        if pos + 5 > p.len() {
            Err(DisasmError::MissingParams)
        } else {
            Ok((
                seq![decimal(1), decimal(p[pos + 1] as nat), decimal(p[pos + 2] as nat), decimal(p[pos + 3] as nat), decimal(p[pos + 4] as nat)],
                pos + 5,
            ))
        }
    } else if cmd == 4 {
        if pos + 2 > p.len() {
            Err(DisasmError::MissingParams)
        } else {
            Ok((seq![decimal(4), decimal(p[pos + 1] as nat)], pos + 2))
        }
    } else if cmd == 8 || cmd == 0x11 {
        if pos + 5 > p.len() {
            Err(DisasmError::MissingParams)
        } else {
            Ok((seq![decimal(cmd as nat), value_text(decode_value(dword_at(p, pos + 1)))], pos + 5))
        }
    } else if cmd == 0xFF {
        match message_bytes(p, pos + 1, charset) {
            Err(e) => Err(e),
            Ok((bytes, next)) => if bytes.len() > MAX_MESSAGE_BYTES {
                Err(DisasmError::InvalidText)
            } else {
                let (text, bad) = shift_jis_decode(bytes);
                if bad {
                    Err(DisasmError::InvalidText)
                } else {
                    Ok((seq![seq!['['] + escaped_message(text) + seq![']']], next))
                }
            },
        }
    } else {
        Ok((seq![decimal(cmd as nat)], pos + 1))
    }
}

/// The operand texts of the commands of a message instruction from `pos` in `p`, up to the
/// command 0 that ends them. The next instruction starts where the length says, whatever
/// follows the command 0.
pub open spec fn message_texts(p: Seq<u8>, pos: int, charset: Seq<Vec<u8>>) -> Result<Seq<Seq<char>>, DisasmError>
    decreases p.len() - pos,
{
    if pos < 0 || pos >= p.len() {
        Err(DisasmError::MissingParams)
    } else if p[pos] == 0 {
        Ok(Seq::empty())
    } else {
        match command_step(p, pos, charset) {
            Err(e) => Err(e),
            Ok((texts, next)) => if next <= pos || next > p.len() {
                Err(DisasmError::MissingParams)
            } else {
                prefixed_texts(texts, message_texts(p, next, charset))
            },
        }
    }
}

/// The operand texts of a message instruction: a byte, then its commands.
pub open spec fn pm_texts(p: Seq<u8>, charset: Seq<Vec<u8>>) -> Result<Seq<Seq<char>>, DisasmError> {
    if p.len() < 1 {
        Err(DisasmError::MissingParams)
    } else {
        prefixed_texts(seq![decimal(p[0] as nat)], message_texts(p, 1, charset))
    }
}

/// Whether `m` is the message instruction.
pub open spec fn is_message(m: Seq<char>) -> bool {
    m == "PM"@
}

/// The operand texts of the instruction `name` with parameters `p`: by its operand layout
/// (`listing_operands_of`), or all its parameter bytes in hexadecimal when it has none.
pub open spec fn params_texts(name: Seq<char>, p: Seq<u8>, charset: Seq<Vec<u8>>) -> Result<Seq<Seq<char>>, DisasmError> {
    if is_branching(name) {
        branch_texts(p)
    } else if is_message(name) {
        pm_texts(p, charset)
    } else {
        match listing_operands_of(name) {
            Some(kinds) => operand_texts(kinds, 0, p, 0),
            None => Ok(seq![bytes_text(p)]),
        }
    }
}

/// What one instruction decodes to.
pub enum Step {
    /// Its line, and where the next instruction starts.
    Line(Seq<char>, int),
    /// A length of zero: the bytecode ends here.
    End,
    /// It could not be decoded.
    Failed(DisasmError),
}

/// The total length of the instruction at `ip` and how many bytes its opcode and length
/// take, when the length is there.
pub open spec fn length_at(code: Seq<u8>, ip: int) -> Option<(int, int)> {
    if ip + 1 >= code.len() {
        None
    } else if code[ip + 1] < 0x80 {
        Some((code[ip + 1] as int, 2))
    } else if ip + 2 >= code.len() {
        None
    } else {
        Some((code[ip + 1] + 256 * (code[ip + 2] % 128), 3))
    }
}

/// Decoding the instruction at `ip`.
pub open spec fn step_at(code: Seq<u8>, names: Seq<String>, charset: Seq<Vec<u8>>, ip: int) -> Step {
    match length_at(code, ip) {
        None => Step::Failed(DisasmError::EndOfScenario),
        Some((len, header)) => if len == 0 {
            Step::End
        } else if len < header {
            Step::Failed(DisasmError::InvalidLength)
        } else if ip + len > code.len() {
            Step::Failed(DisasmError::EndOfScenario)
        } else {
            let op = code[ip];
            let name = name_for(names, op);
            match params_texts(name, code.subrange(ip + header, ip + len), charset) {
                Ok(ps) => Step::Line(line_text(mnemonic_text(name, op), join_params(ps)), ip + len),
                Err(e) => Step::Failed(e),
            }
        },
    }
}

/// The label line of subroutine `k`.
pub open spec fn label_line(k: nat) -> Seq<char> {
    seq!['#'] + label_text(k) + seq![':', '\n']
}

/// The label lines of the subroutines from `k` on that start at `ip`, one after the other,
/// and the first subroutine after them.
pub open spec fn labels_from(subs: Seq<usize>, k: nat, ip: int) -> (Seq<char>, nat)
    decreases subs.len() - k,
{
    if k < subs.len() && subs[k as int] == ip {
        let (rest, next) = labels_from(subs, k + 1, ip);
        (label_line(k) + rest, next)
    } else {
        (Seq::empty(), k)
    }
}

/// `pre` put before the text of `r`.
pub open spec fn prefixed(pre: Seq<char>, r: Result<Seq<char>, DisasmError>) -> Result<Seq<char>, DisasmError> {
    match r {
        Ok(t) => Ok(pre + t),
        Err(e) => Err(e),
    }
}

/// The text of the instructions from `ip` on, the labels from subroutine `k` on still to be
/// placed. Label lines that follow an instruction are set off by an empty line.
pub open spec fn listing(
    code: Seq<u8>,
    subs: Seq<usize>,
    names: Seq<String>,
    charset: Seq<Vec<u8>>,
    ip: int,
    k: nat,
) -> Result<
    Seq<char>,
    DisasmError,
>
    decreases code.len() - ip,
{
    if ip < 0 || ip >= code.len() {
        Ok(Seq::empty())
    } else {
        match step_at(code, names, charset, ip) {
            Step::End => Ok(Seq::empty()),
            Step::Failed(e) => Err(e),
            Step::Line(t, next) => if next <= ip || next > code.len() {
                Ok(Seq::empty())
            } else {
                let (l, k2) = labels_from(subs, k, next);
                let gap = if l.len() > 0 {
                    seq!['\n'] + l
                } else {
                    l
                };
                prefixed(t + gap, listing(code, subs, names, charset, next, k2))
            },
        }
    }
}

/// The text of a scenario with bytecode `code` and subroutine offsets `subs`, the
/// instruction names `names` indexed by opcode and the message character table `charset`:
/// the labels of the subroutines at the start, then the listing.
pub open spec fn disassembly(code: Seq<u8>, subs: Seq<usize>, names: Seq<String>, charset: Seq<Vec<u8>>) -> Result<
    Seq<char>,
    DisasmError,
> {
    let (l, k) = labels_from(subs, 0, 0);
    prefixed(l, listing(code, subs, names, charset, 0, k))
}

/// The decoded instruction, as `step_at` describes it.
enum Decoded {
    Line(Vec<char>, usize),
    End,
    Failed(DisasmError),
}

/// The `u16` at `pos` in `p`.
fn read_word(p: &[u8], pos: usize) -> (w: u16)
    requires
        pos + 2 <= p@.len(),
    ensures
        w == word_at(p@, pos as int),
{
    p[pos] as u16 + p[pos + 1] as u16 * 256
}

/// The `u32` at `pos` in `p`.
fn read_dword(p: &[u8], pos: usize) -> (d: u32)
    requires
        pos + 4 <= p@.len(),
    ensures
        d == dword_at(p@, pos as int),
{
    p[pos] as u32 + p[pos + 1] as u32 * 256 + p[pos + 2] as u32 * 65536 + p[pos + 3] as u32 * 16777216
}

/// The value operand stored as `x`.
pub fn value_from_word(x: u32) -> (v: Value)
    ensures
        v == decode_value(x),
{
    if x & 0xFFFF_0000u32 == REG_TAG {
        Value::Register((x & 0xFFFFu32) as u16)
    } else if x & 0xE000_0000u32 == RNG_TAG {
        Value::Random((x & 0x1FFF_FFFFu32) as i32)
    } else {
        Value::Literal(x as i32)
    }
}

/// The name of the label of subroutine `k`.
fn label_chars(k: u64) -> (s: Vec<char>)
    ensures
        s@ == label_text(k as nat),
{
    let mut out = vec!['L', 'A', 'B', 'E', 'L', '_'];
    push_all(&mut out, zero_padded_chars(k, 4).as_slice());
    out
}

/// Decodes one operand of kind `kind` at `pos` in `p`.
fn operand_text(kind: Operand, p: &[u8], pos: usize) -> (r: Result<(String, usize), DisasmError>)
    requires
        pos <= p@.len(),
        p@.len() <= 0x8000,
    ensures
        match operand_step(kind, p@, pos as int) {
            Ok((t, next)) => r matches Ok((s, n)) && s@ == t && n == next,
            Err(e) => r == Err::<(String, usize), DisasmError>(e),
        },
{
    match kind {
        Operand::Byte => {
            if pos + 1 > p.len() {
                return Err(DisasmError::MissingParams);
            }
            Ok((string_of(decimal_chars(p[pos] as u64).as_slice()), pos + 1))
        },
        Operand::Word => {
            if pos + 2 > p.len() {
                return Err(DisasmError::MissingParams);
            }
            let w = read_word(p, pos);
            Ok((string_of(decimal_chars(w as u64).as_slice()), pos + 2))
        },
        Operand::Val => {
            if pos + 4 > p.len() {
                return Err(DisasmError::MissingParams);
            }
            let v = value_from_word(read_dword(p, pos));
            Ok((display_value(v), pos + 4))
        },
        Operand::Label => {
            if pos + 2 > p.len() {
                return Err(DisasmError::MissingParams);
            }
            let w = read_word(p, pos);
            Ok((string_of(label_chars(w as u64).as_slice()), pos + 2))
        },
        Operand::Asset | Operand::Text => {
            let rest = slice_subrange(p, pos, p.len());
            match display_bytes_as_string(rest) {
                Ok(s) => Ok((s, p.len())),
                Err(_) => Err(DisasmError::InvalidText),
            }
        },
    }
}

/// `params` added to an operand list whose texts so far are `done`.
pub open spec fn prepend_texts(done: Seq<Seq<char>>, r: Result<Seq<Seq<char>>, DisasmError>) -> Result<
    Seq<Seq<char>>,
    DisasmError,
> {
    match r {
        Ok(rest) => Ok(done + rest),
        Err(e) => Err(e),
    }
}

proof fn lemma_join_push(ps: Seq<Seq<char>>, t: Seq<char>)
    ensures
        join_params(ps.push(t)) == add_text(join_params(ps), t),
{
    assert(ps.push(t).drop_last() =~= ps);
}

/// Adds the operand texts of `p` to `fmt`, by the operand layout `kinds`.
fn add_operands(kinds: &Vec<Operand>, p: &[u8], fmt: &mut Formatter) -> (r: Result<(), DisasmError>)
    requires
        old(fmt).params().len() == 0,
        p@.len() <= 0x8000,
    ensures
        final(fmt).mnemonic() == old(fmt).mnemonic(),
        match operand_texts(kinds@, 0, p@, 0) {
            Ok(ps) => r is Ok && final(fmt).params() == join_params(ps),
            Err(e) => r == Err::<(), DisasmError>(e),
        },
{
    let ghost mut done: Seq<Seq<char>> = Seq::empty();
    let mut i: usize = 0;
    let mut pos: usize = 0;
    proof {
        match operand_texts(kinds@, 0, p@, 0) {
            Ok(ps) => { assert(done + ps =~= ps); },
            Err(_) => {},
        }
    }
    while i < kinds.len()
        invariant
            i <= kinds@.len(),
            pos <= p@.len(),
            p@.len() <= 0x8000,
            fmt.mnemonic() == old(fmt).mnemonic(),
            fmt.params() == join_params(done),
            operand_texts(kinds@, 0, p@, 0) == prepend_texts(done, operand_texts(kinds@, i as nat, p@, pos as int)),
        decreases kinds@.len() - i,
    {
        match operand_text(kinds[i], p, pos) {
            Ok((s, next)) => {
                proof {
                    lemma_join_push(done, s@);
                    match operand_texts(kinds@, (i + 1) as nat, p@, next as int) {
                        Ok(rest) => { assert(done + (seq![s@] + rest) =~= done.push(s@) + rest); },
                        Err(_) => {},
                    }
                    done = done.push(s@);
                }
                fmt.add_param(s.as_str());
                pos = next;
            },
            Err(e) => {
                return Err(e);
            },
        }
        i += 1;
    }
    proof {
        assert(done + Seq::<Seq<char>>::empty() =~= done);
    }
    Ok(())
}

/// Adds the operand texts of the branching instruction with parameters `p` to `fmt`.
fn add_branches(p: &[u8], fmt: &mut Formatter) -> (r: Result<(), DisasmError>)
    requires
        old(fmt).params().len() == 0,
    ensures
        final(fmt).mnemonic() == old(fmt).mnemonic(),
        match branch_texts(p@) {
            Ok(ps) => r is Ok && final(fmt).params() == join_params(ps),
            Err(e) => r == Err::<(), DisasmError>(e),
        },
{
    if p.len() < 5 {
        return Err(DisasmError::MissingParams);
    }
    let n = p[4] as usize;
    if 5 + 2 * n > p.len() {
        return Err(DisasmError::MissingParams);
    }
    let first = display_value(value_from_word(read_dword(p, 0)));
    let ghost all = seq![value_text(decode_value(dword_at(p@, 0)))] + Seq::new(
        p@[4] as nat,
        |j: int| label_text(word_at(p@, 5 + 2 * j)),
    );
    proof {
        lemma_join_push(Seq::empty(), first@);
        assert(Seq::<Seq<char>>::empty().push(first@) =~= all.take(1));
    }
    fmt.add_param(first.as_str());
    let mut j: usize = 0;
    while j < n
        invariant
            j <= n,
            n == p@[4],
            5 + 2 * n <= p@.len(),
            all.len() == n + 1,
            all == seq![value_text(decode_value(dword_at(p@, 0)))] + Seq::new(
                p@[4] as nat,
                |j: int| label_text(word_at(p@, 5 + 2 * j)),
            ),
            fmt.mnemonic() == old(fmt).mnemonic(),
            fmt.params() == join_params(all.take(j + 1)),
        decreases n - j,
    {
        let w = read_word(p, 5 + 2 * j);
        let label = string_of(label_chars(w as u64).as_slice());
        proof {
            lemma_join_push(all.take(j + 1), label@);
            assert(all.take(j + 1).push(label@) =~= all.take(j + 2));
        }
        fmt.add_param(label.as_str());
        j += 1;
    }
    proof {
        assert(all.take(n + 1) =~= all);
    }
    Ok(())
}

/// Appends the operand `s` to `fmt`, whose operands so far are `done`.
fn push_param(fmt: &mut Formatter, s: &str, Ghost(done): Ghost<Seq<Seq<char>>>)
    requires
        old(fmt).params() == join_params(done),
    ensures
        final(fmt).params() == join_params(done.push(s@)),
        final(fmt).mnemonic() == old(fmt).mnemonic(),
{
    proof {
        lemma_join_push(done, s@);
    }
    fmt.add_param(s);
}

/// The decimal text of `b`.
fn byte_string(b: u8) -> (s: String)
    ensures
        s@ == decimal(b as nat),
{
    string_of(decimal_chars(b as u64).as_slice())
}

/// The Shift JIS bytes of the message from `pos` in `p`, and where it ends.
fn message_of(p: &[u8], pos: usize, charset: &[Vec<u8>]) -> (r: Result<(Vec<u8>, usize), DisasmError>)
    requires
        pos <= p@.len(),
    ensures
        match message_bytes(p@, pos as int, charset@) {
            Ok((b, n)) => r matches Ok((v, m)) && v@ == b && m == n,
            Err(e) => r == Err::<(Vec<u8>, usize), DisasmError>(e),
        },
{
    let mut acc: Vec<u8> = Vec::new();
    let mut i = pos;
    let empty: Vec<u8> = Vec::new();
    proof {
        match message_bytes(p@, pos as int, charset@) {
            Ok((b, n)) => { assert(Seq::<u8>::empty() + b =~= b); },
            Err(_) => {},
        }
    }
    loop
        invariant
            pos <= i <= p@.len(),
            empty@ == Seq::<u8>::empty(),
            message_bytes(p@, pos as int, charset@) == prefixed_bytes(acc@, message_bytes(p@, i as int, charset@)),
        decreases p@.len() - i,
    {
        if i >= p.len() {
            return Err(DisasmError::MissingParams);
        }
        let b = p[i];
        if b == 0 {
            proof {
                assert(acc@ + Seq::<u8>::empty() =~= acc@);
            }
            return Ok((acc, i + 1));
        }
        let ghost before = acc@;
        let ghost old_i = i as int;
        let ghost added: Seq<u8>;
        if b < 0x7F {
            let chars: &[u8] = if (b as usize) < charset.len() {
                charset[b as usize].as_slice()
            } else {
                empty.as_slice()
            };
            assert(chars@ == charset_bytes(charset@, b));
            acc.put_bytes(chars);
            proof {
                added = chars@;
            }
            i += 1;
        } else {
            if i >= p.len() - 1 {
                return Err(DisasmError::MissingParams);
            }
            if b == 0x7F {
                acc.push(p[i + 1]);
                proof {
                    added = seq![p@[old_i + 1]];
                }
            } else {
                acc.push(b);
                acc.push(p[i + 1]);
                proof {
                    added = seq![b, p@[old_i + 1]];
                }
            }
            i += 2;
        }
        proof {
            assert(acc@ =~= before + added);
            assert(message_bytes(p@, old_i, charset@) == prefixed_bytes(added, message_bytes(p@, i as int, charset@)));
            match message_bytes(p@, i as int, charset@) {
                Ok((rest, n)) => {
                    assert(before + (added + rest) =~= acc@ + rest);
                },
                Err(_) => {},
            }
        }
    }
}

/// The operand texts of the message command at `pos` in `p`, which is not 0, and where the
/// next command starts.
fn command_of(p: &[u8], pos: usize, charset: &[Vec<u8>]) -> (r: Result<(Vec<String>, usize), DisasmError>)
    requires
        pos < p@.len(),
    ensures
        match command_step(p@, pos as int, charset@) {
            Ok((texts, next)) => r matches Ok((v, n)) && n == next && v@.len() == texts.len() && forall|i: int|
                0 <= i < texts.len() ==> #[trigger] v@[i]@ == texts[i],
            Err(e) => r == Err::<(Vec<String>, usize), DisasmError>(e),
        },
{
    let cmd = p[pos];
    let left = p.len() - pos;
    if cmd == 1 {
        if left < 5 {
            return Err(DisasmError::MissingParams);
        }
        let v = vec![
            byte_string(1),
            byte_string(p[pos + 1]),
            byte_string(p[pos + 2]),
            byte_string(p[pos + 3]),
            byte_string(p[pos + 4]),
        ];
        Ok((v, pos + 5))
    } else if cmd == 4 {
        if left < 2 {
            return Err(DisasmError::MissingParams);
        }
        Ok((vec![byte_string(4), byte_string(p[pos + 1])], pos + 2))
    } else if cmd == 8 || cmd == 0x11 {
        if left < 5 {
            return Err(DisasmError::MissingParams);
        }
        let value = display_value(value_from_word(read_dword(p, pos + 1)));
        Ok((vec![byte_string(cmd), value], pos + 5))
    } else if cmd == 0xFF {
        let (bytes, next) = match message_of(p, pos + 1, charset) {
            Ok(found) => found,
            Err(e) => return Err(e),
        };
        if bytes.len() > MAX_MESSAGE_BYTES {
            return Err(DisasmError::InvalidText);
        }
        let text = match sjis_to_utf8(bytes.as_slice()) {
            Ok(t) => t,
            Err(_) => return Err(DisasmError::InvalidText),
        };
        Ok((vec![display_message(text.as_str())], next))
    } else {
        Ok((vec![byte_string(cmd)], pos + 1))
    }
}

/// Adds the operand texts of the message instruction with parameters `p` to `fmt`.
fn add_pm(p: &[u8], charset: &[Vec<u8>], fmt: &mut Formatter) -> (r: Result<(), DisasmError>)
    requires
        old(fmt).params().len() == 0,
    ensures
        final(fmt).mnemonic() == old(fmt).mnemonic(),
        match pm_texts(p@, charset@) {
            Ok(ps) => r is Ok && final(fmt).params() == join_params(ps),
            Err(e) => r == Err::<(), DisasmError>(e),
        },
{
    if p.len() < 1 {
        return Err(DisasmError::MissingParams);
    }
    let first = byte_string(p[0]);
    proof {
        assert(fmt.params() =~= join_params(Seq::<Seq<char>>::empty()));
    }
    push_param(fmt, first.as_str(), Ghost(Seq::empty()));
    let ghost mut done: Seq<Seq<char>> = seq![first@];
    proof {
        assert(Seq::<Seq<char>>::empty().push(first@) =~= done);
        match message_texts(p@, 1, charset@) {
            Ok(rest) => { assert(seq![first@] + rest =~= done + rest); },
            Err(_) => {},
        }
    }
    let mut pos: usize = 1;
    loop
        invariant
            1 <= pos <= p@.len(),
            fmt.mnemonic() == old(fmt).mnemonic(),
            fmt.params() == join_params(done),
            pm_texts(p@, charset@) == prefixed_texts(done, message_texts(p@, pos as int, charset@)),
        decreases p@.len() - pos,
    {
        if pos >= p.len() {
            return Err(DisasmError::MissingParams);
        }
        if p[pos] == 0 {
            proof {
                assert(done + Seq::<Seq<char>>::empty() =~= done);
            }
            return Ok(());
        }
        let (texts, next) = match command_of(p, pos, charset) {
            Ok(found) => found,
            Err(e) => return Err(e),
        };
        if next <= pos || next > p.len() {
            return Err(DisasmError::MissingParams);
        }
        let ghost before = done;
        let ghost tseq = command_step(p@, pos as int, charset@)->Ok_0.0;
        let mut j: usize = 0;
        while j < texts.len()
            invariant
                j <= texts@.len(),
                texts@.len() == tseq.len(),
                forall|i: int| 0 <= i < tseq.len() ==> #[trigger] texts@[i]@ == tseq[i],
                fmt.mnemonic() == old(fmt).mnemonic(),
                fmt.params() == join_params(before + tseq.take(j as int)),
            decreases texts@.len() - j,
        {
            proof {
                assert((before + tseq.take(j as int)).push(texts@[j as int]@) =~= before + tseq.take(j + 1));
            }
            push_param(fmt, texts[j].as_str(), Ghost(before + tseq.take(j as int)));
            j += 1;
        }
        proof {
            assert(tseq.take(tseq.len() as int) =~= tseq);
            done = before + tseq;
            match message_texts(p@, next as int, charset@) {
                Ok(rest) => { assert(before + (tseq + rest) =~= done + rest); },
                Err(_) => {},
            }
        }
        pos = next;
    }
}

/// Decodes the instruction at `ip`.
fn step(code: &Vec<u8>, names: &[String], charset: &[Vec<u8>], ip: usize) -> (r: Decoded)
    requires
        ip < code@.len(),
    ensures
        match step_at(code@, names@, charset@, ip as int) {
            Step::Line(t, next) => r matches Decoded::Line(s, n) && s@ == t && n == next && ip < n
                <= code@.len(),
            Step::End => r is End,
            Step::Failed(e) => r matches Decoded::Failed(f) && f == e,
        },
{
    let n = code.len();
    if ip + 1 >= n {
        return Decoded::Failed(DisasmError::EndOfScenario);
    }
    let b0 = code[ip + 1];
    let (len, header): (usize, usize) = if b0 < 0x80 {
        (b0 as usize, 2)
    } else {
        if ip + 2 >= n {
            return Decoded::Failed(DisasmError::EndOfScenario);
        }
        (b0 as usize + 256 * (code[ip + 2] % 128) as usize, 3)
    };
    if len == 0 {
        return Decoded::End;
    }
    if len < header {
        return Decoded::Failed(DisasmError::InvalidLength);
    }
    if len > n - ip {
        return Decoded::Failed(DisasmError::EndOfScenario);
    }
    let op = code[ip];
    let p = slice_subrange(code.as_slice(), ip + header, ip + len);
    let name: &str = if (op as usize) < names.len() {
        names[op as usize].as_str()
    } else {
        ""
    };
    proof {
        reveal_strlit("");
        assert(name@ == name_for(names@, op));
    }
    let mut fmt = Formatter::new(name, op);
    let mnemonic = chars_of(name);
    let res = if mnemonic.len() == 4 && mnemonic[0] == 'O' && mnemonic[1] == 'N' && mnemonic[2] == 'J'
        && (mnemonic[3] == 'P' || mnemonic[3] == 'S') {
        proof {
            assert(is_branching(name@)) by {
                reveal_strlit("ONJP");
                reveal_strlit("ONJS");
                if mnemonic@[3] == 'P' {
                    assert(name@ =~= "ONJP"@);
                } else {
                    assert(name@ =~= "ONJS"@);
                }
            }
        }
        add_branches(p, &mut fmt)
    } else if mnemonic.len() == 2 && mnemonic[0] == 'P' && mnemonic[1] == 'M' {
        proof {
            reveal_strlit("PM");
            reveal_strlit("ONJP");
            reveal_strlit("ONJS");
            assert(name@ =~= "PM"@);
            assert(!is_branching(name@));
        }
        add_pm(p, charset, &mut fmt)
    } else {
        proof {
            reveal_strlit("PM");
            if name@ == "PM"@ {
                assert(name@[0] == 'P' && name@[1] == 'M');
            }
            assert(!is_message(name@));
        }
        proof {
            assert(!is_branching(name@)) by {
                reveal_strlit("ONJP");
                reveal_strlit("ONJS");
                if name@ == "ONJP"@ {
                    assert(name@[3] == 'P');
                }
                if name@ == "ONJS"@ {
                    assert(name@[3] == 'S');
                }
            }
        }
        match listing_operands(&mnemonic) {
            Some(kinds) => add_operands(&kinds, p, &mut fmt),
            None => {
                let text = display_bytes(p);
                proof {
                    lemma_join_push(Seq::empty(), text@);
                    assert(Seq::<Seq<char>>::empty().push(text@) =~= seq![bytes_text(p@)]);
                }
                fmt.add_param(text.as_str());
                Ok(())
            },
        }
    };
    match res {
        Ok(()) => {
            let line = fmt.write();
            Decoded::Line(chars_of(line.as_str()), ip + len)
        },
        Err(e) => Decoded::Failed(e),
    }
}

/// Writes the label lines of the subroutines from `k` on that start at `ip`, set off by an
/// empty line when `gap` holds and there is one; returns the first subroutine after them.
fn push_labels(out: &mut Vec<char>, subs: &Vec<usize>, k: usize, ip: usize, gap: bool) -> (next: usize)
    ensures
        ({
            let (l, kk) = labels_from(subs@, k as nat, ip as int);
            &&& next == kk
            &&& final(out)@ == old(out)@ + if gap && l.len() > 0 {
                seq!['\n'] + l
            } else {
                l
            }
        }),
{
    let ghost start = out@;
    let ghost mut written: Seq<char> = Seq::empty();
    let mut j = k;
    let mut first = true;
    while j < subs.len() && subs[j] == ip
        invariant
            k <= j,
            j > k ==> j <= subs@.len(),
            first == (j == k),
            labels_from(subs@, k as nat, ip as int) == (written + labels_from(subs@, j as nat, ip as int).0, labels_from(subs@, j as nat, ip as int).1),
            j == k ==> written.len() == 0,
            j > k ==> written.len() > 0,
            out@ == start + if gap && j > k {
                seq!['\n'] + written
            } else {
                written
            },
        decreases subs@.len() - j,
    {
        if first && gap {
            out.push('\n');
        }
        let ghost before = out@;
        out.push('#');
        push_all(out, label_chars(j as u64).as_slice());
        out.push(':');
        out.push('\n');
        proof {
            let (rest, nn) = labels_from(subs@, (j + 1) as nat, ip as int);
            assert(labels_from(subs@, j as nat, ip as int) == (label_line(j as nat) + rest, nn));
            assert(written + (label_line(j as nat) + rest) =~= (written + label_line(j as nat)) + rest);
            assert(out@ =~= before + label_line(j as nat));
            written = written + label_line(j as nat);
            if gap {
                assert(out@ =~= start + (seq!['\n'] + written));
            } else {
                assert(out@ =~= start + written);
            }
        }
        first = false;
        j += 1;
    }
    proof {
        assert(written + Seq::<char>::empty() =~= written);
    }
    j
}

/// The assembly text of `scenario`, with the instruction names `names` indexed by opcode and
/// the characters `charset` that messages refer to by index.
/// Refused when an instruction is cut short, shorter than its header, has fewer parameter
/// bytes than its operands need, or holds a string that is not Shift JIS.
pub fn disassemble(scenario: &crate::gdl::scenario::Scenario, names: &[String], charset: &[Vec<u8>]) -> (r: Result<
    String,
    DisasmError,
>)
    ensures
        match disassembly(scenario.code@, scenario.subroutines@, names@, charset@) {
            Ok(t) => r matches Ok(s) && s@ == t,
            Err(e) => r == Err::<String, DisasmError>(e),
        },
{
    let code = &scenario.code;
    let subs = &scenario.subroutines;
    let mut out: Vec<char> = Vec::new();
    let mut k = push_labels(&mut out, subs, 0, 0, false);
    let mut ip: usize = 0;
    proof {
        assert(Seq::<char>::empty() + labels_from(subs@, 0, 0).0 =~= labels_from(subs@, 0, 0).0);
    }
    while ip < code.len()
        invariant_except_break
            disassembly(code@, subs@, names@, charset@) == prefixed(
                out@,
                listing(code@, subs@, names@, charset@, ip as int, k as nat),
            ),
        invariant
            code == &scenario.code,
            subs == &scenario.subroutines,
        ensures
            disassembly(code@, subs@, names@, charset@) == Ok::<Seq<char>, DisasmError>(out@),
        decreases code@.len() - ip,
    {
        match step(code, names, charset, ip) {
            Decoded::End => {
                proof {
                    assert(out@ + Seq::<char>::empty() =~= out@);
                }
                break;
            },
            Decoded::Failed(e) => {
                return Err(e);
            },
            Decoded::Line(line, next) => {
                let ghost before = out@;
                push_all(&mut out, line.as_slice());
                let ghost mid = out@;
                let k2 = push_labels(&mut out, subs, k, next, true);
                proof {
                    let (l, kk) = labels_from(subs@, k as nat, next as int);
                    let gap = if l.len() > 0 { seq!['\n'] + l } else { l };
                    match listing(code@, subs@, names@, charset@, next as int, kk) {
                        Ok(t) => {
                            assert(before + (line@ + gap + t) =~= out@ + t);
                        },
                        Err(_) => {},
                    }
                }
                k = k2;
                ip = next;
            },
        }
    }
    proof {
        if ip >= code@.len() {
            assert(out@ + Seq::<char>::empty() =~= out@);
        }
    }
    Ok(string_of(out.as_slice()))
}

/// What the assembler writes as an instruction, the disassembler cuts back out: the opcode,
/// the length and the parameters. This holds when the length fits in one byte, and when it
/// takes two and its low byte has the high bit set; a longer instruction whose length has a
/// low byte below 0x80 is read with a one-byte length instead, as the bytes alone cannot
/// tell the two apart (`lemma_long_length_ambiguous`).
pub proof fn lemma_instruction_round_trip(op: u8, params: Seq<u8>, rest: Seq<u8>)
    requires
        params.len() + 2 <= 0x7f || (params.len() + 3 <= 0x7fff && (params.len() + 3) % 256 >= 0x80),
    ensures
        ({
            let code = instruction_bytes(op, params) + rest;
            &&& code[0] == op
            &&& length_at(code, 0) matches Some((l, h)) && l == instruction_len(params) && code.subrange(
                h,
                l,
            ) == params
        }),
{
    reveal_with_fuel(le_seq, 3);
    let code = instruction_bytes(op, params) + rest;
    if params.len() + 2 <= 0x7f {
        let len = params.len() + 2;
        assert(op.le_bytes() =~= seq![op]);
        assert((len as u8).le_bytes() =~= seq![len as u8]);
        assert(code.subrange(2, len as int) =~= params);
    } else {
        let l = (params.len() + 3) as u16;
        let v = (0x8000u16 | l) as u16;
        assert(v == 0x8000 + l) by (bit_vector)
            requires
                l < 0x8000,
                v == (0x8000u16 | l),
        ;
        assert(op.le_bytes() =~= seq![op]);
        assert(v.le_bytes() =~= seq![(v % 256) as u8, ((v / 256) % 256) as u8]);
        assert(code[1] == l % 256);
        assert(code[2] == 0x80 + l / 256);
        assert(code.subrange(3, l as int) =~= params);
    }
}

/// A value operand written by the assembler reads back as the same value: any register, a
/// random bound from 0 below 2^29, and a literal from -2^29 below 2^29. (Other literals and
/// bounds share their bit patterns with the tags.)
pub proof fn lemma_value_round_trip(v: Value)
    requires
        v matches Value::Random(m) ==> 0 <= m < 0x2000_0000,
        v matches Value::Literal(n) ==> -0x2000_0000 <= n < 0x2000_0000,
    ensures
        value_bytes(v).len() == 4,
        decode_value(dword_at(value_bytes(v), 0)) == v,
{
    reveal_with_fuel(le_seq, 5);
    match v {
        Value::Register(i) => {
            let x = ((i as u32) | REG_TAG) as u32;
            assert(x == 0x4000_0000u32 + i) by (bit_vector)
                requires
                    x == ((i as u32) | 0x4000_0000u32),
            ;
            assert(x & 0xFFFF_0000u32 == 0x4000_0000u32 && (x & 0xFFFFu32) as u16 == i) by (bit_vector)
                requires
                    x == ((i as u32) | 0x4000_0000u32),
            ;
            assert(dword_at(value_bytes(v), 0) == x);
        },
        Value::Random(m) => {
            let x = (m | (RNG_TAG as i32)) as i32;
            let u = x as u32;
            assert(x == m + 0x2000_0000 && u & 0xFFFF_0000u32 != 0x4000_0000u32 && u & 0xE000_0000u32
                == 0x2000_0000u32 && (u & 0x1FFF_FFFFu32) as i32 == m) by (bit_vector)
                requires
                    0 <= m < 0x2000_0000,
                    x == (m | 0x2000_0000i32),
                    u == x as u32,
            ;
            assert(dword_at(value_bytes(v), 0) == u);
        },
        Value::Literal(n) => {
            let u = n as u32;
            assert(u & 0xFFFF_0000u32 != 0x4000_0000u32 && u & 0xE000_0000u32 != 0x2000_0000u32
                && u as i32 == n) by (bit_vector)
                requires
                    -0x2000_0000 <= n < 0x2000_0000,
                    u == n as u32,
            ;
            assert(dword_at(value_bytes(v), 0) == u);
        },
    }
}

/// A value operand makes the whole trip: the bytes the assembler writes for it, decoded by
/// the disassembler and written as text, read back in the assembler as the same value, for
/// the values that `lemma_value_round_trip` covers.
pub proof fn lemma_value_operand_round_trip(v: Value)
    requires
        v matches Value::Random(m) ==> 0 <= m < 0x2000_0000,
        v matches Value::Literal(n) ==> -0x2000_0000 <= n < 0x2000_0000,
    ensures
        crate::tools::params::value_of(value_text(decode_value(dword_at(value_bytes(v), 0))))
            == Ok::<Value, crate::tools::params::AsmError>(v),
{
    lemma_value_round_trip(v);
    crate::tools::disassembler::lemma_value_text_round_trip(v);
}

/// A number operand makes the whole trip: the byte or the word the disassembler reads at
/// `pos` is written as decimal text that the assembler reads back as the same number, and
/// the assembler writes that number as the same bytes.
pub proof fn lemma_number_operand_round_trip(p: Seq<u8>, pos: int)
    requires
        0 <= pos,
    ensures
        pos + 1 <= p.len() ==> {
            let b = p[pos];
            &&& <u8 as ParamNum>::from_decimal(decimal(b as nat)) == Some(b)
            &&& b.le_bytes() == p.subrange(pos, pos + 1)
        },
        pos + 2 <= p.len() ==> {
            let w = word_at(p, pos) as u16;
            &&& <u16 as ParamNum>::from_decimal(decimal(w as nat)) == Some(w)
            &&& w.le_bytes() == p.subrange(pos, pos + 2)
        },
{
    reveal_with_fuel(le_seq, 3);
    if pos + 1 <= p.len() {
        let b = p[pos];
        crate::tools::disassembler::lemma_parse_decimal(b as nat, false);
        assert(b.le_bytes() =~= p.subrange(pos, pos + 1));
    }
    if pos + 2 <= p.len() {
        let w = word_at(p, pos) as u16;
        crate::tools::disassembler::lemma_parse_decimal(w as nat, false);
        assert(w.le_bytes() =~= p.subrange(pos, pos + 2));
    }
}


/// A long instruction whose length has a low byte from 3 to 0x7f begins with a whole
/// instruction of that one-byte length: its opcode, the low byte as the length, then the
/// flagged high byte and the first parameters. The two layouts share these bytes, so the
/// bytes alone cannot tell which one was written.
pub proof fn lemma_long_length_ambiguous(op: u8, params: Seq<u8>)
    requires
        0x7f < params.len() + 2,
        params.len() + 3 <= 0x7fff,
        3 <= (params.len() + 3) % 256 < 0x80,
    ensures
        ({
            let low = (params.len() + 3) % 256;
            let short = seq![(0x80 + (params.len() + 3) / 256) as u8] + params.take(low - 3int);
            &&& short.len() + 2 == low
            &&& instruction_bytes(op, short) == instruction_bytes(op, params).take(low as int)
        }),
{
    reveal_with_fuel(le_seq, 3);
    let l = (params.len() + 3) as u16;
    let low = l % 256;
    let v = (0x8000u16 | l) as u16;
    assert(v == 0x8000 + l) by (bit_vector)
        requires
            l < 0x8000,
            v == (0x8000u16 | l),
    ;
    let short = seq![(0x80 + l / 256) as u8] + params.take(low - 3);
    assert(op.le_bytes() =~= seq![op]);
    assert(v.le_bytes() =~= seq![(v % 256) as u8, ((v / 256) % 256) as u8]);
    assert((low as u8).le_bytes() =~= seq![low as u8]);
    assert(v % 256 == low);
    assert((v / 256) % 256 == 0x80 + l / 256);
    assert(short.len() + 2 == low);
    let long = instruction_bytes(op, params);
    assert(long =~= seq![op, low as u8, (0x80 + l / 256) as u8] + params);
    assert(instruction_bytes(op, short) =~= seq![op, low as u8] + short);
    assert(instruction_bytes(op, short) =~= long.take(low as int));
}


/// A message made of two-byte characters is copied byte for byte: when each of the `n`
/// characters from `pos` on starts with a byte from 0x80 and a 0 follows them, the message's
/// Shift JIS bytes are exactly the bytes up to that 0, in the order they stand, and the
/// message ends after the 0.
pub proof fn lemma_message_two_byte_chars(p: Seq<u8>, pos: int, n: nat, charset: Seq<Vec<u8>>)
    requires
        0 <= pos,
        pos + 2 * n < p.len(),
        p[pos + 2 * n] == 0,
        forall|j: int| 0 <= j < n ==> #[trigger] p[pos + 2 * j] >= 0x80,
    ensures
        message_bytes(p, pos, charset) == Ok::<(Seq<u8>, int), DisasmError>(
            (p.subrange(pos, pos + 2 * n), pos + 2 * n + 1),
        ),
    decreases n,
{
    if n == 0 {
        assert(p.subrange(pos, pos) =~= Seq::<u8>::empty());
    } else {
        assert(p[pos + 2 * 0] >= 0x80);
        assert forall|j: int| 0 <= j < n - 1 implies #[trigger] p[(pos + 2) + 2 * j] >= 0x80 by {
            assert(p[pos + 2 * (j + 1)] >= 0x80);
        }
        lemma_message_two_byte_chars(p, pos + 2, (n - 1) as nat, charset);
        assert(seq![p[pos], p[pos + 1]] + p.subrange(pos + 2, pos + 2 * n) =~= p.subrange(pos, pos + 2 * n));
    }
}

/// A message made of escaped bytes is copied byte for byte: when each of the `n` characters
/// from `pos` on is 0x7f and a byte, and a 0 follows them, the message's Shift JIS bytes are
/// the escaped bytes, in the order they stand.
pub proof fn lemma_message_escaped_bytes(p: Seq<u8>, pos: int, n: nat, charset: Seq<Vec<u8>>)
    requires
        0 <= pos,
        pos + 2 * n < p.len(),
        p[pos + 2 * n] == 0,
        forall|j: int| 0 <= j < n ==> #[trigger] p[pos + 2 * j] == 0x7F,
    ensures
        message_bytes(p, pos, charset) == Ok::<(Seq<u8>, int), DisasmError>(
            (Seq::new(n, |j: int| p[pos + 2 * j + 1]), pos + 2 * n + 1),
        ),
    decreases n,
{
    if n == 0 {
        assert(Seq::new(0, |j: int| p[pos + 2 * j + 1]) =~= Seq::<u8>::empty());
    } else {
        assert(p[pos + 2 * 0] == 0x7F);
        assert forall|j: int| 0 <= j < n - 1 implies #[trigger] p[(pos + 2) + 2 * j] == 0x7F by {
            assert(p[pos + 2 * (j + 1)] == 0x7F);
        }
        lemma_message_escaped_bytes(p, pos + 2, (n - 1) as nat, charset);
        assert(seq![p[pos + 1]] + Seq::new((n - 1) as nat, |j: int| p[(pos + 2) + 2 * j + 1]) =~= Seq::new(
            n,
            |j: int| p[pos + 2 * j + 1],
        ));
    }
}


/// A message made of character-table indices spells their entries: when each of the `n`
/// bytes from `pos` on is from 1 to 0x7e and a 0 follows them, the message's Shift JIS bytes
/// are the table's entries for those indices, one after the other in the order they stand.
pub proof fn lemma_message_table_chars(p: Seq<u8>, pos: int, n: nat, charset: Seq<Vec<u8>>)
    requires
        0 <= pos,
        pos + n < p.len(),
        p[pos + n] == 0,
        forall|j: int| 0 <= j < n ==> 1 <= #[trigger] p[pos + j] < 0x7F,
    ensures
        message_bytes(p, pos, charset) == Ok::<(Seq<u8>, int), DisasmError>(
            (Seq::new(n, |j: int| charset_bytes(charset, p[pos + j])).flatten(), pos + n + 1),
        ),
    decreases n,
{
    let parts = Seq::new(n, |j: int| charset_bytes(charset, p[pos + j]));
    if n == 0 {
        assert(parts =~= Seq::<Seq<u8>>::empty());
    } else {
        assert(1 <= p[pos + 0] < 0x7F);
        assert forall|j: int| 0 <= j < n - 1 implies 1 <= #[trigger] p[(pos + 1) + j] < 0x7F by {
            assert(1 <= p[pos + (j + 1)] < 0x7F);
        }
        lemma_message_table_chars(p, pos + 1, (n - 1) as nat, charset);
        assert(parts.drop_first() =~= Seq::new((n - 1) as nat, |j: int| charset_bytes(charset, p[(pos + 1) + j])));
        assert(parts.first() == charset_bytes(charset, p[pos]));
    }
}

} // verus!
