//! Assembling a whole scenario: each line's mnemonic and operands encoded as an instruction,
//! labels resolved to subroutine indices, and the scenario file built.
use vstd::prelude::*;
use crate::util::index_vec::le_concat;
use crate::util::io::WriteEndian;
use crate::util::text::{chars_eq, chars_of, first_index_of, trim, trim_chars};
use crate::tools::params::{
    AsmError, ParamParser, Value, lemma_next_shrinks, next_outcome, read_assetname_outcome,
    read_label_outcome, read_num_outcome, read_string_outcome, read_value_outcome,
};
use crate::tools::assembler::{
    Labels, Serializer, build_isf, circumfix, code_offset_for, index_table, instruction_bytes,
    isf_image, parse_all_labels, parse_line_chars, scan_labels, split_lines, text_lines, value_bytes,
};
use crate::util::io::WriteExt;

verus! {

/// The kinds of operand an instruction takes.
#[derive(Debug, Clone, Copy, PartialEq, Eq, Structural)]
pub enum Operand {
    /// A `u8` number.
    Byte,
    /// A `u16` number.
    Word,
    /// A value operand.
    Val,
    /// A label, encoded as its subroutine index.
    Label,
    /// A quoted asset name.
    Asset,
    /// A quoted string.
    Text,
}

/// Why a line of a scenario could not be assembled, and which line, counted from zero.
#[derive(Debug, Clone, Copy, PartialEq, Eq, Structural)]
pub struct LineError {
    pub line: usize,
    pub error: AsmError,
}

/// The opcodes of the instructions, by mnemonic.
pub struct OpcodeTable {
    names: Vec<Vec<char>>,
    codes: Vec<u8>,
}

/// The map of the first `n` mnemonics to their opcodes.
pub open spec fn opcode_map(names: Seq<Seq<char>>, codes: Seq<u8>, n: nat) -> Map<Seq<char>, u8>
    decreases n,
{
    if n == 0 {
        Map::empty()
    } else {
        opcode_map(names, codes, (n - 1) as nat).insert(names[n - 1], codes[n - 1])
    }
}

proof fn lemma_opcode_lookup(names: Seq<Seq<char>>, codes: Seq<u8>, n: nat, m: Seq<char>)
    requires
        n <= names.len(),
        n <= codes.len(),
        forall|i: int, j: int| 0 <= i < j < names.len() ==> names[i] != names[j],
    ensures
        (exists|k: int| 0 <= k < n && names[k] == m) <==> opcode_map(names, codes, n).dom().contains(m),
        forall|k: int| 0 <= k < n && names[k] == m ==> opcode_map(names, codes, n)[m] == codes[k],
    decreases n,
{
    if n > 0 {
        lemma_opcode_lookup(names, codes, (n - 1) as nat, m);
        if names[n - 1] == m {
            assert(exists|k: int| 0 <= k < n && names[k] == m);
        } else if opcode_map(names, codes, n).dom().contains(m) {
            let k = choose|k: int| 0 <= k < n - 1 && names[k] == m;
            assert(0 <= k < n && names[k] == m);
        }
    }
}

proof fn lemma_opcode_prefix(names: Seq<Seq<char>>, codes: Seq<u8>, n: nat, name: Seq<char>, code: u8)
    requires
        n <= names.len(),
        n <= codes.len(),
    ensures
        opcode_map(names.push(name), codes.push(code), n) == opcode_map(names, codes, n),
    decreases n,
{
    if n > 0 {
        lemma_opcode_prefix(names, codes, (n - 1) as nat, name, code);
    }
}

impl OpcodeTable {
    #[verifier::type_invariant]
    spec fn consistent(self) -> bool {
        &&& self.names@.len() == self.codes@.len()
        &&& forall|i: int, j: int| 0 <= i < j < self.names@.len() ==> self.names@[i]@ != self.names@[j]@
    }

    spec fn name_seq(self) -> Seq<Seq<char>> {
        Seq::new(self.names@.len() as nat, |k: int| self.names@[k]@)
    }

    /// The opcode of each mnemonic.
    pub closed spec fn map(&self) -> Map<Seq<char>, u8> {
        opcode_map(self.name_seq(), self.codes@, self.names@.len() as nat)
    }

    /// No instruction.
    pub fn new() -> (t: Self)
        ensures
            t.map() == Map::<Seq<char>, u8>::empty(),
    {
        OpcodeTable { names: Vec::new(), codes: Vec::new() }
    }

    fn position(&self, name: &[char]) -> (r: Option<usize>)
        ensures
            match r {
                Some(k) => k < self.names@.len() && self.name_seq()[k as int] == name@,
                None => forall|k: int| 0 <= k < self.names@.len() ==> self.name_seq()[k] != name@,
            },
    {
        let mut k: usize = 0;
        while k < self.names.len()
            invariant
                k <= self.names@.len(),
                forall|j: int| 0 <= j < k ==> self.name_seq()[j] != name@,
            decreases self.names@.len() - k,
        {
            if chars_eq(self.names[k].as_slice(), name) {
                return Some(k);
            }
            k += 1;
        }
        None
    }

    /// Gives `name` the opcode `opcode`; `false`, and nothing changed, when `name` already
    /// has one.
    pub fn insert(&mut self, name: &str, opcode: u8) -> (added: bool)
        ensures
            added == !old(self).map().dom().contains(name@),
            added ==> final(self).map() == old(self).map().insert(name@, opcode),
            !added ==> final(self).map() == old(self).map(),
    {
        proof { use_type_invariant(&*self); }
        let chars = chars_of(name);
        let ghost names = self.name_seq();
        let ghost n = self.names@.len() as nat;
        proof {
            lemma_opcode_lookup(names, self.codes@, n, name@);
        }
        match self.position(chars.as_slice()) {
            Some(_) => false,
            None => {
                let mut taken = OpcodeTable { names: Vec::new(), codes: Vec::new() };
                std::mem::swap(&mut taken, self);
                let OpcodeTable { names: mut ns, mut codes } = taken;
                let ghost old_ns = ns@;
                let ghost old_codes = codes@;
                assert(Seq::new(old_ns.len() as nat, |j: int| old_ns[j]@) =~= names);
                ns.push(chars);
                codes.push(opcode);
                proof {
                    let new_names = Seq::new(ns@.len() as nat, |j: int| ns@[j]@);
                    assert(new_names =~= names.push(name@));
                    lemma_opcode_prefix(names, old_codes, n, name@, opcode);
                    assert forall|i: int, j: int| 0 <= i < j < ns@.len() implies ns@[i]@ != ns@[j]@ by {
                        if j == ns@.len() - 1 {
                            assert(names[i] != name@);
                        }
                    }
                }
                *self = OpcodeTable { names: ns, codes };
                true
            },
        }
    }

    /// The opcode of `name`, if it has one.
    pub fn get(&self, name: &[char]) -> (r: Option<u8>)
        ensures
            r == if self.map().dom().contains(name@) {
                Some(self.map()[name@])
            } else {
                None::<u8>
            },
    {
        proof {
            use_type_invariant(self);
            lemma_opcode_lookup(self.name_seq(), self.codes@, self.names@.len() as nat, name@);
        }
        match self.position(name) {
            Some(k) => Some(self.codes[k]),
            None => None,
        }
    }
}

/// The operands of the instruction `m`, in order; `None` for the branching instructions and
/// for those that cannot be assembled.
pub open spec fn operands_of(m: Seq<char>) -> Option<Seq<Operand>> {
    if m == "ED"@ || m == "SRET"@ || m == "RT"@ {
        Some(seq![])
    } else if m == "LS"@ || m == "LSBS"@ {
        Some(seq![Operand::Asset])
    } else if m == "JP"@ || m == "JS"@ {
        Some(seq![Operand::Label])
    } else if m == "CW"@ || m == "WS"@ {
        Some(seq![Operand::Byte, Operand::Val, Operand::Val, Operand::Val, Operand::Val, Operand::Byte])
    } else if m == "CP"@ || m == "CIR"@ {
        Some(seq![Operand::Byte, Operand::Byte, Operand::Asset])
    } else if m == "CPS"@ {
        Some(Seq::new(19, |i: int| Operand::Byte))
    } else if m == "CSET"@ {
        Some(seq![Operand::Byte, Operand::Byte, Operand::Val, Operand::Val, Operand::Val, Operand::Val, Operand::Text])
    } else if m == "CWO"@ {
        Some(seq![Operand::Byte, Operand::Val, Operand::Byte])
    } else if m == "CWC"@ || m == "WO"@ || m == "WC"@ {
        Some(seq![Operand::Byte])
    } else if m == "CC"@ {
        Some(seq![Operand::Byte, Operand::Byte, Operand::Byte, Operand::Byte])
    } else if m == "WL"@ {
        Some(seq![Operand::Byte, Operand::Asset])
    } else if m == "WW"@ {
        Some(seq![Operand::Byte, Operand::Val, Operand::Val, Operand::Byte])
    } else if m == "CNS"@ {
        Some(seq![Operand::Byte, Operand::Byte, Operand::Text])
    } else if m == "PF"@ || m == "PB"@ || m == "PJ"@ {
        Some(seq![Operand::Byte, Operand::Val])
    } else if m == "WSH"@ || m == "WSS"@ {
        Some(seq![Operand::Val])
    } else if m == "FLN"@ || m == "HLN"@ || m == "HINC"@ || m == "HDEC"@ {
        Some(seq![Operand::Word])
    } else if m == "SK"@ {
        Some(seq![Operand::Word, Operand::Byte])
    } else if m == "SKS"@ {
        Some(seq![Operand::Word, Operand::Word, Operand::Byte])
    } else if m == "HF"@ || m == "HN"@ {
        Some(seq![Operand::Word, Operand::Label])
    } else if m == "FT"@ {
        Some(seq![Operand::Word, Operand::Word, Operand::Word])
    } else if m == "ES"@ || m == "EC"@ {
        Some(seq![Operand::Word, Operand::Word])
    } else if m == "STC"@ || m == "HXP"@ {
        Some(seq![Operand::Byte, Operand::Byte, Operand::Label])
    } else if m == "HS"@ {
        Some(seq![Operand::Word, Operand::Val])
    } else {
        None
    }
}

/// Whether `m` is an instruction with a switch value and a list of branch labels.
pub open spec fn is_branching(m: Seq<char>) -> bool {
    m == "ONJP"@ || m == "ONJS"@
}

fn is(m: &Vec<char>, name: &str) -> (r: bool)
    ensures
        r == (m@ == name@),
{
    let n = chars_of(name);
    chars_eq(m.as_slice(), n.as_slice())
}

/// The operands of the instruction `m`.
pub fn operands(m: &Vec<char>) -> (r: Option<Vec<Operand>>)
    ensures
        match operands_of(m@) {
            Some(kinds) => r matches Some(v) && v@ == kinds,
            None => r is None,
        },
{
    let b = Operand::Byte;
    let w = Operand::Word;
    let v = Operand::Val;
    if is(m, "ED") || is(m, "SRET") || is(m, "RT") {
        Some(vec![])
    } else if is(m, "LS") || is(m, "LSBS") {
        Some(vec![Operand::Asset])
    } else if is(m, "JP") || is(m, "JS") {
        Some(vec![Operand::Label])
    } else if is(m, "CW") || is(m, "WS") {
        Some(vec![b, v, v, v, v, b])
    } else if is(m, "CP") || is(m, "CIR") {
        Some(vec![b, b, Operand::Asset])
    } else if is(m, "CPS") {
        let r = vec![b; 19];
        proof {
            assert(r@ =~= Seq::new(19, |i: int| Operand::Byte));
        }
        Some(r)
    } else if is(m, "CSET") {
        Some(vec![b, b, v, v, v, v, Operand::Text])
    } else if is(m, "CWO") {
        Some(vec![b, v, b])
    } else if is(m, "CWC") || is(m, "WO") || is(m, "WC") {
        Some(vec![b])
    } else if is(m, "CC") {
        Some(vec![b, b, b, b])
    } else if is(m, "WL") {
        Some(vec![b, Operand::Asset])
    } else if is(m, "WW") {
        Some(vec![b, v, v, b])
    } else if is(m, "CNS") {
        Some(vec![b, b, Operand::Text])
    } else if is(m, "PF") || is(m, "PB") || is(m, "PJ") {
        Some(vec![b, v])
    } else if is(m, "WSH") || is(m, "WSS") {
        Some(vec![v])
    } else if is(m, "FLN") || is(m, "HLN") || is(m, "HINC") || is(m, "HDEC") {
        Some(vec![w])
    } else if is(m, "SK") {
        Some(vec![w, b])
    } else if is(m, "SKS") {
        Some(vec![w, w, b])
    } else if is(m, "HF") || is(m, "HN") {
        Some(vec![w, Operand::Label])
    } else if is(m, "FT") {
        Some(vec![w, w, w])
    } else if is(m, "ES") || is(m, "EC") {
        Some(vec![w, w])
    } else if is(m, "STC") || is(m, "HXP") {
        Some(vec![b, b, Operand::Label])
    } else if is(m, "HS") {
        Some(vec![w, v])
    } else {
        None
    }
}

/// What encoding one operand of kind `kind` from `params` gives: its bytes and the
/// parameters left, or the error. Labels are encoded through `table`.
pub open spec fn operand_outcome(kind: Operand, params: Seq<char>, table: Map<Seq<char>, usize>) -> Result<
    (Seq<u8>, Seq<char>),
    AsmError,
> {
    match kind {
        Operand::Byte => {
            let (r, rest) = read_num_outcome::<u8>(params);
            match r {
                Ok(v) => Ok((v.le_bytes(), rest)),
                Err(e) => Err(e),
            }
        },
        Operand::Word => {
            let (r, rest) = read_num_outcome::<u16>(params);
            match r {
                Ok(v) => Ok((v.le_bytes(), rest)),
                Err(e) => Err(e),
            }
        },
        Operand::Val => {
            let (r, rest) = read_value_outcome(params);
            match r {
                Ok(v) => Ok((value_bytes(v), rest)),
                Err(e) => Err(e),
            }
        },
        Operand::Label => {
            let (r, rest) = read_label_outcome(params);
            match r {
                Ok(l) => if table.dom().contains(l) {
                    Ok(((table[l] as u16).le_bytes(), rest))
                } else {
                    Err(AsmError::UndefinedLabel)
                },
                Err(e) => Err(e),
            }
        },
        Operand::Asset => {
            let (r, rest) = read_assetname_outcome(params);
            match r {
                Ok(s) => Ok((vstd::utf8::encode_utf8(s), rest)),
                Err(e) => Err(e),
            }
        },
        Operand::Text => {
            let (r, rest) = read_string_outcome(params);
            match r {
                Ok(s) => Ok((vstd::utf8::encode_utf8(s), rest)),
                Err(e) => Err(e),
            }
        },
    }
}

/// What encoding the operands `kinds`, from the `i`-th on, gives.
pub open spec fn operands_outcome(
    kinds: Seq<Operand>,
    i: nat,
    params: Seq<char>,
    table: Map<Seq<char>, usize>,
) -> Result<(Seq<u8>, Seq<char>), AsmError>
    decreases kinds.len() - i,
{
    if i >= kinds.len() {
        Ok((Seq::empty(), params))
    } else {
        match operand_outcome(kinds[i as int], params, table) {
            Ok((bytes, rest)) => match operands_outcome(kinds, i + 1, rest, table) {
                Ok((more, left)) => Ok((bytes + more, left)),
                Err(e) => Err(e),
            },
            Err(e) => Err(e),
        }
    }
}

/// The subroutine indices of the branch labels at the start of `params`: labels are read
/// until one cannot be read, and each must be defined.
pub open spec fn branch_labels(params: Seq<char>, table: Map<Seq<char>, usize>) -> Result<(Seq<u16>, Seq<char>), AsmError>
    decreases params.len(),
{
    let (r, rest) = read_label_outcome(params);
    match r {
        Err(_) => Ok((Seq::empty(), rest)),
        Ok(l) => if !table.dom().contains(l) {
            Err(AsmError::UndefinedLabel)
        } else {
            proof {
                lemma_next_shrinks(params);
            }
            match branch_labels(rest, table) {
                Ok((more, left)) => Ok((seq![table[l] as u16] + more, left)),
                Err(e) => Err(e),
            }
        },
    }
}

/// What encoding the operands of a branching instruction gives: the switch value, the
/// number of branches, then the subroutine index of each branch.
pub open spec fn branches_outcome(params: Seq<char>, table: Map<Seq<char>, usize>) -> Result<(Seq<u8>, Seq<char>), AsmError> {
    let (v, rest) = read_value_outcome(params);
    match v {
        Err(e) => Err(e),
        Ok(value) => match branch_labels(rest, table) {
            Err(e) => Err(e),
            Ok((branches, left)) => if branches.len() > 255 {
                Err(AsmError::TooManyBranches)
            } else {
                Ok((value_bytes(value) + (branches.len() as u8).le_bytes() + le_concat(branches), left))
            },
        },
    }
}

/// The outcome of encoding one line.
pub enum LineOutcome {
    /// The encoded instruction.
    Encoded(Seq<u8>),
    /// The line was refused.
    Failed(AsmError),
    /// The instruction's parameters are too long for its length field.
    Oversized,
}

/// The mnemonic of `line` and its parameters, as `parse_line` splits them.
pub open spec fn split_line(line: Seq<char>) -> (Seq<char>, Seq<char>) {
    match first_index_of(line, ' ') {
        Some(i) => (trim(line.take(i)), trim(line.skip(i + 1))),
        None => (line, Seq::empty()),
    }
}

/// What encoding the instruction `line` gives, with `opcodes` and the label table `table`.
pub open spec fn line_outcome(line: Seq<char>, opcodes: Map<Seq<char>, u8>, table: Map<Seq<char>, usize>) -> LineOutcome {
    let (m, params) = split_line(line);
    if !opcodes.dom().contains(m) {
        LineOutcome::Failed(AsmError::InvalidInstruction)
    } else {
        let encoded = if is_branching(m) {
            branches_outcome(params, table)
        } else {
            match operands_of(m) {
                Some(kinds) => operands_outcome(kinds, 0, params, table),
                None => Err(AsmError::UnimplementedInstruction),
            }
        };
        match encoded {
            Err(e) => LineOutcome::Failed(e),
            Ok((bytes, _)) => if bytes.len() + 3 > u16::MAX {
                LineOutcome::Oversized
            } else {
                LineOutcome::Encoded(instruction_bytes(opcodes[m], bytes))
            },
        }
    }
}

/// Encodes one operand of kind `kind` into `fmt`.
fn encode_operand(kind: Operand, parser: &mut ParamParser, labels: &Labels, fmt: &mut Serializer) -> (r: Result<(), AsmError>)
    ensures
        final(fmt).opcode == old(fmt).opcode,
        match operand_outcome(kind, old(parser).params(), labels.table()) {
            Ok((bytes, rest)) => r == Ok::<(), AsmError>(()) && final(fmt).params@ == old(fmt).params@ + bytes
                && final(parser).params() == rest,
            Err(e) => r == Err::<(), AsmError>(e),
        },
{
    match kind {
        Operand::Byte => {
            match parser.read_num::<u8>() {
                Ok(v) => {
                    fmt.write_num(v);
                    Ok(())
                },
                Err(e) => Err(e),
            }
        },
        Operand::Word => {
            match parser.read_num::<u16>() {
                Ok(v) => {
                    fmt.write_num(v);
                    Ok(())
                },
                Err(e) => Err(e),
            }
        },
        Operand::Val => {
            match parser.read_value() {
                Ok(v) => {
                    fmt.write_value(v);
                    Ok(())
                },
                Err(e) => Err(e),
            }
        },
        Operand::Label => {
            match parser.read_label() {
                Ok(l) => {
                    let chars = chars_of(l.as_str());
                    match labels.get_label_index(chars.as_slice()) {
                        Ok(i) => {
                            fmt.write_num(i);
                            Ok(())
                        },
                        Err(e) => Err(e),
                    }
                },
                Err(e) => Err(e),
            }
        },
        Operand::Asset => {
            match parser.read_assetname() {
                Ok(s) => {
                    fmt.write_string(s.as_str());
                    Ok(())
                },
                Err(e) => Err(e),
            }
        },
        Operand::Text => {
            match parser.read_string() {
                Ok(s) => {
                    fmt.write_string(s.as_str());
                    Ok(())
                },
                Err(e) => Err(e),
            }
        },
    }
}

/// `done` put before the bytes of `outcome`.
pub open spec fn prepend(done: Seq<u8>, outcome: Result<(Seq<u8>, Seq<char>), AsmError>) -> Result<
    (Seq<u8>, Seq<char>),
    AsmError,
> {
    match outcome {
        Ok((bytes, rest)) => Ok((done + bytes, rest)),
        Err(e) => Err(e),
    }
}

/// Encodes the operands `kinds` into `fmt`.
fn encode_operands(kinds: &Vec<Operand>, parser: &mut ParamParser, labels: &Labels, fmt: &mut Serializer) -> (r: Result<(), AsmError>)
    ensures
        final(fmt).opcode == old(fmt).opcode,
        match operands_outcome(kinds@, 0, old(parser).params(), labels.table()) {
            Ok((bytes, rest)) => r == Ok::<(), AsmError>(()) && final(fmt).params@ == old(fmt).params@ + bytes
                && final(parser).params() == rest,
            Err(e) => r == Err::<(), AsmError>(e),
        },
{
    let mut i: usize = 0;
    let ghost start = fmt.params@;
    let ghost mut done: Seq<u8> = Seq::empty();
    proof {
        match operands_outcome(kinds@, 0, parser.params(), labels.table()) {
            Ok((bytes, rest)) => {
                assert(Seq::<u8>::empty() + bytes =~= bytes);
            },
            Err(e) => {},
        }
        assert(fmt.params@ =~= start + done);
    }
    while i < kinds.len()
        invariant
            i <= kinds@.len(),
            fmt.opcode == old(fmt).opcode,
            start == old(fmt).params@,
            fmt.params@ == start + done,
            operands_outcome(kinds@, 0, old(parser).params(), labels.table()) == prepend(
                done,
                operands_outcome(kinds@, i as nat, parser.params(), labels.table()),
            ),
        decreases kinds@.len() - i,
    {
        let ghost p = parser.params();
        match encode_operand(kinds[i], parser, labels, fmt) {
            Ok(()) => {
                proof {
                    let (b, r2) = operand_outcome(kinds@[i as int], p, labels.table())->Ok_0;
                    match operands_outcome(kinds@, (i + 1) as nat, r2, labels.table()) {
                        Ok((more, left)) => {
                            assert(done + (b + more) =~= (done + b) + more);
                        },
                        Err(x) => {},
                    }
                    done = done + b;
                    assert(fmt.params@ =~= start + done);
                }
            },
            Err(e) => {
                return Err(e);
            },
        }
        i += 1;
    }
    proof {
        assert(done + Seq::<u8>::empty() =~= done);
    }
    Ok(())
}

/// `done` put before the indices of `outcome`.
pub open spec fn prepend_branches(done: Seq<u16>, outcome: Result<(Seq<u16>, Seq<char>), AsmError>) -> Result<
    (Seq<u16>, Seq<char>),
    AsmError,
> {
    match outcome {
        Ok((more, rest)) => Ok((done + more, rest)),
        Err(e) => Err(e),
    }
}

/// Encodes the operands of a branching instruction into `fmt`.
#[verifier::spinoff_prover]
#[verifier::rlimit(40)]
fn encode_branches(parser: &mut ParamParser, labels: &Labels, fmt: &mut Serializer) -> (r: Result<(), AsmError>)
    ensures
        final(fmt).opcode == old(fmt).opcode,
        match branches_outcome(old(parser).params(), labels.table()) {
            Ok((bytes, rest)) => r == Ok::<(), AsmError>(()) && final(fmt).params@ == old(fmt).params@ + bytes
                && final(parser).params() == rest,
            Err(e) => r == Err::<(), AsmError>(e),
        },
{
    let value = match parser.read_value() {
        Ok(v) => v,
        Err(e) => return Err(e),
    };
    fmt.write_value(value);
    let ghost after_value = parser.params();
    let mut branches: Vec<u16> = Vec::new();
    proof {
        match branch_labels(after_value, labels.table()) {
            Ok((all, rest)) => {
                assert(Seq::<u16>::empty() + all =~= all);
            },
            Err(e) => {},
        }
    }
    loop
        invariant_except_break
            branch_labels(after_value, labels.table()) == prepend_branches(
                branches@,
                branch_labels(parser.params(), labels.table()),
            ),
        invariant
            fmt.opcode == old(fmt).opcode,
            fmt.params@ == old(fmt).params@ + value_bytes(value),
            read_value_outcome(old(parser).params()) == (Ok::<Value, AsmError>(value), after_value),
        ensures
            fmt.opcode == old(fmt).opcode,
            fmt.params@ == old(fmt).params@ + value_bytes(value),
            read_value_outcome(old(parser).params()) == (Ok::<Value, AsmError>(value), after_value),
            branch_labels(after_value, labels.table()) == Ok::<(Seq<u16>, Seq<char>), AsmError>(
                (branches@, parser.params()),
            ),
        decreases parser.params().len(),
    {
        let ghost p = parser.params();
        match parser.read_label() {
            Ok(l) => {
                proof {
                    lemma_next_shrinks(p);
                }
                let chars = chars_of(l.as_str());
                match labels.get_label_index(chars.as_slice()) {
                    Ok(i) => {
                        proof {
                            let rest = parser.params();
                            match branch_labels(rest, labels.table()) {
                                Ok((more, left)) => {
                                    assert(branches@ + (seq![i] + more) =~= branches@.push(i) + more);
                                },
                                Err(x) => {},
                            }
                        }
                        branches.push(i);
                    },
                    Err(e) => {
                        return Err(e);
                    },
                }
            },
            Err(_) => {
                proof {
                    assert(branches@ + Seq::<u16>::empty() =~= branches@);
                }
                break;
            },
        }
    }
    if branches.len() > 255 {
        return Err(AsmError::TooManyBranches);
    }
    let count = branches.len() as u8;
    fmt.write_num(count);
    let ghost before = fmt.params@;
    let mut k: usize = 0;
    while k < branches.len()
        invariant
            k <= branches@.len(),
            fmt.opcode == old(fmt).opcode,
            fmt.params@ == before + le_concat(branches@.take(k as int)),
        decreases branches@.len() - k,
    {
        proof {
            assert(branches@.take(k as int).push(branches@[k as int]) =~= branches@.take(k + 1));
            crate::util::index_vec::lemma_le_concat_push(branches@.take(k as int), branches@[k as int]);
        }
        fmt.write_num(branches[k]);
        k += 1;
    }
    proof {
        assert(branches@.take(branches@.len() as int) =~= branches@);
    }
    Ok(())
}

/// Encodes the instruction on the trimmed line `line`; `None` when its parameters are too
/// long for its length field.
pub fn encode_line(line: &Vec<char>, opcodes: &OpcodeTable, labels: &Labels) -> (r: Option<Result<Vec<u8>, AsmError>>)
    ensures
        match line_outcome(line@, opcodes.map(), labels.table()) {
            LineOutcome::Encoded(bytes) => r matches Some(Ok(v)) && v@ == bytes,
            LineOutcome::Failed(e) => r == Some(Err::<Vec<u8>, AsmError>(e)),
            LineOutcome::Oversized => r is None,
        },
{
    let (mnemonic, mut parser) = parse_line_chars(line.as_slice());
    let opcode = match opcodes.get(mnemonic.as_slice()) {
        Some(op) => op,
        None => return Some(Err(AsmError::InvalidInstruction)),
    };
    let mut fmt = Serializer::new(opcode);
    if is(&mnemonic, "ONJP") || is(&mnemonic, "ONJS") {
        match encode_branches(&mut parser, labels, &mut fmt) {
            Ok(()) => {},
            Err(e) => return Some(Err(e)),
        }
    } else {
        match operands(&mnemonic) {
            Some(kinds) => match encode_operands(&kinds, &mut parser, labels, &mut fmt) {
                Ok(()) => {},
                Err(e) => return Some(Err(e)),
            },
            None => return Some(Err(AsmError::UnimplementedInstruction)),
        }
    }
    if fmt.params.len() > 0xFFFF - 3 {
        return None;
    }
    let mut out: Vec<u8> = Vec::new();
    fmt.serialize_into(&mut out);
    Some(Ok(out))
}

/// The outcome of assembling a scenario.
pub enum AsmOutcome {
    /// The subroutine table and the bytecode.
    Done(Seq<u32>, Seq<u8>),
    /// The line, counted from zero, and why it was refused.
    Failed(nat, AsmError),
    /// An instruction or the subroutine table outgrows its encoding.
    Oversized,
}

/// Assembling the lines from `k` on, with `subs` and `code` assembled so far: blank lines
/// and comments are skipped, a label line places its subroutine at the current end of the
/// bytecode, and any other line is an instruction.
pub open spec fn assemble_lines(
    lines: Seq<Seq<char>>,
    k: nat,
    opcodes: Map<Seq<char>, u8>,
    table: Map<Seq<char>, usize>,
    subs: Seq<u32>,
    code: Seq<u8>,
) -> AsmOutcome
    decreases lines.len() - k,
{
    if k >= lines.len() {
        AsmOutcome::Done(subs, code)
    } else {
        let t = trim(lines[k as int]);
        if t.len() == 0 || t[0] == ';' {
            assemble_lines(lines, k + 1, opcodes, table, subs, code)
        } else {
            match circumfix(t) {
                Some(l) => if table.dom().contains(l) {
                    assemble_lines(lines, k + 1, opcodes, table, subs.update(table[l] as int, code.len() as u32), code)
                } else {
                    AsmOutcome::Failed(k, AsmError::LabelNotFound)
                },
                None => match line_outcome(t, opcodes, table) {
                    LineOutcome::Encoded(bytes) => assemble_lines(lines, k + 1, opcodes, table, subs, code + bytes),
                    LineOutcome::Failed(e) => AsmOutcome::Failed(k, e),
                    LineOutcome::Oversized => AsmOutcome::Oversized,
                },
            }
        }
    }
}

/// Assembling the scenario `text` with the instructions `opcodes`: its labels are collected
/// first, then its lines are assembled.
pub open spec fn assemble_outcome(text: Seq<char>, opcodes: Map<Seq<char>, u8>) -> AsmOutcome {
    let lines = text_lines(text);
    match scan_labels(lines, 0, Seq::empty()) {
        Err(line) => AsmOutcome::Failed(line, AsmError::DuplicateLabel { line: line as usize }),
        Ok(names) => if code_offset_for(names.len()) > usize::MAX {
            AsmOutcome::Oversized
        } else {
            assemble_lines(lines, 0, opcodes, index_table(names), Seq::new(names.len(), |i: int| 0u32), Seq::empty())
        },
    }
}

/// Assembles the scenario `scenario` into a scenario file, with the instructions `opcodes`;
/// `None` where an instruction or the subroutine table outgrows its encoding.
pub fn assemble_checked(scenario: &str, opcodes: &OpcodeTable) -> (r: Option<Result<Vec<u8>, LineError>>)
    ensures
        match assemble_outcome(scenario@, opcodes.map()) {
            AsmOutcome::Done(subs, code) => r matches Some(Ok(file)) && file@ == isf_image(subs, code),
            AsmOutcome::Failed(line, e) => r == Some(Err::<Vec<u8>, LineError>(LineError { line: line as usize, error: e })),
            AsmOutcome::Oversized => r is None,
        },
{
    let mut labels = match parse_all_labels(scenario) {
        Ok(l) => l,
        Err(e) => {
            let line = match e {
                AsmError::DuplicateLabel { line } => line,
                _ => 0,
            };
            return Some(Err(LineError { line, error: e }));
        },
    };
    let ghost names = scan_labels(text_lines(scenario@), 0, Seq::empty())->Ok_0;
    if labels.subroutine_offsets().len() > (usize::MAX - 8) / 4 {
        return None;
    }
    let chars = chars_of(scenario);
    let lines = split_lines(chars.as_slice());
    let ghost all = text_lines(scenario@);
    let ghost table = labels.table();
    let mut code: Vec<u8> = Vec::new();
    let mut k: usize = 0;
    while k < lines.len()
        invariant
            k <= lines@.len(),
            lines@.len() == all.len(),
            all == text_lines(scenario@),
            forall|i: int| 0 <= i < lines@.len() ==> #[trigger] lines@[i]@ == all[i],
            labels.table() == table,
            table == index_table(names),
            labels.subroutines().len() == names.len(),
            code_offset_for(names.len()) <= usize::MAX,
            assemble_outcome(scenario@, opcodes.map()) == assemble_lines(all, k as nat, opcodes.map(), table, labels.subroutines(), code@),
        decreases lines@.len() - k,
    {
        let t = trim_chars(lines[k].as_slice());
        let n = t.len();
        if n == 0 || t[0] == ';' {
            k += 1;
            continue;
        }
        if n >= 2 && t[0] == '#' && t[n - 1] == ':' {
            let label = crate::util::text::sub_chars(t.as_slice(), 1, n - 1);
            match labels.new_subroutine(label.as_slice(), code.len()) {
                Ok(()) => {},
                Err(e) => {
                    return Some(Err(LineError { line: k, error: e }));
                },
            }
            k += 1;
            continue;
        }
        match encode_line(&t, opcodes, &labels) {
            Some(Ok(bytes)) => {
                code.put_bytes(bytes.as_slice());
            },
            Some(Err(e)) => {
                return Some(Err(LineError { line: k, error: e }));
            },
            None => {
                return None;
            },
        }
        k += 1;
    }
    let file = build_isf(labels.subroutine_offsets().as_slice(), code.as_slice());
    Some(Ok(file))
}

/// Assembles the scenario `scenario` into a scenario file, with the instructions `opcodes`.
pub fn assemble(scenario: &str, opcodes: &OpcodeTable) -> (r: Result<Vec<u8>, LineError>)
    requires
        !(assemble_outcome(scenario@, opcodes.map()) is Oversized),
    ensures
        match assemble_outcome(scenario@, opcodes.map()) {
            AsmOutcome::Done(subs, code) => r matches Ok(file) && file@ == isf_image(subs, code),
            AsmOutcome::Failed(line, e) => r == Err::<Vec<u8>, LineError>(LineError { line: line as usize, error: e }),
            AsmOutcome::Oversized => false,
        },
{
    match assemble_checked(scenario, opcodes) {
        Some(r) => r,
        None => Err(LineError { line: 0, error: AsmError::InvalidInstruction }),
    }
}

} // verus!
