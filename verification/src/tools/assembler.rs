//! Scenario assembly: instructions encoded as bytes, labels collected into the subroutine
//! table, and the scenario file put together.
use vstd::prelude::*;
use crate::util::io::{WriteEndian, WriteExt};
use crate::util::text::{chars_eq, chars_of, find_char, first_index_of, sub_chars, trim, trim_chars};
use crate::tools::params::{AsmError, ParamParser, Value, lemma_first_index_of};
use crate::gdl::scenario::{
    Cipher, SUBROUTINE_TABLE_OFFSET, deciphered, encipher_rotate, header_cipher, le_u32,
    lemma_rotate_round_trip, load_error, spec_decipher, spec_encipher_rotate, subroutine_table,
};

verus! {

/// The bit that marks a value operand as a register index. The engine's own tag values are
/// not known; this value, and `RNG_TAG`, are this crate's choice, used alike by the
/// assembler and the disassembler.
pub const REG_TAG: u32 = 0x4000_0000;
/// The bit that marks a value operand as a random bound.
pub const RNG_TAG: u32 = 0x2000_0000;

/// The four bytes that encode the value operand `v`.
pub open spec fn value_bytes(v: Value) -> Seq<u8> {
    match v {
        Value::Literal(n) => n.le_bytes(),
        Value::Register(i) => ((i as u32) | REG_TAG).le_bytes(),
        Value::Random(m) => (m | (RNG_TAG as i32)).le_bytes(),
    }
}

/// The encoding of an instruction: the opcode, its total length (one byte, or two bytes
/// with the high bit set when it exceeds 0x7f), then its parameters.
pub open spec fn instruction_bytes(opcode: u8, params: Seq<u8>) -> Seq<u8> {
    let len = params.len() + 2;
    if len > 0x7f {
        opcode.le_bytes() + ((0x8000u16 | ((len + 1) as u16)) as u16).le_bytes() + params
    } else {
        opcode.le_bytes() + (len as u8).le_bytes() + params
    }
}

/// The encoded length of an instruction with `params` parameter bytes.
pub open spec fn instruction_len(params: Seq<u8>) -> nat {
    if params.len() + 2 > 0x7f {
        params.len() + 3
    } else {
        params.len() + 2
    }
}

/// Collects the parameters of one instruction.
pub struct Serializer {
    pub opcode: u8,
    pub params: Vec<u8>,
}

impl Serializer {
    /// An instruction with opcode `opcode` and no parameters yet.
    pub fn new(opcode: u8) -> (s: Self)
        ensures
            s.opcode == opcode,
            s.params@ == Seq::<u8>::empty(),
    {
        Serializer { opcode, params: Vec::new() }
    }

    /// Appends the number `param`, least significant byte first.
    pub fn write_num<T: WriteEndian>(&mut self, param: T)
        ensures
            final(self).opcode == old(self).opcode,
            final(self).params@ == old(self).params@ + param.le_bytes(),
    {
        self.params.put_le(param);
    }

    /// Appends the UTF-8 bytes of `param`.
    pub fn write_string(&mut self, param: &str)
        ensures
            final(self).opcode == old(self).opcode,
            final(self).params@ == old(self).params@ + vstd::utf8::encode_utf8(param@),
    {
        self.write_bytes(param.as_bytes());
    }

    /// Appends `params`.
    pub fn write_bytes(&mut self, params: &[u8])
        ensures
            final(self).opcode == old(self).opcode,
            final(self).params@ == old(self).params@ + params@,
    {
        self.params.put_bytes(params);
    }

    /// Appends the value operand `value`: a literal as it is, a register index or a random
    /// bound with its tag bit set.
    pub fn write_value(&mut self, value: Value)
        ensures
            final(self).opcode == old(self).opcode,
            final(self).params@ == old(self).params@ + value_bytes(value),
    {
        match value {
            Value::Literal(num) => self.params.put_le(num),
            Value::Register(idx) => {
                let idx = idx as u32;
                self.params.put_le(idx | REG_TAG);
            },
            Value::Random(max) => {
                let max = max | RNG_TAG as i32;
                self.params.put_le(max);
            },
        }
    }

    /// Appends the encoded instruction to `writer` and returns its length.
    pub fn serialize_into(self, writer: &mut Vec<u8>) -> (n: usize)
        requires
            self.params@.len() + 3 <= u16::MAX,
        ensures
            final(writer)@ == old(writer)@ + instruction_bytes(self.opcode, self.params@),
            n == instruction_len(self.params@),
            n == instruction_bytes(self.opcode, self.params@).len(),
    {
        writer.put_le(self.opcode);
        let mut inst_len = self.params.len() + 2;
        if inst_len > 0x7f {
            inst_len += 1;
            let len = inst_len as u16;
            writer.put_le(0x8000u16 | len);
        } else {
            writer.put_le(inst_len as u8);
        }
        writer.put_bytes(self.params.as_slice());
        proof {
            reveal_with_fuel(crate::util::io::le_seq, 3);
        }
        inst_len
    }
}

/// The label of a line: the text between a leading `#` and a trailing `:`.
pub open spec fn circumfix(line: Seq<char>) -> Option<Seq<char>> {
    if line.len() >= 2 && line[0] == '#' && line.last() == ':' {
        Some(line.subrange(1, line.len() - 1))
    } else {
        None
    }
}

/// `line` without a trailing carriage return.
pub open spec fn strip_cr(line: Seq<char>) -> Seq<char> {
    if line.len() > 0 && line.last() == '\r' {
        line.drop_last()
    } else {
        line
    }
}

#[verifier::opaque]
/// The lines of `text`, as `str::lines` splits them: at each `\n`, dropping a `\r` just
/// before it, with no empty line after a final `\n`.
pub open spec fn text_lines(text: Seq<char>) -> Seq<Seq<char>>
    decreases text.len(),
{
    if text.len() == 0 {
        Seq::empty()
    } else {
        match first_index_of(text, '\n') {
            Some(i) => {
                proof {
                    lemma_first_index_of(text, '\n');
                }
                seq![strip_cr(text.take(i))] + text_lines(text.skip(i + 1))
            },
            None => seq![text],
        }
    }
}

/// Splitting at the first `\n` of a non-empty text.
pub(crate) proof fn lemma_text_lines_step(text: Seq<char>, i: int)
    requires
        text.len() > 0,
        first_index_of(text, '\n') == Some(i),
    ensures
        text_lines(text) == seq![strip_cr(text.take(i))] + text_lines(text.skip(i + 1)),
{
    reveal(text_lines);
}

/// A non-empty text without `\n` is one line, and an empty text none.
pub(crate) proof fn lemma_text_lines_last(text: Seq<char>)
    requires
        first_index_of(text, '\n') is None,
    ensures
        text.len() > 0 ==> text_lines(text) == seq![text],
        text.len() == 0 ==> text_lines(text) == Seq::<Seq<char>>::empty(),
{
    reveal(text_lines);
}

/// The lines of `text`.
pub fn split_lines(text: &[char]) -> (lines: Vec<Vec<char>>)
    ensures
        lines@.len() == text_lines(text@).len(),
        forall|i: int| 0 <= i < lines@.len() ==> #[trigger] lines@[i]@ == text_lines(text@)[i],
{
    let mut lines: Vec<Vec<char>> = Vec::new();
    let len = text.len();
    let mut pos: usize = 0;
    let ghost mut done: Seq<Seq<char>> = Seq::empty();
    proof {
        assert(text@.skip(0) =~= text@);
        assert(done + text_lines(text@) =~= text_lines(text@));
    }
    while pos < len
        invariant
            pos <= len,
            len == text@.len(),
            lines@.len() == done.len(),
            forall|i: int| 0 <= i < lines@.len() ==> #[trigger] lines@[i]@ == done[i],
            text_lines(text@) == done + text_lines(text@.skip(pos as int)),
        decreases len - pos,
    {
        let ghost rest = text@.skip(pos as int);
        let tail = sub_chars(text, pos, len);
        proof {
            lemma_first_index_of(rest, '\n');
        }
        match find_char(tail.as_slice(), '\n') {
            Some(i) => {
                let mut end = pos + i;
                if end > pos && text[end - 1] == '\r' {
                    end = end - 1;
                }
                let line = sub_chars(text, pos, end);
                proof {
                    assert(line@ =~= strip_cr(rest.take(i as int)));
                    assert(rest.skip(i + 1) =~= text@.skip(pos + i + 1));
                    lemma_text_lines_step(rest, i as int);
                    assert(done + text_lines(rest) =~= done.push(line@) + text_lines(text@.skip(pos + i + 1)));
                    done = done.push(line@);
                }
                lines.push(line);
                pos = pos + i + 1;
            },
            None => {
                proof {
                    lemma_text_lines_last(rest);
                    assert(text_lines(rest) == seq![rest]);
                    assert(tail@ == rest);
                    assert(text@.skip(len as int) =~= Seq::<char>::empty());
                    lemma_text_lines_last(text@.skip(len as int));
                    assert(done + text_lines(rest) =~= done.push(tail@) + text_lines(text@.skip(len as int)));
                    done = done.push(tail@);
                }
                lines.push(tail);
                pos = len;
            },
        }
    }
    proof {
        assert(text@.skip(len as int) =~= Seq::<char>::empty());
        lemma_first_index_of(text@.skip(len as int), '\n');
        lemma_text_lines_last(text@.skip(len as int));
        assert(done + Seq::<Seq<char>>::empty() =~= done);
    }
    lines
}

/// The label on `line`, once trimmed, if it is one.
pub fn label_of_line(line: &[char]) -> (r: Option<Vec<char>>)
    ensures
        match circumfix(trim(line@)) {
            Some(l) => r matches Some(v) && v@ == l,
            None => r is None,
        },
{
    let t = trim_chars(line);
    let n = t.len();
    if n >= 2 && t[0] == '#' && t[n - 1] == ':' {
        Some(sub_chars(t.as_slice(), 1, n - 1))
    } else {
        None
    }
}

/// Labels and the subroutine offsets they stand for.
pub struct Labels {
    names: Vec<Vec<char>>,
    indices: Vec<usize>,
    subroutines: Vec<u32>,
}

/// The table that maps the first `n` names to their indices.
pub open spec fn table_of(names: Seq<Seq<char>>, indices: Seq<usize>, n: nat) -> Map<Seq<char>, usize>
    decreases n,
{
    if n == 0 {
        Map::empty()
    } else {
        table_of(names, indices, (n - 1) as nat).insert(names[n - 1], indices[n - 1])
    }
}

/// Whether no name occurs twice.
pub open spec fn distinct(names: Seq<Seq<char>>) -> bool {
    forall|i: int, j: int| 0 <= i < j < names.len() ==> names[i] != names[j]
}

proof fn lemma_table_lookup(names: Seq<Seq<char>>, indices: Seq<usize>, n: nat, label: Seq<char>)
    requires
        n <= names.len(),
        n <= indices.len(),
        distinct(names),
    ensures
        (exists|k: int| 0 <= k < n && names[k] == label) <==> table_of(names, indices, n).dom().contains(label),
        forall|k: int| 0 <= k < n && names[k] == label ==> table_of(names, indices, n)[label] == indices[k],
    decreases n,
{
    if n > 0 {
        lemma_table_lookup(names, indices, (n - 1) as nat, label);
        if names[n - 1] == label {
            assert(exists|k: int| 0 <= k < n && names[k] == label);
        } else if table_of(names, indices, n).dom().contains(label) {
            let k = choose|k: int| 0 <= k < n - 1 && names[k] == label;
            assert(0 <= k < n && names[k] == label);
        }
    }
}

proof fn lemma_table_update(
    names: Seq<Seq<char>>,
    indices: Seq<usize>,
    n: nat,
    k: int,
    v: usize,
)
    requires
        n <= names.len(),
        n <= indices.len(),
        0 <= k < indices.len(),
        distinct(names),
    ensures
        table_of(names, indices.update(k, v), n) == if k < n {
            table_of(names, indices, n).insert(names[k], v)
        } else {
            table_of(names, indices, n)
        },
    decreases n,
{
    if n > 0 {
        lemma_table_update(names, indices, (n - 1) as nat, k, v);
        if k < n - 1 {
            assert(table_of(names, indices.update(k, v), n) =~= table_of(names, indices, n).insert(
                names[k],
                v,
            ));
        } else if k == n - 1 {
            assert(table_of(names, indices.update(k, v), n) =~= table_of(names, indices, n).insert(
                names[k],
                v,
            ));
        }
    }
}

proof fn lemma_table_prefix(names: Seq<Seq<char>>, indices: Seq<usize>, n: nat, name: Seq<char>, index: usize)
    requires
        n <= names.len(),
        n <= indices.len(),
    ensures
        table_of(names.push(name), indices.push(index), n) == table_of(names, indices, n),
    decreases n,
{
    if n > 0 {
        lemma_table_prefix(names, indices, (n - 1) as nat, name, index);
    }
}

impl Labels {
    #[verifier::type_invariant]
    spec fn consistent(self) -> bool {
        &&& self.names@.len() == self.indices@.len()
        &&& distinct(self.name_seq())
        &&& forall|k: int| 0 <= k < self.indices@.len() ==> #[trigger] self.indices@[k] < self.subroutines@.len()
    }

    spec fn name_seq(self) -> Seq<Seq<char>> {
        Seq::new(self.names@.len() as nat, |k: int| self.names@[k]@)
    }

    /// The index of each label in the subroutine table.
    pub closed spec fn table(&self) -> Map<Seq<char>, usize> {
        table_of(self.name_seq(), self.indices@, self.names@.len() as nat)
    }

    /// The subroutine offset of each index.
    pub closed spec fn subroutines(&self) -> Seq<u32> {
        self.subroutines@
    }

    /// No label and no subroutine.
    pub fn new() -> (l: Self)
        ensures
            l.table() == Map::<Seq<char>, usize>::empty(),
            l.subroutines() == Seq::<u32>::empty(),
    {
        Labels { names: Vec::new(), indices: Vec::new(), subroutines: Vec::new() }
    }

    /// Where `label` is among the names.
    fn position(&self, label: &[char]) -> (r: Option<usize>)
        ensures
            match r {
                Some(k) => k < self.names@.len() && self.name_seq()[k as int] == label@,
                None => forall|k: int| 0 <= k < self.names@.len() ==> self.name_seq()[k] != label@,
            },
    {
        let mut k: usize = 0;
        while k < self.names.len()
            invariant
                k <= self.names@.len(),
                forall|j: int| 0 <= j < k ==> self.name_seq()[j] != label@,
            decreases self.names@.len() - k,
        {
            if chars_eq(self.names[k].as_slice(), label) {
                return Some(k);
            }
            k += 1;
        }
        None
    }

    /// Adds `label` with the next subroutine index, its offset zero. A label defined twice
    /// is refused, after its index was moved to the new entry.
    pub fn new_label(&mut self, label: &[char], line: usize) -> (r: Result<(), AsmError>)
        requires
            old(self).subroutines().len() < usize::MAX,
        ensures
            final(self).subroutines() == old(self).subroutines().push(0),
            final(self).table() == old(self).table().insert(label@, old(self).subroutines().len() as usize),
            old(self).table().dom().contains(label@) ==> r == Err::<(), AsmError>(
                AsmError::DuplicateLabel { line },
            ),
            !old(self).table().dom().contains(label@) ==> r == Ok::<(), AsmError>(()),
    {
        proof { use_type_invariant(&*self); }
        let index = self.subroutines.len();
        let ghost names = self.name_seq();
        let ghost n = self.names@.len() as nat;
        proof {
            lemma_table_lookup(names, self.indices@, n, label@);
        }
        match self.position(label) {
            Some(k) => {
                let mut taken = Labels { names: Vec::new(), indices: Vec::new(), subroutines: Vec::new() };
                std::mem::swap(&mut taken, self);
                let Labels { names: ns, mut indices, mut subroutines } = taken;
                let ghost old_indices = indices@;
                indices.set(k, index);
                subroutines.push(0);
                proof {
                    lemma_table_update(names, old_indices, n, k as int, index);
                    assert(names[k as int] == label@);
                    assert(Seq::new(ns@.len() as nat, |j: int| ns@[j]@) =~= names);
                }
                *self = Labels { names: ns, indices, subroutines };
                Err(AsmError::DuplicateLabel { line })
            },
            None => {
                let mut taken = Labels { names: Vec::new(), indices: Vec::new(), subroutines: Vec::new() };
                std::mem::swap(&mut taken, self);
                let Labels { names: mut ns, mut indices, mut subroutines } = taken;
                let ghost old_indices = indices@;
                let ghost old_ns = ns@;
                assert(Seq::new(old_ns.len() as nat, |j: int| old_ns[j]@) =~= names);
                let copy = crate::util::text::sub_chars(label, 0, label.len());
                proof {
                    assert(label@.subrange(0, label@.len() as int) =~= label@);
                }
                ns.push(copy);
                indices.push(index);
                subroutines.push(0);
                proof {
                    let new_names = Seq::new(ns@.len() as nat, |j: int| ns@[j]@);
                    assert(new_names =~= names.push(label@));
                    lemma_table_prefix(names, old_indices, n, label@, index);
                    assert forall|i: int, j: int| 0 <= i < j < new_names.len() implies new_names[i] != new_names[j] by {
                        if j == new_names.len() - 1 {
                            assert(names[i] != label@);
                        }
                    }
                }
                *self = Labels { names: ns, indices, subroutines };
                Ok(())
            },
        }
    }

    /// The subroutine index of `label`, truncated to a `u16`.
    pub fn get_label_index(&self, label: &[char]) -> (r: Result<u16, AsmError>)
        ensures
            self.table().dom().contains(label@) ==> r == Ok::<u16, AsmError>(
                self.table()[label@] as u16,
            ),
            !self.table().dom().contains(label@) ==> r == Err::<u16, AsmError>(
                AsmError::UndefinedLabel,
            ),
    {
        proof {
            use_type_invariant(self);
            lemma_table_lookup(self.name_seq(), self.indices@, self.names@.len() as nat, label@);
        }
        match self.position(label) {
            Some(k) => Ok(self.indices[k] as u16),
            None => Err(AsmError::UndefinedLabel),
        }
    }

    /// Records `offset`, truncated to a `u32`, as the offset of the subroutine of `label`.
    pub fn new_subroutine(&mut self, label: &[char], offset: usize) -> (r: Result<(), AsmError>)
        ensures
            final(self).table() == old(self).table(),
            old(self).table().dom().contains(label@) ==> r == Ok::<(), AsmError>(())
                && old(self).table()[label@] < old(self).subroutines().len() && final(self).subroutines()
                == old(self).subroutines().update(old(self).table()[label@] as int, offset as u32),
            !old(self).table().dom().contains(label@) ==> r == Err::<(), AsmError>(
                AsmError::LabelNotFound,
            ) && final(self).subroutines() == old(self).subroutines(),
    {
        proof {
            use_type_invariant(&*self);
            lemma_table_lookup(self.name_seq(), self.indices@, self.names@.len() as nat, label@);
        }
        match self.position(label) {
            Some(k) => {
                let idx = self.indices[k];
                let mut taken = Labels { names: Vec::new(), indices: Vec::new(), subroutines: Vec::new() };
                std::mem::swap(&mut taken, self);
                let Labels { names: ns, indices, mut subroutines } = taken;
                subroutines.set(idx, offset as u32);
                *self = Labels { names: ns, indices, subroutines };
                Ok(())
            },
            None => Err(AsmError::LabelNotFound),
        }
    }

    /// The subroutine offsets, by index.
    pub fn subroutine_offsets(&self) -> (s: &Vec<u32>)
        ensures
            s@ == self.subroutines(),
    {
        &self.subroutines
    }
}

/// The mnemonic of an assembly line and a parser over its parameters: the line splits at its
/// first space, and both parts are trimmed; a line without a space is all mnemonic.
pub fn parse_line(line: &str) -> (r: (String, ParamParser))
    ensures
        match first_index_of(line@, ' ') {
            Some(i) => r.0@ == trim(line@.take(i)) && r.1.params() == trim(line@.skip(i + 1)),
            None => r.0@ == line@ && r.1.params() == Seq::<char>::empty(),
        },
        r.1.param_read() == 0,
{
    let chars = chars_of(line);
    let (mnemonic, parser) = parse_line_chars(chars.as_slice());
    (crate::util::text::string_of(mnemonic.as_slice()), parser)
}

/// `parse_line` on the characters of a line.
pub fn parse_line_chars(chars: &[char]) -> (r: (Vec<char>, ParamParser))
    ensures
        match first_index_of(chars@, ' ') {
            Some(i) => r.0@ == trim(chars@.take(i)) && r.1.params() == trim(chars@.skip(i + 1)),
            None => r.0@ == chars@ && r.1.params() == Seq::<char>::empty(),
        },
        r.1.param_read() == 0,
{
    match find_char(chars, ' ') {
        Some(i) => {
            let len = chars.len();
            let mnemonic = trim_chars(sub_chars(chars, 0, i).as_slice());
            let params = trim_chars(sub_chars(chars, i + 1, len).as_slice());
            proof {
                assert(chars@.subrange(0, i as int) =~= chars@.take(i as int));
                assert(chars@.subrange(i + 1, len as int) =~= chars@.skip(i + 1));
            }
            (mnemonic, ParamParser::from_chars(params))
        },
        None => {
            let all = sub_chars(chars, 0, chars.len());
            proof {
                assert(all@ =~= chars@);
            }
            (all, ParamParser::from_chars(Vec::new()))
        },
    }
}

/// The table that gives each of `names` its position.
pub open spec fn index_table(names: Seq<Seq<char>>) -> Map<Seq<char>, usize>
    decreases names.len(),
{
    if names.len() == 0 {
        Map::empty()
    } else {
        index_table(names.drop_last()).insert(names.last(), (names.len() - 1) as usize)
    }
}

/// The labels of `lines` from line `k` on, after `names`: the names in order, or the number
/// of the first line whose label is already defined.
pub open spec fn scan_labels(lines: Seq<Seq<char>>, k: nat, names: Seq<Seq<char>>) -> Result<Seq<Seq<char>>, nat>
    decreases lines.len() - k,
{
    if k >= lines.len() {
        Ok(names)
    } else {
        match circumfix(trim(lines[k as int])) {
            Some(l) => if names.contains(l) {
                Err(k)
            } else {
                scan_labels(lines, k + 1, names.push(l))
            },
            None => scan_labels(lines, k + 1, names),
        }
    }
}

proof fn lemma_index_table_dom(names: Seq<Seq<char>>, l: Seq<char>)
    ensures
        index_table(names).dom().contains(l) <==> names.contains(l),
    decreases names.len(),
{
    if names.len() > 0 {
        lemma_index_table_dom(names.drop_last(), l);
        if names.drop_last().contains(l) {
            let i = choose|i: int| 0 <= i < names.drop_last().len() && names.drop_last()[i] == l;
            assert(names[i] == l);
        }
        if names.contains(l) && l != names.last() {
            let i = choose|i: int| 0 <= i < names.len() && names[i] == l;
            assert(names.drop_last()[i] == l);
        }
    }
}

/// The names that scanning collects stay distinct.
proof fn lemma_scan_labels_distinct(lines: Seq<Seq<char>>, k: nat, names: Seq<Seq<char>>)
    requires
        distinct(names),
    ensures
        scan_labels(lines, k, names) matches Ok(all) ==> distinct(all),
    decreases lines.len() - k,
{
    if k < lines.len() {
        match circumfix(trim(lines[k as int])) {
            Some(l) => {
                if !names.contains(l) {
                    assert forall|i: int, j: int| 0 <= i < j < names.push(l).len() implies names.push(l)[i]
                        != names.push(l)[j] by {
                        if j == names.len() {
                            assert(names[i] != l);
                        }
                    }
                    lemma_scan_labels_distinct(lines, k + 1, names.push(l));
                }
            },
            None => {
                lemma_scan_labels_distinct(lines, k + 1, names);
            },
        }
    }
}

/// In the table of distinct names, each name maps to its position.
pub(crate) proof fn lemma_index_table_positions(names: Seq<Seq<char>>)
    requires
        distinct(names),
        names.len() <= usize::MAX,
    ensures
        forall|k: int|
            0 <= k < names.len() ==> #[trigger] index_table(names).dom().contains(names[k])
                && index_table(names)[names[k]] == k,
    decreases names.len(),
{
    if names.len() > 0 {
        let prefix = names.drop_last();
        assert(distinct(prefix));
        lemma_index_table_positions(prefix);
        assert(index_table(names) == index_table(prefix).insert(names.last(), (names.len() - 1) as usize));
        assert forall|k: int| 0 <= k < names.len() implies #[trigger] index_table(names).dom().contains(
            names[k],
        ) && index_table(names)[names[k]] == k by {
            if k < names.len() - 1 {
                assert(prefix[k] == names[k]);
                assert(names[k] != names.last());
                assert(index_table(prefix).dom().contains(prefix[k]));
            }
        }
    }
}

/// Labels are numbered in the order they are defined: once the labels of a scenario are
/// collected, the `k`-th label defined names subroutine `k`.
pub proof fn lemma_labels_in_order(lines: Seq<Seq<char>>, names: Seq<Seq<char>>)
    requires
        scan_labels(lines, 0, Seq::empty()) == Ok::<Seq<Seq<char>>, nat>(names),
        names.len() <= usize::MAX,
    ensures
        forall|k: int|
            0 <= k < names.len() ==> #[trigger] index_table(names).dom().contains(names[k])
                && index_table(names)[names[k]] == k,
{
    lemma_scan_labels_distinct(lines, 0, Seq::empty());
    lemma_index_table_positions(names);
}

/// Collects the labels of `scenario`: the lines that read `#name:` once trimmed. Each label
/// gets the next subroutine index, with offset zero; a label defined twice is refused with
/// the number of its second line, counted from zero.
pub fn parse_all_labels(scenario: &str) -> (r: Result<Labels, AsmError>)
    ensures
        match scan_labels(text_lines(scenario@), 0, Seq::empty()) {
            Ok(names) => r matches Ok(labels) && labels.table() == index_table(names)
                && labels.subroutines() == Seq::new(names.len(), |i: int| 0u32),
            Err(line) => r == Err::<Labels, AsmError>(AsmError::DuplicateLabel { line: line as usize }),
        },
{
    let chars = chars_of(scenario);
    let lines = split_lines(chars.as_slice());
    let ghost all = text_lines(scenario@);
    let mut labels = Labels::new();
    let ghost mut names: Seq<Seq<char>> = Seq::empty();
    let mut k: usize = 0;
    while k < lines.len()
        invariant
            k <= lines@.len(),
            lines@.len() == all.len(),
            all == text_lines(scenario@),
            forall|i: int| 0 <= i < lines@.len() ==> #[trigger] lines@[i]@ == all[i],
            names.len() <= k,
            labels.table() == index_table(names),
            labels.subroutines() == Seq::new(names.len(), |i: int| 0u32),
            scan_labels(all, 0, Seq::empty()) == scan_labels(all, k as nat, names),
        decreases lines@.len() - k,
    {
        match label_of_line(lines[k].as_slice()) {
            Some(label) => {
                proof {
                    lemma_index_table_dom(names, label@);
                }
                match labels.new_label(label.as_slice(), k) {
                    Ok(()) => {
                        proof {
                            assert(labels.subroutines() =~= Seq::new((names.len() + 1) as nat, |i: int| 0u32));
                            assert(names.push(label@).drop_last() =~= names);
                            names = names.push(label@);
                        }
                    },
                    Err(e) => {
                        return Err(e);
                    },
                }
            },
            None => {},
        }
        k += 1;
    }
    Ok(labels)
}

/// The subroutine table as bytes: each offset as a little-endian `u32`.
pub open spec fn table_bytes(subs: Seq<u32>) -> Seq<u8> {
    Seq::new(4 * subs.len(), |j: int| subs[j / 4].le_bytes()[j % 4])
}

/// The bytecode offset of a scenario file with `n` subroutines.
pub open spec fn code_offset_for(n: nat) -> nat {
    (SUBROUTINE_TABLE_OFFSET + 4 * n) as nat
}

/// The scenario file that holds the subroutine table `subs` and the bytecode `code`: a header
/// with the bytecode offset and the version of the rotating cipher, then the table and the
/// bytecode, each byte enciphered.
pub open spec fn isf_image(subs: Seq<u32>, code: Seq<u8>) -> Seq<u8> {
    let plain = table_bytes(subs) + code;
    (code_offset_for(subs.len()) as u32).le_bytes() + seq![0x95u8, 0x97u8, 0u8, 0u8] + Seq::new(
        plain.len(),
        |i: int| spec_encipher_rotate(plain[i]),
    )
}

/// The little-endian bytes of `v`, read back as a `u32`, give `v`.
proof fn lemma_u32_le_bytes(v: u32)
    ensures
        v.le_bytes().len() == 4,
        le_u32(v.le_bytes(), 0) == v,
{
    crate::util::io::lemma_pow256_values();
    crate::util::io::lemma_le_round_trip(v as nat, 4);
    let b = v.le_bytes();
    reveal_with_fuel(crate::util::io::le_value, 5);
    assert(b.drop_first().drop_first().drop_first().drop_first().len() == 0);
}

/// Writes the scenario file that holds the subroutine table `subroutines` and the bytecode
/// `code`, enciphered with the rotating cipher.
pub fn build_isf(subroutines: &[u32], code: &[u8]) -> (out: Vec<u8>)
    requires
        code_offset_for(subroutines@.len() as nat) <= usize::MAX,
    ensures
        out@ == isf_image(subroutines@, code@),
{
    let n = subroutines.len();
    let offset = (SUBROUTINE_TABLE_OFFSET + 4 * n) as u32;
    let mut out: Vec<u8> = Vec::new();
    out.put_le(offset);
    out.push(0x95);
    out.push(0x97);
    out.push(0);
    out.push(0);
    let ghost header = out@;
    let ghost plain = table_bytes(subroutines@) + code@;
    let mut k: usize = 0;
    while k < n
        invariant
            k <= n,
            n == subroutines@.len(),
            4 * n + 8 <= usize::MAX,
            plain == table_bytes(subroutines@) + code@,
            out@ == header + Seq::new(4 * k as nat, |i: int| spec_encipher_rotate(plain[i])),
        decreases n - k,
    {
        let mut word: Vec<u8> = Vec::new();
        word.put_le(subroutines[k]);
        proof {
            crate::util::io::lemma_pow256_values();
            crate::util::io::lemma_le_round_trip(subroutines@[k as int] as nat, 4);
        }
        let mut t: usize = 0;
        while t < 4
            invariant
                t <= 4,
                k < n,
                n == subroutines@.len(),
                word@ == subroutines@[k as int].le_bytes(),
                word@.len() == 4,
                plain == table_bytes(subroutines@) + code@,
                out@ == header + Seq::new((4 * k + t) as nat, |i: int| spec_encipher_rotate(plain[i])),
            decreases 4 - t,
        {
            let b = word[t];
            proof {
                assert((4 * k + t) / 4 == k);
                assert((4 * k + t) % 4 == t);
                assert(plain[4 * k + t] == b);
            }
            out.push(encipher_rotate(b));
            t += 1;
            proof {
                assert(out@ =~= header + Seq::new((4 * k + t) as nat, |i: int| spec_encipher_rotate(plain[i])));
            }
        }
        k += 1;
    }
    let mut j: usize = 0;
    while j < code.len()
        invariant
            j <= code@.len(),
            n == subroutines@.len(),
            plain == table_bytes(subroutines@) + code@,
            out@ == header + Seq::new((4 * n + j) as nat, |i: int| spec_encipher_rotate(plain[i])),
        decreases code@.len() - j,
    {
        let b = code[j];
        proof {
            assert(plain[4 * n + j] == b);
        }
        out.push(encipher_rotate(b));
        j += 1;
        proof {
            assert(out@ =~= header + Seq::new((4 * n + j) as nat, |i: int| spec_encipher_rotate(plain[i])));
        }
    }
    proof {
        assert(header =~= (code_offset_for(n as nat) as u32).le_bytes() + seq![0x95u8, 0x97u8, 0u8, 0u8]);
        assert(out@ =~= isf_image(subroutines@, code@));
    }
    out
}

/// What the assembler writes, the engine reads back: a scenario file built from a
/// subroutine table and bytecode is accepted, and loading it gives back that bytecode, that
/// table, and the offset right after the table.
pub proof fn lemma_isf_round_trip(subs: Seq<u32>, code: Seq<u8>)
    requires
        code_offset_for(subs.len()) <= u32::MAX,
    ensures
        ({
            let image = isf_image(subs, code);
            let offset = code_offset_for(subs.len());
            &&& load_error(image) is None
            &&& header_cipher(image) == Some(Cipher::Rotate)
            &&& le_u32(image, 0) == offset
            &&& deciphered(image, Cipher::Rotate).subrange(offset as int, image.len() as int) == code
            &&& subroutine_table(deciphered(image, Cipher::Rotate), offset) == Seq::new(
                subs.len(),
                |k: int| subs[k] as usize,
            )
        }),
{
    let image = isf_image(subs, code);
    let n = subs.len();
    let offset = code_offset_for(n);
    let plain = table_bytes(subs) + code;
    let header = (offset as u32).le_bytes() + seq![0x95u8, 0x97u8, 0u8, 0u8];
    lemma_u32_le_bytes(offset as u32);
    assert(header.len() == 8);
    assert(image[4] == 0x95u8 && image[5] == 0x97u8 && image[6] == 0u8);
    assert(le_u32(image, 0) == le_u32((offset as u32).le_bytes(), 0));
    let dec = deciphered(image, Cipher::Rotate);
    assert forall|i: int| 8 <= i < image.len() implies #[trigger] dec[i] == plain[i - 8] by {
        lemma_rotate_round_trip(plain[i - 8]);
    }
    assert(dec.subrange(offset as int, image.len() as int) =~= code);
    assert forall|k: int| 0 <= k < n implies #[trigger] subroutine_table(dec, offset)[k] == subs[k] as usize by {
        lemma_u32_le_bytes(subs[k]);
        let w = subs[k].le_bytes();
        assert(dec[8 + 4 * k] == w[0]);
        assert(dec[8 + 4 * k + 1] == w[1]);
        assert(dec[8 + 4 * k + 2] == w[2]);
        assert(dec[8 + 4 * k + 3] == w[3]);
    }
    assert(subroutine_table(dec, offset) =~= Seq::new(n, |k: int| subs[k] as usize));
}

} // verus!
