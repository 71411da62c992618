//! The disassembler and the assembler agree: the text the disassembler writes for an
//! instruction assembles back to that instruction's bytes, and the text it writes for a
//! scenario assembles back to the scenario's subroutine table and bytecode.
use vstd::prelude::*;
use crate::util::text::{decimal, is_white_space, signed_decimal, trim, trim_end, trim_start, zero_padded};
use crate::util::io::WriteEndian;
use crate::tools::params::{
    ParamNum, Value, all_digits, digits_value, lemma_first_index_of, lemma_next_shrinks, next_outcome,
    numeric_char, read_label_outcome, read_value_outcome,
};
use crate::util::index_vec::le_concat;
use crate::util::text::first_index_of;
use crate::tools::assembler::{
    instruction_bytes, value_bytes, text_lines, lemma_text_lines_step, lemma_text_lines_last, strip_cr,
    circumfix, code_offset_for, distinct, index_table, lemma_index_table_positions, scan_labels,
};
use crate::tools::assemble::{
    AsmOutcome, LineOutcome, Operand, assemble_lines, branch_labels, branches_outcome, assemble_outcome, is_branching, line_outcome, operand_outcome, operands_of, operands_outcome,
    split_line,
};
use crate::tools::disassembler::{lemma_decimal_reads_back, pad_right, value_text};
use crate::tools::disassemble::{
    Step, label_line, labels_from, listing, step_at, length_at, name_for, disassembly,
    add_text, decode_value, dword_at, is_message, join_params, label_text, lemma_number_operand_round_trip,
    lemma_value_round_trip, line_text, listing_operands_of, mnemonic_text, operand_step, operand_texts,
    params_texts, word_at, DisasmError, branch_texts,
};

verus! {

/// Whether `t` reads back as itself as one operand: not empty, and without a comma or white
/// space.
pub open spec fn clean_text(t: Seq<char>) -> bool {
    &&& t.len() > 0
    &&& forall|i: int| 0 <= i < t.len() ==> t[i] != ',' && !is_white_space(#[trigger] t[i])
    &&& !is_white_space(t[0])
    &&& !is_white_space(t.last())
}

/// The texts `ts` separated by `, `.
pub open spec fn comma_join(ts: Seq<Seq<char>>) -> Seq<char>
    decreases ts.len(),
{
    if ts.len() == 0 {
        Seq::empty()
    } else if ts.len() == 1 {
        ts[0]
    } else {
        ts[0] + seq![',', ' '] + comma_join(ts.drop_first())
    }
}

/// `n` spaces.
pub open spec fn spaces(n: nat) -> Seq<char> {
    Seq::new(n, |i: int| ' ')
}

proof fn lemma_space_not_clean()
    ensures
        is_white_space(' '),
        !is_white_space(','),
{
    reveal(is_white_space);
}

/// A digit is neither white space nor a comma.
proof fn lemma_digit_char(c: char)
    requires
        '0' <= c <= '9',
    ensures
        !is_white_space(c),
        c != ',',
{
    reveal(is_white_space);
}

/// Trimming text that starts and ends with something other than white space leaves it.
proof fn lemma_trim_clean(x: Seq<char>)
    requires
        x.len() > 0,
        !is_white_space(x[0]),
        !is_white_space(x.last()),
    ensures
        trim(x) == x,
{
    assert(trim_start(x) == x);
}

/// Leading spaces are trimmed away.
proof fn lemma_trim_start_spaces(n: nat, x: Seq<char>)
    ensures
        trim_start(spaces(n) + x) == trim_start(x),
    decreases n,
{
    lemma_space_not_clean();
    if n > 0 {
        let s = spaces(n) + x;
        assert(s[0] == ' ');
        assert(s.drop_first() =~= spaces((n - 1) as nat) + x);
        lemma_trim_start_spaces((n - 1) as nat, x);
    } else {
        assert(spaces(0) + x =~= x);
    }
}

/// Trimming spaces and then text that starts and ends with something other than white space
/// gives the text.
proof fn lemma_trim_spaces_clean(n: nat, x: Seq<char>)
    requires
        x.len() > 0,
        !is_white_space(x[0]),
        !is_white_space(x.last()),
    ensures
        trim(spaces(n) + x) == x,
{
    lemma_trim_start_spaces(n, x);
    assert(trim_start(x) == x);
}

/// `first_index_of` is the first position of the character.
proof fn lemma_first_index_at(s: Seq<char>, c: char, k: int)
    requires
        0 <= k < s.len(),
        s[k] == c,
        forall|j: int| 0 <= j < k ==> s[j] != c,
    ensures
        first_index_of(s, c) == Some(k),
{
    lemma_first_index_of(s, c);
    match first_index_of(s, c) {
        Some(i) => {
            if i < k {
                assert(s[i] != c);
            }
            if i > k {
                assert(s[k] != c);
            }
        },
        None => {
            assert(s[k] != c);
        },
    }
}

/// The first and last characters of joined clean texts.
proof fn lemma_comma_join_ends(ts: Seq<Seq<char>>)
    requires
        ts.len() > 0,
        forall|j: int| 0 <= j < ts.len() ==> #[trigger] clean_text(ts[j]),
    ensures
        comma_join(ts).len() > 0,
        comma_join(ts)[0] == ts[0][0],
        comma_join(ts).last() == ts.last().last(),
    decreases ts.len(),
{
    if ts.len() > 1 {
        assert(clean_text(ts[0]));
        let rest = ts.drop_first();
        assert forall|j: int| 0 <= j < rest.len() implies #[trigger] clean_text(rest[j]) by {
            assert(clean_text(ts[j + 1]));
        }
        lemma_comma_join_ends(rest);
    } else {
        assert(clean_text(ts[0]));
    }
}

#[verifier::spinoff_prover]
#[verifier::rlimit(40)]
/// Reading the first operand of joined clean texts gives the first text and leaves the rest
/// joined.
proof fn lemma_next_of_join(ts: Seq<Seq<char>>)
    requires
        ts.len() > 0,
        forall|j: int| 0 <= j < ts.len() ==> #[trigger] clean_text(ts[j]),
    ensures
        next_outcome(comma_join(ts)).0 == Some(ts[0]),
        next_outcome(comma_join(ts)).1 == comma_join(ts.drop_first()),
{
    let t = ts[0];
    assert(clean_text(t));
    if ts.len() == 1 {
        lemma_first_index_of(t, ',');
        assert(comma_join(ts.drop_first()) == Seq::<char>::empty());
    } else {
        let rest = ts.drop_first();
        assert forall|j: int| 0 <= j < rest.len() implies #[trigger] clean_text(rest[j]) by {
            assert(clean_text(ts[j + 1]));
        }
        let s = comma_join(ts);
        assert(s == t + seq![',', ' '] + comma_join(rest));
        assert forall|j: int| 0 <= j < t.len() implies s[j] != ',' by {
            assert(s[j] == t[j]);
        }
        assert(s[t.len() as int] == ',');
        lemma_first_index_at(s, ',', t.len() as int);
        assert(s.take(t.len() as int) =~= t);
        lemma_trim_clean(t);
        lemma_comma_join_ends(rest);
        assert(clean_text(rest[0]));
        assert(clean_text(rest[rest.len() - 1]));
        assert(s.skip(t.len() + 1 as int) =~= spaces(1) + comma_join(rest));
        lemma_trim_spaces_clean(1, comma_join(rest));
    }
}

/// Joining clean texts with `add_text` one by one is joining them with `, `.
proof fn lemma_join_params_is_comma_join(ts: Seq<Seq<char>>)
    requires
        forall|j: int| 0 <= j < ts.len() ==> #[trigger] ts[j].len() > 0,
    ensures
        join_params(ts) == comma_join(ts),
    decreases ts.len(),
{
    if ts.len() > 0 {
        let init = ts.drop_last();
        assert forall|j: int| 0 <= j < init.len() implies #[trigger] init[j].len() > 0 by {
            assert(ts[j].len() > 0);
        }
        lemma_join_params_is_comma_join(init);
        lemma_comma_join_push(init, ts.last());
        assert(init.push(ts.last()) =~= ts);
        assert(ts.drop_last() == init);
    }
}

proof fn lemma_comma_join_push(ts: Seq<Seq<char>>, t: Seq<char>)
    requires
        forall|j: int| 0 <= j < ts.len() ==> #[trigger] ts[j].len() > 0,
    ensures
        comma_join(ts.push(t)) == add_text(comma_join(ts), t),
    decreases ts.len(),
{
    if ts.len() == 0 {
        assert(ts.push(t) =~= seq![t]);
        assert(comma_join(ts.push(t)) =~= add_text(comma_join(ts), t));
    } else if ts.len() == 1 {
        assert(ts[0].len() > 0);
        assert(ts.push(t).drop_first() =~= seq![t]);
        assert(comma_join(seq![t]) == t);
        assert(comma_join(ts) == ts[0]);
        assert(ts.push(t)[0] == ts[0]);
        assert(comma_join(ts.push(t)) == ts[0] + seq![',', ' '] + t);
        assert(comma_join(ts.push(t)) =~= add_text(comma_join(ts), t));
    } else {
        let rest = ts.drop_first();
        assert forall|j: int| 0 <= j < rest.len() implies #[trigger] rest[j].len() > 0 by {
            assert(ts[j + 1].len() > 0);
        }
        lemma_comma_join_push(rest, t);
        assert(ts.push(t).drop_first() =~= rest.push(t));
        assert(rest[0].len() > 0);
        lemma_comma_join_nonempty(rest);
        assert(ts[0].len() > 0);
        lemma_comma_join_nonempty(ts);
        assert(comma_join(ts.push(t)) =~= add_text(comma_join(ts), t));
    }
}

proof fn lemma_comma_join_nonempty(ts: Seq<Seq<char>>)
    requires
        ts.len() > 0,
    ensures
        comma_join(ts).len() >= ts[0].len(),
        ts.len() > 1 ==> comma_join(ts).len() > 0,
{
}

/// Digits make a clean text.
proof fn lemma_digits_clean(s: Seq<char>)
    requires
        s.len() > 0,
        all_digits(s),
    ensures
        clean_text(s),
{
    assert('0' <= s[0] <= '9');
    assert('0' <= s.last() <= '9');
    lemma_digit_char(s[0]);
    lemma_digit_char(s.last());
    assert forall|i: int| 0 <= i < s.len() implies s[i] != ',' && !is_white_space(#[trigger] s[i]) by {
        assert('0' <= s[i] <= '9');
        lemma_digit_char(s[i]);
    }
}

/// A character before digits that is neither white space nor a comma keeps them clean.
proof fn lemma_prefix_clean(c: char, s: Seq<char>)
    requires
        s.len() > 0,
        all_digits(s),
        c == '-' || c == '@' || c == '%',
    ensures
        clean_text(seq![c] + s),
{
    reveal(is_white_space);
    lemma_digits_clean(s);
    let t = seq![c] + s;
    assert(t.last() == s.last());
    assert forall|i: int| 0 <= i < t.len() implies t[i] != ',' && !is_white_space(#[trigger] t[i]) by {
        if i > 0 {
            assert(t[i] == s[i - 1]);
        }
    }
}

/// The text of a value is clean.
proof fn lemma_value_text_clean(v: Value)
    ensures
        clean_text(value_text(v)),
{
    match v {
        Value::Literal(n) => {
            if n < 0 {
                lemma_decimal_reads_back((-n) as nat);
                lemma_prefix_clean('-', decimal((-n) as nat));
            } else {
                lemma_decimal_reads_back(n as nat);
                lemma_digits_clean(decimal(n as nat));
            }
        },
        Value::Register(i) => {
            lemma_decimal_reads_back(i as nat);
            lemma_prefix_clean('@', decimal(i as nat));
        },
        Value::Random(m) => {
            let d = signed_decimal(m as int);
            if m < 0 {
                lemma_decimal_reads_back((-m) as nat);
                let t = seq!['%'] + (seq!['-'] + decimal((-m) as nat));
                reveal(is_white_space);
                lemma_digits_clean(decimal((-m) as nat));
                assert(t.last() == decimal((-m) as nat).last());
                assert forall|i: int| 0 <= i < t.len() implies t[i] != ',' && !is_white_space(#[trigger] t[i]) by {
                    if i > 1 {
                        assert(t[i] == decimal((-m) as nat)[i - 2]);
                    }
                }
            } else {
                lemma_decimal_reads_back(m as nat);
                lemma_prefix_clean('%', decimal(m as nat));
            }
        },
    }
}

/// The digits of `zero_padded(n, w)`.
proof fn lemma_zero_padded_digits(n: nat, w: nat)
    ensures
        zero_padded(n, w).len() > 0,
        all_digits(zero_padded(n, w)),
{
    lemma_decimal_reads_back(n);
    let d = decimal(n);
    if d.len() < w {
        let z = zero_padded(n, w);
        assert forall|i: int| 0 <= i < z.len() implies '0' <= #[trigger] z[i] <= '9' by {
            if i >= w - d.len() {
                assert(z[i] == d[i - (w - d.len())]);
            }
        }
    }
}

/// The name of a label is clean and does not start with a digit or a quote.
proof fn lemma_label_text_clean(k: nat)
    ensures
        clean_text(label_text(k)),
        !numeric_char(label_text(k)[0]),
        label_text(k)[0] != '"',
{
    reveal(is_white_space);
    lemma_zero_padded_digits(k, 4);
    let z = zero_padded(k, 4);
    let t = label_text(k);
    lemma_digits_clean(z);
    assert(t.last() == z.last());
    assert forall|i: int| 0 <= i < t.len() implies t[i] != ',' && !is_white_space(#[trigger] t[i]) by {
        if i >= 6 {
            assert(t[i] == z[i - 6]);
        }
    }
}

/// Whether the operands `kinds` from the `i`-th on, decoded from `pos` in `p`, take exactly
/// the rest of `p`, are numbers, values or labels only, each value is stored as the
/// assembler stores it, and each label is below `n`.
pub open spec fn operands_round_trip(kinds: Seq<Operand>, i: nat, p: Seq<u8>, pos: int, n: nat) -> bool
    decreases kinds.len() - i,
{
    if i >= kinds.len() {
        pos == p.len()
    } else {
        match kinds[i as int] {
            Operand::Byte => pos + 1 <= p.len() && operands_round_trip(kinds, i + 1, p, pos + 1, n),
            Operand::Word => pos + 2 <= p.len() && operands_round_trip(kinds, i + 1, p, pos + 2, n),
            Operand::Val => pos + 4 <= p.len() && value_bytes(decode_value(dword_at(p, pos)))
                == p.subrange(pos, pos + 4) && operands_round_trip(kinds, i + 1, p, pos + 4, n),
            Operand::Label => pos + 2 <= p.len() && word_at(p, pos) < n && operands_round_trip(
                kinds,
                i + 1,
                p,
                pos + 2,
                n,
            ),
            _ => false,
        }
    }
}

/// Whether `table` gives the label of each subroutine below `n` its index.
pub open spec fn labels_table(table: Map<Seq<char>, usize>, n: nat) -> bool {
    forall|k: nat|
        k < n ==> #[trigger] table.dom().contains(label_text(k)) && table[label_text(k)] == k
}

/// One operand: its text is clean, and read in front of more operands it gives back the
/// bytes it came from.
#[verifier::spinoff_prover]
#[verifier::rlimit(40)]
proof fn lemma_one_operand(
    kind: Operand,
    p: Seq<u8>,
    pos: int,
    n: nat,
    table: Map<Seq<char>, usize>,
    rest: Seq<Seq<char>>,
)
    requires
        0 <= pos,
        labels_table(table, n),
        forall|j: int| 0 <= j < rest.len() ==> #[trigger] clean_text(rest[j]),
        match kind {
            Operand::Byte => pos + 1 <= p.len(),
            Operand::Word => pos + 2 <= p.len(),
            Operand::Val => pos + 4 <= p.len() && value_bytes(decode_value(dword_at(p, pos))) == p.subrange(
                pos,
                pos + 4,
            ),
            Operand::Label => pos + 2 <= p.len() && word_at(p, pos) < n,
            _ => false,
        },
    ensures
        operand_step(kind, p, pos) matches Ok((t, next)) && clean_text(t) && next <= p.len() && ({
            let ts = seq![t] + rest;
            operand_outcome(kind, comma_join(ts), table) == Ok::<(Seq<u8>, Seq<char>), crate::tools::params::AsmError>(
                (p.subrange(pos, next), comma_join(rest)),
            )
        }),
{
    let (t, next) = operand_step(kind, p, pos)->Ok_0;
    lemma_number_operand_round_trip(p, pos);
    match kind {
        Operand::Byte => {
            lemma_decimal_reads_back(p[pos] as nat);
            lemma_digits_clean(t);
        },
        Operand::Word => {
            lemma_decimal_reads_back(word_at(p, pos));
            lemma_digits_clean(t);
        },
        Operand::Val => {
            let v = decode_value(dword_at(p, pos));
            lemma_value_text_clean(v);
            crate::tools::disassembler::lemma_value_text_round_trip(v);
        },
        Operand::Label => {
            lemma_label_text_clean(word_at(p, pos));
            assert(table.dom().contains(label_text(word_at(p, pos))));
        },
        _ => {},
    }
    let ts = seq![t] + rest;
    assert(ts.drop_first() =~= rest);
    assert forall|j: int| 0 <= j < ts.len() implies #[trigger] clean_text(ts[j]) by {
        if j > 0 {
            assert(ts[j] == rest[j - 1]);
        }
    }
    lemma_next_of_join(ts);
}

/// Operand by operand, the texts the disassembler writes read back in the assembler as the
/// bytes they came from.
#[verifier::spinoff_prover]
#[verifier::rlimit(80)]
proof fn lemma_operands_round_trip(
    kinds: Seq<Operand>,
    i: nat,
    p: Seq<u8>,
    pos: int,
    n: nat,
    table: Map<Seq<char>, usize>,
)
    requires
        0 <= pos <= p.len(),
        i <= kinds.len(),
        operands_round_trip(kinds, i, p, pos, n),
        labels_table(table, n),
    ensures
        operand_texts(kinds, i, p, pos) matches Ok(ts) && ts.len() == kinds.len() - i && (forall|j: int|
            0 <= j < ts.len() ==> #[trigger] clean_text(ts[j])) && operands_outcome(
            kinds,
            i,
            comma_join(ts),
            table,
        ) == Ok::<(Seq<u8>, Seq<char>), crate::tools::params::AsmError>(
            (p.subrange(pos, p.len() as int), Seq::empty()),
        ),
    decreases kinds.len() - i,
{
    if i >= kinds.len() {
        assert(p.subrange(pos, p.len() as int) =~= Seq::<u8>::empty());
    } else {
        let kind = kinds[i as int];
        let next: int = match kind {
            Operand::Byte => pos + 1,
            Operand::Val => pos + 4,
            _ => pos + 2,
        };
        assert(operands_round_trip(kinds, i + 1, p, next, n));
        lemma_operands_round_trip(kinds, i + 1, p, next, n, table);
        let rest = operand_texts(kinds, i + 1, p, next)->Ok_0;
        lemma_one_operand(kind, p, pos, n, table, rest);
        let t = operand_step(kind, p, pos)->Ok_0.0;
        assert(operand_step(kind, p, pos) == Ok::<(Seq<char>, int), crate::tools::disassemble::DisasmError>((t, next)));
        let ts = seq![t] + rest;
        assert(operand_texts(kinds, i, p, pos) == Ok::<Seq<Seq<char>>, crate::tools::disassemble::DisasmError>(ts));
        let rest_out = operands_outcome(kinds, i + 1, comma_join(rest), table);
        assert(rest_out == Ok::<(Seq<u8>, Seq<char>), crate::tools::params::AsmError>(
            (p.subrange(next, p.len() as int), Seq::empty()),
        ));
        assert(ts.drop_first() =~= rest);
        assert forall|j: int| 0 <= j < ts.len() implies #[trigger] clean_text(ts[j]) by {
            if j > 0 {
                assert(ts[j] == rest[j - 1]);
            }
        }
        assert(p.subrange(pos, next) + p.subrange(next, p.len() as int) =~= p.subrange(pos, p.len() as int));
        assert(operands_outcome(kinds, i, comma_join(ts), table) == Ok::<
            (Seq<u8>, Seq<char>),
            crate::tools::params::AsmError,
        >((p.subrange(pos, p.len() as int), Seq::empty())));
    }
}


/// Whether the parameters `p` of a branching instruction are a value stored as the assembler
/// stores it, a count, and that many labels, each one of the first `n` subroutines, with
/// nothing after them.
pub open spec fn branches_round_trip(p: Seq<u8>, n: nat) -> bool {
    &&& p.len() >= 5
    &&& p.len() == 5 + 2 * p[4]
    &&& value_bytes(decode_value(dword_at(p, 0))) == p.subrange(0, 4)
    &&& forall|j: int| 0 <= j < p[4] ==> #[trigger] word_at(p, 5 + 2 * j) < n
}

/// The label texts of the branches of `p` from the `j`-th on.
pub open spec fn branch_label_texts(p: Seq<u8>, j: nat) -> Seq<Seq<char>> {
    Seq::new((p[4] - j) as nat, |i: int| label_text(word_at(p, 5 + 2 * (j + i))))
}

/// The branch labels from the `j`-th on read back as the bytes they came from.
#[verifier::spinoff_prover]
#[verifier::rlimit(40)]
proof fn lemma_branch_labels(p: Seq<u8>, n: nat, table: Map<Seq<char>, usize>, j: nat)
    requires
        branches_round_trip(p, n),
        j <= p[4],
        labels_table(table, n),
    ensures
        forall|i: int| 0 <= i < branch_label_texts(p, j).len() ==> #[trigger] clean_text(branch_label_texts(p, j)[i]),
        branch_labels(comma_join(branch_label_texts(p, j)), table) matches Ok((ws, left)) && left
            == Seq::<char>::empty() && le_concat(ws) == p.subrange(5 + 2 * (j as int), p.len() as int),
    decreases p[4] - j,
{
    let ls = branch_label_texts(p, j);
    if j == p[4] {
        assert(ls =~= Seq::<Seq<char>>::empty());
        lemma_first_index_of(Seq::<char>::empty(), ',');
        assert(p.subrange(5 + 2 * (j as int), p.len() as int) =~= Seq::<u8>::empty());
        assert(le_concat(Seq::<u16>::empty()) == Seq::<u8>::empty());
    } else {
        let pos: int = 5 + 2 * (j as int);
        let rest = branch_label_texts(p, j + 1);
        lemma_branch_labels(p, n, table, j + 1);
        assert(word_at(p, 5 + 2 * (j as int)) < n);
        lemma_one_operand(Operand::Label, p, pos, n, table, rest);
        let t = label_text(word_at(p, pos));
        assert(ls =~= seq![t] + rest) by {
            assert forall|i: int| 0 <= i < ls.len() implies ls[i] == (seq![t] + rest)[i] by {
                if i > 0 {
                    assert(rest[i - 1] == label_text(word_at(p, 5 + 2 * ((j + 1) + (i - 1)))));
                }
            }
        }
        assert forall|i: int| 0 <= i < ls.len() implies #[trigger] clean_text(ls[i]) by {
            if i > 0 {
                assert(ls[i] == rest[i - 1]);
            }
        }
        let (r, after) = read_label_outcome(comma_join(ls));
        assert(after == comma_join(rest));
        let l = r->Ok_0;
        let ws_rest = branch_labels(comma_join(rest), table)->Ok_0.0;
        let ws = seq![table[l] as u16] + ws_rest;
        lemma_next_shrinks(comma_join(ls));
        assert(branch_labels(comma_join(ls), table) == Ok::<(Seq<u16>, Seq<char>), crate::tools::params::AsmError>(
            (ws, Seq::<char>::empty()),
        ));
        assert(ws.drop_first() =~= ws_rest);
        assert(ws[0] == table[l] as u16);
        assert(p.subrange(pos, pos + 2) + p.subrange(pos + 2, p.len() as int) =~= p.subrange(pos, p.len() as int));
    }
}

/// The operands of a branching instruction read back as its parameters.
#[verifier::spinoff_prover]
#[verifier::rlimit(40)]
proof fn lemma_branches_round_trip(p: Seq<u8>, n: nat, table: Map<Seq<char>, usize>)
    requires
        branches_round_trip(p, n),
        labels_table(table, n),
    ensures
        branch_texts(p) matches Ok(ts) && ts.len() > 0 && (forall|i: int|
            0 <= i < ts.len() ==> #[trigger] clean_text(ts[i])) && branches_outcome(comma_join(ts), table)
            == Ok::<(Seq<u8>, Seq<char>), crate::tools::params::AsmError>((p, Seq::<char>::empty())),
{
    reveal_with_fuel(crate::util::io::le_seq, 2);
    let ls = branch_label_texts(p, 0);
    lemma_branch_labels(p, n, table, 0);
    lemma_one_operand(Operand::Val, p, 0, n, table, ls);
    let vt = value_text(decode_value(dword_at(p, 0)));
    let ts = seq![vt] + ls;
    assert(ls =~= Seq::new(p[4] as nat, |j: int| label_text(word_at(p, 5 + 2 * j))));
    assert(branch_texts(p) == Ok::<Seq<Seq<char>>, DisasmError>(ts));
    assert forall|i: int| 0 <= i < ts.len() implies #[trigger] clean_text(ts[i]) by {
        if i > 0 {
            assert(ts[i] == ls[i - 1]);
        }
    }
    let (v, after) = read_value_outcome(comma_join(ts));
    assert(after == comma_join(ls));
    let value = v->Ok_0;
    assert(value_bytes(value) == p.subrange(0, 4));
    let ws = branch_labels(comma_join(ls), table)->Ok_0.0;
    assert(ws.len() == p[4]) by {
        assert(le_concat(ws) == p.subrange(5, p.len() as int));
        lemma_le_concat_u16_len(ws);
    }
    assert((ws.len() as u8).le_bytes() =~= seq![p[4]]);
    assert(p.subrange(0, 4) + seq![p[4]] + p.subrange(5, p.len() as int) =~= p);
}

/// The bytes of `n` words are twice as many.
proof fn lemma_le_concat_u16_len(ws: Seq<u16>)
    ensures
        le_concat(ws).len() == 2 * ws.len(),
    decreases ws.len(),
{
    reveal_with_fuel(crate::util::io::le_seq, 3);
    if ws.len() > 0 {
        lemma_le_concat_u16_len(ws.drop_first());
        assert(ws[0].le_bytes().len() == 2);
    }
}

/// Whether the parameters `p` of the instruction `m` are operands that read back: the
/// branches of a branching instruction, or else numbers, values or labels by its operand
/// layout that take all of `p`; each value stored as the assembler stores it and each label
/// one of the first `n` subroutines.
pub open spec fn operands_ok(m: Seq<char>, p: Seq<u8>, n: nat) -> bool {
    if is_branching(m) {
        branches_round_trip(p, n)
    } else {
        operands_of(m) matches Some(kinds) && operands_round_trip(kinds, 0, p, 0, n)
    }
}

/// What the assembler encodes the parameters `params` of the instruction `m` into.
pub open spec fn encoded_params(m: Seq<char>, params: Seq<char>, table: Map<Seq<char>, usize>) -> Result<
    (Seq<u8>, Seq<char>),
    crate::tools::params::AsmError,
> {
    if is_branching(m) {
        branches_outcome(params, table)
    } else {
        match operands_of(m) {
            Some(kinds) => operands_outcome(kinds, 0, params, table),
            None => Err(crate::tools::params::AsmError::UnimplementedInstruction),
        }
    }
}

/// The operand texts of an instruction whose operands read back are clean and encode back
/// to its parameters.
proof fn lemma_params_round_trip(
    m: Seq<char>,
    p: Seq<u8>,
    n: nat,
    table: Map<Seq<char>, usize>,
    charset: Seq<Vec<u8>>,
)
    requires
        !is_message(m),
        operands_ok(m, p, n),
        labels_table(table, n),
    ensures
        params_texts(m, p, charset) matches Ok(ts) && (forall|i: int|
            0 <= i < ts.len() ==> #[trigger] clean_text(ts[i])) && encoded_params(m, comma_join(ts), table)
            == Ok::<(Seq<u8>, Seq<char>), crate::tools::params::AsmError>((p, Seq::<char>::empty())),
{
    if is_branching(m) {
        lemma_branches_round_trip(p, n, table);
    } else {
        let kinds = operands_of(m)->Some_0;
        lemma_operands_round_trip(kinds, 0, p, 0, n, table);
        assert(p.subrange(0, p.len() as int) =~= p);
        assert(listing_operands_of(m) == Some(kinds));
    }
}

/// Whether `l` can stand as a line of text: no line feed in it, and no carriage return at
/// its end.
pub open spec fn plain_line(l: Seq<char>) -> bool {
    &&& forall|i: int| 0 <= i < l.len() ==> l[i] != '\n'
    &&& l.len() > 0 ==> l.last() != '\r'
}

proof fn lemma_newline_cr()
    ensures
        is_white_space('\n'),
        is_white_space('\r'),
{
    reveal(is_white_space);
}

/// Joined clean texts hold no line feed, and end with no carriage return.
proof fn lemma_comma_join_plain(ts: Seq<Seq<char>>)
    requires
        forall|j: int| 0 <= j < ts.len() ==> #[trigger] clean_text(ts[j]),
    ensures
        forall|i: int| 0 <= i < comma_join(ts).len() ==> comma_join(ts)[i] != '\n',
    decreases ts.len(),
{
    lemma_newline_cr();
    if ts.len() == 1 {
        assert(clean_text(ts[0]));
    } else if ts.len() > 1 {
        let rest = ts.drop_first();
        assert forall|j: int| 0 <= j < rest.len() implies #[trigger] clean_text(rest[j]) by {
            assert(clean_text(ts[j + 1]));
        }
        lemma_comma_join_plain(rest);
        assert(clean_text(ts[0]));
        let s = comma_join(ts);
        let t = ts[0];
        assert(s == t + seq![',', ' '] + comma_join(rest));
        assert forall|i: int| 0 <= i < s.len() implies s[i] != '\n' by {
            if i < t.len() {
                assert(s[i] == t[i]);
            } else if i >= t.len() + 2 {
                assert(s[i] == comma_join(rest)[i - t.len() - 2]);
            }
        }
    }
}

/// Whether `m` can stand as a mnemonic in assembly text: not empty, without white space,
/// and not starting like a label line (`#`) or a comment (`;`).
pub open spec fn clean_name(m: Seq<char>) -> bool {
    &&& m.len() > 0
    &&& forall|i: int| 0 <= i < m.len() ==> !is_white_space(#[trigger] m[i])
    &&& m[0] != '#'
    &&& m[0] != ';'
}

/// A line of the listing without its line feed.
pub open spec fn line_body(mnemonic: Seq<char>, joined: Seq<char>) -> Seq<char> {
    if joined.len() == 0 {
        spaces(4) + mnemonic
    } else {
        spaces(4) + pad_right(mnemonic, 16) + seq![' '] + joined
    }
}

/// A line of the listing is its body and a line feed.
proof fn lemma_line_text_body(mnemonic: Seq<char>, joined: Seq<char>)
    ensures
        line_text(mnemonic, joined) == line_body(mnemonic, joined) + seq!['\n'],
{
    assert(spaces(4) =~= seq![' ', ' ', ' ', ' ']);
    if joined.len() == 0 {
        assert(line_text(mnemonic, joined) =~= line_body(mnemonic, joined) + seq!['\n']);
    } else {
        assert(line_text(mnemonic, joined) =~= line_body(mnemonic, joined) + seq!['\n']);
    }
}

/// The line the disassembler writes for an instruction assembles back to the instruction's
/// bytes: for a mnemonic that both tools know with the same opcode, that is not a message,
/// whose operands read back (`operands_ok`), and a length that takes one byte.
pub proof fn lemma_line_round_trip(
    m: Seq<char>,
    op: u8,
    p: Seq<u8>,
    n: nat,
    opcodes: Map<Seq<char>, u8>,
    table: Map<Seq<char>, usize>,
    charset: Seq<Vec<u8>>,
)
    requires
        clean_name(m),
        opcodes.dom().contains(m),
        opcodes[m] == op,
        !is_message(m),
        operands_ok(m, p, n),
        p.len() + 2 <= 0x7f,
        labels_table(table, n),
    ensures
        params_texts(m, p, charset) matches Ok(ps) && line_outcome(
            trim(line_body(mnemonic_text(m, op), join_params(ps))),
            opcodes,
            table,
        ) == LineOutcome::Encoded(instruction_bytes(op, p)) && trim(
            line_body(mnemonic_text(m, op), join_params(ps)),
        ).len() > 0 && trim(line_body(mnemonic_text(m, op), join_params(ps)))[0] == m[0] && plain_line(
            line_body(mnemonic_text(m, op), join_params(ps)),
        ),
{
    lemma_space_not_clean();
    lemma_params_round_trip(m, p, n, table, charset);
    let ts = params_texts(m, p, charset)->Ok_0;
    assert forall|j: int| 0 <= j < ts.len() implies #[trigger] ts[j].len() > 0 by {
        assert(clean_text(ts[j]));
    }
    lemma_join_params_is_comma_join(ts);
    let j = join_params(ts);
    assert(mnemonic_text(m, op) == m);
    assert(!is_white_space(m[0]));
    assert(!is_white_space(m.last()));
    assert forall|i: int| 0 <= i < m.len() implies m[i] != ' ' by {
        assert(!is_white_space(m[i]));
    }
    lemma_newline_cr();
    if ts.len() == 0 {
        assert(j == Seq::<char>::empty());
        lemma_trim_spaces_clean(4, m);
        let b = spaces(4) + m;
        assert forall|i: int| 0 <= i < b.len() implies b[i] != '\n' by {
            if i >= 4 {
                assert(b[i] == m[i - 4]);
            }
        }
        assert(b.last() == m.last());
        lemma_first_index_of(m, ' ');
        assert(split_line(m) == (m, Seq::<char>::empty()));
    } else {
        lemma_comma_join_ends(ts);
        assert(clean_text(ts[0]));
        assert(clean_text(ts[ts.len() - 1]));
        let k: nat = if m.len() < 16 { (16 - m.len() + 1) as nat } else { 1 };
        let x = m + spaces(k) + j;
        assert(spaces(4) + pad_right(m, 16) + seq![' '] + j =~= spaces(4) + x);
        assert(x[0] == m[0]);
        assert(x.last() == j.last());
        lemma_trim_spaces_clean(4, x);
        assert forall|i: int| 0 <= i < m.len() implies x[i] != ' ' by {
            assert(x[i] == m[i]);
        }
        assert(x[m.len() as int] == ' ');
        lemma_first_index_at(x, ' ', m.len() as int);
        assert(x.take(m.len() as int) =~= m);
        lemma_trim_clean(m);
        assert(x.skip(m.len() + 1 as int) =~= spaces((k - 1) as nat) + j);
        lemma_trim_spaces_clean((k - 1) as nat, j);
        assert(split_line(x) == (m, j));
        lemma_comma_join_plain(ts);
        let b = spaces(4) + x;
        assert forall|i: int| 0 <= i < b.len() implies b[i] != '\n' by {
            if 4 <= i < 4 + m.len() {
                assert(b[i] == m[i - 4]);
            } else if i >= 4 + m.len() + k {
                assert(b[i] == j[i - 4 - m.len() - k]);
            }
        }
        assert(b.last() == j.last());
    }
}

/// The text whose lines are `ls`, each ended by a line feed.
pub open spec fn joined_lines(ls: Seq<Seq<char>>) -> Seq<char>
    decreases ls.len(),
{
    if ls.len() == 0 {
        Seq::empty()
    } else {
        ls[0] + seq!['\n'] + joined_lines(ls.drop_first())
    }
}

proof fn lemma_joined_concat(a: Seq<Seq<char>>, b: Seq<Seq<char>>)
    ensures
        joined_lines(a + b) == joined_lines(a) + joined_lines(b),
    decreases a.len(),
{
    if a.len() == 0 {
        assert(a + b =~= b);
    } else {
        assert((a + b).drop_first() =~= a.drop_first() + b);
        lemma_joined_concat(a.drop_first(), b);
        assert(joined_lines(a + b) =~= joined_lines(a) + joined_lines(b));
    }
}

/// Splitting into lines a text made of plain lines gives the lines back.
proof fn lemma_text_lines_joined(ls: Seq<Seq<char>>)
    requires
        forall|i: int| 0 <= i < ls.len() ==> #[trigger] plain_line(ls[i]),
    ensures
        text_lines(joined_lines(ls)) == ls,
    decreases ls.len(),
{
    if ls.len() == 0 {
        lemma_first_index_of(Seq::<char>::empty(), '\n');
        lemma_text_lines_last(Seq::<char>::empty());
        assert(ls =~= Seq::<Seq<char>>::empty());
    } else {
        let l = ls[0];
        assert(plain_line(l));
        let rest = ls.drop_first();
        assert forall|i: int| 0 <= i < rest.len() implies #[trigger] plain_line(rest[i]) by {
            assert(plain_line(ls[i + 1]));
        }
        lemma_text_lines_joined(rest);
        let t = joined_lines(ls);
        assert(t == l + seq!['\n'] + joined_lines(rest));
        assert forall|j: int| 0 <= j < l.len() implies t[j] != '\n' by {
            assert(t[j] == l[j]);
        }
        assert(t[l.len() as int] == '\n');
        lemma_first_index_at(t, '\n', l.len() as int);
        lemma_text_lines_step(t, l.len() as int);
        assert(t.take(l.len() as int) =~= l);
        assert(strip_cr(l) == l);
        assert(t.skip(l.len() + 1 as int) =~= joined_lines(rest));
        assert(ls =~= seq![l] + rest);
    }
}

/// The label line of subroutine `k`, without its line feed.
pub open spec fn label_body(k: nat) -> Seq<char> {
    seq!['#'] + label_text(k) + seq![':']
}

/// The label lines, without line feeds, that `labels_from` writes.
pub open spec fn label_bodies(subs: Seq<usize>, k: nat, ip: int) -> Seq<Seq<char>>
    decreases subs.len() - k,
{
    if k < subs.len() && subs[k as int] == ip {
        seq![label_body(k)] + label_bodies(subs, k + 1, ip)
    } else {
        Seq::empty()
    }
}

proof fn lemma_label_bodies(subs: Seq<usize>, k: nat, ip: int)
    requires
        k <= subs.len(),
    ensures
        labels_from(subs, k, ip).0 == joined_lines(label_bodies(subs, k, ip)),
        k + label_bodies(subs, k, ip).len() <= subs.len(),
        k + label_bodies(subs, k, ip).len() < subs.len() ==> subs[(k + label_bodies(subs, k, ip).len()) as int] != ip,
        labels_from(subs, k, ip).1 == k + label_bodies(subs, k, ip).len(),
        forall|i: int|
            0 <= i < label_bodies(subs, k, ip).len() ==> #[trigger] label_bodies(subs, k, ip)[i]
                == label_body((k + i) as nat) && subs[k + i] == ip && k + i < subs.len(),
    decreases subs.len() - k,
{
    if k < subs.len() && subs[k as int] == ip {
        lemma_label_bodies(subs, k + 1, ip);
        let rest = label_bodies(subs, k + 1, ip);
        let all = label_bodies(subs, k, ip);
        assert(all.drop_first() =~= rest);
        assert(label_line(k) =~= label_body(k) + seq!['\n']);
        assert forall|i: int| 0 <= i < all.len() implies #[trigger] all[i] == label_body((k + i) as nat)
            && subs[k + i] == ip && k + i < subs.len() by {
            if i > 0 {
                assert(all[i] == rest[i - 1]);
            }
        }
    }
}

/// The lines that the empty line and the label lines after an instruction make.
pub open spec fn gap_lines(bodies: Seq<Seq<char>>) -> Seq<Seq<char>> {
    if bodies.len() > 0 {
        seq![Seq::<char>::empty()] + bodies
    } else {
        Seq::empty()
    }
}

/// The lines, without line feeds, of the listing from `ip` on, as `listing` writes them.
pub open spec fn listing_lines(
    code: Seq<u8>,
    subs: Seq<usize>,
    names: Seq<String>,
    charset: Seq<Vec<u8>>,
    ip: int,
    k: nat,
) -> Seq<Seq<char>>
    decreases code.len() - ip,
{
    if ip < 0 || ip >= code.len() {
        Seq::empty()
    } else {
        match step_at(code, names, charset, ip) {
            Step::Line(t, next) => if next <= ip || next > code.len() {
                Seq::empty()
            } else {
                let bodies = label_bodies(subs, k, next);
                seq![t.drop_last()] + gap_lines(bodies) + listing_lines(
                    code,
                    subs,
                    names,
                    charset,
                    next,
                    k + bodies.len(),
                )
            },
            _ => Seq::empty(),
        }
    }
}

/// Whether the instruction named `m` with opcode `op` and parameters `p` is one that both
/// tools know alike, with operands that read back.
pub open spec fn instruction_ok(m: Seq<char>, op: u8, p: Seq<u8>, n: nat, opcodes: Map<Seq<char>, u8>) -> bool {
    &&& clean_name(m)
    &&& opcodes.dom().contains(m)
    &&& opcodes[m] == op
    &&& !is_message(m)
    &&& operands_ok(m, p, n)
}

/// Whether the bytecode from `ip` on is a sequence of such instructions, each with a length
/// that takes one byte, ending exactly at the end of the bytecode.
pub open spec fn program_ok(code: Seq<u8>, names: Seq<String>, opcodes: Map<Seq<char>, u8>, n: nat, ip: int) -> bool
    decreases code.len() - ip,
{
    if ip < 0 || ip > code.len() {
        false
    } else if ip == code.len() {
        true
    } else {
        &&& ip + 1 < code.len()
        &&& 2 <= code[ip + 1] < 0x80
        &&& ip + code[ip + 1] <= code.len()
        &&& instruction_ok(
            name_for(names, code[ip]),
            code[ip],
            code.subrange(ip + 2, ip + code[ip + 1]),
            n,
            opcodes,
        )
        &&& program_ok(code, names, opcodes, n, ip + code[ip + 1])
    }
}

/// The step at an instruction of a good program: its line and the next instruction.
#[verifier::spinoff_prover]
#[verifier::rlimit(60)]
proof fn lemma_program_step(
    code: Seq<u8>,
    names: Seq<String>,
    charset: Seq<Vec<u8>>,
    opcodes: Map<Seq<char>, u8>,
    n: nat,
    table: Map<Seq<char>, usize>,
    ip: int,
)
    requires
        program_ok(code, names, opcodes, n, ip),
        0 <= ip < code.len(),
        labels_table(table, n),
    ensures
        ({
            let len = code[ip + 1] as int;
            let m = name_for(names, code[ip]);
            let p = code.subrange(ip + 2, ip + len);
            &&& step_at(code, names, charset, ip) matches Step::Line(t, next) && next == ip + len && ip
                < next <= code.len() && t == t.drop_last() + seq!['\n'] && plain_line(t.drop_last())
                && trim(t.drop_last()).len() > 0 && trim(t.drop_last())[0] == m[0] && line_outcome(
                trim(t.drop_last()),
                opcodes,
                table,
            ) == LineOutcome::Encoded(instruction_bytes(code[ip], p))
            &&& instruction_bytes(code[ip], p) == code.subrange(ip, ip + len)
            &&& m[0] != '#' && m[0] != ';'
            &&& program_ok(code, names, opcodes, n, ip + len)
        }),
{
    let len = code[ip + 1] as int;
    let op = code[ip];
    let m = name_for(names, op);
    let p = code.subrange(ip + 2, ip + len);
    lemma_line_round_trip(m, op, p, n, opcodes, table, charset);
    let ps = params_texts(m, p, charset)->Ok_0;
    let body = line_body(mnemonic_text(m, op), join_params(ps));
    lemma_line_text_body(mnemonic_text(m, op), join_params(ps));
    assert(length_at(code, ip) == Some((len, 2int)));
    let t = line_text(mnemonic_text(m, op), join_params(ps));
    assert(step_at(code, names, charset, ip) == Step::Line(t, ip + len));
    assert(t.drop_last() =~= body);
    reveal_with_fuel(crate::util::io::le_seq, 2);
    assert(op.le_bytes() =~= seq![op]);
    assert((p.len() + 2) as u8 == code[ip + 1]);
    assert(((p.len() + 2) as u8).le_bytes() =~= seq![code[ip + 1]]);
    assert(instruction_bytes(op, p) =~= code.subrange(ip, ip + len));
}


/// The names of the labels of the first `n` subroutines, in order.
pub open spec fn label_names(n: nat) -> Seq<Seq<char>> {
    Seq::new(n, |k: int| label_text(k as nat))
}

proof fn lemma_zeros_value(m: nat)
    ensures
        digits_value(Seq::new(m, |i: int| '0')) == 0,
    decreases m,
{
    if m > 0 {
        assert(Seq::new(m, |i: int| '0').drop_last() =~= Seq::new((m - 1) as nat, |i: int| '0'));
        lemma_zeros_value((m - 1) as nat);
    }
}

/// Leading zeros do not change the number that digits stand for.
proof fn lemma_leading_zeros(m: nat, d: Seq<char>)
    ensures
        digits_value(Seq::new(m, |i: int| '0') + d) == digits_value(d),
    decreases d.len(),
{
    let z = Seq::new(m, |i: int| '0');
    if d.len() == 0 {
        assert(z + d =~= z);
        lemma_zeros_value(m);
    } else {
        assert((z + d).drop_last() =~= z + d.drop_last());
        assert((z + d).last() == d.last());
        lemma_leading_zeros(m, d.drop_last());
    }
}

/// Zero-padded digits read back as the number.
proof fn lemma_zero_padded_value(n: nat, w: nat)
    ensures
        digits_value(zero_padded(n, w)) == n,
{
    lemma_decimal_reads_back(n);
    let d = decimal(n);
    if d.len() < w {
        let m = (w - d.len()) as nat;
        lemma_leading_zeros(m, d);
        assert(zero_padded(n, w) =~= Seq::new(m, |i: int| '0') + d);
    }
}

/// Different subroutines have different label names.
proof fn lemma_label_text_injective(a: nat, b: nat)
    requires
        label_text(a) == label_text(b),
    ensures
        a == b,
{
    assert(label_text(a).skip(6) =~= zero_padded(a, 4));
    assert(label_text(b).skip(6) =~= zero_padded(b, 4));
    lemma_zero_padded_value(a, 4);
    lemma_zero_padded_value(b, 4);
}

/// The label names are distinct, and the table built from them gives each its subroutine.
proof fn lemma_label_names(n: nat)
    requires
        n <= usize::MAX,
    ensures
        distinct(label_names(n)),
        labels_table(index_table(label_names(n)), n),
{
    let names = label_names(n);
    assert forall|i: int, j: int| 0 <= i < j < names.len() implies names[i] != names[j] by {
        if names[i] == names[j] {
            lemma_label_text_injective(i as nat, j as nat);
        }
    }
    lemma_index_table_positions(names);
    assert forall|k: nat| k < n implies #[trigger] index_table(names).dom().contains(label_text(k))
        && index_table(names)[label_text(k)] == k by {
        assert(names[k as int] == label_text(k));
    }
}

/// The next label name is not among the earlier ones.
proof fn lemma_label_names_push(k: nat)
    ensures
        !label_names(k).contains(label_text(k)),
        label_names(k).push(label_text(k)) == label_names(k + 1),
{
    if label_names(k).contains(label_text(k)) {
        let i = choose|i: int| 0 <= i < label_names(k).len() && label_names(k)[i] == label_text(k);
        lemma_label_text_injective(i as nat, k);
    }
    assert(label_names(k).push(label_text(k)) =~= label_names(k + 1));
}

/// A label line is a plain line that trims to itself, names its label and starts with `#`.
proof fn lemma_label_body(k: nat)
    ensures
        plain_line(label_body(k)),
        trim(label_body(k)) == label_body(k),
        label_body(k).len() > 0,
        label_body(k)[0] == '#',
        circumfix(label_body(k)) == Some(label_text(k)),
{
    lemma_label_text_clean(k);
    lemma_newline_cr();
    reveal(is_white_space);
    let b = label_body(k);
    let t = label_text(k);
    assert forall|i: int| 0 <= i < b.len() implies b[i] != '\n' by {
        if 1 <= i < b.len() - 1 {
            assert(b[i] == t[i - 1]);
        }
    }
    lemma_trim_clean(b);
    assert(b.subrange(1, b.len() - 1) =~= t);
}

/// Whether `x` is where an instruction starts, or the end of the bytecode, on the way from
/// the instruction at `ip` by lengths that take one byte.
pub open spec fn on_boundary(code: Seq<u8>, ip: int, x: int) -> bool
    decreases code.len() - ip,
{
    if ip < 0 || ip > code.len() {
        false
    } else if x == ip {
        true
    } else if ip + 1 < code.len() && 0 < code[ip + 1] < 0x80 && ip + code[ip + 1] <= code.len() {
        on_boundary(code, ip + code[ip + 1], x)
    } else {
        false
    }
}

proof fn lemma_boundary_after(code: Seq<u8>, ip: int, x: int)
    requires
        on_boundary(code, ip, x),
    ensures
        ip <= x,
    decreases code.len() - ip,
{
    if x != ip {
        lemma_boundary_after(code, ip + code[ip + 1], x);
    }
}

/// Whether the offsets never decrease.
pub open spec fn ascending(subs: Seq<usize>) -> bool {
    forall|i: int, j: int| 0 <= i <= j < subs.len() ==> subs[i] <= subs[j]
}

/// Whether the subroutines from `k` on all start after `ip`, each where an instruction starts
/// or at the end of the bytecode.
pub open spec fn labels_ahead(code: Seq<u8>, subs: Seq<usize>, ip: int, k: nat) -> bool {
    &&& k <= subs.len()
    &&& forall|j: int| k <= j < subs.len() ==> #[trigger] subs[j] > ip && on_boundary(code, ip, subs[j] as int)
}

/// The subroutine table with the first `k` offsets of `subs` set and the others zero.
pub open spec fn placed(subs: Seq<usize>, k: nat) -> Seq<u32> {
    Seq::new(subs.len(), |j: int| if j < k { subs[j] as u32 } else { 0u32 })
}

/// Past an instruction of a good program, the labels still to come are those after it.
proof fn lemma_ahead_step(
    code: Seq<u8>,
    names: Seq<String>,
    opcodes: Map<Seq<char>, u8>,
    subs: Seq<usize>,
    ip: int,
    k: nat,
)
    requires
        program_ok(code, names, opcodes, subs.len(), ip),
        0 <= ip < code.len(),
        ascending(subs),
        labels_ahead(code, subs, ip, k),
    ensures
        labels_ahead(
            code,
            subs,
            ip + code[ip + 1],
            k + label_bodies(subs, k, ip + code[ip + 1]).len(),
        ),
{
    let next = ip + code[ip + 1];
    lemma_label_bodies(subs, k, next);
    let k2 = k + label_bodies(subs, k, next).len();
    assert forall|j: int| k2 <= j < subs.len() implies #[trigger] subs[j] > next && on_boundary(
        code,
        next,
        subs[j] as int,
    ) by {
        assert(subs[j] > ip && on_boundary(code, ip, subs[j] as int));
        assert(on_boundary(code, next, subs[j] as int));
        assert(subs[k2 as int] > ip && on_boundary(code, ip, subs[k2 as int] as int));
        assert(on_boundary(code, next, subs[k2 as int] as int));
        lemma_boundary_after(code, next, subs[k2 as int] as int);
        assert(subs[k2 as int] <= subs[j]);
    }
}

/// Past the end of the bytecode no label is still to come.
proof fn lemma_ahead_end(code: Seq<u8>, subs: Seq<usize>, k: nat)
    requires
        labels_ahead(code, subs, code.len() as int, k),
    ensures
        k == subs.len(),
{
    if k < subs.len() {
        assert(subs[k as int] > code.len() && on_boundary(code, code.len() as int, subs[k as int] as int));
    }
}

proof fn lemma_joined_one(x: Seq<char>)
    ensures
        joined_lines(seq![x]) == x + seq!['\n'],
{
    assert(seq![x].drop_first() =~= Seq::<Seq<char>>::empty());
    assert(seq![x][0] == x);
    assert(joined_lines(Seq::<Seq<char>>::empty()) == Seq::<char>::empty());
    assert(joined_lines(seq![x]) =~= x + seq!['\n']);
}

/// The text of the gap lines: nothing, or a line feed before the label lines.
proof fn lemma_joined_gap(bodies: Seq<Seq<char>>)
    ensures
        joined_lines(gap_lines(bodies)) == (if bodies.len() > 0 {
            seq!['\n'] + joined_lines(bodies)
        } else {
            Seq::<char>::empty()
        }),
        bodies.len() > 0 <==> joined_lines(bodies).len() > 0,
{
    if bodies.len() > 0 {
        let g = gap_lines(bodies);
        assert(g.drop_first() =~= bodies);
        assert(g[0] == Seq::<char>::empty());
        assert(joined_lines(g) =~= seq!['\n'] + joined_lines(bodies));
        assert(joined_lines(bodies).len() > 0);
    }
}

#[verifier::spinoff_prover]
#[verifier::rlimit(40)]
/// The listing of a good program from `ip` on is its lines, each plain, joined.
proof fn lemma_listing_text(
    code: Seq<u8>,
    subs: Seq<usize>,
    names: Seq<String>,
    charset: Seq<Vec<u8>>,
    opcodes: Map<Seq<char>, u8>,
    ip: int,
    k: nat,
)
    requires
        program_ok(code, names, opcodes, subs.len(), ip),
        0 <= ip <= code.len(),
        k <= subs.len(),
        subs.len() <= usize::MAX,
    ensures
        listing(code, subs, names, charset, ip, k) == Ok::<Seq<char>, DisasmError>(
            joined_lines(listing_lines(code, subs, names, charset, ip, k)),
        ),
        forall|i: int|
            0 <= i < listing_lines(code, subs, names, charset, ip, k).len() ==> #[trigger] plain_line(
                listing_lines(code, subs, names, charset, ip, k)[i],
            ),
    decreases code.len() - ip,
{
    if ip < code.len() {
        let n = subs.len();
        lemma_label_names(n);
        let table = index_table(label_names(n));
        lemma_program_step(code, names, charset, opcodes, n, table, ip);
        let next = ip + code[ip + 1];
        let t = step_at(code, names, charset, ip)->Line_0;
        lemma_label_bodies(subs, k, next);
        let bodies = label_bodies(subs, k, next);
        let k2 = k + bodies.len();
        lemma_listing_text(code, subs, names, charset, opcodes, next, k2);
        let rest = listing_lines(code, subs, names, charset, next, k2);
        let head = seq![t.drop_last()] + gap_lines(bodies);
        let ll = listing_lines(code, subs, names, charset, ip, k);
        assert(ll == head + rest);
        lemma_joined_concat(head, rest);
        lemma_joined_concat(seq![t.drop_last()], gap_lines(bodies));
        lemma_joined_one(t.drop_last());
        lemma_joined_gap(bodies);
        assert(labels_from(subs, k, next).1 == k2);
        assert(joined_lines(head) =~= t + (if bodies.len() > 0 {
            seq!['\n'] + labels_from(subs, k, next).0
        } else {
            labels_from(subs, k, next).0
        }));
        assert(listing(code, subs, names, charset, ip, k) =~= Ok::<Seq<char>, DisasmError>(
            joined_lines(head) + joined_lines(rest),
        ));
        assert forall|i: int| 0 <= i < ll.len() implies #[trigger] plain_line(ll[i]) by {
            if i == 0 {
            } else if i < head.len() {
                if i == 1 {
                    assert(ll[i] == Seq::<char>::empty());
                } else {
                    assert(ll[i] == bodies[i - 2]);
                    lemma_label_body((k + i - 2) as nat);
                }
            } else {
                assert(ll[i] == rest[i - head.len()]);
            }
        }
    }
}


/// The label lines of the subroutines `k` to `k + m`, without line feeds.
pub open spec fn label_run(k: nat, m: nat) -> Seq<Seq<char>> {
    Seq::new(m, |i: int| label_body((k + i) as nat))
}

/// Scanning a run of label lines collects their names in order.
proof fn lemma_scan_run(lines: Seq<Seq<char>>, pos: int, k: nat, m: nat)
    requires
        0 <= pos,
        pos + m <= lines.len(),
        lines.subrange(pos, pos + m) == label_run(k, m),
    ensures
        scan_labels(lines, pos as nat, label_names(k)) == scan_labels(lines, (pos + m) as nat, label_names(k + m)),
    decreases m,
{
    if m > 0 {
        assert(lines[pos] == lines.subrange(pos, pos + m)[0]);
        assert(lines[pos] == label_body(k));
        lemma_label_body(k);
        lemma_label_names_push(k);
        assert(lines.subrange(pos + 1, pos + m) =~= label_run(k + 1, (m - 1) as nat)) by {
            assert forall|i: int| 0 <= i < m - 1 implies #[trigger] lines.subrange(pos + 1, pos + m)[i] == label_run(
                k + 1,
                (m - 1) as nat,
            )[i] by {
                assert(lines.subrange(pos, pos + m)[i + 1] == label_run(k, m)[i + 1]);
            }
        }
        lemma_scan_run(lines, pos + 1, k + 1, (m - 1) as nat);
    }
}

/// Assembling a run of label lines places their subroutines at the current end of the
/// bytecode.
proof fn lemma_assemble_run(
    lines: Seq<Seq<char>>,
    pos: int,
    opcodes: Map<Seq<char>, u8>,
    table: Map<Seq<char>, usize>,
    subs: Seq<usize>,
    k: nat,
    m: nat,
    c: Seq<u8>,
)
    requires
        0 <= pos,
        pos + m <= lines.len(),
        k + m <= subs.len(),
        labels_table(table, subs.len()),
        lines.subrange(pos, pos + m) == label_run(k, m),
        forall|j: int| k <= j < k + m ==> #[trigger] subs[j] == c.len(),
    ensures
        assemble_lines(lines, pos as nat, opcodes, table, placed(subs, k), c) == assemble_lines(
            lines,
            (pos + m) as nat,
            opcodes,
            table,
            placed(subs, k + m),
            c,
        ),
    decreases m,
{
    if m > 0 {
        assert(lines[pos] == lines.subrange(pos, pos + m)[0]);
        assert(lines[pos] == label_body(k));
        assert(subs[k as int] == c.len());
        lemma_label_body(k);
        assert(table.dom().contains(label_text(k)));
        assert(placed(subs, k).update(k as int, c.len() as u32) =~= placed(subs, k + 1));
        assert(lines.subrange(pos + 1, pos + m) =~= label_run(k + 1, (m - 1) as nat)) by {
            assert forall|i: int| 0 <= i < m - 1 implies #[trigger] lines.subrange(pos + 1, pos + m)[i] == label_run(
                k + 1,
                (m - 1) as nat,
            )[i] by {
                assert(lines.subrange(pos, pos + m)[i + 1] == label_run(k, m)[i + 1]);
            }
        }
        lemma_assemble_run(lines, pos + 1, opcodes, table, subs, k + 1, (m - 1) as nat, c);
    }
}

/// An empty line trims to nothing.
proof fn lemma_trim_empty()
    ensures
        trim(Seq::<char>::empty()) == Seq::<char>::empty(),
{
}

/// What the lines of the listing of a good program from `ip` on hold, where they stand in
/// `lines` from `pos` on.
proof fn lemma_listing_layout(
    code: Seq<u8>,
    subs: Seq<usize>,
    names: Seq<String>,
    charset: Seq<Vec<u8>>,
    opcodes: Map<Seq<char>, u8>,
    ip: int,
    k: nat,
    lines: Seq<Seq<char>>,
    pos: int,
)
    requires
        program_ok(code, names, opcodes, subs.len(), ip),
        0 <= ip < code.len(),
        k <= subs.len(),
        subs.len() <= usize::MAX,
        0 <= pos <= lines.len(),
        lines.skip(pos) == listing_lines(code, subs, names, charset, ip, k),
    ensures
        ({
            let next = ip + code[ip + 1];
            let m = label_bodies(subs, k, next).len();
            let g: int = if m > 0 { m + 1int } else { 0int };
            let t = trim(lines[pos]);
            &&& pos + 1 + g <= lines.len()
            &&& lines.skip(pos + 1 + g) == listing_lines(code, subs, names, charset, next, k + m)
            &&& t.len() > 0 && t[0] != '#' && t[0] != ';'
            &&& line_outcome(t, opcodes, index_table(label_names(subs.len())))
                == LineOutcome::Encoded(code.subrange(ip, next))
            &&& m > 0 ==> lines[pos + 1] == Seq::<char>::empty()
            &&& m > 0 ==> lines.subrange(pos + 2, pos + 2 + m) == label_run(k, m)
            &&& forall|j: int| k <= j < k + m ==> #[trigger] subs[j] == next
        }),
{
    let n = subs.len();
    lemma_label_names(n);
    let table = index_table(label_names(n));
    lemma_program_step(code, names, charset, opcodes, n, table, ip);
    let next = ip + code[ip + 1];
    let t = step_at(code, names, charset, ip)->Line_0;
    lemma_label_bodies(subs, k, next);
    let bodies = label_bodies(subs, k, next);
    let m = bodies.len();
    let g: int = if m > 0 { m + 1int } else { 0int };
    let rest = listing_lines(code, subs, names, charset, next, k + m);
    let ll = listing_lines(code, subs, names, charset, ip, k);
    let head = seq![t.drop_last()] + gap_lines(bodies);
    assert(ll == head + rest);
    assert(head.len() == 1 + g);
    assert(lines.skip(pos)[0] == lines[pos]);
    assert(ll[0] == t.drop_last());
    assert(lines.skip(pos + 1 + g) =~= rest) by {
        assert forall|i: int| 0 <= i < rest.len() implies lines.skip(pos + 1 + g)[i] == rest[i] by {
            assert(lines.skip(pos)[1 + g + i] == ll[1 + g + i]);
        }
    }
    if m > 0 {
        assert(lines.skip(pos)[1] == ll[1]);
        assert(ll[1] == Seq::<char>::empty());
    }
    if m > 0 {
        assert(lines.subrange(pos + 2, pos + 2 + m) =~= label_run(k, m)) by {
            assert forall|i: int| 0 <= i < m implies lines.subrange(pos + 2, pos + 2 + m)[i] == label_run(k, m)[i] by {
                assert(lines.skip(pos)[2 + i] == ll[2 + i]);
                assert(ll[2 + i] == bodies[i]);
            }
        }
    }
    assert forall|j: int| k <= j < k + m implies #[trigger] subs[j] == next by {
        assert(bodies[j - k] == label_body(j as nat) && subs[k + (j - k)] == next);
    }
}

#[verifier::spinoff_prover]
#[verifier::rlimit(40)]
/// Scanning the listing of a good program from `ip` on collects the labels of the
/// subroutines from `k` on, in order.
proof fn lemma_listing_scan(
    code: Seq<u8>,
    subs: Seq<usize>,
    names: Seq<String>,
    charset: Seq<Vec<u8>>,
    opcodes: Map<Seq<char>, u8>,
    ip: int,
    k: nat,
    lines: Seq<Seq<char>>,
    pos: int,
)
    requires
        program_ok(code, names, opcodes, subs.len(), ip),
        0 <= ip <= code.len(),
        ascending(subs),
        labels_ahead(code, subs, ip, k),
        subs.len() <= usize::MAX,
        0 <= pos <= lines.len(),
        lines.skip(pos) == listing_lines(code, subs, names, charset, ip, k),
    ensures
        scan_labels(lines, pos as nat, label_names(k)) == Ok::<Seq<Seq<char>>, nat>(label_names(subs.len())),
    decreases code.len() - ip,
{
    if ip == code.len() {
        lemma_ahead_end(code, subs, k);
        assert(lines.skip(pos).len() == 0);
    } else {
        lemma_listing_layout(code, subs, names, charset, opcodes, ip, k, lines, pos);
        lemma_ahead_step(code, names, opcodes, subs, ip, k);
        let next = ip + code[ip + 1];
        let m = label_bodies(subs, k, next).len();
        let g: int = if m > 0 { m + 1int } else { 0int };
        assert(program_ok(code, names, opcodes, subs.len(), next));
        lemma_listing_scan(code, subs, names, charset, opcodes, next, k + m, lines, pos + 1 + g);
        let t = trim(lines[pos]);
        assert(circumfix(t) is None);
        assert(scan_labels(lines, pos as nat, label_names(k)) == scan_labels(lines, (pos + 1) as nat, label_names(k)));
        if m > 0 {
            lemma_trim_empty();
            assert(circumfix(trim(lines[pos + 1])) is None);
            assert(scan_labels(lines, (pos + 1) as nat, label_names(k)) == scan_labels(
                lines,
                (pos + 2) as nat,
                label_names(k),
            ));
            lemma_scan_run(lines, pos + 2, k, m);
        }
    }
}

#[verifier::spinoff_prover]
#[verifier::rlimit(80)]
/// Assembling the listing of a good program from `ip` on, with the bytecode before `ip`
/// assembled and the subroutines before `k` placed, gives back the whole bytecode and places
/// every subroutine.
proof fn lemma_listing_assemble(
    code: Seq<u8>,
    subs: Seq<usize>,
    names: Seq<String>,
    charset: Seq<Vec<u8>>,
    opcodes: Map<Seq<char>, u8>,
    ip: int,
    k: nat,
    lines: Seq<Seq<char>>,
    pos: int,
)
    requires
        program_ok(code, names, opcodes, subs.len(), ip),
        0 <= ip <= code.len(),
        ascending(subs),
        labels_ahead(code, subs, ip, k),
        subs.len() <= usize::MAX,
        0 <= pos <= lines.len(),
        lines.skip(pos) == listing_lines(code, subs, names, charset, ip, k),
    ensures
        assemble_lines(lines, pos as nat, opcodes, index_table(label_names(subs.len())), placed(subs, k), code.take(ip))
            == AsmOutcome::Done(placed(subs, subs.len()), code),
    decreases code.len() - ip,
{
    let table = index_table(label_names(subs.len()));
    lemma_label_names(subs.len());
    if ip == code.len() {
        lemma_ahead_end(code, subs, k);
        assert(lines.skip(pos).len() == 0);
        assert(code.take(ip) =~= code);
    } else {
        lemma_listing_layout(code, subs, names, charset, opcodes, ip, k, lines, pos);
        lemma_ahead_step(code, names, opcodes, subs, ip, k);
        let next = ip + code[ip + 1];
        let m = label_bodies(subs, k, next).len();
        let g: int = if m > 0 { m + 1int } else { 0int };
        assert(program_ok(code, names, opcodes, subs.len(), next));
        lemma_listing_assemble(code, subs, names, charset, opcodes, next, k + m, lines, pos + 1 + g);
        let c = code.take(next);
        assert(code.take(ip) + code.subrange(ip, next) =~= c);
        let t = trim(lines[pos]);
        assert(circumfix(t) is None);
        assert(assemble_lines(lines, pos as nat, opcodes, table, placed(subs, k), code.take(ip)) == assemble_lines(
            lines,
            (pos + 1) as nat,
            opcodes,
            table,
            placed(subs, k),
            c,
        ));
        if m > 0 {
            lemma_trim_empty();
            assert(assemble_lines(lines, (pos + 1) as nat, opcodes, table, placed(subs, k), c) == assemble_lines(
                lines,
                (pos + 2) as nat,
                opcodes,
                table,
                placed(subs, k),
                c,
            ));
            lemma_assemble_run(lines, pos + 2, opcodes, table, subs, k, m, c);
        }
    }
}


/// The text the disassembler writes for a scenario assembles back to the same scenario.
///
/// This holds for bytecode made of instructions that both tools know alike: each with a
/// mnemonic that the instruction table names with the same opcode, that is not a message,
/// whose operands are numbers, values, labels or the branches of a branching instruction
/// that take all its parameters, each value stored as the assembler stores it and each
/// label one of the scenario's subroutines, and whose length takes one byte. The subroutines start, in order, where
/// instructions start or at the end of the bytecode. Then the disassembly succeeds, and
/// assembling it gives the same subroutine table and the same bytecode.
pub proof fn lemma_disassembly_round_trip(
    code: Seq<u8>,
    subs: Seq<usize>,
    names: Seq<String>,
    charset: Seq<Vec<u8>>,
    opcodes: Map<Seq<char>, u8>,
)
    requires
        program_ok(code, names, opcodes, subs.len(), 0),
        ascending(subs),
        forall|j: int| 0 <= j < subs.len() ==> on_boundary(code, 0, #[trigger] subs[j] as int),
        code_offset_for(subs.len()) <= usize::MAX,
    ensures
        disassembly(code, subs, names, charset) matches Ok(text) && (assemble_outcome(text, opcodes) matches AsmOutcome::Done(
            table,
            bytecode,
        ) && table == Seq::new(subs.len(), |j: int| subs[j] as u32) && bytecode == code),
{
    let n = subs.len();
    lemma_label_names(n);
    lemma_label_bodies(subs, 0, 0);
    let b0 = label_bodies(subs, 0, 0);
    let k0 = b0.len();
    assert forall|j: int| k0 <= j < n implies #[trigger] subs[j] > 0 && on_boundary(code, 0, subs[j] as int) by {
        assert(subs[k0 as int] != 0);
        assert(subs[k0 as int] <= subs[j]);
    }
    assert(labels_ahead(code, subs, 0, k0));
    lemma_listing_text(code, subs, names, charset, opcodes, 0, k0);
    let ll = listing_lines(code, subs, names, charset, 0, k0);
    let all = b0 + ll;
    lemma_joined_concat(b0, ll);
    let text = joined_lines(all);
    assert(disassembly(code, subs, names, charset) == Ok::<Seq<char>, DisasmError>(text));
    assert forall|i: int| 0 <= i < all.len() implies #[trigger] plain_line(all[i]) by {
        if i < k0 {
            assert(all[i] == b0[i]);
            lemma_label_body(i as nat);
        } else {
            assert(all[i] == ll[i - k0]);
        }
    }
    lemma_text_lines_joined(all);
    assert(all.subrange(0, k0 as int) =~= label_run(0, k0)) by {
        assert forall|i: int| 0 <= i < k0 implies #[trigger] all.subrange(0, k0 as int)[i] == label_run(0, k0)[i] by {
            assert(all[i] == b0[i]);
        }
    }
    assert(all.skip(k0 as int) =~= ll);
    assert(label_names(0) =~= Seq::<Seq<char>>::empty());
    lemma_scan_run(all, 0, 0, k0);
    lemma_listing_scan(code, subs, names, charset, opcodes, 0, k0, all, k0 as int);
    assert(scan_labels(all, 0, Seq::empty()) == Ok::<Seq<Seq<char>>, nat>(label_names(n)));
    let table = index_table(label_names(n));
    assert(placed(subs, 0) =~= Seq::new(n, |i: int| 0u32));
    assert(code.take(0) =~= Seq::<u8>::empty());
    assert forall|j: int| 0 <= j < 0 + k0 implies #[trigger] subs[j] == Seq::<u8>::empty().len() by {
        assert(b0[j] == label_body(j as nat) && subs[0 + j] == 0);
    }
    lemma_assemble_run(all, 0, opcodes, table, subs, 0, k0, Seq::empty());
    lemma_listing_assemble(code, subs, names, charset, opcodes, 0, k0, all, k0 as int);
    assert(placed(subs, n) =~= Seq::new(n, |j: int| subs[j] as u32));
}

} // verus!
