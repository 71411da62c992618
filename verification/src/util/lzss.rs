//! LZSS decompression with a 4 KiB ring buffer, as used by the game's archives.
use vstd::prelude::*;

verus! {

/// Size of the sliding window.
pub const WINDOW_SIZE: usize = 4096;
/// Position in the window where the first decoded byte is stored.
pub const INITIAL_POS: usize = 4078;
/// Length that is added to the 4-bit length field of a back reference.
pub const MIN_MATCH_LENGTH: usize = 3;

/// One token of the compressed stream.
pub enum LzssToken {
    /// A byte that is copied to the output as it is.
    Literal(u8),
    /// `length` bytes read from the window, starting at `offset`.
    Reference { offset: usize, length: usize },
}

/// The back reference encoded by the two bytes `lo`, `hi`: a 12-bit window offset made of
/// the high nibble of `hi` and all of `lo`, and a length of the low nibble of `hi` plus three.
pub open spec fn reference_token(lo: u8, hi: u8) -> LzssToken {
    LzssToken::Reference {
        offset: ((hi as int / 16) * 256 + lo as int) as usize,
        length: ((hi as int % 16) + 3) as usize,
    }
}

/// Whether bit `shift` of `flag` is set.
pub open spec fn flag_bit(flag: u8, shift: u8) -> bool {
    (flag >> shift) & 1u8 == 1u8
}

/// The tokens encoded in `input` from `pos` on, where `flag` is the current flag byte and
/// `shift` the index of its next bit (8 when a new flag byte must be read).
/// Every flag byte announces up to eight tokens, least significant bit first: a set bit
/// announces a literal byte, a clear one a two-byte back reference.
/// Decoding stops at the first token that the input does not hold completely.
pub open spec fn tokens_at(input: Seq<u8>, pos: int, flag: u8, shift: u8) -> Seq<LzssToken>
    decreases input.len() - pos,
{
    if pos < 0 || pos >= input.len() {
        seq![]
    } else if shift >= 8 {
        tokens_at(input, pos + 1, input[pos], 0)
    } else if flag_bit(flag, shift) {
        seq![LzssToken::Literal(input[pos])] + tokens_at(input, pos + 1, flag, (shift + 1) as u8)
    } else if pos + 1 >= input.len() {
        seq![]
    } else {
        seq![reference_token(input[pos], input[pos + 1])] + tokens_at(
            input,
            pos + 2,
            flag,
            (shift + 1) as u8,
        )
    }
}

/// All tokens of a compressed stream.
pub open spec fn tokens(input: Seq<u8>) -> Seq<LzssToken> {
    tokens_at(input, 0, 0, 8)
}

/// The decoder's state: the window, the position where the next byte goes in it, and the
/// bytes produced so far.
pub struct LzssState {
    pub window: Seq<u8>,
    pub window_pos: int,
    pub out: Seq<u8>,
}

/// The state before the first token: a zeroed window.
pub open spec fn initial_state() -> LzssState {
    LzssState {
        window: Seq::new(WINDOW_SIZE as nat, |i: int| 0u8),
        window_pos: INITIAL_POS as int,
        out: seq![],
    }
}

/// Emits `byte`: appends it to the output and stores it in the window.
pub open spec fn emit(st: LzssState, byte: u8) -> LzssState {
    LzssState {
        window: st.window.update(st.window_pos, byte),
        window_pos: (st.window_pos + 1) % (WINDOW_SIZE as int),
        out: st.out.push(byte),
    }
}

/// The state after copying the first `n` bytes of a back reference at `offset`; each byte
/// is read from the window as it stands at that moment, so a reference may overlap the
/// bytes it produces.
pub open spec fn copy_bytes(st: LzssState, offset: int, n: nat) -> LzssState
    decreases n,
{
    if n == 0 {
        st
    } else {
        let prev = copy_bytes(st, offset, (n - 1) as nat);
        emit(prev, prev.window[(offset + n - 1) % (WINDOW_SIZE as int)])
    }
}

/// The state after one token.
pub open spec fn apply_token(st: LzssState, token: LzssToken) -> LzssState {
    match token {
        LzssToken::Literal(b) => emit(st, b),
        LzssToken::Reference { offset, length } => copy_bytes(st, offset as int, length as nat),
    }
}

/// The state after a sequence of tokens.
pub open spec fn run_tokens(ts: Seq<LzssToken>) -> LzssState
    decreases ts.len(),
{
    if ts.len() == 0 {
        initial_state()
    } else {
        apply_token(run_tokens(ts.drop_last()), ts.last())
    }
}

/// The whole decoded stream of `input`.
pub open spec fn decoded_stream(input: Seq<u8>) -> Seq<u8> {
    run_tokens(tokens(input)).out
}

/// `s` cut or padded with zeros to length `n`.
pub open spec fn fit_to_len(s: Seq<u8>, n: nat) -> Seq<u8> {
    Seq::new(n, |i: int| if i < s.len() { s[i] } else { 0u8 })
}

/// What `decompress(input, output_size)` returns: the decoded stream, cut or padded with
/// zeros to `output_size` bytes.
pub open spec fn spec_decompress(input: Seq<u8>, output_size: nat) -> Seq<u8> {
    fit_to_len(decoded_stream(input), output_size)
}

pub open spec fn is_prefix(a: Seq<u8>, b: Seq<u8>) -> bool {
    a.len() <= b.len() && forall|i: int| 0 <= i < a.len() ==> a[i] == b[i]
}

pub open spec fn well_formed(st: LzssState) -> bool {
    st.window.len() == WINDOW_SIZE && 0 <= st.window_pos < WINDOW_SIZE
}

proof fn lemma_copy_bytes(st: LzssState, offset: int, j: nat, n: nat)
    requires
        j <= n,
        well_formed(st),
    ensures
        well_formed(copy_bytes(st, offset, n)),
        copy_bytes(st, offset, n).out.len() == st.out.len() + n,
        is_prefix(st.out, copy_bytes(st, offset, n).out),
        is_prefix(copy_bytes(st, offset, j).out, copy_bytes(st, offset, n).out),
    decreases n,
{
    if n > 0 {
        lemma_copy_bytes(st, offset, if j == n { (n - 1) as nat } else { j }, (n - 1) as nat);
        let prev = copy_bytes(st, offset, (n - 1) as nat);
        assert(prev.window.len() == WINDOW_SIZE);
    }
}

proof fn lemma_apply_token(st: LzssState, t: LzssToken)
    requires
        well_formed(st),
    ensures
        well_formed(apply_token(st, t)),
        is_prefix(st.out, apply_token(st, t).out),
{
    match t {
        LzssToken::Literal(b) => {},
        LzssToken::Reference { offset, length } => {
            lemma_copy_bytes(st, offset as int, 0, length as nat);
        },
    }
}

proof fn lemma_run_tokens_well_formed(a: Seq<LzssToken>)
    ensures
        well_formed(run_tokens(a)),
    decreases a.len(),
{
    if a.len() > 0 {
        lemma_run_tokens_well_formed(a.drop_last());
        lemma_apply_token(run_tokens(a.drop_last()), a.last());
    }
}

proof fn lemma_run_tokens(a: Seq<LzssToken>, b: Seq<LzssToken>)
    ensures
        well_formed(run_tokens(a + b)),
        is_prefix(run_tokens(a).out, run_tokens(a + b).out),
    decreases b.len(),
{
    lemma_run_tokens_well_formed(a + b);
    if b.len() == 0 {
        assert(a + b =~= a);
    } else {
        lemma_run_tokens(a, b.drop_last());
        assert((a + b).drop_last() =~= a + b.drop_last());
        lemma_apply_token(run_tokens(a + b.drop_last()), b.last());
    }
}

proof fn lemma_prefix_trans(a: Seq<u8>, b: Seq<u8>, c: Seq<u8>)
    requires
        is_prefix(a, b),
        is_prefix(b, c),
    ensures
        is_prefix(a, c),
{
    assert forall|i: int| 0 <= i < a.len() implies a[i] == c[i] by {
        assert(a[i] == b[i]);
    }
}

proof fn lemma_fit_prefix(s: Seq<u8>, f: Seq<u8>, n: nat)
    requires
        is_prefix(s, f),
        s.len() == n || s == f,
    ensures
        fit_to_len(s, n) == fit_to_len(f, n),
{
    assert(fit_to_len(s, n) =~= fit_to_len(f, n));
}

/// Decompresses `input` into exactly `output_size` bytes. Decoding stops when the output is
/// full or the input runs out; the rest of the output is zero.
pub fn decompress(input: &[u8], output_size: usize) -> (output: Vec<u8>)
    ensures
        output@ == spec_decompress(input@, output_size as nat),
{
    let input_size = input.len();
    let mut window: Vec<u8> = vec![0; WINDOW_SIZE];
    let mut output: Vec<u8> = vec![0; output_size];
    let mut window_pos: usize = INITIAL_POS;
    let mut input_pos: usize = 0;
    let mut output_pos: usize = 0;
    let ghost all = tokens(input@);
    let ghost n = output_size as nat;
    let ghost mut consumed: Seq<LzssToken> = seq![];
    proof {
        assert(window@ =~= initial_state().window);
        assert(output@ =~= fit_to_len(seq![], n));
        assert(all =~= consumed + tokens_at(input@, 0, 0, 8));
    }
    while output_pos < output_size && input_pos < input_size
        invariant
            input_size == input@.len(),
            output_size == n,
            all == tokens(input@),
            input_pos <= input_size,
            all == consumed + tokens_at(input@, input_pos as int, 0, 8),
            window@ == run_tokens(consumed).window,
            window_pos == run_tokens(consumed).window_pos,
            window@.len() == WINDOW_SIZE,
            window_pos < WINDOW_SIZE,
            output_pos == run_tokens(consumed).out.len(),
            output_pos <= output_size,
            output@ == fit_to_len(run_tokens(consumed).out, n),
        decreases input_size - input_pos,
    {
        let flag = input[input_pos];
        input_pos += 1;
        let mut shift: u8 = 0;
        let ghost group_start = input_pos;
        proof {
            assert(tokens_at(input@, (input_pos - 1) as int, 0, 8) == tokens_at(
                input@,
                input_pos as int,
                flag,
                0,
            ));
        }
        while shift < 8
            invariant
                input_size == input@.len(),
                output_size == n,
                all == tokens(input@),
                1 <= group_start <= input_pos <= input_size,
                shift <= 8,
                all == consumed + tokens_at(input@, input_pos as int, flag, shift),
                window@ == run_tokens(consumed).window,
                window_pos == run_tokens(consumed).window_pos,
                window@.len() == WINDOW_SIZE,
                window_pos < WINDOW_SIZE,
                output_pos == run_tokens(consumed).out.len(),
                output_pos <= output_size,
                output@ == fit_to_len(run_tokens(consumed).out, n),
            decreases 8 - shift,
        {
            let ghost st = run_tokens(consumed);
            let ghost rest = tokens_at(input@, input_pos as int, flag, shift);
            if (flag >> shift) & 1 == 1 {
                if output_pos >= output_size || input_pos >= input_size {
                    proof {
                        lemma_run_tokens(consumed, rest);
                        if input_pos >= input_size {
                            assert(rest =~= seq![]);
                            assert(all =~= consumed);
                        }
                        lemma_fit_prefix(st.out, run_tokens(all).out, n);
                    }
                    return output;
                }
                let byte = input[input_pos];
                output.set(output_pos, byte);
                window.set(window_pos, byte);
                input_pos += 1;
                output_pos += 1;
                window_pos = (window_pos + 1) % WINDOW_SIZE;
                proof {
                    let t = LzssToken::Literal(byte);
                    let rest2 = tokens_at(input@, input_pos as int, flag, (shift + 1) as u8);
                    assert(rest == seq![t] + rest2);
                    assert(all =~= consumed.push(t) + rest2);
                    assert(consumed.push(t).drop_last() =~= consumed);
                    consumed = consumed.push(t);
                    assert(output@ =~= fit_to_len(run_tokens(consumed).out, n));
                }
            } else {
                if input_size - input_pos <= 1 {
                    proof {
                        assert(rest =~= seq![]);
                        assert(all =~= consumed);
                    }
                    return output;
                }
                let lo = input[input_pos] as usize;
                let hi = input[input_pos + 1] as usize;
                input_pos += 2;
                proof {
                    assert(((hi & 0xF0) << 4) | lo == (hi / 16) * 256 + lo && (hi & 0x0F) == hi
                        % 16) by (bit_vector)
                        requires
                            hi < 256,
                            lo < 256,
                    ;
                }
                let mut offset: usize = ((hi & 0xF0) << 4) | lo;
                let length: usize = (hi & 0x0F) + MIN_MATCH_LENGTH;
                let ghost t = reference_token(input@[input_pos - 2], input@[input_pos - 1]);
                let ghost offset0 = offset as int;
                proof { lemma_run_tokens_well_formed(consumed); }
                let mut k: usize = 0;
                while k < length
                    invariant
                        output_size == n,
                        all == tokens(input@),
                        st == run_tokens(consumed),
                        t == (LzssToken::Reference { offset: offset0 as usize, length }),
                        0 <= offset0 < WINDOW_SIZE,
                        shift < 8,
                        well_formed(st),
                        k <= length,
                        offset == (offset0 + k) % (WINDOW_SIZE as int),
                        window@ == copy_bytes(st, offset0, k as nat).window,
                        window_pos == copy_bytes(st, offset0, k as nat).window_pos,
                        window@.len() == WINDOW_SIZE,
                        window_pos < WINDOW_SIZE,
                        output_pos == copy_bytes(st, offset0, k as nat).out.len(),
                        output_pos <= output_size,
                        output@ == fit_to_len(copy_bytes(st, offset0, k as nat).out, n),
                        all == consumed + (seq![t] + tokens_at(
                            input@,
                            input_pos as int,
                            flag,
                            (shift + 1) as u8,
                        )),
                    decreases length - k,
                {
                    if output_pos >= output_size {
                        proof {
                            let rest2 = tokens_at(input@, input_pos as int, flag, (shift + 1) as u8);
                            assert(consumed.push(t).drop_last() =~= consumed);
                            assert(all =~= consumed.push(t) + rest2);
                            lemma_run_tokens(consumed.push(t), rest2);
                            lemma_copy_bytes(st, offset0, k as nat, length as nat);
                            assert(run_tokens(consumed.push(t)) == apply_token(st, t));
                            assert(apply_token(st, t) == copy_bytes(st, offset0, length as nat));
                            lemma_prefix_trans(
                                copy_bytes(st, offset0, k as nat).out,
                                copy_bytes(st, offset0, length as nat).out,
                                run_tokens(all).out,
                            );
                            lemma_fit_prefix(
                                copy_bytes(st, offset0, k as nat).out,
                                run_tokens(all).out,
                                n,
                            );

                        }
                        return output;
                    }
                    let byte = window[offset];
                    output.set(output_pos, byte);
                    window.set(window_pos, byte);
                    output_pos += 1;
                    window_pos = (window_pos + 1) % WINDOW_SIZE;
                    offset = (offset + 1) % WINDOW_SIZE;
                    k += 1;
                    proof {
                        assert(output@ =~= fit_to_len(copy_bytes(st, offset0, k as nat).out, n));
                    }
                }
                proof {
                    let rest2 = tokens_at(input@, input_pos as int, flag, (shift + 1) as u8);
                    assert(consumed.push(t).drop_last() =~= consumed);
                    assert(all =~= consumed.push(t) + rest2);
                    consumed = consumed.push(t);
                }
            }
            shift += 1;
        }
    }
    proof {
        let rest = tokens_at(input@, input_pos as int, 0, 8);
        lemma_run_tokens(consumed, rest);
        if input_pos >= input_size {
            assert(rest =~= seq![]);
            assert(all =~= consumed);
        }
        lemma_fit_prefix(run_tokens(consumed).out, run_tokens(all).out, n);
    }
    output
}

/// Asking for fewer output bytes gives a prefix of the longer output: the output size only
/// decides where decoding stops, never what is decoded.
pub proof fn lemma_decompress_prefix(input: Seq<u8>, m: nat, n: nat)
    requires
        m <= n,
    ensures
        spec_decompress(input, m).len() == m,
        spec_decompress(input, m) == spec_decompress(input, n).take(m as int),
{
    assert(spec_decompress(input, m) =~= spec_decompress(input, n).take(m as int));
}

} // verus!
