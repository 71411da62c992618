//! What the scenario instructions that only touch the machine's variables do, once their
//! parameters are decoded.
use vstd::prelude::*;
use crate::gdl::vm::{VmContext, Timer, timer_reading, SLOT_COUNT};
use crate::gdl::parser::{Parser, ParserError, scene_return_outcome, sub_return_outcome};

verus! {

/// Flag command: clear the flag.
pub const UNSET: u8 = 0;
/// Flag command: set the flag.
pub const SET: u8 = 1;
/// Flag command: flip the flag.
pub const TOGGLE: u8 = 2;
/// The byte that ends the parameters of an SP instruction.
pub const SP_TERMINATOR: u8 = 0xFF;

/// Why an instruction failed.
#[derive(Debug, Clone, Copy, PartialEq, Eq, Structural)]
pub enum InstructionError {
    /// A flag command other than `UNSET`, `SET` and `TOGGLE`.
    UnrecognizedFlagValue(u8),
    /// The parameters of an SP instruction do not end with `SP_TERMINATOR`.
    InvalidParamTerminator,
    /// The parameters ended in the middle of a value.
    EndOfParams,
    /// The timer was read before it was started.
    TimerNotSet,
    /// The parser refused a jump or a return.
    Parser(ParserError),
    /// A volume outside `0..=255`.
    VolumeOutOfRange(i32),
    /// A track number that names no track.
    InvalidTrack(u8),
    /// The track has no sound loaded.
    TrackNotLoaded(AudioTrack),
}

/// SETINSIDEVOL track number of the voice.
pub const VOICE: u8 = 0;
/// SETINSIDEVOL track number of the background music.
pub const BGM: u8 = 1;

/// A sound track whose volume a scenario can set.
#[derive(Debug, Clone, Copy, PartialEq, Eq, Structural)]
pub enum AudioTrack {
    Voice,
    Bgm,
}

/// The flags after `cmd` is applied to flag `index`: flags past the end are left alone.
pub open spec fn flag_command(flags: Seq<bool>, index: int, cmd: u8) -> Seq<bool> {
    if index < flags.len() {
        if cmd == UNSET {
            flags.update(index, false)
        } else if cmd == SET {
            flags.update(index, true)
        } else {
            flags.update(index, !flags[index])
        }
    } else {
        flags
    }
}

/// The flags after `cmd` is applied to every flag from `start` up to, not including, the
/// smaller of `end` and the index of the last flag.
pub open spec fn flag_range_command(flags: Seq<bool>, start: int, end: int, cmd: u8) -> Seq<bool> {
    let stop = if end < flags.len() - 1 {
        end
    } else {
        flags.len() - 1
    };
    Seq::new(
        flags.len(),
        |i: int|
            if start <= i < stop {
                if cmd == UNSET {
                    false
                } else if cmd == SET {
                    true
                } else {
                    !flags[i]
                }
            } else {
                flags[i]
            },
    )
}

/// Whether the variables other than the flags are the same in `a` and `b`.
pub open spec fn same_but_flags(a: VmContext, b: VmContext) -> bool {
    &&& a.registers@ == b.registers@
    &&& a.wait_duration == b.wait_duration
    &&& a.timer == b.timer
    &&& a.char_names@ == b.char_names@
    &&& a.flag_groups@ == b.flag_groups@
}

/// SK: applies the flag command `flag_cmd` to flag `flag_index`.
pub fn sk(ctx: &mut VmContext, flag_index: u16, flag_cmd: u8) -> (r: Result<(), InstructionError>)
    ensures
        same_but_flags(*final(ctx), *old(ctx)),
        flag_cmd <= TOGGLE ==> r == Ok::<(), InstructionError>(()) && final(ctx).flags@ == flag_command(
            old(ctx).flags@,
            flag_index as int,
            flag_cmd,
        ),
        flag_cmd > TOGGLE ==> r == Err::<(), InstructionError>(
            InstructionError::UnrecognizedFlagValue(flag_cmd),
        ) && final(ctx).flags@ == old(ctx).flags@,
        (flag_index as int) < old(ctx).flags@.len() ==> {
            &&& flag_cmd == UNSET ==> !final(ctx).flags@[flag_index as int]
            &&& flag_cmd == SET ==> final(ctx).flags@[flag_index as int]
            &&& flag_cmd == TOGGLE ==> final(ctx).flags@[flag_index as int] == !old(ctx).flags@[flag_index as int]
        },
{
    let index = flag_index as usize;
    if flag_cmd == UNSET {
        ctx.flags.set(index, false);
    } else if flag_cmd == SET {
        ctx.flags.set(index, true);
    } else if flag_cmd == TOGGLE {
        ctx.flags.toggle(index);
    } else {
        return Err(InstructionError::UnrecognizedFlagValue(flag_cmd));
    }
    Ok(())
}

/// SKS: applies the flag command `value` to the flags from `start` up to, not including,
/// the smaller of `end` and the index of the last flag.
pub fn sks(ctx: &mut VmContext, start: u16, end: u16, value: u8) -> (r: Result<(), InstructionError>)
    requires
        old(ctx).flags@.len() > 0,
    ensures
        same_but_flags(*final(ctx), *old(ctx)),
        value <= TOGGLE ==> r == Ok::<(), InstructionError>(()) && final(ctx).flags@
            == flag_range_command(old(ctx).flags@, start as int, end as int, value),
        value > TOGGLE ==> r == Err::<(), InstructionError>(
            InstructionError::UnrecognizedFlagValue(value),
        ) && final(ctx).flags@ == old(ctx).flags@,
        final(ctx).flags@.len() == old(ctx).flags@.len(),
        forall|i: int|
            start <= i < end && i < old(ctx).flags@.len() - 1 ==> {
                &&& value == UNSET ==> !#[trigger] final(ctx).flags@[i]
                &&& value == SET ==> final(ctx).flags@[i]
                &&& value == TOGGLE ==> final(ctx).flags@[i] == !old(ctx).flags@[i]
            },
        forall|i: int|
            0 <= i < old(ctx).flags@.len() && !(start <= i < end && i < old(ctx).flags@.len() - 1)
                ==> #[trigger] final(ctx).flags@[i] == old(ctx).flags@[i],
{
    let bound_end = ctx.flags.len() - 1;
    let stop = if (end as usize) < bound_end {
        end as usize
    } else {
        bound_end
    };
    if value > TOGGLE {
        return Err(InstructionError::UnrecognizedFlagValue(value));
    }
    let ghost before = ctx.flags@;
    let mut i = start as usize;
    while i < stop
        invariant
            start <= i,
            i <= stop || stop <= start,
            stop < before.len(),
            stop == if end < before.len() - 1 { end as int } else { before.len() - 1 },
            value <= TOGGLE,
            same_but_flags(*ctx, *old(ctx)),
            before == old(ctx).flags@,
            ctx.flags@.len() == before.len(),
            forall|j: int|
                0 <= j < before.len() ==> #[trigger] ctx.flags@[j] == if start <= j < i {
                    flag_range_command(before, start as int, end as int, value)[j]
                } else {
                    before[j]
                },
        decreases stop - i,
    {
        if value == UNSET {
            ctx.flags.set(i, false);
        } else if value == SET {
            ctx.flags.set(i, true);
        } else {
            ctx.flags.toggle(i);
        }
        i += 1;
    }
    proof {
        assert(ctx.flags@ =~= flag_range_command(before, start as int, end as int, value));
    }
    Ok(())
}

/// Whether `b` has exactly one bit set.
pub open spec fn single_bit(b: u8) -> bool {
    b == 1 || b == 2 || b == 4 || b == 8 || b == 16 || b == 32 || b == 64 || b == 128
}

/// The index of the bit set in the one-bit byte `b`.
pub open spec fn bit_index(b: u8) -> nat {
    if b == 1 {
        0
    } else if b == 2 {
        1
    } else if b == 4 {
        2
    } else if b == 8 {
        3
    } else if b == 16 {
        4
    } else if b == 32 {
        5
    } else if b == 64 {
        6
    } else {
        7
    }
}

/// The little-endian `u16` at `at`.
pub open spec fn le_u16(bytes: Seq<u8>, at: int) -> nat {
    (bytes[at] + 256 * bytes[at + 1]) as nat
}

/// The flags that the records of an SP instruction name, or `None` if a record is cut
/// short. A record is a `u16` byte index, a `u16` count, and that many one-bit bytes; each
/// byte names the flag of its bit in the byte at the index, the index counting up from the
/// record's one.
pub open spec fn sp_flags(bytes: Seq<u8>) -> Option<Seq<usize>>
    decreases bytes.len(),
{
    if bytes.len() == 0 {
        Some(Seq::empty())
    } else if bytes.len() < 4 || bytes.len() < 4 + le_u16(bytes, 2) {
        None
    } else {
        let start = le_u16(bytes, 0);
        let n = le_u16(bytes, 2);
        match sp_flags(bytes.skip((4 + n) as int)) {
            Some(rest) => Some(
                Seq::new(n, |k: int| ((start + k) * 8 + bit_index(bytes[4 + k])) as usize) + rest,
            ),
            None => None,
        }
    }
}

/// Whether the records of an SP instruction, up to the first one that is cut short, have
/// only one-bit bytes and byte indices that stay below `u16::MAX`.
pub open spec fn sp_records_valid(bytes: Seq<u8>) -> bool
    decreases bytes.len(),
{
    if bytes.len() < 4 || bytes.len() < 4 + le_u16(bytes, 2) {
        true
    } else {
        let n = le_u16(bytes, 2);
        &&& forall|k: int| 0 <= k < n ==> single_bit(#[trigger] bytes[4 + k])
        &&& le_u16(bytes, 0) + n <= u16::MAX
        &&& sp_records_valid(bytes.skip((4 + n) as int))
    }
}

/// The index of the bit set in the one-bit byte `b`.
fn trailing_zeros(b: u8) -> (r: usize)
    requires
        single_bit(b),
    ensures
        r == bit_index(b),
{
    let mut v = b;
    let mut r: usize = 0;
    while v > 1
        invariant
            single_bit(b),
            r <= 7,
            v == 1 ==> r == bit_index(b),
            v == 2 ==> r + 1 == bit_index(b),
            v == 4 ==> r + 2 == bit_index(b),
            v == 8 ==> r + 3 == bit_index(b),
            v == 16 ==> r + 4 == bit_index(b),
            v == 32 ==> r + 5 == bit_index(b),
            v == 64 ==> r + 6 == bit_index(b),
            v == 128 ==> r + 7 == bit_index(b),
            single_bit(v),
        decreases v,
    {
        v = v / 2;
        r += 1;
    }
    r
}

/// SP: defines flag group `params[0]` as the flags named by the records that follow, up to
/// the terminator that must end the parameters.
pub fn sp(ctx: &mut VmContext, params: &[u8]) -> (r: Result<(), InstructionError>)
    requires
        old(ctx).well_formed(),
        params@.len() >= 2 && params@.last() == SP_TERMINATOR ==> sp_records_valid(
            params@.subrange(1, params@.len() - 1),
        ),
    ensures
        final(ctx).well_formed(),
        final(ctx).flags@ == old(ctx).flags@,
        final(ctx).registers@ == old(ctx).registers@,
        final(ctx).timer == old(ctx).timer,
        final(ctx).char_names@ == old(ctx).char_names@,
        params@.len() == 0 || params@.last() != SP_TERMINATOR ==> r == Err::<(), InstructionError>(
            InstructionError::InvalidParamTerminator,
        ) && final(ctx).flag_groups@ == old(ctx).flag_groups@,
        params@.len() == 1 && params@.last() == SP_TERMINATOR ==> r == Err::<(), InstructionError>(
            InstructionError::EndOfParams,
        ) && final(ctx).flag_groups@ == old(ctx).flag_groups@,
        params@.len() >= 2 && params@.last() == SP_TERMINATOR ==> match sp_flags(
            params@.subrange(1, params@.len() - 1),
        ) {
            Some(flags) => r == Ok::<(), InstructionError>(()) && final(ctx).flag_groups@.len()
                == old(ctx).flag_groups@.len() && (final(ctx).flag_groups@[params@[0] as int] matches Some(
                group,
            ) && group@ == flags) && forall|i: int|
                0 <= i < old(ctx).flag_groups@.len() && i != params@[0] ==> #[trigger] final(ctx).flag_groups@[i] == old(ctx).flag_groups@[i],
            None => r == Err::<(), InstructionError>(InstructionError::EndOfParams) && final(ctx).flag_groups@ == old(ctx).flag_groups@,
        },
{
    let len = params.len();
    if len == 0 || params[len - 1] != SP_TERMINATOR {
        return Err(InstructionError::InvalidParamTerminator);
    }
    if len == 1 {
        return Err(InstructionError::EndOfParams);
    }
    let group_index = params[0];
    let end = len - 1;
    let ghost records = params@.subrange(1, end as int);
    let mut flags: Vec<usize> = Vec::new();
    let mut pos: usize = 1;
    proof {
        assert(records.skip(0) =~= records);
    }
    while pos < end
        invariant
            1 <= pos <= end,
            end == len - 1,
            len == params@.len(),
            len >= 2,
            params@.last() == SP_TERMINATOR,
            *ctx == *old(ctx),
            old(ctx).well_formed(),
            group_index == params@[0],
            records == params@.subrange(1, end as int),
            sp_records_valid(records.skip(pos - 1)),
            match sp_flags(records.skip(pos - 1)) {
                Some(rest) => sp_flags(records) == Some(flags@ + rest),
                None => sp_flags(records) is None,
            },
        decreases end - pos,
    {
        let ghost rest = records.skip(pos - 1);
        if end - pos < 4 {
            return Err(InstructionError::EndOfParams);
        }
        let start = params[pos] as usize + 256 * params[pos + 1] as usize;
        let n = params[pos + 2] as usize + 256 * params[pos + 3] as usize;
        proof {
            assert(le_u16(rest, 0) == start);
            assert(le_u16(rest, 2) == n);
        }
        if end - pos - 4 < n {
            return Err(InstructionError::EndOfParams);
        }
        let ghost flags_before = flags@;
        let mut k: usize = 0;
        while k < n
            invariant
                k <= n,
                1 <= pos,
                pos + 4 + n <= end,
                end == len - 1,
                len == params@.len(),
                rest == records.skip(pos - 1),
                rest.len() == end - pos,
                records == params@.subrange(1, end as int),
                start == le_u16(rest, 0),
                n == le_u16(rest, 2),
                start + n <= u16::MAX,
                forall|j: int| 0 <= j < n ==> single_bit(#[trigger] rest[4 + j]),
                flags@ == flags_before + Seq::new(
                    k as nat,
                    |j: int| ((start + j) * 8 + bit_index(rest[4 + j])) as usize,
                ),
            decreases n - k,
        {
            let b = params[pos + 4 + k];
            assert(b == rest[4 + k as int]) by {
                assert(rest[4 + k as int] == records[pos - 1 + 4 + k as int]);
                assert(records[pos - 1 + 4 + k as int] == params@[pos + 4 + k as int]);
            }
            let flag = (start + k) * 8 + trailing_zeros(b);
            flags.push(flag);
            k += 1;
            proof {
                assert(flags@ =~= flags_before + Seq::new(
                    k as nat,
                    |j: int| ((start + j) * 8 + bit_index(rest[4 + j])) as usize,
                ));
            }
        }
        proof {
            assert(rest.skip(4 + n as int) =~= records.skip(pos + 4 + n - 1));
            let block = Seq::new(n as nat, |j: int| ((start + j) * 8 + bit_index(rest[4 + j])) as usize);
            match sp_flags(rest.skip(4 + n as int)) {
                Some(tail) => {
                    assert(flags_before + (block + tail) =~= flags@ + tail);
                },
                None => {},
            }
        }
        pos = pos + 4 + n;
    }
    proof {
        assert(records.skip(pos - 1) =~= Seq::<u8>::empty());
        assert(flags@ + Seq::<usize>::empty() =~= flags@);
    }
    ctx.flag_groups.set(group_index as usize, Some(flags));
    Ok(())
}

/// TIMERGET: stores what the timer reads into register `reg_index`; refused when the timer
/// was not started.
pub fn timerget(ctx: &mut VmContext, reg_index: u16) -> (r: Result<(), InstructionError>)
    ensures
        final(ctx).flags@ == old(ctx).flags@,
        final(ctx).timer == old(ctx).timer,
        final(ctx).flag_groups@ == old(ctx).flag_groups@,
        final(ctx).char_names@ == old(ctx).char_names@,
        old(ctx).timer is None ==> r == Err::<(), InstructionError>(InstructionError::TimerNotSet)
            && final(ctx).registers@ == old(ctx).registers@,
        old(ctx).timer matches Some(t) ==> r == Ok::<(), InstructionError>(()) && exists|elapsed_ms: u128|
            #![trigger timer_reading(elapsed_ms, t.duration())]
            final(ctx).registers@ == if (reg_index as int) < old(ctx).registers@.len() {
                old(ctx).registers@.update(reg_index as int, timer_reading(elapsed_ms, t.duration()))
            } else {
                old(ctx).registers@
            },
{
    let value = match &ctx.timer {
        Some(t) => t.get(),
        None => return Err(InstructionError::TimerNotSet),
    };
    ctx.registers.set(reg_index as usize, value);
    Ok(())
}

/// TIMERSET: starts the timer now, offset by `delay`.
pub fn timerset(ctx: &mut VmContext, delay: i32)
    ensures
        final(ctx).timer matches Some(t) && t.duration() == delay,
        final(ctx).flags@ == old(ctx).flags@,
        final(ctx).registers@ == old(ctx).registers@,
        final(ctx).flag_groups@ == old(ctx).flag_groups@,
        final(ctx).char_names@ == old(ctx).char_names@,
{
    ctx.timer = Some(Timer::new(delay));
}

/// TIMEREND: stops the timer.
pub fn timerend(ctx: &mut VmContext)
    ensures
        final(ctx).timer is None,
        final(ctx).flags@ == old(ctx).flags@,
        final(ctx).registers@ == old(ctx).registers@,
        final(ctx).flag_groups@ == old(ctx).flag_groups@,
        final(ctx).char_names@ == old(ctx).char_names@,
{
    ctx.timer = None;
}

/// RT: returns from the running subroutine.
pub fn rt(parser: &mut Parser) -> (r: Result<(), InstructionError>)
    ensures
        final(parser).callers() == old(parser).callers(),
        final(parser).running().scenario == old(parser).running().scenario,
        ({
            let (res, ip, stack) = sub_return_outcome(
                old(parser).running().ip,
                old(parser).running().stack@,
            );
            &&& final(parser).running().ip == ip
            &&& final(parser).running().stack@ == stack
            &&& r == match res {
                Ok(()) => Ok::<(), InstructionError>(()),
                Err(e) => Err(InstructionError::Parser(e)),
            }
        }),
{
    match parser.ret_sub() {
        Ok(()) => Ok(()),
        Err(e) => Err(InstructionError::Parser(e)),
    }
}

/// SRET: returns from the running scene to the one that called it.
pub fn sret(parser: &mut Parser) -> (r: Result<(), InstructionError>)
    ensures
        ({
            let (res, running, callers) = scene_return_outcome(
                old(parser).running(),
                old(parser).callers(),
            );
            &&& final(parser).running() == running
            &&& final(parser).callers() == callers
            &&& r == match res {
                Ok(()) => Ok::<(), InstructionError>(()),
                Err(e) => Err(InstructionError::Parser(e)),
            }
        }),
{
    match parser.ret_scene() {
        Ok(()) => Ok(()),
        Err(e) => Err(InstructionError::Parser(e)),
    }
}

/// SETINSIDEVOL: sets the volume of a sound track.
pub struct Setinsidevol;

impl Setinsidevol {
    /// Which track `track` names and the volume it gets, `volume` out of 255. Refused when
    /// the volume is not in `0..=255`, then when the track number names no track, then when
    /// the named track has nothing loaded (`voice_loaded`, `bgm_loaded`).
    pub fn execute(track: u8, volume: i32, voice_loaded: bool, bgm_loaded: bool) -> (r: Result<
        (AudioTrack, u8),
        InstructionError,
    >)
        ensures
            !(0 <= volume <= 255) ==> r == Err::<(AudioTrack, u8), InstructionError>(
                InstructionError::VolumeOutOfRange(volume),
            ),
            0 <= volume <= 255 && track > BGM ==> r == Err::<(AudioTrack, u8), InstructionError>(
                InstructionError::InvalidTrack(track),
            ),
            0 <= volume <= 255 && track == VOICE ==> r == if voice_loaded {
                Ok::<(AudioTrack, u8), InstructionError>((AudioTrack::Voice, volume as u8))
            } else {
                Err(InstructionError::TrackNotLoaded(AudioTrack::Voice))
            },
            0 <= volume <= 255 && track == BGM ==> r == if bgm_loaded {
                Ok::<(AudioTrack, u8), InstructionError>((AudioTrack::Bgm, volume as u8))
            } else {
                Err(InstructionError::TrackNotLoaded(AudioTrack::Bgm))
            },
    {
        if volume < 0 || volume > 255 {
            return Err(InstructionError::VolumeOutOfRange(volume));
        }
        let level = volume as u8;
        let (audio_track, loaded) = if track == VOICE {
            (AudioTrack::Voice, voice_loaded)
        } else if track == BGM {
            (AudioTrack::Bgm, bgm_loaded)
        } else {
            return Err(InstructionError::InvalidTrack(track));
        };
        if !loaded {
            return Err(InstructionError::TrackNotLoaded(audio_track));
        }
        Ok((audio_track, level))
    }
}


/// How the flag commands of SKS act on a range: clearing or setting a range twice is the
/// same as doing it once, toggling it twice leaves the flags as they were, and clearing a
/// range after setting it is the same as clearing it; inside the range a cleared flag is
/// false, a set flag true and a toggled flag flipped, and outside it nothing changes.
pub proof fn lemma_flag_range_laws(flags: Seq<bool>, start: int, end: int)
    ensures
        flag_range_command(flag_range_command(flags, start, end, UNSET), start, end, UNSET)
            == flag_range_command(flags, start, end, UNSET),
        flag_range_command(flag_range_command(flags, start, end, SET), start, end, SET)
            == flag_range_command(flags, start, end, SET),
        flag_range_command(flag_range_command(flags, start, end, TOGGLE), start, end, TOGGLE) == flags,
        flag_range_command(flag_range_command(flags, start, end, SET), start, end, UNSET)
            == flag_range_command(flags, start, end, UNSET),
        forall|cmd: u8| #[trigger] flag_range_command(flags, start, end, cmd).len() == flags.len(),
        forall|i: int|
            0 <= i < flags.len() ==> {
                let inside = start <= i < end && i < flags.len() - 1;
                &&& inside ==> !#[trigger] flag_range_command(flags, start, end, UNSET)[i]
                &&& inside ==> flag_range_command(flags, start, end, SET)[i]
                &&& inside ==> flag_range_command(flags, start, end, TOGGLE)[i] == !flags[i]
                &&& !inside ==> flag_range_command(flags, start, end, UNSET)[i] == flags[i]
                &&& !inside ==> flag_range_command(flags, start, end, SET)[i] == flags[i]
                &&& !inside ==> flag_range_command(flags, start, end, TOGGLE)[i] == flags[i]
            },
{
    let u = flag_range_command(flags, start, end, UNSET);
    let st = flag_range_command(flags, start, end, SET);
    let t = flag_range_command(flags, start, end, TOGGLE);
    assert(flag_range_command(u, start, end, UNSET) =~= u);
    assert(flag_range_command(st, start, end, SET) =~= st);
    assert(flag_range_command(t, start, end, TOGGLE) =~= flags);
    assert(flag_range_command(st, start, end, UNSET) =~= u);
}

} // verus!
