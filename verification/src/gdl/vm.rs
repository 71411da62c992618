//! The state that scenario instructions read and change: flags, registers, the script timer
//! and what the machine is waiting for.
use vstd::prelude::*;
use core::time::Duration;
use std::time::Instant;
use crate::util::bitset::BitSet;
use crate::util::register::Register;

verus! {

/// Number of flags and of registers of a fresh context.
pub const VAR_COUNT: usize = 2048;
/// Number of character name slots and of flag groups.
pub const SLOT_COUNT: usize = 256;

#[verifier::external_type_specification]
#[verifier::external_body]
pub struct ExInstant(Instant);

/// The current time, from `Instant::now`; nothing is claimed of the value.
#[verifier::external_body]
fn instant_now() -> Instant {
    Instant::now()
}

/// The time elapsed since `start`, from `Instant::elapsed`; nothing is claimed of the value.
#[verifier::external_body]
fn instant_elapsed(start: &Instant) -> Duration {
    start.elapsed()
}

/// The whole milliseconds in `d`, from `Duration::as_millis`. `Duration` is opaque here, so
/// nothing is claimed of the value.
#[verifier::external_body]
fn duration_as_millis(d: &Duration) -> u128 {
    d.as_millis()
}

/// What the script timer reads `elapsed_ms` milliseconds after it was started with
/// `duration`: the elapsed time, truncated to an `i32`, minus the duration, saturated at the
/// bounds of `i32`.
pub open spec fn timer_reading(elapsed_ms: u128, duration: i32) -> i32 {
    let d = (elapsed_ms as i32) - duration;
    if d > i32::MAX {
        i32::MAX
    } else if d < i32::MIN {
        i32::MIN
    } else {
        d as i32
    }
}

/// The script timer: counts from its start, offset by a duration.
pub struct Timer {
    start: Instant,
    duration: i32,
}

impl Timer {
    /// The duration the timer was started with.
    pub closed spec fn duration(&self) -> i32 {
        self.duration
    }

    /// A timer started now.
    pub fn new(duration: i32) -> (t: Self)
        ensures
            t.duration() == duration,
    {
        Self { start: instant_now(), duration }
    }

    /// What the timer reads `elapsed_ms` milliseconds after its start.
    pub fn reading_at(&self, elapsed_ms: u128) -> (r: i32)
        ensures
            r == timer_reading(elapsed_ms, self.duration()),
    {
        let elapsed = elapsed_ms as i32;
        let d = elapsed as i64 - self.duration as i64;
        if d > i32::MAX as i64 {
            i32::MAX
        } else if d < i32::MIN as i64 {
            i32::MIN
        } else {
            d as i32
        }
    }

    /// What the timer reads now.
    pub fn get(&self) -> (r: i32)
        ensures
            exists|elapsed_ms: u128| r == timer_reading(elapsed_ms, self.duration()),
    {
        let elapsed = instant_elapsed(&self.start);
        let ms = duration_as_millis(&elapsed);
        self.reading_at(ms)
    }
}

/// How long one frame lasts, in nanoseconds: the longest a waiting machine sleeps at once.
pub const FRAME_NANOS: u128 = 16_000_000;

/// What a waiting machine does next.
#[derive(Debug, Clone, Copy, PartialEq, Eq, Structural)]
pub enum WaitStep {
    /// The wait is over: run again.
    Resume,
    /// Sleep this many nanoseconds, then look again.
    Sleep(u128),
}

/// The step of a machine waiting for `duration_ns` nanoseconds once `elapsed_ns` of them
/// have passed: it resumes when more than the whole wait has passed, and otherwise sleeps
/// for one frame or for what is left of the wait, whichever is shorter.
pub fn wait_step(elapsed_ns: u128, duration_ns: u128) -> (s: WaitStep)
    ensures
        elapsed_ns > duration_ns ==> s == WaitStep::Resume,
        elapsed_ns <= duration_ns ==> s == WaitStep::Sleep(
            if duration_ns - elapsed_ns < FRAME_NANOS {
                (duration_ns - elapsed_ns) as u128
            } else {
                FRAME_NANOS
            },
        ),
{
    if elapsed_ns > duration_ns {
        return WaitStep::Resume;
    }
    let remaining = duration_ns - elapsed_ns;
    if remaining < FRAME_NANOS {
        WaitStep::Sleep(remaining)
    } else {
        WaitStep::Sleep(FRAME_NANOS)
    }
}

/// What the machine is doing.
pub enum State {
    Exit,
    Running,
    /// Waiting for `duration` from `start`.
    Wait { start: Instant, duration: Duration },
    WaitClick,
    WaitText,
    WaitTransition,
    WaitVoice,
    WaitVideo,
}

impl State {
    pub fn exit(&mut self)
        ensures
            *final(self) is Exit,
    {
        *self = State::Exit;
    }

    pub fn run(&mut self)
        ensures
            *final(self) is Running,
    {
        *self = State::Running;
    }

    /// Waits for `duration` from now.
    pub fn wait(&mut self, duration: Duration)
        ensures
            *final(self) matches State::Wait { duration: d, .. } && d == duration,
    {
        *self = State::Wait { start: instant_now(), duration };
    }

    pub fn wait_click(&mut self)
        ensures
            *final(self) is WaitClick,
    {
        *self = State::WaitClick;
    }

    pub fn wait_text(&mut self)
        ensures
            *final(self) is WaitText,
    {
        *self = State::WaitText;
    }

    pub fn wait_voice(&mut self)
        ensures
            *final(self) is WaitVoice,
    {
        *self = State::WaitVoice;
    }

    pub fn wait_video(&mut self)
        ensures
            *final(self) is WaitVideo,
    {
        *self = State::WaitVideo;
    }
}

/// The variables of a running game.
pub struct VmContext {
    pub flags: BitSet,
    pub registers: Register,
    pub wait_duration: Option<Duration>,
    pub timer: Option<Timer>,
    /// The name given to each of the 256 characters, if any.
    pub char_names: Vec<Option<String>>,
    /// The flags of each of the 256 flag groups, if it is defined.
    pub flag_groups: Vec<Option<Vec<usize>>>,
}

impl VmContext {
    /// Whether the slot tables have their 256 entries.
    pub open spec fn well_formed(&self) -> bool {
        &&& self.char_names@.len() == SLOT_COUNT
        &&& self.flag_groups@.len() == SLOT_COUNT
    }

    /// 2048 cleared flags, 2048 zero registers, no timer, no wait, and empty slots.
    pub fn new() -> (c: Self)
        ensures
            c.well_formed(),
            c.flags@ == Seq::new(VAR_COUNT as nat, |i: int| false),
            c.registers@ == Seq::new(VAR_COUNT as nat, |i: int| 0i32),
            c.wait_duration is None,
            c.timer is None,
            forall|i: int| 0 <= i < SLOT_COUNT ==> #[trigger] c.char_names@[i] is None,
            forall|i: int| 0 <= i < SLOT_COUNT ==> #[trigger] c.flag_groups@[i] is None,
    {
        let mut char_names: Vec<Option<String>> = Vec::new();
        let mut flag_groups: Vec<Option<Vec<usize>>> = Vec::new();
        let mut i: usize = 0;
        while i < SLOT_COUNT
            invariant
                i <= SLOT_COUNT,
                char_names@.len() == i,
                flag_groups@.len() == i,
                forall|j: int| 0 <= j < i ==> #[trigger] char_names@[j] is None,
                forall|j: int| 0 <= j < i ==> #[trigger] flag_groups@[j] is None,
            decreases SLOT_COUNT - i,
        {
            char_names.push(None);
            flag_groups.push(None);
            i += 1;
        }
        Self {
            flags: BitSet::new(VAR_COUNT),
            registers: Register::new(VAR_COUNT),
            wait_duration: None,
            timer: None,
            char_names,
            flag_groups,
        }
    }
}

} // verus!
