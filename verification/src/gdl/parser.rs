//! Walks the bytecode of scenarios: an instruction pointer with a stack of subroutine
//! calls, inside a stack of scene calls.
use vstd::prelude::*;
use crate::gdl::scenario::Scenario;
use crate::util::io::{ReadEndian, SliceReader};
use crate::util::stack::{Stack, StackError, push_outcome, pop_outcome, lemma_push_then_pop};
use vstd::slice::{slice_subrange, slice_to_vec};

verus! {

/// How deep subroutine calls may nest within one scene.
pub const MAX_SUB_CALL: usize = 1024;
/// How deep scene calls may nest.
pub const MAX_SCN_CALL: usize = 256;

/// Why the parser refused a step.
#[derive(Debug, Clone, Copy, PartialEq, Eq, Structural)]
pub enum ParserError {
    /// The scenario has no subroutine with this index.
    SubroutineIndex(u16),
    /// A subroutine call found the call stack full.
    SubroutineCall(StackError),
    /// A subroutine return found the call stack empty.
    SubroutineReturn(StackError),
    /// A scene call found the scene stack full.
    SceneCall(StackError),
    /// A scene return found the scene stack empty.
    SceneReturn(StackError),
    /// The bytecode ended before what was asked for.
    EndOfScenario,
    /// A seek to a negative or overflowing instruction pointer.
    InvalidSeek,
}

/// A position to seek to, as in `std::io::SeekFrom`.
#[derive(Debug, Clone, Copy, PartialEq, Eq, Structural)]
pub enum SeekFrom {
    /// An absolute offset in the bytecode.
    Start(u64),
    /// An offset from the end of the bytecode.
    End(i64),
    /// An offset from the current instruction pointer.
    Current(i64),
}

/// The position within one scenario and the subroutine calls that led there.
pub struct ScenarioParser {
    /// The instruction pointer: an offset in the scenario's bytecode.
    pub ip: usize,
    /// The return addresses of the pending subroutine calls.
    pub stack: Stack<usize, MAX_SUB_CALL>,
    pub scenario: Scenario,
}

/// Where a seek lands, if it lands at all.
pub open spec fn seek_target(ip: usize, code_len: usize, pos: SeekFrom) -> Option<usize> {
    match pos {
        SeekFrom::Start(n) => Some(n as usize),
        SeekFrom::End(n) => code_len.checked_add_signed(n as isize),
        SeekFrom::Current(n) => ip.checked_add_signed(n as isize),
    }
}

/// What a call of subroutine `index` returns and leaves as instruction pointer and call
/// stack, from instruction pointer `ip`, call stack `stack` and subroutine table `subs`.
pub open spec fn sub_call_outcome(ip: usize, stack: Seq<usize>, subs: Seq<usize>, index: u16) -> (
    Result<(), ParserError>,
    usize,
    Seq<usize>,
) {
    if index >= subs.len() {
        (Err(ParserError::SubroutineIndex(index)), ip, stack)
    } else {
        let (pushed, after) = push_outcome(stack, MAX_SUB_CALL as nat, ip);
        match pushed {
            Ok(()) => (Ok(()), subs[index as int], after),
            Err(e) => (Err(ParserError::SubroutineCall(e)), subs[index as int], after),
        }
    }
}

/// What a subroutine return returns and leaves as instruction pointer and call stack.
pub open spec fn sub_return_outcome(ip: usize, stack: Seq<usize>) -> (
    Result<(), ParserError>,
    usize,
    Seq<usize>,
) {
    let (popped, after) = pop_outcome(stack);
    match popped {
        Ok(ret) => (Ok(()), ret, after),
        Err(e) => (Err(ParserError::SubroutineReturn(e)), ip, after),
    }
}

/// A return right after a subroutine call that was accepted resumes at the instruction
/// pointer of the call, with the call stack as it was before it.
pub proof fn lemma_call_then_return_sub(ip: usize, stack: Seq<usize>, subs: Seq<usize>, index: u16)
    requires
        sub_call_outcome(ip, stack, subs, index).0 is Ok,
    ensures
        ({
            let (_, callee_ip, callee_stack) = sub_call_outcome(ip, stack, subs, index);
            sub_return_outcome(callee_ip, callee_stack) == (Ok::<(), ParserError>(()), ip, stack)
        }),
{
    lemma_push_then_pop(stack, MAX_SUB_CALL as nat, ip);
}

impl ScenarioParser {
    /// A parser at the start of `scenario`, with no pending call.
    pub fn new(scenario: Scenario) -> (p: Self)
        ensures
            p.ip == 0,
            p.stack@ == Seq::<usize>::empty(),
            p.scenario == scenario,
    {
        Self { ip: 0, stack: Stack::new(), scenario }
    }

    /// The instruction pointer as an offset in the scenario file.
    pub fn cur_offset(&self) -> (o: usize)
        requires
            self.scenario.code_offset + self.ip <= usize::MAX,
        ensures
            o == self.scenario.code_offset + self.ip,
    {
        self.scenario.code_offset + self.ip
    }

    /// How many bytes of bytecode are left after the instruction pointer.
    pub fn remaining_len(&self) -> (n: usize)
        ensures
            n == if self.ip <= self.scenario.code@.len() {
                self.scenario.code@.len() - self.ip
            } else {
                0
            },
    {
        let len = self.scenario.code.len();
        if self.ip <= len {
            len - self.ip
        } else {
            0
        }
    }

    /// Moves the instruction pointer to subroutine `index`.
    pub fn jump_sub(&mut self, index: u16) -> (r: Result<(), ParserError>)
        ensures
            final(self).stack@ == old(self).stack@,
            final(self).scenario == old(self).scenario,
            index < old(self).scenario.subroutines@.len() ==> r == Ok::<(), ParserError>(())
                && final(self).ip == old(self).scenario.subroutines@[index as int],
            index >= old(self).scenario.subroutines@.len() ==> r == Err::<(), ParserError>(
                ParserError::SubroutineIndex(index),
            ) && final(self).ip == old(self).ip,
    {
        match self.scenario.sub_offset(index as usize) {
            Some(pos) => {
                self.ip = pos;
                Ok(())
            },
            None => Err(ParserError::SubroutineIndex(index)),
        }
    }

    /// Calls subroutine `index`: jumps to it and pushes the current instruction pointer as
    /// the return address. When the call stack is full the jump has happened all the same.
    pub fn call_sub(&mut self, index: u16) -> (r: Result<(), ParserError>)
        ensures
            final(self).scenario == old(self).scenario,
            (r, final(self).ip, final(self).stack@) == sub_call_outcome(
                old(self).ip,
                old(self).stack@,
                old(self).scenario.subroutines@,
                index,
            ),
    {
        let caller_ip = self.ip;
        match self.jump_sub(index) {
            Ok(()) => {},
            Err(e) => return Err(e),
        }
        match self.stack.push(caller_ip) {
            Ok(()) => Ok(()),
            Err(e) => Err(ParserError::SubroutineCall(e)),
        }
    }

    /// Returns from a subroutine: pops the return address into the instruction pointer.
    pub fn ret_sub(&mut self) -> (r: Result<(), ParserError>)
        ensures
            final(self).scenario == old(self).scenario,
            (r, final(self).ip, final(self).stack@) == sub_return_outcome(old(self).ip, old(self).stack@),
    {
        match self.stack.pop() {
            Ok(ip) => {
                self.ip = ip;
                Ok(())
            },
            Err(e) => Err(ParserError::SubroutineReturn(e)),
        }
    }

    /// The byte at the instruction pointer, if the bytecode has not ended.
    pub fn peek_opcode(&self) -> (r: Option<u8>)
        ensures
            r == if self.ip < self.scenario.code@.len() {
                Some(self.scenario.code@[self.ip as int])
            } else {
                None::<u8>
            },
    {
        if self.ip < self.scenario.code.len() {
            Some(self.scenario.code[self.ip])
        } else {
            None
        }
    }

    /// Reads the byte at the instruction pointer and steps past it.
    pub fn read_opcode(&mut self) -> (r: Result<u8, ParserError>)
        ensures
            final(self).scenario == old(self).scenario,
            final(self).stack@ == old(self).stack@,
            old(self).ip < old(self).scenario.code@.len() ==> r == Ok::<u8, ParserError>(
                old(self).scenario.code@[old(self).ip as int],
            ) && final(self).ip == old(self).ip + 1,
            old(self).ip >= old(self).scenario.code@.len() ==> r == Err::<u8, ParserError>(
                ParserError::EndOfScenario,
            ) && final(self).ip == old(self).ip,
    {
        if self.ip < self.scenario.code.len() {
            let op = self.scenario.code[self.ip];
            self.ip = self.ip + 1;
            Ok(op)
        } else {
            Err(ParserError::EndOfScenario)
        }
    }

    /// Reads the next `length` bytes and steps past them.
    pub fn read_bytes(&mut self, length: usize) -> (r: Result<Vec<u8>, ParserError>)
        ensures
            final(self).scenario == old(self).scenario,
            final(self).stack@ == old(self).stack@,
            old(self).ip + length <= old(self).scenario.code@.len() ==> (r matches Ok(bytes)
                && bytes@ == old(self).scenario.code@.subrange(
                old(self).ip as int,
                old(self).ip + length,
            ) && final(self).ip == old(self).ip + length),
            old(self).ip + length > old(self).scenario.code@.len() ==> r == Err::<
                Vec<u8>,
                ParserError,
            >(ParserError::EndOfScenario) && final(self).ip == old(self).ip,
    {
        let len = self.scenario.code.len();
        if self.ip > len || length > len - self.ip {
            return Err(ParserError::EndOfScenario);
        }
        let end = self.ip + length;
        let bytes = slice_to_vec(slice_subrange(self.scenario.code.as_slice(), self.ip, end));
        self.ip = end;
        Ok(bytes)
    }

    /// Reads a number parameter at the instruction pointer, least significant byte first,
    /// and steps past it; refused, with nothing read, when the bytecode ends first.
    pub fn read_param<P: ReadEndian>(&mut self) -> (r: Result<P, ParserError>)
        ensures
            final(self).scenario == old(self).scenario,
            final(self).stack@ == old(self).stack@,
            old(self).ip + P::byte_len() <= old(self).scenario.code@.len() ==> r == Ok::<P, ParserError>(
                P::from_le(
                    old(self).scenario.code@.subrange(old(self).ip as int, old(self).ip + P::byte_len()),
                ),
            ) && final(self).ip == old(self).ip + P::byte_len(),
            old(self).ip + P::byte_len() > old(self).scenario.code@.len() ==> r == Err::<P, ParserError>(
                ParserError::EndOfScenario,
            ) && final(self).ip == old(self).ip,
    {
        let len = self.scenario.code.len();
        if self.ip > len {
            return Err(ParserError::EndOfScenario);
        }
        let rest = slice_subrange(self.scenario.code.as_slice(), self.ip, len);
        let mut reader = SliceReader::new(rest);
        match P::get_le(&mut reader) {
            Ok(v) => {
                let used = (len - self.ip) - reader.len();
                proof {
                    assert(rest@.take(P::byte_len() as int) =~= self.scenario.code@.subrange(
                        self.ip as int,
                        self.ip + P::byte_len(),
                    ));
                }
                self.ip = self.ip + used;
                Ok(v)
            },
            Err(_) => Err(ParserError::EndOfScenario),
        }
    }

    /// Copies bytecode from the instruction pointer into `buf`, as much as both have room
    /// for, and steps past it. Returns how many bytes were copied.
    pub fn read(&mut self, buf: &mut [u8]) -> (n: usize)
        ensures
            n == if old(buf)@.len() < old(self).remaining_spec() {
                old(buf)@.len() as int
            } else {
                old(self).remaining_spec()
            },
            final(buf)@.len() == old(buf)@.len(),
            forall|j: int| 0 <= j < n ==> final(buf)@[j] == old(self).scenario.code@[old(self).ip + j],
            forall|j: int| n <= j < old(buf)@.len() ==> final(buf)@[j] == old(buf)@[j],
            final(self).ip == old(self).ip + n,
            final(self).scenario == old(self).scenario,
            final(self).stack@ == old(self).stack@,
    {
        let len = self.scenario.code.len();
        let remaining = self.remaining_len();
        let n = if buf.len() < remaining {
            buf.len()
        } else {
            remaining
        };
        let start = self.ip;
        let mut i: usize = 0;
        while i < n
            invariant
                i <= n,
                n <= buf@.len(),
                len == self.scenario.code@.len(),
                n == 0 || start + n <= len,
                start == self.ip,
                buf@.len() == old(buf)@.len(),
                forall|j: int| 0 <= j < i ==> buf@[j] == self.scenario.code@[start + j],
                forall|j: int| i <= j < buf@.len() ==> buf@[j] == old(buf)@[j],
            decreases n - i,
        {
            buf[i] = self.scenario.code[start + i];
            i += 1;
        }
        self.ip = start + n;
        n
    }

    /// The number of bytes of bytecode left after the instruction pointer.
    pub open spec fn remaining_spec(&self) -> int {
        if self.ip <= self.scenario.code@.len() {
            self.scenario.code@.len() - self.ip
        } else {
            0
        }
    }

    /// Moves the instruction pointer as `pos` says, and returns where it now is. A seek that
    /// would make it negative or overflow is refused.
    pub fn seek(&mut self, pos: SeekFrom) -> (r: Result<u64, ParserError>)
        ensures
            final(self).scenario == old(self).scenario,
            final(self).stack@ == old(self).stack@,
            match seek_target(old(self).ip, old(self).scenario.code@.len() as usize, pos) {
                Some(ip) => final(self).ip == ip && r == Ok::<u64, ParserError>(ip as u64),
                None => final(self).ip == old(self).ip && r == Err::<u64, ParserError>(
                    ParserError::InvalidSeek,
                ),
            },
    {
        match pos {
            SeekFrom::Start(n) => {
                self.ip = n as usize;
            },
            SeekFrom::End(n) => {
                match self.scenario.code.len().checked_add_signed(n as isize) {
                    Some(ip) => {
                        self.ip = ip;
                    },
                    None => {
                        return Err(ParserError::InvalidSeek);
                    },
                }
            },
            SeekFrom::Current(n) => {
                match self.ip.checked_add_signed(n as isize) {
                    Some(ip) => {
                        self.ip = ip;
                    },
                    None => {
                        return Err(ParserError::InvalidSeek);
                    },
                }
            },
        }
        Ok(self.ip as u64)
    }
}

/// What a scene call returns and leaves as the stack of calling scenes, when `running` is the
/// scene that makes the call and `callers` the scenes that called it.
pub open spec fn scene_call_outcome(running: ScenarioParser, callers: Seq<ScenarioParser>) -> (
    Result<(), ParserError>,
    Seq<ScenarioParser>,
) {
    let (pushed, after) = push_outcome(callers, MAX_SCN_CALL as nat, running);
    match pushed {
        Ok(()) => (Ok(()), after),
        Err(e) => (Err(ParserError::SceneCall(e)), after),
    }
}

/// What a scene return returns and leaves as the running scene and the calling scenes.
pub open spec fn scene_return_outcome(running: ScenarioParser, callers: Seq<ScenarioParser>) -> (
    Result<(), ParserError>,
    ScenarioParser,
    Seq<ScenarioParser>,
) {
    let (popped, after) = pop_outcome(callers);
    match popped {
        Ok(caller) => (Ok(()), caller, after),
        Err(e) => (Err(ParserError::SceneReturn(e)), running, after),
    }
}

/// A scene return after a scene call that was accepted resumes the calling scene exactly
/// where it was, with its own subroutine calls, whatever the called scene `callee` did.
pub proof fn lemma_call_then_return_scene(
    running: ScenarioParser,
    callers: Seq<ScenarioParser>,
    callee: ScenarioParser,
)
    requires
        scene_call_outcome(running, callers).0 is Ok,
    ensures
        scene_return_outcome(callee, scene_call_outcome(running, callers).1) == (
            Ok::<(), ParserError>(()),
            running,
            callers,
        ),
{
    lemma_push_then_pop(callers, MAX_SCN_CALL as nat, running);
}

/// The parser of the running scene, over the scenes that called it.
pub struct Parser {
    /// The running scene.
    pub state: ScenarioParser,
    stack: Stack<ScenarioParser, MAX_SCN_CALL>,
}

impl Parser {
    /// The parser of the running scene: the field `state`. (Outside this module Verus does not
    /// let a specification read a field of `Parser`, whose call stack is private, so the
    /// contracts speak of `running()`.)
    pub closed spec fn running(&self) -> ScenarioParser {
        self.state
    }

    /// The scenes that called the running one, the most recent last.
    pub closed spec fn callers(&self) -> Seq<ScenarioParser> {
        self.stack@
    }

    /// A parser at the start of `start_scene`, with no caller.
    pub fn new(start_scene: Scenario) -> (p: Self)
        ensures
            p.running().ip == 0,
            p.running().stack@ == Seq::<usize>::empty(),
            p.running().scenario == start_scene,
            p.callers() == Seq::<ScenarioParser>::empty(),
    {
        Self { state: ScenarioParser::new(start_scene), stack: Stack::new() }
    }

    /// Replaces the running scene by `scenario`, started from its beginning.
    pub fn jump_scene(&mut self, scenario: Scenario)
        ensures
            final(self).running().ip == 0,
            final(self).running().stack@ == Seq::<usize>::empty(),
            final(self).running().scenario == scenario,
            final(self).callers() == old(self).callers(),
    {
        self.state = ScenarioParser::new(scenario);
    }

    /// Starts `scenario` from its beginning and keeps the running scene to return to. When
    /// the scene stack is full the new scene runs all the same, and the caller is lost.
    pub fn call_scene(&mut self, scenario: Scenario) -> (r: Result<(), ParserError>)
        ensures
            final(self).running().ip == 0,
            final(self).running().stack@ == Seq::<usize>::empty(),
            final(self).running().scenario == scenario,
            (r, final(self).callers()) == scene_call_outcome(old(self).running(), old(self).callers()),
    {
        let mut caller = ScenarioParser::new(scenario);
        std::mem::swap(&mut caller, &mut self.state);
        match self.stack.push(caller) {
            Ok(()) => Ok(()),
            Err(e) => Err(ParserError::SceneCall(e)),
        }
    }

    /// Returns from a subroutine of the running scene.
    pub fn ret_sub(&mut self) -> (r: Result<(), ParserError>)
        ensures
            final(self).callers() == old(self).callers(),
            final(self).running().scenario == old(self).running().scenario,
            (r, final(self).running().ip, final(self).running().stack@) == sub_return_outcome(
                old(self).running().ip,
                old(self).running().stack@,
            ),
    {
        self.state.ret_sub()
    }

    /// Resumes the scene that called the running one, where it left off.
    pub fn ret_scene(&mut self) -> (r: Result<(), ParserError>)
        ensures
            (r, final(self).running(), final(self).callers()) == scene_return_outcome(
                old(self).running(),
                old(self).callers(),
            ),
    {
        match self.stack.pop() {
            Ok(caller) => {
                self.state = caller;
                Ok(())
            },
            Err(e) => Err(ParserError::SceneReturn(e)),
        }
    }
}

} // verus!
