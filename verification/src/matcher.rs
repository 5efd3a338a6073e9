//! The virtual machine and the search that drives it.

use crate::codepoint::read_char_operand;
use crate::opcodes::CompiledOp;
use crate::semantics::{
    backtrack, byte_at, captured, displacement_at, is_word, jump_target, FailurePoint, Job,
    Machine, Step,
};
use crate::{Captures, ExecLimits, Regex, RegexError, RE_NREGS};
use vstd::prelude::*;

verus! {

/// The room that a fresh stack of resume points starts with.
const INITIAL_FAILURES: usize = 128;

/// The machine at work on one text.
pub struct MatchState<'a> {
    regex: &'a Regex,
    text_chars: Vec<char>,
    text_pos: usize,
    code_pos: usize,
    failure_stack: Vec<FailurePoint>,
    reg_start_pos: [Option<usize>; 100],
    reg_end_pos: [Option<usize>; 100],
    reg_maybe_pos: [Option<usize>; 100],
    limits: ExecLimits,
    ticks: usize,
}

/// The characters of a string, in order.
pub fn chars_of(text: &str) -> (chars: Vec<char>)
    ensures
        chars@ == text@,
{
    let mut chars: Vec<char> = Vec::new();
    for c in it: text.chars()
        invariant
            chars@ =~= text@.take(it.index() as int),
            it.seq() == text@,
    {
        chars.push(c);
    }
    assert(text@.take(text@.len() as int) =~= text@);
    chars
}

/// Is the character a letter, a digit or an underscore of ASCII?
pub fn is_word_char(ch: char) -> (word: bool)
    ensures
        word == is_word(ch),
{
    ('a' <= ch && ch <= 'z') || ('A' <= ch && ch <= 'Z') || ('0' <= ch && ch <= '9') || ch == '_'
}

impl<'a> MatchState<'a> {
    /// What the machine works on.
    pub closed spec fn job(&self) -> Job {
        Job {
            code: self.regex.buffer@,
            translate: self.regex.translation(),
            text: self.text_chars@,
            limits: self.limits,
        }
    }

    /// The state of the machine.
    pub closed spec fn machine(&self) -> Machine {
        Machine {
            text_pos: self.text_pos as int,
            code_pos: self.code_pos as int,
            stack: self.failure_stack@,
            reg_start: self.reg_start_pos@,
            reg_end: self.reg_end_pos@,
            reg_maybe: self.reg_maybe_pos@,
        }
    }

    /// The number of instructions fetched so far.
    pub closed spec fn ticks(&self) -> int {
        self.ticks as int
    }

    /// The machine is in a state that a run can be in, and has not used up
    /// its ticks.
    pub open spec fn wf(&self) -> bool {
        &&& self.job().admits(self.machine())
        &&& 0 <= self.ticks() <= self.job().limits.tick_limit()
    }

    /// A machine for `regex` on `text`, ready to start at the beginning.
    pub fn new(regex: &'a Regex, text: &str, limits: ExecLimits) -> (state: Self)
        ensures
            state.job() == (Job {
                code: regex.code(),
                translate: regex.translation(),
                text: text@,
                limits,
            }),
            state.machine() == Job::start(0),
            state.ticks() == 0,
            state.wf(),
    {
        let state = MatchState {
            regex,
            text_chars: chars_of(text),
            text_pos: 0,
            code_pos: 0,
            failure_stack: Vec::with_capacity(INITIAL_FAILURES),
            reg_start_pos: [None;100],
            reg_end_pos: [None;100],
            reg_maybe_pos: [None;100],
            limits,
            ticks: 0,
        };
        assert(state.machine().reg_start =~= Job::start(0).reg_start);
        assert(state.machine().reg_end =~= Job::start(0).reg_end);
        assert(state.machine().reg_maybe =~= Job::start(0).reg_maybe);
        assert(state.machine().stack =~= Job::start(0).stack);
        assert(state.text_chars.len() <= usize::MAX && regex.buffer.len() <= usize::MAX);
        state
    }

    /// Counts one instruction against the limits: a timeout where the count
    /// would reach the tick limit, an error where the stack is full.
    pub fn check_limits(&mut self) -> (res: Result<(), RegexError>)
        requires
            old(self).wf(),
        ensures
            final(self).job() == old(self).job(),
            final(self).machine() == old(self).machine(),
            final(self).wf(),
            old(self).ticks() + 1 >= old(self).job().limits.tick_limit() ==> res == Err::<
                (),
                RegexError,
            >(RegexError::Timeout) && final(self).ticks() == old(self).ticks(),
            old(self).ticks() + 1 < old(self).job().limits.tick_limit() ==> final(self).ticks()
                == old(self).ticks() + 1 && (res is Err <==> old(self).machine().stack.len()
                >= old(self).job().limits.max_failures) && (res is Err ==> res == Err::<
                (),
                RegexError,
            >(RegexError::ExecutionError)),
    {
        let limit = match self.limits.max_ticks {
            Some(k) => k,
            None => usize::MAX,
        };
        if limit - self.ticks <= 1 {
            return Err(RegexError::Timeout);
        }
        self.ticks += 1;
        if self.failure_stack.len() >= self.limits.max_failures {
            return Err(RegexError::ExecutionError);
        }
        Ok(())
    }

    /// The character at the cursor, translated; an error at the end of the
    /// text.
    pub fn current_char(&self) -> (res: Result<char, RegexError>)
        requires
            self.wf(),
        ensures
            self.job().at_end(self.machine()) ==> res == Err::<char, RegexError>(
                RegexError::ExecutionError,
            ),
            !self.job().at_end(self.machine()) ==> res == Ok::<char, RegexError>(
                self.job().current(self.machine()),
            ),
    {
        if self.text_pos >= self.text_chars.len() {
            return Err(RegexError::ExecutionError);
        }
        Ok(self.regex.translate_char(self.text_chars[self.text_pos]))
    }

    /// The character at the cursor, translated, with the cursor moved past
    /// it; an error, and no move, at the end of the text.
    pub fn next_char(&mut self) -> (res: Result<char, RegexError>)
        requires
            old(self).wf(),
        ensures
            final(self).job() == old(self).job(),
            final(self).ticks() == old(self).ticks(),
            old(self).job().at_end(old(self).machine()) ==> res == Err::<char, RegexError>(
                RegexError::ExecutionError,
            ) && final(self).machine() == old(self).machine(),
            !old(self).job().at_end(old(self).machine()) ==> res == Ok::<char, RegexError>(
                old(self).job().current(old(self).machine()),
            ) && final(self).machine() == (Machine {
                text_pos: old(self).machine().text_pos + 1,
                ..old(self).machine()
            }),
            final(self).wf(),
    {
        let res = self.current_char();
        if res.is_ok() {
            self.advance();
        }
        res
    }

    /// Moves the cursor past one character.
    pub fn advance(&mut self)
        requires
            old(self).wf(),
            !old(self).job().at_end(old(self).machine()),
        ensures
            final(self).job() == old(self).job(),
            final(self).ticks() == old(self).ticks(),
            final(self).machine() == (Machine {
                text_pos: old(self).machine().text_pos + 1,
                ..old(self).machine()
            }),
            final(self).wf(),
    {
        self.text_pos += 1;
    }

    /// Is the cursor at the end of the text?
    pub fn at_end(&self) -> (end: bool)
        ensures
            end == self.job().at_end(self.machine()),
    {
        self.text_pos >= self.text_chars.len()
    }

    /// The cursor, as an index into the text.
    pub fn absolute_pos(&self) -> (pos: usize)
        ensures
            pos == self.machine().text_pos,
    {
        self.text_pos
    }

    /// Stacks a point that resumes at the cursor in the text and at
    /// `code_pos` in the code; an error where the stack is full.
    pub fn push_failure(&mut self, code_pos: usize) -> (res: Result<(), RegexError>)
        requires
            old(self).wf(),
            code_pos <= old(self).job().code.len(),
        ensures
            final(self).job() == old(self).job(),
            final(self).ticks() == old(self).ticks(),
            final(self).wf(),
            old(self).machine().stack.len() >= old(self).job().limits.max_failures ==> res == Err::<
                (),
                RegexError,
            >(RegexError::ExecutionError) && final(self).machine() == old(self).machine(),
            old(self).machine().stack.len() < old(self).job().limits.max_failures ==> res is Ok
                && final(self).machine() == (Machine {
                stack: old(self).machine().stack.push(
                    FailurePoint { text_pos: old(self).machine().text_pos as usize, code_pos },
                ),
                ..old(self).machine()
            }),
    {
        if self.failure_stack.len() >= self.limits.max_failures {
            return Err(RegexError::ExecutionError);
        }
        self.failure_stack.push(FailurePoint { text_pos: self.text_pos, code_pos });
        Ok(())
    }

    /// Resumes from the latest point on the stack, if there is one.
    pub fn pop_failure(&mut self) -> (resumed: bool)
        requires
            old(self).wf(),
        ensures
            final(self).job() == old(self).job(),
            final(self).ticks() == old(self).ticks(),
            final(self).wf(),
            resumed == (old(self).machine().stack.len() > 0),
            resumed ==> backtrack(old(self).machine()) == Step::Next(final(self).machine()),
            !resumed ==> final(self).machine() == old(self).machine(),
    {
        match self.failure_stack.pop() {
            Some(failure) => {
                self.text_pos = failure.text_pos;
                self.code_pos = failure.code_pos;
                true
            },
            None => false,
        }
    }

    /// Falls back after a mismatch: the machine resumes from the latest
    /// point on the stack; with an empty stack the attempt is over.
    pub fn backtrack(&mut self) -> (halt: Option<Result<Option<usize>, RegexError>>)
        requires
            old(self).wf(),
        ensures
            final(self).follows(old(self), backtrack(old(self).machine()), halt),
    {
        if self.pop_failure() {
            None
        } else {
            Some(Ok(None))
        }
    }

    /// The machine has done what `step` says, starting from `before`: it
    /// reports the halt, with the registers as they were, or stands in the
    /// next state.
    pub open spec fn follows(
        &self,
        before: &Self,
        step: Step,
        halt: Option<Result<Option<usize>, RegexError>>,
    ) -> bool {
        &&& self.job() == before.job()
        &&& self.ticks() == before.ticks()
        &&& self.wf()
        &&& match step {
            Step::Halt(result) => {
                &&& halt == Some(result)
                &&& self.machine().reg_start == before.machine().reg_start
                &&& self.machine().reg_end == before.machine().reg_end
            },
            Step::Next(next) => halt is None && self.machine() == next,
        }
    }

    /// Reads the displacement at the code cursor and moves the cursor past
    /// it.
    pub fn read_displacement(&mut self) -> (disp: i16)
        requires
            old(self).wf(),
            old(self).machine().code_pos + 1 < old(self).job().code.len(),
        ensures
            final(self).job() == old(self).job(),
            final(self).ticks() == old(self).ticks(),
            final(self).wf(),
            Some(disp as int) == displacement_at(
                old(self).job().code,
                old(self).machine().code_pos,
            ),
            final(self).machine() == (Machine {
                code_pos: old(self).machine().code_pos + 2,
                ..old(self).machine()
            }),
    {
        let low: u32 = self.regex.buffer[self.code_pos] as u32;
        let high: u32 = self.regex.buffer[self.code_pos + 1] as u32;
        self.code_pos += 2;
        let raw: u32 = low + 256 * high;
        if raw >= 32768 {
            (raw as i32 - 65536) as i16
        } else {
            raw as i16
        }
    }
    /// Where a jump by `disp` lands, seen from the code cursor.
    pub fn target_of(&self, disp: i16) -> (target: usize)
        requires
            self.wf(),
        ensures
            target == jump_target(
                self.job().code.len() as int,
                self.machine().code_pos,
                disp as int,
            ),
    {
        let len = self.regex.buffer.len();
        if disp >= 0 {
            let forward = disp as usize;
            if forward <= len - self.code_pos {
                self.code_pos + forward
            } else {
                len
            }
        } else {
            let back = (-(disp as i32)) as usize;
            if back <= self.code_pos {
                self.code_pos - back
            } else {
                len
            }
        }
    }

    /// Carries out a jump, whose opcode the cursor has passed.
    #[verifier::rlimit(50)]
    pub fn step_jump(&mut self, op: CompiledOp) -> (halt: Option<
        Result<Option<usize>, RegexError>,
    >)
        requires
            old(self).wf(),
            old(self).machine().stack.len() < old(self).job().limits.max_failures,
            op == CompiledOp::Jump || op == CompiledOp::StarJump || op == CompiledOp::FailureJump
                || op == CompiledOp::UpdateFailureJump || op == CompiledOp::DummyFailureJump,
        ensures
            final(self).follows(
                old(self),
                old(self).job().step_jump(old(self).machine(), op),
                halt,
            ),
    {
        let len = self.regex.buffer.len();
        if len - self.code_pos < 2 {
            return Some(Err(RegexError::ExecutionError));
        }
        let disp = self.read_displacement();
        let target = self.target_of(disp);
        match op {
            CompiledOp::Jump => {
                self.code_pos = target;
                None
            },
            CompiledOp::FailureJump => {
                match self.push_failure(target) {
                    Ok(_) => None,
                    Err(e) => Some(Err(e)),
                }
            },
            CompiledOp::DummyFailureJump => {
                if len - self.code_pos >= 3 && self.regex.buffer[self.code_pos]
                    == CompiledOp::FailureJump.to_byte() {
                    self.code_pos += 3;
                    None
                } else {
                    Some(Err(RegexError::ExecutionError))
                }
            },
            _ => {
                let depth = self.failure_stack.len();
                if depth > 0 {
                    let top = self.failure_stack[depth - 1];
                    self.failure_stack[depth - 1] = FailurePoint {
                        text_pos: self.text_pos,
                        code_pos: top.code_pos,
                    };
                }
                self.code_pos = target;
                None
            },
        }
    }

    /// Carries out the opening or the closing of a group, whose opcode the
    /// cursor has passed.
    pub fn step_memory(&mut self, opening: bool) -> (halt: Option<
        Result<Option<usize>, RegexError>,
    >)
        requires
            old(self).wf(),
        ensures
            final(self).follows(
                old(self),
                old(self).job().step_memory(old(self).machine(), opening),
                halt,
            ),
    {
        if self.code_pos >= self.regex.buffer.len() {
            return Some(Err(RegexError::ExecutionError));
        }
        let reg = self.regex.buffer[self.code_pos] as usize;
        self.code_pos += 1;
        if reg < RE_NREGS {
            if opening {
                self.reg_maybe_pos[reg] = Some(self.text_pos);
            } else {
                self.reg_start_pos[reg] = self.reg_maybe_pos[reg];
                self.reg_end_pos[reg] = Some(self.text_pos);
            }
        }
        None
    }

    /// Carries out the match of one character against a syntax class,
    /// whose opcode the cursor has passed.
    pub fn step_syntax(&mut self, inside: bool) -> (halt: Option<
        Result<Option<usize>, RegexError>,
    >)
        requires
            old(self).wf(),
        ensures
            final(self).follows(
                old(self),
                old(self).job().step_syntax(old(self).machine(), inside),
                halt,
            ),
    {
        if self.code_pos >= self.regex.buffer.len() {
            return Some(Err(RegexError::ExecutionError));
        }
        let class = self.regex.buffer[self.code_pos];
        self.code_pos += 1;
        match self.next_char() {
            Ok(ch) => {
                if class == 1 && is_word_char(ch) == inside {
                    None
                } else {
                    self.backtrack()
                }
            },
            Err(_) => self.backtrack(),
        }
    }

    /// Carries out a back-reference, whose opcode the cursor has passed.
    #[verifier::rlimit(50)]
    pub fn step_backref(&mut self) -> (halt: Option<Result<Option<usize>, RegexError>>)
        requires
            old(self).wf(),
        ensures
            final(self).follows(old(self), old(self).job().step_backref(old(self).machine()), halt),
    {
        if self.code_pos >= self.regex.buffer.len() {
            return Some(Err(RegexError::ExecutionError));
        }
        let reg = self.regex.buffer[self.code_pos] as usize;
        self.code_pos += 1;
        if reg >= RE_NREGS {
            return self.backtrack();
        }
        match (self.reg_start_pos[reg], self.reg_end_pos[reg]) {
            (Some(from), Some(to)) => {
                let len = self.text_chars.len();
                if from > to || to > len || to - from > len - self.text_pos {
                    return self.backtrack();
                }
                let n = to - from;
                let ghost text = self.text_chars@;
                let ghost at = self.text_pos as int;
                let mut k: usize = 0;
                while k < n
                    invariant
                        0 <= k <= n,
                        n == to - from,
                        from <= to <= len,
                        at + n <= len,
                        len == text.len(),
                        text == self.text_chars@,
                        at == self.text_pos,
                        self.wf(),
                        self.job() == old(self).job(),
                        self.ticks() == old(self).ticks(),
                        self.machine() == (Machine {
                            code_pos: old(self).machine().code_pos + 1,
                            ..old(self).machine()
                        }),
                        byte_at(old(self).job().code, old(self).machine().code_pos) == Some(
                            reg as u8,
                        ),
                        reg < 100,
                        old(self).machine().reg_start[reg as int] == Some(from),
                        old(self).machine().reg_end[reg as int] == Some(to),
                        text == old(self).job().text,
                        text.subrange(from as int, from + k) == text.subrange(at, at + k),
                    decreases n - k,
                {
                    if self.text_chars[from + k] != self.text_chars[self.text_pos + k] {
                        proof {
                            let a = text.subrange(from as int, to as int);
                            let b = text.subrange(at, at + n);
                            assert(a[k as int] != b[k as int]);
                        }
                        return self.backtrack();
                    }
                    assert(text.subrange(from as int, from + k + 1) =~= text.subrange(
                        from as int,
                        from + k,
                    ).push(text[from + k]));
                    assert(text.subrange(at, at + k + 1) =~= text.subrange(at, at + k).push(
                        text[at + k],
                    ));
                    k += 1;
                }
                self.text_pos += n;
                None
            },
            _ => self.backtrack(),
        }
    }

    /// Carries out a character class, whose opcode the cursor has passed.
    #[verifier::rlimit(50)]
    pub fn step_class(&mut self) -> (halt: Option<Result<Option<usize>, RegexError>>)
        requires
            old(self).wf(),
        ensures
            final(self).follows(old(self), old(self).job().step_class(old(self).machine()), halt),
    {
        let ch = match self.current_char() {
            Ok(ch) => ch,
            Err(_) => {
                return self.backtrack();
            },
        };
        let len = self.regex.buffer.len();
        if len - self.code_pos < 2 {
            return Some(Err(RegexError::ExecutionError));
        }
        let complement = self.regex.buffer[self.code_pos] != 0;
        let count = self.regex.buffer[self.code_pos + 1];
        let c: u32 = ch as u32;
        let ghost job = self.job();
        let ghost first = self.code_pos + 2;
        let mut pos: usize = self.code_pos + 2;
        let mut hit = false;
        let mut left: u8 = count;
        while left > 0
            invariant
                self.wf(),
                job == self.job(),
                job == old(self).job(),
                self.ticks() == old(self).ticks(),
                self.machine() == old(self).machine(),
                !job.at_end(self.machine()),
                first == self.machine().code_pos + 2,
                first <= job.code.len(),
                complement == (job.code[self.machine().code_pos] != 0),
                count == job.code[self.machine().code_pos + 1],
                c == job.current(self.machine()) as u32,
                pos <= job.code.len(),
                job.scan_class(first as int, count as nat, c) == match job.scan_class(
                    pos as int,
                    left as nat,
                    c,
                ) {
                    None => None,
                    Some((rest, end)) => Some((rest || hit, end)),
                },
            decreases left,
        {
            let low = match read_char_operand(&self.regex.buffer, pos) {
                Some((low, mid)) => {
                    pos = mid;
                    low
                },
                None => {
                    return Some(Err(RegexError::ExecutionError));
                },
            };
            let high = match read_char_operand(&self.regex.buffer, pos) {
                Some((high, next)) => {
                    pos = next;
                    high
                },
                None => {
                    return Some(Err(RegexError::ExecutionError));
                },
            };
            if low <= c && c <= high {
                hit = true;
            }
            left -= 1;
        }
        if hit != complement {
            self.text_pos += 1;
            self.code_pos = pos;
            None
        } else {
            self.backtrack()
        }
    }

    /// Carries out the instruction at the code cursor.
    #[verifier::rlimit(50)]
    pub fn step(&mut self) -> (halt: Option<Result<Option<usize>, RegexError>>)
        requires
            old(self).wf(),
            old(self).machine().stack.len() < old(self).job().limits.max_failures,
        ensures
            final(self).follows(old(self), old(self).job().step(old(self).machine()), halt),
    {
        if self.code_pos >= self.regex.buffer.len() {
            return Some(Err(RegexError::ExecutionError));
        }
        let opcode = match CompiledOp::from_byte(self.regex.buffer[self.code_pos]) {
            Some(opcode) => opcode,
            None => {
                return Some(Err(RegexError::ExecutionError));
            },
        };
        self.code_pos += 1;
        match opcode {
            CompiledOp::End => Some(Ok(Some(self.absolute_pos()))),
            CompiledOp::Bol => {
                if self.text_pos == 0 || self.text_chars[self.text_pos - 1] == '\n' {
                    None
                } else {
                    self.backtrack()
                }
            },
            CompiledOp::Eol => {
                match self.current_char() {
                    Ok(ch) => {
                        if ch == '\n' {
                            None
                        } else {
                            self.backtrack()
                        }
                    },
                    Err(_) => None,
                }
            },
            CompiledOp::CharSet => self.step_class(),
            CompiledOp::Exact => {
                match read_char_operand(&self.regex.buffer, self.code_pos) {
                    None => Some(Err(RegexError::ExecutionError)),
                    Some((expected, next)) => {
                        self.code_pos = next;
                        match self.next_char() {
                            Ok(ch) => {
                                if ch as u32 == expected {
                                    None
                                } else {
                                    self.backtrack()
                                }
                            },
                            Err(_) => self.backtrack(),
                        }
                    },
                }
            },
            CompiledOp::AnyChar => {
                match self.current_char() {
                    Ok(ch) => {
                        if ch != '\n' {
                            self.advance();
                            None
                        } else {
                            self.backtrack()
                        }
                    },
                    Err(_) => self.backtrack(),
                }
            },
            CompiledOp::StartMemory => self.step_memory(true),
            CompiledOp::EndMemory => self.step_memory(false),
            CompiledOp::MatchMemory => self.step_backref(),
            CompiledOp::Jump
            | CompiledOp::StarJump
            | CompiledOp::FailureJump
            | CompiledOp::UpdateFailureJump
            | CompiledOp::DummyFailureJump => self.step_jump(opcode),
            CompiledOp::BegBuf => {
                if self.text_pos == 0 {
                    None
                } else {
                    self.backtrack()
                }
            },
            CompiledOp::EndBuf => {
                if self.at_end() {
                    None
                } else {
                    self.backtrack()
                }
            },
            CompiledOp::WordBeg => {
                if self.word_after() && !self.word_before() {
                    None
                } else {
                    self.backtrack()
                }
            },
            CompiledOp::WordEnd => {
                if self.word_before() && !self.word_after() {
                    None
                } else {
                    self.backtrack()
                }
            },
            CompiledOp::WordBound => {
                if self.word_before() != self.word_after() {
                    None
                } else {
                    self.backtrack()
                }
            },
            CompiledOp::NotWordBound => {
                if self.text_pos > 0 && !self.at_end() && self.word_before() == self.word_after() {
                    None
                } else {
                    self.backtrack()
                }
            },
            CompiledOp::SyntaxSpec => self.step_syntax(true),
            CompiledOp::NotSyntaxSpec => self.step_syntax(false),
        }
    }

    /// Is there a character before the cursor, and is it part of a word?
    pub fn word_before(&self) -> (word: bool)
        requires
            self.wf(),
        ensures
            word == self.job().word_before(self.machine()),
    {
        self.text_pos > 0 && is_word_char(self.text_chars[self.text_pos - 1])
    }

    /// Is there a character at the cursor, and is it part of a word?
    pub fn word_after(&self) -> (word: bool)
        requires
            self.wf(),
        ensures
            word == self.job().word_after(self.machine()),
    {
        match self.current_char() {
            Ok(ch) => is_word_char(ch),
            Err(_) => false,
        }
    }

    /// Runs the pattern against the text from `start_pos`, from a fresh
    /// state: the end of the match, no match, or the error that stopped the
    /// run. The registers and the tick count are left as the run left them,
    /// and the count stays within the tick limit. A start past the end of the
    /// text has no match, and no instruction is fetched for it.
    #[verifier::rlimit(50)]
    pub fn execute(&mut self, start_pos: usize) -> (res: Result<Option<usize>, RegexError>)
        requires
            old(self).wf(),
        ensures
            final(self).job() == old(self).job(),
            final(self).wf(),
            start_pos <= old(self).job().text.len() ==> {
                &&& res == old(self).job().run_at(start_pos as int).result
                &&& final(self).machine().reg_start == old(self).job().run_at(
                    start_pos as int,
                ).reg_start
                &&& final(self).machine().reg_end == old(self).job().run_at(
                    start_pos as int,
                ).reg_end
                &&& final(self).ticks() == old(self).job().run_at(start_pos as int).ticks
            },
            start_pos > old(self).job().text.len() ==> {
                &&& res == Ok::<Option<usize>, RegexError>(None)
                &&& final(self).machine() == old(self).machine()
                &&& final(self).ticks() == old(self).ticks()
            },
            final(self).ticks() <= old(self).job().limits.tick_limit(),
    {
        if start_pos > self.text_chars.len() {
            return Ok(None);
        }
        self.text_pos = start_pos;
        self.code_pos = 0;
        self.failure_stack.clear();
        self.reg_start_pos = [None;100];
        self.reg_end_pos = [None;100];
        self.reg_maybe_pos = [None;100];
        self.ticks = 0;
        let ghost job = self.job();
        let ghost goal = job.run_at(start_pos as int);
        proof {
            assert(self.machine().reg_start =~= Job::start(start_pos as int).reg_start);
            assert(self.machine().reg_end =~= Job::start(start_pos as int).reg_end);
            assert(self.machine().reg_maybe =~= Job::start(start_pos as int).reg_maybe);
            assert(self.machine().stack =~= Job::start(start_pos as int).stack);
            assert(self.text_chars.len() <= usize::MAX && self.regex.buffer.len() <= usize::MAX);
        }
        loop
            invariant
                self.wf(),
                self.job() == job,
                job == old(self).job(),
                goal == job.run_at(start_pos as int),
                start_pos <= job.text.len(),
                job.run(self.machine(), self.ticks()) == goal,
            decreases job.limits.tick_limit() - self.ticks(),
        {
            match self.check_limits() {
                Err(e) => {
                    return Err(e);
                },
                Ok(_) => {},
            }
            match self.step() {
                Some(result) => {
                    return result;
                },
                None => {},
            }
        }
    }

    /// The registers of a match from `match_start` to `match_end`, as the
    /// last run left them.
    pub fn build_captures(&self, match_start: usize, match_end: usize) -> (captures: Captures)
        ensures
            captures@.len() == 100,
            captures@[0] == (Some(match_start), Some(match_end)),
            forall|i: int|
                1 <= i < 100 ==> #[trigger] captures@[i] == if self.machine().reg_start[i] is Some
                    && self.machine().reg_end[i] is Some {
                    (self.machine().reg_start[i], self.machine().reg_end[i])
                } else {
                    (None, None)
                },
    {
        let mut groups: [(Option<usize>, Option<usize>); 100] = [(None, None);100];
        groups[0] = (Some(match_start), Some(match_end));
        let mut i: usize = 1;
        while i < RE_NREGS
            invariant
                1 <= i <= 100,
                groups@[0] == (Some(match_start), Some(match_end)),
                forall|j: int|
                    1 <= j < i ==> #[trigger] groups@[j] == if self.reg_start_pos@[j] is Some
                        && self.reg_end_pos@[j] is Some {
                        (self.reg_start_pos@[j], self.reg_end_pos@[j])
                    } else {
                        (None, None)
                    },
                forall|j: int| i <= j < 100 ==> #[trigger] groups@[j] == (None::<usize>, None::<usize>),
            decreases 100 - i,
        {
            match (self.reg_start_pos[i], self.reg_end_pos[i]) {
                (Some(start), Some(end)) => {
                    groups[i] = (Some(start), Some(end));
                },
                _ => {},
            }
            i += 1;
        }
        Captures::from_groups(groups)
    }
}

/// Searches `text` for a match of `regex`: forward from `start` through
/// `start + range` where `range` is not negative, backward where it is
/// negative, in both directions only over positions of the text. The result
/// is the first position at which the pattern matches, or -1. A run that
/// times out ends the search with that error; a position at which the run
/// ends in another error counts as one without a match.
#[verifier::rlimit(50)]
pub fn search(regex: &Regex, text: &str, start: usize, range: i32, limits: ExecLimits) -> (res:
    Result<i32, RegexError>)
    requires
        job_of(regex, text@, limits).search_fits(start as int, range as int),
    ensures
        res == job_of(regex, text@, limits).search_result(start as int, range as int),
{
    let mut state = MatchState::new(regex, text, limits);
    let ghost job = state.job();
    let len = state.text_chars.len();
    if range >= 0 {
        if start > len {
            return Ok(-1);
        }
        let last = if range as usize <= len - start {
            start + range as usize
        } else {
            len
        };
        let mut pos = start;
        while pos <= last
            invariant
                state.wf(),
                state.job() == job,
                job == job_of(regex, text@, limits),
                range >= 0,
                last == if start + range < len { start + range } else { len as int },
                len == job.text.len(),
                start <= pos <= last + 1,
                last <= len,
                last <= i32::MAX,
                job.scan_forward(pos as int, last as int) == job.scan_forward(
                    start as int,
                    last as int,
                ),
            decreases last + 1 - pos,
        {
            match state.execute(pos) {
                Ok(Some(_)) => {
                    return Ok(pos as i32);
                },
                Err(RegexError::Timeout) => {
                    return Err(RegexError::Timeout);
                },
                _ => {},
            }
            pos += 1;
        }
        Ok(-1)
    } else {
        let back = (-(range as i64)) as usize;
        let first = if back <= start {
            start - back
        } else {
            0
        };
        let top = if start < len {
            start
        } else {
            len
        };
        if top < first {
            return Ok(-1);
        }
        let mut pos = top;
        loop
            invariant
                state.wf(),
                state.job() == job,
                job == job_of(regex, text@, limits),
                range < 0,
                top == if start < len { start } else { len },
                first == if start + range > 0 { start + range } else { 0 },
                len == job.text.len(),
                first <= pos <= top,
                top <= len,
                top <= i32::MAX,
                job.scan_backward(pos as int, first as int) == job.scan_backward(
                    top as int,
                    first as int,
                ),
            decreases pos - first,
        {
            match state.execute(pos) {
                Ok(Some(_)) => {
                    return Ok(pos as i32);
                },
                Err(RegexError::Timeout) => {
                    return Err(RegexError::Timeout);
                },
                _ => {},
            }
            if pos == first {
                return Ok(-1);
            }
            pos -= 1;
        }
    }
}

/// Tries `regex` at position `pos` of `text`: the registers of the match,
/// no match, or the error that stopped the run. A position past the end of
/// the text has no match.
pub fn match_at(regex: &Regex, text: &str, pos: usize, limits: ExecLimits) -> (res: Result<
    Option<Captures>,
    RegexError,
>)
    ensures
        match job_of(regex, text@, limits).match_result(pos as int) {
            Ok(Some(groups)) => res is Ok && res->Ok_0 is Some && res->Ok_0->0@ == groups,
            Ok(None) => res is Ok && res->Ok_0 is None,
            Err(e) => res is Err && res->Err_0 == e,
        },
{
    let mut state = MatchState::new(regex, text, limits);
    if pos > state.text_chars.len() {
        return Ok(None);
    }
    let ghost job = state.job();
    match state.execute(pos) {
        Ok(Some(end_pos)) => {
            let captures = state.build_captures(pos, end_pos);
            assert(captures@ =~= captured(pos, end_pos, job.run_at(pos as int)));
            Ok(Some(captures))
        },
        Ok(None) => Ok(None),
        Err(e) => Err(e),
    }
}

/// What a run of `regex` on `text` under `limits` works on.
pub open spec fn job_of(regex: &Regex, text: Seq<char>, limits: ExecLimits) -> Job {
    Job { code: regex.code(), translate: regex.translation(), text, limits }
}

} // verus!
