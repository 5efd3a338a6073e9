//! What the virtual machine does, one instruction at a time: the meaning of
//! a compiled pattern, stated on sequences and integers.

use crate::codepoint::operand_at;
use crate::opcodes::CompiledOp;
use crate::{ExecLimits, RegexError};
use vstd::prelude::*;

verus! {

/// A point to resume from after a mismatch.
#[derive(Debug, Clone, Copy)]
pub struct FailurePoint {
    /// Where in the text to resume.
    pub text_pos: usize,
    /// Where in the code to resume.
    pub code_pos: usize,
}

/// What one run of the machine works on. Nothing in it changes during the
/// run.
pub struct Job {
    /// The instructions.
    pub code: Seq<u8>,
    /// The translation applied to each character that is read, if any.
    pub translate: Option<Map<u32, char>>,
    /// The text.
    pub text: Seq<char>,
    /// The bounds on the run.
    pub limits: ExecLimits,
}

/// The state of the machine between two instructions.
pub struct Machine {
    /// The index of the next character of the text.
    pub text_pos: int,
    /// The index of the next byte of the code.
    pub code_pos: int,
    /// The points to resume from, the latest last.
    pub stack: Seq<FailurePoint>,
    /// Where each group that has closed began.
    pub reg_start: Seq<Option<usize>>,
    /// Where each group that has closed ended.
    pub reg_end: Seq<Option<usize>>,
    /// Where each group that has opened began.
    pub reg_maybe: Seq<Option<usize>>,
}

/// What one instruction leads to.
pub enum Step {
    /// The run goes on from this state.
    Next(Machine),
    /// The run is over, with a match that ends at the given position, with
    /// no match, or with an error.
    Halt(Result<Option<usize>, RegexError>),
}

/// How a run ended.
pub struct Outcome {
    /// The end of the match, no match, or the error.
    pub result: Result<Option<usize>, RegexError>,
    /// Where each group that had closed began when the machine stopped.
    pub reg_start: Seq<Option<usize>>,
    /// Where each group that had closed ended when the machine stopped.
    pub reg_end: Seq<Option<usize>>,
    /// How many times the machine went on to fetch an instruction.
    pub ticks: int,
}

/// Letters, digits and the underscore, all ASCII, make up words.
pub open spec fn is_word(ch: char) -> bool {
    ('a' <= ch && ch <= 'z') || ('A' <= ch && ch <= 'Z') || ('0' <= ch && ch <= '9') || ch == '_'
}

/// The character that stands for `ch` under the translation.
pub open spec fn translated(translate: Option<Map<u32, char>>, ch: char) -> char {
    match translate {
        Some(table) => if table.contains_key(ch as u32) {
            table[ch as u32]
        } else {
            ch
        },
        None => ch,
    }
}

/// The signed 16-bit number that two bytes hold, the low byte first.
pub open spec fn displacement(low: u8, high: u8) -> int {
    let raw = low as int + 256 * (high as int);
    if raw >= 32768 {
        raw - 65536
    } else {
        raw
    }
}

/// The displacement that starts at `pos`, if both its bytes are there.
pub open spec fn displacement_at(code: Seq<u8>, pos: int) -> Option<int> {
    if 0 <= pos && pos + 1 < code.len() {
        Some(displacement(code[pos], code[pos + 1]))
    } else {
        None
    }
}

/// Where a jump lands: `disp` bytes from `after`, the position behind the
/// displacement. A jump that would leave the code lands at its end, where no
/// instruction can be fetched.
pub open spec fn jump_target(code_len: int, after: int, disp: int) -> int {
    let target = after + disp;
    if 0 <= target && target <= code_len {
        target
    } else {
        code_len
    }
}

/// The byte at `pos`, if there is one.
pub open spec fn byte_at(code: Seq<u8>, pos: int) -> Option<u8> {
    if 0 <= pos < code.len() {
        Some(code[pos])
    } else {
        None
    }
}

impl Job {
    /// Has the machine read the whole text?
    pub open spec fn at_end(self, m: Machine) -> bool {
        m.text_pos >= self.text.len()
    }

    /// The next character of the text, translated.
    pub open spec fn current(self, m: Machine) -> char {
        translated(self.translate, self.text[m.text_pos])
    }

    /// Is there a character before the cursor, and is it part of a word?
    pub open spec fn word_before(self, m: Machine) -> bool {
        m.text_pos > 0 && is_word(self.text[m.text_pos - 1])
    }

    /// Is there a character at the cursor, and is it part of a word?
    pub open spec fn word_after(self, m: Machine) -> bool {
        !self.at_end(m) && is_word(self.current(m))
    }

    /// The state is one that a run can be in: the cursors lie within the
    /// text and the code, so does every point on the stack, the stack holds no
    /// more points than the limits allow, and there are 100 registers of each
    /// kind.
    pub open spec fn admits(self, m: Machine) -> bool {
        &&& 0 <= m.text_pos <= self.text.len() <= usize::MAX
        &&& 0 <= m.code_pos <= self.code.len() <= usize::MAX
        &&& m.reg_start.len() == 100
        &&& m.reg_end.len() == 100
        &&& m.reg_maybe.len() == 100
        &&& m.stack.len() <= self.limits.max_failures
        &&& forall|i: int|
            0 <= i < m.stack.len() ==> (#[trigger] m.stack[i]).text_pos <= self.text.len()
                && m.stack[i].code_pos <= self.code.len()
    }

    /// The state in which a run starts at `pos`: at the first instruction,
    /// with an empty stack and no register set.
    pub open spec fn start(pos: int) -> Machine {
        Machine {
            text_pos: pos,
            code_pos: 0,
            stack: Seq::empty(),
            reg_start: Seq::new(100, |i: int| None),
            reg_end: Seq::new(100, |i: int| None),
            reg_maybe: Seq::new(100, |i: int| None),
        }
    }

    /// The number of the ranges that follow at `pos`, starting with `count`
    /// of them to go, tells whether `c` lies in one of them and where the
    /// ranges end; `None` where an operand among them is malformed.
    pub open spec fn scan_class(self, pos: int, count: nat, c: u32) -> Option<(bool, int)>
        decreases count,
    {
        if count == 0 {
            Some((false, pos))
        } else {
            match operand_at(self.code, pos) {
                None => None,
                Some((low, mid)) => match operand_at(self.code, mid) {
                    None => None,
                    Some((high, next)) => match self.scan_class(next, (count - 1) as nat, c) {
                        None => None,
                        Some((hit, end)) => Some((hit || (low <= c && c <= high), end)),
                    },
                },
            }
        }
    }

    /// A character class: nothing to read is a mismatch; otherwise the
    /// complement flag and the number of ranges follow, then the ranges. The
    /// class matches where the character lies in a range, or in none where
    /// the flag is set. A class cut short or with a malformed range is an
    /// error.
    pub open spec fn step_class(self, m: Machine) -> Step {
        if self.at_end(m) {
            backtrack(m)
        } else if m.code_pos + 2 > self.code.len() {
            Step::Halt(Err(RegexError::ExecutionError))
        } else {
            let complement = self.code[m.code_pos] != 0;
            let count = self.code[m.code_pos + 1] as nat;
            match self.scan_class(m.code_pos + 2, count, self.current(m) as u32) {
                None => Step::Halt(Err(RegexError::ExecutionError)),
                Some((hit, end)) => if hit != complement {
                    Step::Next(Machine { text_pos: m.text_pos + 1, code_pos: end, ..m })
                } else {
                    backtrack(m)
                },
            }
        }
    }

    /// Does the text at the cursor repeat the text from `from` to `to`?
    pub open spec fn repeats(self, m: Machine, from: int, to: int) -> bool {
        &&& 0 <= from <= to <= self.text.len()
        &&& m.text_pos + (to - from) <= self.text.len()
        &&& self.text.subrange(from, to) == self.text.subrange(
            m.text_pos,
            m.text_pos + (to - from),
        )
    }

    /// A back-reference: the register number follows. The machine goes on
    /// behind a copy of the group's text; a register past the last, a group
    /// that has not closed, or a text that differs is a mismatch.
    pub open spec fn step_backref(self, m: Machine) -> Step {
        match byte_at(self.code, m.code_pos) {
            None => Step::Halt(Err(RegexError::ExecutionError)),
            Some(reg) => {
                let m1 = Machine { code_pos: m.code_pos + 1, ..m };
                if reg >= 100 {
                    backtrack(m1)
                } else {
                    match (m.reg_start[reg as int], m.reg_end[reg as int]) {
                        (Some(from), Some(to)) => if self.repeats(m, from as int, to as int) {
                            Step::Next(Machine { text_pos: m.text_pos + (to - from), ..m1 })
                        } else {
                            backtrack(m1)
                        },
                        _ => backtrack(m1),
                    }
                }
            },
        }
    }

    /// A group opens or closes: the register number follows. Opening notes
    /// the cursor as the tentative start; closing commits the tentative start
    /// and notes the cursor as the end. A number past the last register
    /// changes nothing.
    pub open spec fn step_memory(self, m: Machine, opening: bool) -> Step {
        match byte_at(self.code, m.code_pos) {
            None => Step::Halt(Err(RegexError::ExecutionError)),
            Some(reg) => {
                let m1 = Machine { code_pos: m.code_pos + 1, ..m };
                let here = Some(m.text_pos as usize);
                if reg >= 100 {
                    Step::Next(m1)
                } else if opening {
                    Step::Next(Machine { reg_maybe: m.reg_maybe.update(reg as int, here), ..m1 })
                } else {
                    Step::Next(
                        Machine {
                            reg_start: m.reg_start.update(reg as int, m.reg_maybe[reg as int]),
                            reg_end: m.reg_end.update(reg as int, here),
                            ..m1
                        },
                    )
                }
            },
        }
    }

    /// One character of the given class, or one outside it: the class code
    /// follows, and only code 1, the word characters, has members.
    pub open spec fn step_syntax(self, m: Machine, inside: bool) -> Step {
        match byte_at(self.code, m.code_pos) {
            None => Step::Halt(Err(RegexError::ExecutionError)),
            Some(class) => {
                let m1 = Machine { code_pos: m.code_pos + 1, ..m };
                if !self.at_end(m) && class == 1 && is_word(self.current(m)) == inside {
                    Step::Next(Machine { text_pos: m.text_pos + 1, ..m1 })
                } else {
                    backtrack(m1)
                }
            },
        }
    }

    /// The jumps: a displacement follows each.
    pub open spec fn step_jump(self, m: Machine, op: CompiledOp) -> Step {
        match displacement_at(self.code, m.code_pos) {
            None => Step::Halt(Err(RegexError::ExecutionError)),
            Some(disp) => {
                let after = m.code_pos + 2;
                let target = jump_target(self.code.len() as int, after, disp);
                match op {
                    CompiledOp::Jump => Step::Next(Machine { code_pos: target, ..m }),
                    CompiledOp::FailureJump => Step::Next(
                        Machine {
                            code_pos: after,
                            stack: m.stack.push(
                                FailurePoint {
                                    text_pos: m.text_pos as usize,
                                    code_pos: target as usize,
                                },
                            ),
                            ..m
                        },
                    ),
                    CompiledOp::DummyFailureJump => if after + 3 <= self.code.len()
                        && self.code[after] == CompiledOp::FailureJump.spec_to_byte() {
                        Step::Next(Machine { code_pos: after + 3, ..m })
                    } else {
                        Step::Halt(Err(RegexError::ExecutionError))
                    },
                    _ => Step::Next(Machine { code_pos: target, stack: refreshed(m), ..m }),
                }
            },
        }
    }

    /// The instruction `op`, whose byte the machine has just stepped over.
    pub open spec fn dispatch(self, m: Machine, op: CompiledOp) -> Step {
        match op {
            CompiledOp::End => Step::Halt(Ok(Some(m.text_pos as usize))),
            CompiledOp::Bol => proceed_if(m, m.text_pos == 0 || self.text[m.text_pos - 1] == '\n'),
            CompiledOp::Eol => proceed_if(m, self.at_end(m) || self.current(m) == '\n'),
            CompiledOp::CharSet => self.step_class(m),
            CompiledOp::Exact => match operand_at(self.code, m.code_pos) {
                None => Step::Halt(Err(RegexError::ExecutionError)),
                Some((scalar, next)) => {
                    let m1 = Machine { code_pos: next, ..m };
                    if !self.at_end(m) && self.current(m) as u32 == scalar {
                        Step::Next(Machine { text_pos: m.text_pos + 1, ..m1 })
                    } else {
                        backtrack(m1)
                    }
                },
            },
            CompiledOp::AnyChar => if !self.at_end(m) && self.current(m) != '\n' {
                Step::Next(Machine { text_pos: m.text_pos + 1, ..m })
            } else {
                backtrack(m)
            },
            CompiledOp::StartMemory => self.step_memory(m, true),
            CompiledOp::EndMemory => self.step_memory(m, false),
            CompiledOp::MatchMemory => self.step_backref(m),
            CompiledOp::Jump
            | CompiledOp::StarJump
            | CompiledOp::FailureJump
            | CompiledOp::UpdateFailureJump
            | CompiledOp::DummyFailureJump => self.step_jump(m, op),
            CompiledOp::BegBuf => proceed_if(m, m.text_pos == 0),
            CompiledOp::EndBuf => proceed_if(m, self.at_end(m)),
            CompiledOp::WordBeg => proceed_if(m, self.word_after(m) && !self.word_before(m)),
            CompiledOp::WordEnd => proceed_if(m, self.word_before(m) && !self.word_after(m)),
            CompiledOp::WordBound => proceed_if(m, self.word_before(m) != self.word_after(m)),
            CompiledOp::NotWordBound => proceed_if(
                m,
                m.text_pos > 0 && !self.at_end(m) && self.word_before(m) == self.word_after(m),
            ),
            CompiledOp::SyntaxSpec => self.step_syntax(m, true),
            CompiledOp::NotSyntaxSpec => self.step_syntax(m, false),
        }
    }

    /// One instruction: a full stack, a cursor outside the code and a byte
    /// that is no opcode are errors; otherwise the instruction at the cursor
    /// is carried out.
    pub open spec fn step(self, m: Machine) -> Step {
        if m.stack.len() >= self.limits.max_failures {
            Step::Halt(Err(RegexError::ExecutionError))
        } else if !(0 <= m.code_pos < self.code.len()) {
            Step::Halt(Err(RegexError::ExecutionError))
        } else {
            match CompiledOp::spec_from_byte(self.code[m.code_pos]) {
                None => Step::Halt(Err(RegexError::ExecutionError)),
                Some(op) => self.dispatch(Machine { code_pos: m.code_pos + 1, ..m }, op),
            }
        }
    }

    /// The run from state `m`, after `ticks` instructions: it times out
    /// where one more instruction would reach the tick limit, and otherwise
    /// carries out instructions until one of them halts.
    pub open spec fn run(self, m: Machine, ticks: int) -> Outcome
        decreases self.limits.tick_limit() - ticks,
    {
        if ticks + 1 >= self.limits.tick_limit() {
            Outcome {
                result: Err(RegexError::Timeout),
                reg_start: m.reg_start,
                reg_end: m.reg_end,
                ticks,
            }
        } else {
            match self.step(m) {
                Step::Halt(result) => Outcome {
                    result,
                    reg_start: m.reg_start,
                    reg_end: m.reg_end,
                    ticks: ticks + 1,
                },
                Step::Next(next) => self.run(next, ticks + 1),
            }
        }
    }

    /// The fresh run that starts at `pos` in the text.
    pub open spec fn run_at(self, pos: int) -> Outcome {
        self.run(Job::start(pos), 0)
    }

    /// Does the pattern match at `pos`?
    pub open spec fn matches_at(self, pos: int) -> bool {
        0 <= pos <= self.text.len() && self.run_at(pos).result is Ok && self.run_at(
            pos,
        ).result->Ok_0 is Some
    }

    /// What an attempt at `pos` reports: the registers of the match, no
    /// match (also for a position past the end of the text), or the error
    /// that stopped the run.
    pub open spec fn match_result(self, pos: int) -> Result<
        Option<Seq<(Option<usize>, Option<usize>)>>,
        RegexError,
    > {
        if !(0 <= pos <= self.text.len()) {
            Ok(None)
        } else {
            let outcome = self.run_at(pos);
            match outcome.result {
                Ok(Some(end)) => Ok(Some(captured(pos as usize, end, outcome))),
                Ok(None) => Ok(None),
                Err(e) => Err(e),
            }
        }
    }

    /// The first position from `pos` up to `last` at which the pattern
    /// matches, or -1. A run that times out ends the scan with that error;
    /// a run that ends in any other error counts as no match there.
    pub open spec fn scan_forward(self, pos: int, last: int) -> Result<i32, RegexError>
        decreases last - pos + 1,
    {
        if pos > last {
            Ok(-1i32)
        } else {
            match self.run_at(pos).result {
                Ok(Some(_)) => Ok(pos as i32),
                Err(RegexError::Timeout) => Err(RegexError::Timeout),
                _ => self.scan_forward(pos + 1, last),
            }
        }
    }

    /// The first position from `pos` down to `first` at which the pattern
    /// matches, or -1, with errors treated as in a forward scan.
    pub open spec fn scan_backward(self, pos: int, first: int) -> Result<i32, RegexError>
        decreases pos - first + 1,
    {
        if pos < first {
            Ok(-1i32)
        } else {
            match self.run_at(pos).result {
                Ok(Some(_)) => Ok(pos as i32),
                Err(RegexError::Timeout) => Err(RegexError::Timeout),
                _ => self.scan_backward(pos - 1, first),
            }
        }
    }

    /// The search from `start` over `range` positions: forward through
    /// `start + range` for a range that is not negative, backward through
    /// `start + range` for a negative one, in both directions only over
    /// positions of the text.
    pub open spec fn search_result(self, start: int, range: int) -> Result<i32, RegexError> {
        let len = self.text.len() as int;
        if range >= 0 {
            self.scan_forward(start, if start + range < len { start + range } else { len })
        } else {
            self.scan_backward(
                if start < len { start } else { len },
                if start + range > 0 { start + range } else { 0 },
            )
        }
    }

    /// Does every position that the search may report fit the type of its
    /// result?
    pub open spec fn search_fits(self, start: int, range: int) -> bool {
        let len = self.text.len() as int;
        if range >= 0 {
            start + range <= i32::MAX || len <= i32::MAX
        } else {
            start <= i32::MAX || len <= i32::MAX
        }
    }
}

/// The machine goes on if the condition holds, and falls back if not.
pub open spec fn proceed_if(m: Machine, condition: bool) -> Step {
    if condition {
        Step::Next(m)
    } else {
        backtrack(m)
    }
}

/// After a mismatch the machine resumes from the latest point on the stack;
/// with an empty stack there is no match.
pub open spec fn backtrack(m: Machine) -> Step {
    if m.stack.len() == 0 {
        Step::Halt(Ok(None))
    } else {
        let top = m.stack.last();
        Step::Next(
            Machine {
                text_pos: top.text_pos as int,
                code_pos: top.code_pos as int,
                stack: m.stack.drop_last(),
                ..m
            },
        )
    }
}

/// The stack with the text position of its latest point set to the cursor.
pub open spec fn refreshed(m: Machine) -> Seq<FailurePoint> {
    if m.stack.len() == 0 {
        m.stack
    } else {
        m.stack.update(
            m.stack.len() - 1,
            FailurePoint { text_pos: m.text_pos as usize, code_pos: m.stack.last().code_pos },
        )
    }
}

/// The registers that a match from `start` to `end` reports: register 0 is
/// the match itself, and every other register is the span of its group where
/// the group has closed, and empty where it has not.
pub open spec fn captured(start: usize, end: usize, m: Outcome) -> Seq<
    (Option<usize>, Option<usize>),
> {
    Seq::new(
        100,
        |i: int|
            if i == 0 {
                (Some(start), Some(end))
            } else if m.reg_start[i] is Some && m.reg_end[i] is Some {
                (m.reg_start[i], m.reg_end[i])
            } else {
                (None, None)
            },
    )
}

} // verus!
