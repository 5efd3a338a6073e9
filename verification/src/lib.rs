//! A backtracking regular-expression engine: a single-pass pattern compiler
//! that lowers Emacs/AWK/GREP-style patterns to a compact bytecode, and a
//! virtual machine that runs the bytecode against a text under explicit
//! bounds on the number of dispatched instructions and on the depth of the
//! backtracking stack.
//!
//! Patterns and texts are sequences of Unicode scalar values; every position
//! reported by the engine is an index into that sequence.
//!
//! The crate is verified: every function states what it computes, over two
//! models, and is proved to compute it.
//!
//! - [`lowering`] is the model of the compiler: what each operator of a
//!   pattern does to the code emitted so far. [`compiler`] is the compiler.
//! - [`semantics`] is the model of the machine: what each instruction does
//!   to the state of a run. [`matcher`] is the machine and the search that
//!   drives it.
//! - [`syntax`], [`opcodes`] and [`codepoint`] hold the dialect flags, the
//!   instruction set and the encoding of character operands.
//! - [`invariants`] and [`laws`] hold what follows from the two models: the
//!   states the compiler stays in, and laws that relate patterns, code and
//!   matches.

use std::collections::HashMap;
use crate::lowering::compiled;
use crate::matcher::job_of;
use crate::semantics::translated;
use vstd::string::StrSliceExecFns;
use vstd::prelude::*;

pub mod codepoint;
pub mod compiler;
pub mod error;
pub mod invariants;
pub mod laws;
pub mod lowering;
pub mod matcher;
pub mod opcodes;
pub mod semantics;
pub mod syntax;

pub use error::RegexError;
pub use syntax::SyntaxFlags;

verus! {

/// The number of capture registers; register 0 is the whole match.
pub const RE_NREGS: usize = 100;

/// A compiled pattern.
#[derive(Debug, Clone)]
pub struct Regex {
    /// The instructions, one opcode byte each, followed by their operands.
    pub buffer: Vec<u8>,
    /// Rewrites each character before it is compared, where present.
    translate: Option<HashMap<u32, char>>,
    /// The dialect the pattern was compiled under.
    syntax: SyntaxFlags,
}

/// The spans of the whole match and of its groups.
#[derive(Debug, Clone, PartialEq, Eq)]
pub struct Captures {
    groups: [(Option<usize>, Option<usize>); 100],
}

/// Bounds on the work one run of the matcher may do.
#[derive(Debug, Clone, Copy)]
pub struct ExecLimits {
    /// The run stops with a timeout before it dispatches this many
    /// instructions; `None` leaves only the bound of the counter itself.
    pub max_ticks: Option<usize>,
    /// The run stops with an error once this many resume points are stacked.
    pub max_failures: usize,
}

impl Default for ExecLimits {
    /// No bound on instructions, and room for 100 000 resume points.
    fn default() -> (limits: Self)
        ensures
            limits == ExecLimits::spec_default(),
    {
        ExecLimits { max_ticks: None, max_failures: 100_000 }
    }
}

impl ExecLimits {
    /// The limits that apply where the caller names none.
    pub open spec fn spec_default() -> ExecLimits {
        ExecLimits { max_ticks: None, max_failures: 100_000 }
    }

    /// The number of instructions that a run stops short of.
    pub open spec fn tick_limit(self) -> int {
        match self.max_ticks {
            Some(k) => k as int,
            None => usize::MAX as int,
        }
    }
}

impl Regex {
    /// The instructions of the pattern.
    pub closed spec fn code(&self) -> Seq<u8> {
        self.buffer@
    }

    /// The translation that the pattern carries, as a map on scalar values.
    pub closed spec fn translation(&self) -> Option<Map<u32, char>> {
        match self.translate {
            Some(table) => Some(table@),
            None => None,
        }
    }

    /// The dialect the pattern was compiled under.
    pub closed spec fn dialect(&self) -> SyntaxFlags {
        self.syntax
    }

    /// The registers of the first match in `text`: the match at the first
    /// position, from the beginning of the text on, at which a run of the
    /// pattern ends in a match. There is none where no run does, or where a
    /// run times out before one does. Positions past `i32::MAX` are not
    /// tried.
    pub open spec fn first_match(&self, text: Seq<char>, limits: ExecLimits) -> Option<
        Seq<(Option<usize>, Option<usize>)>,
    > {
        let job = job_of(self, text, limits);
        let range = if text.len() <= i32::MAX {
            text.len() as int
        } else {
            i32::MAX as int
        };
        match job.search_result(0, range) {
            Ok(pos) => if pos >= 0 {
                match job.match_result(pos as int) {
                    Ok(Some(groups)) => Some(groups),
                    _ => None,
                }
            } else {
                None
            },
            Err(_) => None,
        }
    }

    /// Compiles `pattern` under the default dialect, Emacs.
    pub fn new(pattern: &str) -> (res: Result<Regex, RegexError>)
        ensures
            match compiled(pattern@, SyntaxFlags::with_bits(0)) {
                Ok(code) => res is Ok && res->Ok_0.code() == code && res->Ok_0.translation() is None
                    && res->Ok_0.dialect() == SyntaxFlags::with_bits(0),
                Err(e) => res is Err && res->Err_0 == e,
            },
    {
        Self::with_syntax(pattern, SyntaxFlags::default())
    }

    /// Compiles `pattern` under the dialect `syntax`.
    pub fn with_syntax(pattern: &str, syntax: SyntaxFlags) -> (res: Result<Regex, RegexError>)
        ensures
            match compiled(pattern@, syntax) {
                Ok(code) => res is Ok && res->Ok_0.code() == code && res->Ok_0.translation() is None
                    && res->Ok_0.dialect() == syntax,
                Err(e) => res is Err && res->Err_0 == e,
            },
    {
        compiler::compile(pattern, syntax)
    }

    /// Does the pattern match somewhere in `text`, under the default
    /// limits?
    pub fn is_match(&self, text: &str) -> (matched: bool)
        ensures
            matched == self.first_match(text@, ExecLimits::spec_default()) is Some,
    {
        self.is_match_with_limits(text, ExecLimits::default())
    }

    /// Does the pattern match somewhere in `text`, under `limits`?
    pub fn is_match_with_limits(&self, text: &str, limits: ExecLimits) -> (matched: bool)
        ensures
            matched == self.first_match(text@, limits) is Some,
    {
        self.find_with_limits(text, limits).is_some()
    }

    /// The span of the first match in `text`, under the default limits.
    pub fn find(&self, text: &str) -> (span: Option<(usize, usize)>)
        ensures
            match self.first_match(text@, ExecLimits::spec_default()) {
                Some(groups) => span == span_of(groups[0]) && span is Some,
                None => span is None,
            },
    {
        self.find_with_limits(text, ExecLimits::default())
    }

    /// The span of the first match in `text`, under `limits`.
    pub fn find_with_limits(&self, text: &str, limits: ExecLimits) -> (span: Option<
        (usize, usize),
    >)
        ensures
            match self.first_match(text@, limits) {
                Some(groups) => span == span_of(groups[0]) && span is Some,
                None => span is None,
            },
    {
        match self.captures_with_limits(text, limits) {
            Some(captures) => captures.get(0),
            None => None,
        }
    }

    /// The registers of the first match in `text`, under the default
    /// limits.
    pub fn captures(&self, text: &str) -> (found: Option<Captures>)
        ensures
            match self.first_match(text@, ExecLimits::spec_default()) {
                Some(groups) => found is Some && found->0@ == groups,
                None => found is None,
            },
    {
        self.captures_with_limits(text, ExecLimits::default())
    }

    /// The registers of the first match in `text`, under `limits`.
    pub fn captures_with_limits(&self, text: &str, limits: ExecLimits) -> (found: Option<
        Captures,
    >)
        ensures
            match self.first_match(text@, limits) {
                Some(groups) => found is Some && found->0@ == groups,
                None => found is None,
            },
    {
        let count = text.unicode_len();
        let range: i32 = if count <= i32::MAX as usize {
            count as i32
        } else {
            i32::MAX
        };
        match matcher::search(self, text, 0, range, limits) {
            Ok(pos) => {
                if pos >= 0 {
                    match matcher::match_at(self, text, pos as usize, limits) {
                        Ok(found) => found,
                        Err(_) => None,
                    }
                } else {
                    None
                }
            },
            Err(_) => None,
        }
    }

    /// The character that stands for `ch` under the pattern's translation.
    pub fn translate_char(&self, ch: char) -> (out: char)
        ensures
            out == translated(self.translation(), ch),
    {
        broadcast use vstd::std_specs::hash::group_hash_axioms;

        match &self.translate {
            Some(table) => {
                let key: u32 = ch as u32;
                match table.get(&key) {
                    Some(to) => *to,
                    None => ch,
                }
            },
            None => ch,
        }
    }
}

/// The code of a compiled pattern fits the address space.
pub proof fn lemma_code_fits(regex: &Regex)
    ensures
        regex.code().len() <= usize::MAX,
{
    assert(regex.buffer.len() == regex.buffer@.len());
}

impl View for Captures {
    type V = Seq<(Option<usize>, Option<usize>)>;

    /// The registers in order, each a start and an end.
    closed spec fn view(&self) -> Seq<(Option<usize>, Option<usize>)> {
        self.groups@
    }
}

/// The span that a register pair holds, if both ends are set.
pub open spec fn span_of(group: (Option<usize>, Option<usize>)) -> Option<(usize, usize)> {
    match group {
        (Some(start), Some(end)) => Some((start, end)),
        _ => None,
    }
}

/// Is neither end of the register pair set?
pub open spec fn is_vacant(group: (Option<usize>, Option<usize>)) -> bool {
    group.0 is None && group.1 is None
}

impl Captures {
    /// The captures that hold the given registers.
    pub fn from_groups(groups: [(Option<usize>, Option<usize>); 100]) -> (captures: Self)
        ensures
            captures@ == groups@,
    {
        Captures { groups }
    }

    /// The span of register `index`: `None` where the index is past the
    /// last register or the group took no part in the match.
    pub fn get(&self, index: usize) -> (span: Option<(usize, usize)>)
        ensures
            self@.len() == 100,
            index < 100 ==> span == span_of(self@[index as int]),
            index >= 100 ==> span is None,
    {
        if index < RE_NREGS {
            match self.groups[index] {
                (Some(start), Some(end)) => Some((start, end)),
                _ => None,
            }
        } else {
            None
        }
    }

    /// One past the highest register that holds a position, and 0 where no
    /// register does.
    pub fn len(&self) -> (count: usize)
        ensures
            0 <= count <= 100,
            count > 0 ==> !is_vacant(self@[count - 1]),
            forall|i: int| count <= i < 100 ==> is_vacant(#[trigger] self@[i]),
    {
        let mut count: usize = RE_NREGS;
        while count > 0
            invariant
                0 <= count <= 100,
                forall|j: int| count <= j < 100 ==> is_vacant(#[trigger] self@[j]),
            decreases count,
        {
            let group = self.groups[count - 1];
            if group.0.is_some() || group.1.is_some() {
                return count;
            }
            count -= 1;
        }
        0
    }

    /// Is the start of the whole match unset?
    pub fn is_empty(&self) -> (empty: bool)
        ensures
            empty == (self@[0].0 is None),
    {
        self.groups[0].0.is_none()
    }
}

} // verus!
