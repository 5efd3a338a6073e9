//! Anchoring: a pattern that begins with `^` matches only where a line
//! begins.

use crate::codepoint::lemma_char_value;
use crate::invariants::{
    lemma_finish_grows,
    lemma_handle_precedence_wf,
    lemma_insert_jump_wf,
    lemma_patch_pending_wf,
    lemma_read_op_stays,
    lemma_round_grows,
    lemma_round_wf,
};
use crate::laws::search::lemma_scan_forward_finds_first;
use crate::lowering::{
    compiled, lemma_round_advances, plain_op, precedence, Emitter, Source,
};
use crate::matcher::job_of;
use crate::opcodes::{CompiledOp, SyntaxOp};
use crate::semantics::{Job, Outcome, Step};
use crate::syntax::SyntaxFlags;
use crate::{lemma_code_fits, span_of, ExecLimits, Regex, RegexError};
use vstd::prelude::*;

verus! {

/// Does a line begin at `pos`: is it the beginning of the text, or does a
/// newline stand before it?
pub open spec fn is_line_start(text: Seq<char>, pos: int) -> bool {
    pos == 0 || (0 < pos <= text.len() && text[pos - 1] == '\n')
}

/// Anchoring, for the machine: code that begins with the `Bol` instruction
/// matches only at the beginning of the text and behind a newline.
pub proof fn law_anchored_code_matches_at_line_starts(job: Job, pos: int)
    requires
        job.code.len() > 0,
        job.code[0] == CompiledOp::Bol.spec_to_byte(),
        job.matches_at(pos),
    ensures
        is_line_start(job.text, pos),
{
    let m = Job::start(pos);
    assert(m.stack.len() == 0);
    if 1 < job.limits.tick_limit() {
        assert(job.run(m, 0) == match job.step(m) {
            Step::Halt(result) => Outcome {
                result,
                reg_start: m.reg_start,
                reg_end: m.reg_end,
                ticks: 1,
            },
            Step::Next(next) => job.run(next, 1),
        });
    }
}

/// Anchoring, for the search: the first match of a pattern whose code
/// begins with the `Bol` instruction starts at the beginning of the text or
/// behind a newline.
pub proof fn law_anchored_pattern_is_found_at_line_starts(
    regex: Regex,
    text: Seq<char>,
    limits: ExecLimits,
)
    requires
        regex.code().len() > 0,
        regex.code()[0] == CompiledOp::Bol.spec_to_byte(),
    ensures
        match regex.first_match(text, limits) {
            Some(groups) => match span_of(groups[0]) {
                Some((start, _)) => is_line_start(text, start as int),
                None => false,
            },
            None => true,
        },
{
    let job = job_of(&regex, text, limits);
    let range = if text.len() <= i32::MAX {
        text.len() as int
    } else {
        i32::MAX as int
    };
    lemma_scan_forward_finds_first(job, 0, range);
    match job.search_result(0, range) {
        Ok(found) => {
            if found >= 0 {
                law_anchored_code_matches_at_line_starts(job, found as int);
            }
        },
        Err(_) => {},
    }
}

/// The state of a compilation whose code begins with `Bol` and in which no
/// jump can be inserted before that instruction: every pending displacement
/// and every level start that is in use lies behind it. The level starts in
/// use are those of the levels above the anchors' own.
pub open spec fn anchored(e: Emitter, src: Source) -> bool {
    &&& e.wf(src)
    &&& e.buffer.len() >= 1
    &&& e.buffer[0] == CompiledOp::Bol.spec_to_byte()
    &&& forall|i: int| 0 <= i < e.num_jumps ==> #[trigger] e.future_jumps[i] >= 1
    &&& forall|i: int|
        precedence(src.syntax, SyntaxOp::Bol) < i <= e.starts_base + e.current_level
            ==> #[trigger] e.starts[i] >= 1
}

/// Does every alternation that the compiler reads from this state on
/// stand inside a group?
pub open spec fn bars_are_grouped(e: Emitter, src: Source) -> bool
    decreases
            (if e.pos < src.pattern.len() {
                src.pattern.len() - e.pos
            } else {
                0
            }),
{
    if e.pos >= src.pattern.len() {
        true
    } else {
        match e.round(src) {
            Err(_) => true,
            Ok(next) => {
                proof {
                    lemma_round_advances(e, src);
                }
                (src.read_op(e.pos)->Ok_0.0 == SyntaxOp::Or ==> e.paren_depth > 0)
                    && bars_are_grouped(next, src)
            },
        }
    }
}

/// Does the pattern hold neither `|` nor a newline from `from` on?
pub open spec fn has_no_bar(pattern: Seq<char>, from: int) -> bool {
    forall|i: int| from <= i < pattern.len() ==> #[trigger] pattern[i] != '|' && pattern[i] != '\n'
}

/// A pattern that holds neither `|` nor a newline holds no alternation, so
/// all of its alternations stand inside groups.
pub proof fn lemma_no_bar_is_grouped(e: Emitter, src: Source)
    requires
        src.translate is None,
        0 <= e.pos,
        has_no_bar(src.pattern, e.pos),
    ensures
        bars_are_grouped(e, src),
    decreases
            (if e.pos < src.pattern.len() {
                src.pattern.len() - e.pos
            } else {
                0
            }),
{
    if e.pos < src.pattern.len() && e.round(src) is Ok {
        lemma_round_advances(e, src);
        assert(src.pattern[e.pos] != '|' && src.pattern[e.pos] != '\n');
        lemma_char_value(src.pattern[e.pos]);
        if e.pos + 1 < src.pattern.len() {
            assert(src.pattern[e.pos + 1] != '|' && src.pattern[e.pos + 1] != '\n');
            lemma_char_value(src.pattern[e.pos + 1]);
        }
        assert(src.read_op(e.pos)->Ok_0.0 != SyntaxOp::Or);
        lemma_no_bar_is_grouped(e.round(src)->Ok_0, src);
    }
}

/// Setting the pending jumps of an anchored state leaves the first
/// instruction alone.
pub proof fn lemma_patch_pending_anchored(e: Emitter, src: Source)
    requires
        anchored(e, src),
    ensures
        e.patch_pending().buffer[0] == e.buffer[0],
    decreases e.num_jumps,
{
    if e.num_jumps > 0 && e.future_jumps[e.num_jumps - 1] >= e.level_start() {
        let offset = e.future_jumps[e.num_jumps - 1] as int;
        assert(offset + 2 <= e.buffer.len());
        let next = Emitter { num_jumps: e.num_jumps - 1, ..e }.put_addr(
            offset,
            e.buffer.len() as int,
        );
        assert(next.wf(src));
        assert(anchored(next, src));
        lemma_patch_pending_anchored(next, src);
    }
}

/// A move to another precedence level keeps an anchored state anchored.
pub proof fn lemma_handle_precedence_anchored(e: Emitter, src: Source, level: int)
    requires
        anchored(e, src),
        0 <= level <= 4,
        e.buffer.len() <= usize::MAX,
    ensures
        anchored(e.handle_precedence(level), src),
{
    lemma_handle_precedence_wf(e, src, level);
    if level < e.current_level {
        let lowered = Emitter { current_level: level, ..e };
        assert(anchored(lowered, src));
        lemma_patch_pending_wf(lowered, src);
        lemma_patch_pending_anchored(lowered, src);
    }
}

/// The insertion of a jump behind the first instruction keeps an anchored
/// state anchored.
pub proof fn lemma_insert_jump_anchored(
    e: Emitter,
    src: Source,
    pos: int,
    op: CompiledOp,
    addr: int,
)
    requires
        anchored(e, src),
        1 <= pos <= e.buffer.len(),
        e.buffer.len() + 3 <= usize::MAX,
    ensures
        anchored(e.insert_jump(pos, op, addr), src),
{
    lemma_insert_jump_wf(e, src, pos, op, addr);
}

/// A round that reads no alternation outside all groups, or any round in
/// a dialect where `|` binds tighter than the anchors, keeps an anchored
/// state anchored.
#[verifier::rlimit(50)]
pub proof fn lemma_round_anchored(e: Emitter, src: Source)
    requires
        anchored(e, src),
        e.pos < src.pattern.len(),
        e.round(src) is Ok,
        e.round(src)->Ok_0.buffer.len() <= usize::MAX,
        src.syntax.tight_vbar() || src.read_op(e.pos)->Ok_0.0 != SyntaxOp::Or || e.paren_depth > 0,
    ensures
        anchored(e.round(src)->Ok_0, src),
{
    lemma_round_wf(e, src);
    lemma_round_grows(e, src);
    lemma_read_op_stays(src, e.pos);
    let (op, ch, next) = src.read_op(e.pos)->Ok_0;
    let level = precedence(src.syntax, op) as int;
    let moved = Emitter { pos: next, ..e };
    assert(anchored(moved, src));
    lemma_handle_precedence_wf(moved, src, level);
    lemma_handle_precedence_anchored(moved, src, level);
    let levelled = moved.handle_precedence(level);
    match op {
        SyntaxOp::Optional | SyntaxOp::Star | SyntaxOp::Plus => {
            if !levelled.beginning_context && levelled.level_start() != levelled.buffer.len()
                && levelled.has_room() {
                let start = levelled.level_start() as int;
                let end = levelled.buffer.len() as int;
                assert(start >= 1);
                lemma_insert_jump_anchored(levelled, src, start, CompiledOp::FailureJump, end + 3);
                lemma_insert_jump_anchored(levelled, src, start, CompiledOp::FailureJump, end + 6);
                let first = levelled.insert_jump(start, CompiledOp::FailureJump, end + 6);
                lemma_insert_jump_anchored(first, src, end + 3, CompiledOp::StarJump, start);
                let second = first.insert_jump(end + 3, CompiledOp::StarJump, start);
                lemma_insert_jump_anchored(
                    second,
                    src,
                    start,
                    CompiledOp::DummyFailureJump,
                    start + 6,
                );
            }
        },
        SyntaxOp::Or => {
            if levelled.has_room() {
                let start = levelled.level_start() as int;
                assert(start >= 1);
                lemma_insert_jump_anchored(
                    levelled,
                    src,
                    start,
                    CompiledOp::FailureJump,
                    levelled.buffer.len() as int + 6,
                );
            }
        },
        _ => {},
    }
}

/// From an anchored state on, the code keeps its first instruction to the
/// end of the compilation.
pub proof fn lemma_finish_anchored(e: Emitter, src: Source)
    requires
        anchored(e, src),
        src.syntax.tight_vbar() || bars_are_grouped(e, src),
        e.finish(src) is Ok,
        e.finish(src)->Ok_0.len() <= usize::MAX,
    ensures
        e.finish(src)->Ok_0.len() > 0,
        e.finish(src)->Ok_0[0] == CompiledOp::Bol.spec_to_byte(),
    decreases src.pattern.len() - e.pos,
{
    lemma_finish_grows(e, src);
    if e.pos >= src.pattern.len() {
        lemma_handle_precedence_anchored(e, src, 0);
    } else {
        let next = e.round(src)->Ok_0;
        lemma_round_wf(e, src);
        lemma_finish_grows(next, src);
        lemma_round_anchored(e, src);
        lemma_finish_anchored(next, src);
    }
}

/// The pattern that begins with `^` and goes on with `rest`, as the
/// compiler reads it.
pub open spec fn caret_source(rest: Seq<char>, syntax: SyntaxFlags) -> Source {
    Source { pattern: seq!['^'] + rest, syntax, translate: None }
}

/// Anchoring, for the compiler: the code of a pattern that begins with `^`
/// begins with the `Bol` instruction, in a dialect where `|` binds tighter
/// than the anchors, and in any dialect where every alternation of the
/// pattern stands inside a group.
#[verifier::rlimit(50)]
pub proof fn law_caret_compiles_to_bol_first(rest: Seq<char>, syntax: SyntaxFlags)
    requires
        syntax.tight_vbar() || bars_are_grouped(
            Emitter::initial().mark(),
            caret_source(rest, syntax),
        ),
        compiled(seq!['^'] + rest, syntax) is Ok,
        compiled(seq!['^'] + rest, syntax)->Ok_0.len() <= usize::MAX,
    ensures
        compiled(seq!['^'] + rest, syntax)->Ok_0.len() > 0,
        compiled(seq!['^'] + rest, syntax)->Ok_0[0] == CompiledOp::Bol.spec_to_byte(),
{
    let src = caret_source(rest, syntax);
    let e = Emitter::initial().mark();
    assert(e.wf(src));
    assert(src.pattern[0] == '^');
    assert(plain_op(syntax, '^' as u32) == SyntaxOp::Bol);
    assert(src.read_op(0) == Ok::<(SyntaxOp, char, int), RegexError>((SyntaxOp::Bol, '^', 1)));
    lemma_round_wf(e, src);
    let first = e.round(src)->Ok_0;
    assert(e.round(src) is Ok);
    assert(first.buffer =~= seq![1u8]);
    assert(first.num_jumps == 0);
    assert(first.starts_base == 0);
    assert(first.current_level == precedence(syntax, SyntaxOp::Bol));
    assert(anchored(first, src));
    lemma_finish_anchored(first, src);
}

/// Anchoring: the first match of a compiled pattern that begins with `^`
/// starts at the beginning of the text or behind a newline, in a dialect
/// where `|` binds tighter than the anchors, and in any dialect where every
/// alternation of the pattern stands inside a group.
pub proof fn law_anchoring(
    regex: Regex,
    rest: Seq<char>,
    syntax: SyntaxFlags,
    text: Seq<char>,
    limits: ExecLimits,
)
    requires
        syntax.tight_vbar() || bars_are_grouped(
            Emitter::initial().mark(),
            caret_source(rest, syntax),
        ),
        compiled(seq!['^'] + rest, syntax) == Ok::<Seq<u8>, RegexError>(regex.code()),
    ensures
        match regex.first_match(text, limits) {
            Some(groups) => match span_of(groups[0]) {
                Some((start, _)) => is_line_start(text, start as int),
                None => false,
            },
            None => true,
        },
{
    lemma_code_fits(&regex);
    law_caret_compiles_to_bol_first(rest, syntax);
    law_anchored_pattern_is_found_at_line_starts(regex, text, limits);
}

/// Anchoring, for patterns without alternation: the first match of a
/// compiled pattern that begins with `^` and holds neither `|` nor a newline
/// starts at the beginning of the text or behind a newline, in every
/// dialect.
pub proof fn law_anchoring_without_bar(
    regex: Regex,
    rest: Seq<char>,
    syntax: SyntaxFlags,
    text: Seq<char>,
    limits: ExecLimits,
)
    requires
        has_no_bar(rest, 0),
        compiled(seq!['^'] + rest, syntax) == Ok::<Seq<u8>, RegexError>(regex.code()),
    ensures
        match regex.first_match(text, limits) {
            Some(groups) => match span_of(groups[0]) {
                Some((start, _)) => is_line_start(text, start as int),
                None => false,
            },
            None => true,
        },
{
    let src = caret_source(rest, syntax);
    assert forall|i: int| 0 <= i < src.pattern.len() implies #[trigger] src.pattern[i] != '|'
        && src.pattern[i] != '\n' by {
        if i > 0 {
            assert(src.pattern[i] == rest[i - 1]);
        }
    }
    lemma_no_bar_is_grouped(Emitter::initial().mark(), src);
    law_anchoring(regex, rest, syntax, text, limits);
}

} // verus!
