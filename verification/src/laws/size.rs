//! The size of the code: at most ten bytes for each character of the
//! pattern, and one for `End`.

use crate::codepoint::lemma_operand_round_trip;
use crate::invariants::{
    lemma_handle_precedence_wf, lemma_insert_jump_wf, lemma_read_op_stays, lemma_round_wf,
};
use crate::lowering::{
    compiled, precedence, range_operands, ClassRange, ClassScan, Emitter, Source,
};
use crate::opcodes::{CompiledOp, SyntaxOp};
use crate::semantics::translated;
use crate::syntax::SyntaxFlags;
use vstd::prelude::*;

verus! {

/// The operands of a sequence of ranges take at most ten bytes for each
/// range.
pub proof fn lemma_range_operands_len(ranges: Seq<ClassRange>)
    ensures
        range_operands(ranges).len() <= 10 * ranges.len(),
    decreases ranges.len(),
{
    if ranges.len() > 0 {
        lemma_range_operands_len(ranges.drop_last());
        lemma_operand_round_trip(Seq::empty(), ranges.last().0, Seq::empty());
        lemma_operand_round_trip(Seq::empty(), ranges.last().1, Seq::empty());
    }
}

/// The scan of a class body adds at most one range for each character it
/// reads before the closing bracket.
pub proof fn lemma_scan_class_counts(src: Source, pos: int, scan: ClassScan)
    requires
        scan.in_range ==> !scan.first && 0 <= pos < src.pattern.len() && src.pattern[pos] != ']',
    ensures
        src.scan_class(pos, scan) is Ok ==> src.scan_class(pos, scan)->Ok_0.0.len()
            + 1 <= scan.ranges.len() + (src.scan_class(pos, scan)->Ok_0.1 - pos),
    decreases src.pattern.len() - pos,
{
    if 0 <= pos < src.pattern.len() {
        let ch = src.pattern[pos];
        if !(ch == ']' && !scan.first) {
            let member = if ch == '\\' && src.syntax.ansi_sequences() && pos + 1
                < src.pattern.len() {
                src.ansi_translate(pos + 2, src.pattern[pos + 1])
            } else {
                Ok((ch, pos + 1))
            };
            if member is Ok {
                let (raw, next) = member->Ok_0;
                let actual = translated(src.translate, raw);
                lemma_scan_class_counts(src, next, scan.take(src, ch, actual, next));
            }
        }
    }
}

/// Every round of the compiler adds at most ten bytes to the code for each
/// character of the pattern that it reads.
#[verifier::rlimit(50)]
pub proof fn lemma_round_size(e: Emitter, src: Source)
    requires
        e.wf(src),
        e.pos < src.pattern.len(),
    ensures
        e.round(src) is Ok ==> e.round(src)->Ok_0.buffer.len() <= e.buffer.len() + 10 * (e.round(
            src,
        )->Ok_0.pos - e.pos),
{
    if e.round(src) is Ok {
        lemma_read_op_stays(src, e.pos);
        let (op, ch, next) = src.read_op(e.pos)->Ok_0;
        let level = precedence(src.syntax, op) as int;
        let moved = Emitter { pos: next, ..e };
        assert(moved.wf(src));
        lemma_handle_precedence_wf(moved, src, level);
        let levelled = moved.handle_precedence(level);
        lemma_operand_round_trip(Seq::empty(), ch, Seq::empty());
        lemma_operand_round_trip(Seq::empty(), '?', Seq::empty());
        lemma_operand_round_trip(Seq::empty(), '*', Seq::empty());
        lemma_operand_round_trip(Seq::empty(), '+', Seq::empty());
        lemma_operand_round_trip(Seq::empty(), '^', Seq::empty());
        lemma_operand_round_trip(Seq::empty(), '$', Seq::empty());
        lemma_operand_round_trip(Seq::empty(), ')', Seq::empty());
        match op {
            SyntaxOp::Optional | SyntaxOp::Star | SyntaxOp::Plus => {
                if !levelled.beginning_context && levelled.level_start() != levelled.buffer.len()
                    && levelled.has_room() {
                    let start = levelled.level_start() as int;
                    let end = levelled.buffer.len() as int;
                    lemma_insert_jump_wf(levelled, src, start, CompiledOp::FailureJump, end + 3);
                    lemma_insert_jump_wf(levelled, src, start, CompiledOp::FailureJump, end + 6);
                    let first = levelled.insert_jump(start, CompiledOp::FailureJump, end + 6);
                    lemma_insert_jump_wf(first, src, end + 3, CompiledOp::StarJump, start);
                    let second = first.insert_jump(end + 3, CompiledOp::StarJump, start);
                    lemma_insert_jump_wf(
                        second,
                        src,
                        start,
                        CompiledOp::DummyFailureJump,
                        start + 6,
                    );
                }
            },
            SyntaxOp::Or => {
                if levelled.has_room() {
                    lemma_insert_jump_wf(
                        levelled,
                        src,
                        levelled.level_start() as int,
                        CompiledOp::FailureJump,
                        levelled.buffer.len() as int + 6,
                    );
                }
            },
            SyntaxOp::OpenSet => {
                let complement = levelled.pos < src.pattern.len() && src.pattern[levelled.pos]
                    == '^';
                let body = if complement {
                    levelled.pos + 1
                } else {
                    levelled.pos
                };
                lemma_scan_class_counts(src, body, ClassScan::fresh());
                let ranges = src.scan_class(body, ClassScan::fresh())->Ok_0.0;
                lemma_range_operands_len(ranges);
            },
            _ => {},
        }
    }
}

/// The code that the compiler ends with holds at most ten bytes for each
/// character still to be read, and one for `End`, more than the code it
/// goes on from.
pub proof fn lemma_finish_size(e: Emitter, src: Source)
    requires
        e.wf(src),
    ensures
        e.finish(src) is Ok ==> e.finish(src)->Ok_0.len() <= e.buffer.len() + 10 * (
        src.pattern.len() - e.pos) + 1,
    decreases src.pattern.len() - e.pos,
{
    if e.pos >= src.pattern.len() {
        lemma_handle_precedence_wf(e, src, 0);
    } else if e.round(src) is Ok {
        lemma_round_wf(e, src);
        lemma_round_size(e, src);
        lemma_finish_size(e.round(src)->Ok_0, src);
    }
}

/// The code of a pattern holds at most ten bytes for each character of the
/// pattern, and one more.
pub proof fn law_code_size(pattern: Seq<char>, syntax: SyntaxFlags)
    ensures
        compiled(pattern, syntax) is Ok ==> compiled(pattern, syntax)->Ok_0.len() <= 10
            * pattern.len() + 1,
{
    let src = Source { pattern, syntax, translate: None };
    let e = Emitter::initial().mark();
    assert(e.wf(src));
    lemma_finish_size(e, src);
}

} // verus!
