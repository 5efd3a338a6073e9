//! The compiler stays in well-formed states: every round takes a
//! well-formed state to a well-formed state.

use crate::lowering::{precedence, ClassScan, Emitter, Source};
use crate::opcodes::{CompiledOp, SyntaxOp};
use crate::semantics::translated;
use vstd::prelude::*;

verus! {

/// The scan of a character class ends inside the pattern.
pub proof fn lemma_scan_class_stays(src: Source, pos: int, scan: ClassScan)
    ensures
        src.scan_class(pos, scan) is Ok ==> pos < src.scan_class(pos, scan)->Ok_0.1
            <= src.pattern.len(),
    decreases src.pattern.len() - pos,
{
    if 0 <= pos < src.pattern.len() {
        let ch = src.pattern[pos];
        if !(ch == ']' && !scan.first) {
            let member = if ch == '\\' && src.syntax.ansi_sequences() && pos + 1
                < src.pattern.len() {
                src.ansi_translate(pos + 2, src.pattern[pos + 1])
            } else {
                Ok((ch, pos + 1))
            };
            if member is Ok {
                let (raw, next) = member->Ok_0;
                let actual = translated(src.translate, raw);
                lemma_scan_class_stays(src, next, scan.take(src, ch, actual, next));
            }
        }
    }
}

/// Setting the pending jumps changes bytes of the code and takes jumps off
/// the list, and nothing else; the state stays well-formed.
pub proof fn lemma_patch_pending_wf(e: Emitter, src: Source)
    requires
        e.wf(src),
    ensures
        e.patch_pending().wf(src),
        e.patch_pending() == (Emitter {
            buffer: e.patch_pending().buffer,
            num_jumps: e.patch_pending().num_jumps,
            ..e
        }),
        e.patch_pending().buffer.len() == e.buffer.len(),
        e.patch_pending().num_jumps <= e.num_jumps,
    decreases e.num_jumps,
{
    if e.num_jumps > 0 && e.future_jumps[e.num_jumps - 1] >= e.level_start() {
        let offset = e.future_jumps[e.num_jumps - 1] as int;
        assert(offset + 2 <= e.buffer.len());
        let next = Emitter { num_jumps: e.num_jumps - 1, ..e }.put_addr(
            offset,
            e.buffer.len() as int,
        );
        assert(next.wf(src));
        lemma_patch_pending_wf(next, src);
    }
}

/// A move to another precedence level keeps the state well-formed.
pub proof fn lemma_handle_precedence_wf(e: Emitter, src: Source, level: int)
    requires
        e.wf(src),
        0 <= level <= 4,
    ensures
        e.handle_precedence(level).wf(src),
        e.handle_precedence(level).current_level == level,
        e.handle_precedence(level).pos == e.pos,
        e.handle_precedence(level).buffer.len() == e.buffer.len(),
        e.handle_precedence(level).starts_base == e.starts_base,
        e.handle_precedence(level).paren_depth == e.paren_depth,
        e.handle_precedence(level).beginning_context == e.beginning_context,
{
    if level < e.current_level {
        lemma_patch_pending_wf(Emitter { current_level: level, ..e }, src);
    }
}

/// The insertion of a jump keeps the state well-formed where there is room
/// for it.
pub proof fn lemma_insert_jump_wf(e: Emitter, src: Source, pos: int, op: CompiledOp, addr: int)
    requires
        e.wf(src),
        0 <= pos <= e.buffer.len(),
        e.buffer.len() + 3 <= usize::MAX,
    ensures
        e.insert_jump(pos, op, addr).wf(src),
        e.insert_jump(pos, op, addr).buffer.len() == e.buffer.len() + 3,
{
}

/// The lowering of an operator keeps the state well-formed.
#[verifier::rlimit(50)]
pub proof fn lemma_process_wf(e: Emitter, src: Source, op: SyntaxOp, ch: char)
    requires
        e.wf(src),
        e.current_level == precedence(src.syntax, op),
    ensures
        e.process(src, op, ch) is Ok ==> e.process(src, op, ch)->Ok_0.wf(src) && e.pos <= e.process(
            src,
            op,
            ch,
        )->Ok_0.pos,
{
    match op {
        SyntaxOp::Optional | SyntaxOp::Star | SyntaxOp::Plus => {
            if !e.beginning_context && e.level_start() != e.buffer.len() && e.has_room() {
                let start = e.level_start() as int;
                let end = e.buffer.len() as int;
                lemma_insert_jump_wf(e, src, start, CompiledOp::FailureJump, end + 3);
                lemma_insert_jump_wf(e, src, start, CompiledOp::FailureJump, end + 6);
                let first = e.insert_jump(start, CompiledOp::FailureJump, end + 6);
                lemma_insert_jump_wf(first, src, end + 3, CompiledOp::StarJump, start);
                let second = first.insert_jump(end + 3, CompiledOp::StarJump, start);
                lemma_insert_jump_wf(second, src, start, CompiledOp::DummyFailureJump, start + 6);
            }
        },
        SyntaxOp::Or => {
            if e.has_room() {
                lemma_insert_jump_wf(
                    e,
                    src,
                    e.level_start() as int,
                    CompiledOp::FailureJump,
                    e.buffer.len() as int + 6,
                );
            }
        },
        SyntaxOp::OpenSet => {
            let complement = e.pos < src.pattern.len() && src.pattern[e.pos] == '^';
            let body = if complement {
                e.pos + 1
            } else {
                e.pos
            };
            lemma_scan_class_stays(src, body, ClassScan::fresh());
        },
        _ => {},
    }
}

/// The operator that is read ends inside the pattern.
pub proof fn lemma_read_op_stays(src: Source, pos: int)
    requires
        0 <= pos < src.pattern.len(),
    ensures
        src.read_op(pos) is Ok ==> pos < src.read_op(pos)->Ok_0.2 <= src.pattern.len(),
{
}

/// Every round of the compiler takes a well-formed state to a well-formed
/// state, further on in the pattern.
#[verifier::rlimit(50)]
pub proof fn lemma_round_wf(e: Emitter, src: Source)
    requires
        e.wf(src),
        e.pos < src.pattern.len(),
    ensures
        e.round(src) is Ok ==> e.round(src)->Ok_0.wf(src) && e.pos < e.round(src)->Ok_0.pos,
{
    if e.round(src) is Ok {
        lemma_read_op_stays(src, e.pos);
        let (op, ch, next) = src.read_op(e.pos)->Ok_0;
        let level = precedence(src.syntax, op) as int;
        let moved = Emitter { pos: next, ..e };
        assert(moved.wf(src));
        lemma_handle_precedence_wf(moved, src, level);
        lemma_process_wf(moved.handle_precedence(level), src, op, ch);
    }
}

/// Every round of the compiler leaves the code at least as long as it was.
#[verifier::rlimit(50)]
pub proof fn lemma_round_grows(e: Emitter, src: Source)
    requires
        e.wf(src),
        e.pos < src.pattern.len(),
    ensures
        e.round(src) is Ok ==> e.buffer.len() <= e.round(src)->Ok_0.buffer.len(),
{
    if e.round(src) is Ok {
        lemma_read_op_stays(src, e.pos);
        let (op, ch, next) = src.read_op(e.pos)->Ok_0;
        let level = precedence(src.syntax, op) as int;
        let moved = Emitter { pos: next, ..e };
        assert(moved.wf(src));
        lemma_handle_precedence_wf(moved, src, level);
        let levelled = moved.handle_precedence(level);
        match op {
            SyntaxOp::Optional | SyntaxOp::Star | SyntaxOp::Plus => {
                if !levelled.beginning_context && levelled.level_start() != levelled.buffer.len()
                    && levelled.has_room() {
                    let start = levelled.level_start() as int;
                    let end = levelled.buffer.len() as int;
                    lemma_insert_jump_wf(levelled, src, start, CompiledOp::FailureJump, end + 3);
                    lemma_insert_jump_wf(levelled, src, start, CompiledOp::FailureJump, end + 6);
                    let first = levelled.insert_jump(start, CompiledOp::FailureJump, end + 6);
                    lemma_insert_jump_wf(first, src, end + 3, CompiledOp::StarJump, start);
                    let second = first.insert_jump(end + 3, CompiledOp::StarJump, start);
                    lemma_insert_jump_wf(
                        second,
                        src,
                        start,
                        CompiledOp::DummyFailureJump,
                        start + 6,
                    );
                }
            },
            SyntaxOp::Or => {
                if levelled.has_room() {
                    lemma_insert_jump_wf(
                        levelled,
                        src,
                        levelled.level_start() as int,
                        CompiledOp::FailureJump,
                        levelled.buffer.len() as int + 6,
                    );
                }
            },
            _ => {},
        }
    }
}

/// The code of a pattern is longer than the code emitted at any state on
/// the way to it.
pub proof fn lemma_finish_grows(e: Emitter, src: Source)
    requires
        e.wf(src),
    ensures
        e.finish(src) is Ok ==> e.buffer.len() < e.finish(src)->Ok_0.len(),
    decreases src.pattern.len() - e.pos,
{
    if e.pos >= src.pattern.len() {
        lemma_handle_precedence_wf(e, src, 0);
    } else if e.round(src) is Ok {
        lemma_round_wf(e, src);
        lemma_round_grows(e, src);
        lemma_finish_grows(e.round(src)->Ok_0, src);
    }
}

} // verus!
