//! Well-formed code: the compiler emits whole instructions, and every jump
//! it emits leads to an instruction.

use crate::codepoint::{char_operand, lemma_operand_round_trip};
use crate::invariants::{
    lemma_finish_grows, lemma_handle_precedence_wf, lemma_insert_jump_wf, lemma_read_op_stays,
    lemma_round_wf, lemma_scan_class_stays,
};
use crate::laws::layout::{
    instr_end, is_boundary, is_jump, lemma_boundaries_apart, lemma_insert_row_keeps,
    lemma_instr_end_grows, lemma_instr_end_window, lemma_parses_join, lemma_ranges_end_written,
    parses, same_bytes, with_row,
};
use crate::laws::structure::{
    code_ok, is_jump_at, is_one_instr, jumps_land, lands, lemma_append_instr, lemma_end_is_split,
    lemma_patch_code, lemma_wrap_code, patched, pending_ok, split_ok, target_of, wrapped,
};
use crate::laws::wire::lemma_displacement_round_trip;
use crate::lowering::{
    compiled, disp_bytes, digit_value, lemma_round_advances, precedence, range_operands,
    ClassRange, ClassScan, Emitter, Source,
};
use crate::syntax::SyntaxFlags;
use crate::opcodes::{CompiledOp, SyntaxOp};
use vstd::prelude::*;

verus! {

/// Is the level start with index `i` in use: does it belong to an open
/// group, or to the innermost group and a level up to the current one?
pub open spec fn live(e: Emitter, i: int) -> bool {
    0 <= i <= e.starts_base + e.current_level
}

/// The state of a compilation whose code is in order: it consists of whole
/// instructions, its jumps lead to instructions, the level starts in use are
/// boundaries that no jump crosses, in rising order, and the pending
/// displacements belong to jumps.
pub open spec fn structured(e: Emitter, src: Source) -> bool {
    &&& e.wf(src)
    &&& code_ok(e.buffer)
    &&& forall|i: int| #[trigger] live(e, i) ==> split_ok(e.buffer, e.starts[i] as int)
    &&& forall|i: int, k: int|
        #![trigger live(e, i), live(e, k)]
        live(e, i) && live(e, k) && i <= k ==> e.starts[i] <= e.starts[k]
    &&& forall|k: int|
        0 <= k < e.num_jumps ==> pending_ok(e.buffer, #[trigger] e.future_jumps[k] as int)
}

/// A level start that is set to the end of the code keeps the code in
/// order.
pub proof fn lemma_mark_structured(e: Emitter, src: Source)
    requires
        structured(e, src),
    ensures
        structured(e.mark(), src),
{
    let m = e.mark();
    lemma_end_is_split(e.buffer);
    assert forall|i: int| #[trigger] live(m, i) implies split_ok(m.buffer, m.starts[i] as int) by {
        assert(live(e, i));
    }
    assert forall|i: int, k: int|
        #![trigger live(m, i), live(m, k)]
        live(m, i) && live(m, k) && i <= k implies m.starts[i] <= m.starts[k] by {
        assert(live(e, i) && live(e, k));
    }
}

/// An instruction that is no jump, appended to the code, keeps the code in
/// order.
pub proof fn lemma_emit_structured(e: Emitter, src: Source, row: Seq<u8>)
    requires
        structured(e, src),
        is_one_instr(row),
        !is_jump(CompiledOp::spec_from_byte(row[0])->0),
        e.buffer.len() + row.len() <= 32767,
    ensures
        structured(e.emit(row), src),
{
    let m = e.emit(row);
    lemma_append_instr(e.buffer, row);
    assert forall|i: int| #[trigger] live(m, i) implies split_ok(m.buffer, m.starts[i] as int) by {
        assert(live(e, i));
        assert(split_ok(e.buffer, e.starts[i] as int));
    }
    assert forall|i: int, k: int|
        #![trigger live(m, i), live(m, k)]
        live(m, i) && live(m, k) && i <= k implies m.starts[i] <= m.starts[k] by {
        assert(live(e, i) && live(e, k));
    }
    assert forall|k: int| 0 <= k < m.num_jumps implies pending_ok(
        m.buffer,
        #[trigger] m.future_jumps[k] as int,
    ) by {
        assert(pending_ok(e.buffer, e.future_jumps[k] as int));
    }
}

/// The instruction for a character is one instruction.
pub proof fn lemma_exact_is_one_instr(ch: char)
    ensures
        is_one_instr(seq![CompiledOp::Exact.spec_to_byte()] + char_operand(ch)),
        (seq![CompiledOp::Exact.spec_to_byte()] + char_operand(ch)).len() <= 6,
{
    lemma_operand_round_trip(seq![4u8], ch, Seq::empty());
    assert(seq![4u8] + char_operand(ch) + Seq::<u8>::empty() =~= seq![4u8] + char_operand(ch));
}

/// The instruction for a class with fewer than 256 ranges is one
/// instruction.
pub proof fn lemma_class_is_one_instr(complement: u8, ranges: Seq<ClassRange>)
    requires
        ranges.len() < 256,
    ensures
        is_one_instr(
            seq![CompiledOp::CharSet.spec_to_byte(), complement, ranges.len() as u8]
                + range_operands(ranges),
        ),
{
    let head = seq![3u8, complement, ranges.len() as u8];
    lemma_ranges_end_written(head, ranges, Seq::empty());
    assert(head + range_operands(ranges) + Seq::<u8>::empty() =~= head + range_operands(ranges));
}

/// Setting the pending jumps keeps the code in order.
pub proof fn lemma_patch_pending_structured(e: Emitter, src: Source)
    requires
        structured(e, src),
    ensures
        structured(e.patch_pending(), src),
    decreases e.num_jumps,
{
    if e.num_jumps > 0 && e.future_jumps[e.num_jumps - 1] >= e.level_start() {
        let field = e.future_jumps[e.num_jumps - 1] as int;
        let top = e.level_start() as int;
        let next = Emitter { num_jumps: e.num_jumps - 1, ..e }.put_addr(
            field,
            e.buffer.len() as int,
        );
        assert(pending_ok(e.buffer, field));
        assert(next.buffer == patched(e.buffer, field, e.buffer.len() as int));
        lemma_patch_code(e.buffer, field);
        assert(live(e, e.starts_base + e.current_level));
        assert(split_ok(e.buffer, top));
        assert(top <= field - 1) by {
            if top == field {
                lemma_boundaries_apart(e.buffer, 0, field - 1, top);
                lemma_instr_end_grows(e.buffer, field - 1);
            }
        }
        assert forall|i: int| #[trigger] live(next, i) implies split_ok(
            next.buffer,
            next.starts[i] as int,
        ) by {
            assert(live(e, i));
            assert(e.starts[i] <= e.starts[e.starts_base + e.current_level]);
            assert(split_ok(e.buffer, e.starts[i] as int));
        }
        assert forall|i: int, k: int|
            #![trigger live(next, i), live(next, k)]
            live(next, i) && live(next, k) && i <= k implies next.starts[i] <= next.starts[k] by {
            assert(live(e, i) && live(e, k));
        }
        assert forall|k: int| 0 <= k < next.num_jumps implies pending_ok(
            next.buffer,
            #[trigger] next.future_jumps[k] as int,
        ) by {
            assert(pending_ok(e.buffer, e.future_jumps[k] as int));
        }
        assert(next.wf(src));
        lemma_patch_pending_structured(next, src);
    }
}

/// A move to another precedence level keeps the code in order.
pub proof fn lemma_handle_precedence_structured(e: Emitter, src: Source, level: int)
    requires
        structured(e, src),
        0 <= level <= 4,
    ensures
        structured(e.handle_precedence(level), src),
{
    lemma_handle_precedence_wf(e, src, level);
    let m = e.handle_precedence(level);
    if level > e.current_level {
        lemma_end_is_split(e.buffer);
        assert forall|i: int| #[trigger] live(m, i) implies split_ok(
            m.buffer,
            m.starts[i] as int,
        ) by {
            if i <= e.starts_base + e.current_level {
                assert(live(e, i));
            }
        }
        assert forall|i: int, k: int|
            #![trigger live(m, i), live(m, k)]
            live(m, i) && live(m, k) && i <= k implies m.starts[i] <= m.starts[k] by {
            if k <= e.starts_base + e.current_level {
                assert(live(e, i) && live(e, k));
            }
        }
    } else if level < e.current_level {
        let lowered = Emitter { current_level: level, ..e };
        assert forall|i: int| #[trigger] live(lowered, i) implies split_ok(
            lowered.buffer,
            lowered.starts[i] as int,
        ) by {
            assert(live(e, i));
        }
        assert forall|i: int, k: int|
            #![trigger live(lowered, i), live(lowered, k)]
            live(lowered, i) && live(lowered, k) && i <= k implies lowered.starts[i]
            <= lowered.starts[k] by {
            assert(live(e, i) && live(e, k));
        }
        assert(structured(lowered, src));
        lemma_patch_pending_structured(lowered, src);
    }
}

/// The jump `op` whose displacement leads from behind the field at `field`
/// to `target`.
pub open spec fn jump_row(op: CompiledOp, target: int, field: int) -> Seq<u8> {
    seq![op.spec_to_byte()] + disp_bytes(target, field)
}

/// A jump is one instruction of three bytes.
pub proof fn lemma_jump_row(op: CompiledOp, target: int, field: int)
    requires
        is_jump(op),
    ensures
        jump_row(op, target, field).len() == 3,
        is_one_instr(jump_row(op, target, field)),
        parses(jump_row(op, target, field), 0, 3),
{
    let row = jump_row(op, target, field);
    assert(row.len() == 3);
    assert(row[0] == op.spec_to_byte());
    assert(instr_end(row, 0) == Some(3int));
    assert(parses(row, 3, 3));
}

/// Where a jump leads that stands in the code as it was written: as far
/// behind itself as its target lay behind the field when it was written.
pub proof fn lemma_jump_row_target(
    code: Seq<u8>,
    at: int,
    op: CompiledOp,
    target: int,
    field: int,
)
    requires
        0 <= at,
        at + 3 <= code.len(),
        code[at] == op.spec_to_byte(),
        code[at + 1] == disp_bytes(target, field)[0],
        code[at + 2] == disp_bytes(target, field)[1],
        -32768 <= target - (field + 2) < 32768,
    ensures
        target_of(code, at) == at + 3 + (target - (field + 2)),
{
    lemma_displacement_round_trip(target, field);
}

/// The state after jumps have been put around the expression at the
/// current level: the code is wrapped, the pending displacements behind the
/// level start have moved up, and nothing else has changed.
pub open spec fn is_wrap_of(next: Emitter, e: Emitter, head: Seq<u8>, tail: Seq<u8>) -> bool {
    &&& next == (Emitter { buffer: next.buffer, future_jumps: next.future_jumps, ..e })
    &&& next.buffer == wrapped(e.buffer, e.level_start() as int, head, tail)
    &&& next.future_jumps.len() == 100
    &&& forall|k: int|
        0 <= k < e.num_jumps ==> #[trigger] next.future_jumps[k] == if e.future_jumps[k]
            >= e.level_start() {
            e.future_jumps[k] + head.len()
        } else {
            e.future_jumps[k] as int
        }
}

/// Jumps put around the expression at the current level keep the code in
/// order, if they themselves lead to instructions at the level start or
/// behind it.
#[verifier::rlimit(50)]
pub proof fn lemma_wrap_structured(
    e: Emitter,
    src: Source,
    next: Emitter,
    head: Seq<u8>,
    tail: Seq<u8>,
)
    requires
        structured(e, src),
        next.wf(src),
        is_wrap_of(next, e, head, tail),
        parses(head, 0, head.len() as int),
        parses(tail, 0, tail.len() as int),
        e.buffer.len() + head.len() + tail.len() <= 32767,
        forall|at: int|
            #[trigger] is_jump_at(head, at) ==> lands(next.buffer, e.level_start() + at)
                && target_of(next.buffer, e.level_start() + at) >= e.level_start(),
        forall|at: int|
            #[trigger] is_jump_at(tail, at) ==> lands(
                next.buffer,
                e.buffer.len() + head.len() + at,
            ) && target_of(next.buffer, e.buffer.len() + head.len() + at) >= e.level_start(),
    ensures
        structured(next, src),
{
    let top = e.level_start() as int;
    assert(live(e, e.starts_base + e.current_level));
    assert(split_ok(e.buffer, top));
    lemma_wrap_code(e.buffer, top, head, tail);
    assert forall|i: int| #[trigger] live(next, i) implies split_ok(
        next.buffer,
        next.starts[i] as int,
    ) by {
        assert(live(e, i));
        assert(e.starts[i] <= e.starts[e.starts_base + e.current_level]);
        assert(split_ok(e.buffer, e.starts[i] as int));
    }
    assert forall|i: int, k: int|
        #![trigger live(next, i), live(next, k)]
        live(next, i) && live(next, k) && i <= k implies next.starts[i] <= next.starts[k] by {
        assert(live(e, i) && live(e, k));
    }
    assert forall|k: int| 0 <= k < next.num_jumps implies pending_ok(
        next.buffer,
        #[trigger] next.future_jumps[k] as int,
    ) by {
        assert(pending_ok(e.buffer, e.future_jumps[k] as int));
    }
}

/// Two jumps, one behind the other, are a row of two instructions, with a
/// boundary between them and no other inside.
pub proof fn lemma_two_jump_rows(first: Seq<u8>, second: Seq<u8>, at: int)
    requires
        first.len() == 3,
        second.len() == 3,
        is_one_instr(first),
        is_one_instr(second),
        CompiledOp::spec_from_byte(first[0]) is Some,
        is_jump(CompiledOp::spec_from_byte(first[0])->0),
    ensures
        parses(first + second, 0, 6),
        is_boundary(first + second, at) ==> at == 0 || at == 3 || at == 6,
{
    let row = first + second;
    assert(row[0] == first[0]);
    assert(instr_end(row, 0) == Some(3int));
    assert(same_bytes(second, row, 0, 3, 3)) by {
        assert forall|i: int| 0 <= i < 3 implies second[i] == #[trigger] row[i + 3] by {}
    }
    lemma_instr_end_window(second, row, 0, 3, 3);
    assert(parses(row, 6, 6));
    assert(parses(row, 3, 6));
    assert(parses(row, 3, 3));
    assert(parses(row, 0, 3));
    assert(parses(row, 0, 0));
    if is_boundary(row, at) && at != 0 && at != 3 && at != 6 {
        if at < 3 {
            lemma_boundaries_apart(row, 0, 0, at);
        } else if at < 6 {
            lemma_boundaries_apart(row, 0, 3, at);
        }
    }
}

/// A `?` behind an expression keeps the code in order.
#[verifier::rlimit(50)]
pub proof fn lemma_optional_structured(e: Emitter, src: Source)
    requires
        structured(e, src),
        e.buffer.len() + 3 <= 32767,
    ensures
        structured(
            e.insert_jump(
                e.level_start() as int,
                CompiledOp::FailureJump,
                e.buffer.len() as int + 3,
            ),
            src,
        ),
{
    let top = e.level_start() as int;
    let end = e.buffer.len() as int;
    let next = e.insert_jump(top, CompiledOp::FailureJump, end + 3);
    let head = jump_row(CompiledOp::FailureJump, end + 3, top + 1);
    let tail = Seq::<u8>::empty();
    assert(live(e, e.starts_base + e.current_level));
    assert(split_ok(e.buffer, top));
    lemma_insert_jump_wf(e, src, top, CompiledOp::FailureJump, end + 3);
    lemma_jump_row(CompiledOp::FailureJump, end + 3, top + 1);
    assert(next.buffer =~= wrapped(e.buffer, top, head, tail));
    lemma_insert_row_keeps(e.buffer, top, head, end);
    assert(with_row(e.buffer, top, head) =~= next.buffer);
    assert(parses(tail, 0, 0));
    assert forall|at: int| #[trigger] is_jump_at(head, at) implies lands(next.buffer, top + at)
        && target_of(next.buffer, top + at) >= top by {
        assert(at == 0);
        assert(next.buffer[top] == head[0]);
        assert(next.buffer[top + 1] == head[1]);
        assert(next.buffer[top + 2] == head[2]);
        lemma_jump_row_target(next.buffer, top, CompiledOp::FailureJump, end + 3, top + 1);
    }
    assert forall|at: int| #[trigger] is_jump_at(tail, at) implies lands(
        next.buffer,
        end + 3 + at,
    ) && target_of(next.buffer, end + 3 + at) >= top by {}
    lemma_wrap_structured(e, src, next, head, tail);
}

/// A `*` or a `+` behind an expression keeps the code in order.
#[verifier::rlimit(100)]
pub proof fn lemma_loop_structured(e: Emitter, src: Source, plus: bool)
    requires
        structured(e, src),
        e.buffer.len() + 6 <= 32767,
        plus ==> e.buffer.len() + 9 <= 32767,
    ensures
        structured(
            if plus {
                e.insert_jump(
                    e.level_start() as int,
                    CompiledOp::FailureJump,
                    e.buffer.len() as int + 6,
                ).insert_jump(
                    e.buffer.len() as int + 3,
                    CompiledOp::StarJump,
                    e.level_start() as int,
                ).insert_jump(
                    e.level_start() as int,
                    CompiledOp::DummyFailureJump,
                    e.level_start() as int + 6,
                )
            } else {
                e.insert_jump(
                    e.level_start() as int,
                    CompiledOp::FailureJump,
                    e.buffer.len() as int + 6,
                ).insert_jump(
                    e.buffer.len() as int + 3,
                    CompiledOp::StarJump,
                    e.level_start() as int,
                )
            },
            src,
        ),
{
    let top = e.level_start() as int;
    let end = e.buffer.len() as int;
    assert(live(e, e.starts_base + e.current_level));
    assert(split_ok(e.buffer, top));
    let first = e.insert_jump(top, CompiledOp::FailureJump, end + 6);
    lemma_insert_jump_wf(e, src, top, CompiledOp::FailureJump, end + 6);
    let second = first.insert_jump(end + 3, CompiledOp::StarJump, top);
    lemma_insert_jump_wf(first, src, end + 3, CompiledOp::StarJump, top);
    let failure = jump_row(CompiledOp::FailureJump, end + 6, top + 1);
    let star = jump_row(CompiledOp::StarJump, top, end + 4);
    let dummy = jump_row(CompiledOp::DummyFailureJump, top + 6, top + 1);
    lemma_jump_row(CompiledOp::FailureJump, end + 6, top + 1);
    lemma_jump_row(CompiledOp::StarJump, top, end + 4);
    lemma_jump_row(CompiledOp::DummyFailureJump, top + 6, top + 1);
    assert(second.buffer =~= wrapped(e.buffer, top, failure, star));
    if plus {
        let third = second.insert_jump(top, CompiledOp::DummyFailureJump, top + 6);
        lemma_insert_jump_wf(
            second,
            src,
            top,
            CompiledOp::DummyFailureJump,
            top + 6,
        );
        let head = dummy + failure;
        lemma_two_jump_rows(dummy, failure, 0);
        assert(third.buffer =~= wrapped(e.buffer, top, head, star));
        let new = third.buffer;
        assert(with_row(e.buffer, top, head) + star =~= new);
        let mid = with_row(e.buffer, top, head);
        lemma_insert_row_keeps(e.buffer, top, head, end);
        lemma_insert_row_keeps(e.buffer, top, head, top);
        lemma_insert_row_keeps(mid, end + 6, star, end + 6);
        lemma_insert_row_keeps(mid, end + 6, star, top);
        lemma_insert_row_keeps(mid, end + 6, star, top + 6);
        assert(with_row(mid, end + 6, star) =~= new);
        assert(is_boundary(new, end + 9));
        assert(is_boundary(new, top));
        assert(is_boundary(new, top + 6));
        assert(new[top] == dummy[0]);
        assert(new[top + 1] == dummy[1]);
        assert(new[top + 2] == dummy[2]);
        assert(new[top + 3] == failure[0]);
        assert(new[top + 4] == failure[1]);
        assert(new[top + 5] == failure[2]);
        assert(new[end + 6] == star[0]);
        assert(new[end + 7] == star[1]);
        assert(new[end + 8] == star[2]);
        assert(instr_end(new, top) == Some(top + 3));
        assert(parses(new, top + 3, top + 3));
        assert(parses(new, top, top + 3));
        lemma_parses_join(new, 0, top, top + 3);
        assert(is_boundary(new, top + 3));
        lemma_jump_row_target(new, top, CompiledOp::DummyFailureJump, top + 6, top + 1);
        lemma_jump_row_target(new, top + 3, CompiledOp::FailureJump, end + 6, top + 1);
        lemma_jump_row_target(new, end + 6, CompiledOp::StarJump, top, end + 4);
        assert forall|at: int| #[trigger] is_jump_at(head, at) implies lands(new, top + at)
            && target_of(new, top + at) >= top by {
            lemma_two_jump_rows(dummy, failure, at);
            assert(at == 0 || at == 3);
        }
        assert forall|at: int| #[trigger] is_jump_at(star, at) implies lands(new, end + 6 + at)
            && target_of(new, end + 6 + at) >= top by {
            assert(at == 0);
        }
        assert(is_wrap_of(third, e, head, star));
        lemma_wrap_structured(e, src, third, head, star);
    } else {
        let new = second.buffer;
        let mid = with_row(e.buffer, top, failure);
        assert(mid + star =~= new);
        lemma_insert_row_keeps(e.buffer, top, failure, end);
        lemma_insert_row_keeps(e.buffer, top, failure, top);
        lemma_insert_row_keeps(mid, end + 3, star, end + 3);
        lemma_insert_row_keeps(mid, end + 3, star, top);
        assert(with_row(mid, end + 3, star) =~= new);
        assert(is_boundary(new, end + 6));
        assert(is_boundary(new, top));
        assert(new[top] == failure[0]);
        assert(new[top + 1] == failure[1]);
        assert(new[top + 2] == failure[2]);
        assert(new[end + 3] == star[0]);
        assert(new[end + 4] == star[1]);
        assert(new[end + 5] == star[2]);
        lemma_jump_row_target(new, top, CompiledOp::FailureJump, end + 6, top + 1);
        lemma_jump_row_target(new, end + 3, CompiledOp::StarJump, top, end + 4);
        assert forall|at: int| #[trigger] is_jump_at(failure, at) implies lands(new, top + at)
            && target_of(new, top + at) >= top by {
            assert(at == 0);
        }
        assert forall|at: int| #[trigger] is_jump_at(star, at) implies lands(new, end + 3 + at)
            && target_of(new, end + 3 + at) >= top by {
            assert(at == 0);
        }
        assert(is_wrap_of(second, e, failure, star));
        lemma_wrap_structured(e, src, second, failure, star);
    }
}

/// An alternation keeps the code in order.
#[verifier::rlimit(100)]
pub proof fn lemma_alternate_structured(e: Emitter, src: Source)
    requires
        structured(e, src),
        e.buffer.len() + 6 <= 32767,
        e.alternate() is Ok,
    ensures
        structured(e.alternate()->Ok_0, src),
{
    let top = e.level_start() as int;
    let end = e.buffer.len() as int;
    assert(live(e, e.starts_base + e.current_level));
    assert(split_ok(e.buffer, top));
    let inserted = e.insert_jump(top, CompiledOp::FailureJump, end + 6);
    lemma_insert_jump_wf(e, src, top, CompiledOp::FailureJump, end + 6);
    let failure = jump_row(CompiledOp::FailureJump, end + 6, top + 1);
    let jump = seq![CompiledOp::Jump.spec_to_byte(), 0u8, 0u8];
    lemma_jump_row(CompiledOp::FailureJump, end + 6, top + 1);
    assert(instr_end(jump, 0) == Some(3int));
    assert(parses(jump, 3, 3));
    assert(parses(jump, 0, 3));
    let new = wrapped(e.buffer, top, failure, jump);
    let w = Emitter { buffer: new, ..inserted };
    let mid = with_row(e.buffer, top, failure);
    lemma_insert_row_keeps(e.buffer, top, failure, end);
    lemma_insert_row_keeps(e.buffer, top, failure, top);
    lemma_insert_row_keeps(mid, end + 3, jump, end + 3);
    lemma_insert_row_keeps(mid, end + 3, jump, top);
    assert(with_row(mid, end + 3, jump) =~= new);
    assert(is_boundary(new, end + 6));
    assert(is_boundary(new, end + 3));
    assert(is_boundary(new, top));
    assert(new[top] == failure[0]);
    assert(new[top + 1] == failure[1]);
    assert(new[top + 2] == failure[2]);
    assert(new[end + 3] == 9u8);
    assert(new[end + 4] == 0u8);
    assert(new[end + 5] == 0u8);
    lemma_jump_row_target(new, top, CompiledOp::FailureJump, end + 6, top + 1);
    assert(target_of(new, end + 3) == end + 6);
    assert forall|at: int| #[trigger] is_jump_at(failure, at) implies lands(new, top + at)
        && target_of(new, top + at) >= top by {
        assert(at == 0);
    }
    assert forall|at: int| #[trigger] is_jump_at(jump, at) implies lands(new, end + 3 + at)
        && target_of(new, end + 3 + at) >= top by {
        assert(at == 0);
    }
    assert(w.wf(src)) by {
        assert forall|i: int| 0 <= i < 500 implies #[trigger] w.starts[i] <= w.buffer.len() by {
            assert(inserted.starts[i] <= inserted.buffer.len());
        }
        assert forall|i: int| 0 <= i < w.num_jumps implies #[trigger] w.future_jumps[i] + 2
            <= w.buffer.len() by {
            assert(inserted.future_jumps[i] + 2 <= inserted.buffer.len());
        }
    }
    assert(is_wrap_of(w, e, failure, jump));
    lemma_wrap_structured(e, src, w, failure, jump);
    let field = end + 4;
    let noted = Emitter {
        future_jumps: w.future_jumps.update(w.num_jumps, field as usize),
        num_jumps: w.num_jumps + 1,
        ..w
    };
    assert(pending_ok(new, field));
    assert forall|i: int| #[trigger] live(noted, i) implies split_ok(
        noted.buffer,
        noted.starts[i] as int,
    ) by {
        assert(live(w, i));
    }
    assert forall|i: int, k: int|
        #![trigger live(noted, i), live(noted, k)]
        live(noted, i) && live(noted, k) && i <= k implies noted.starts[i] <= noted.starts[k] by {
        assert(live(w, i) && live(w, k));
    }
    assert forall|k: int| 0 <= k < noted.num_jumps implies pending_ok(
        noted.buffer,
        #[trigger] noted.future_jumps[k] as int,
    ) by {
        if k < w.num_jumps {
            assert(pending_ok(w.buffer, w.future_jumps[k] as int));
        }
    }
    assert(structured(noted, src));
    lemma_mark_structured(noted, src);
    let done = e.alternate()->Ok_0;
    assert(done.buffer =~= new);
    assert(done == noted.mark());
}

/// A group that opens keeps the code in order.
#[verifier::rlimit(50)]
pub proof fn lemma_open_group_structured(e: Emitter, src: Source)
    requires
        structured(e, src),
        e.current_level == 4,
        e.open_group() is Ok,
        e.open_group()->Ok_0.buffer.len() <= 32767,
    ensures
        structured(e.open_group()->Ok_0, src),
{
    let marked = e.mark();
    lemma_mark_structured(e, src);
    let opened = if marked.next_register < 100 {
        Emitter {
            open_registers: marked.open_registers.update(
                marked.num_open_registers,
                marked.next_register as u8,
            ),
            num_open_registers: marked.num_open_registers + 1,
            next_register: marked.next_register + 1,
            ..marked.emit(seq![CompiledOp::StartMemory.spec_to_byte(), marked.next_register as u8])
        }
    } else {
        marked
    };
    if marked.next_register < 100 {
        let row = seq![CompiledOp::StartMemory.spec_to_byte(), marked.next_register as u8];
        assert(instr_end(row, 0) == Some(2int));
        lemma_emit_structured(marked, src, row);
        let emitted = marked.emit(row);
        assert forall|i: int| #[trigger] live(opened, i) implies split_ok(
            opened.buffer,
            opened.starts[i] as int,
        ) by {
            assert(live(emitted, i));
        }
        assert forall|i: int, k: int|
            #![trigger live(opened, i), live(opened, k)]
            live(opened, i) && live(opened, k) && i <= k implies opened.starts[i]
            <= opened.starts[k] by {
            assert(live(emitted, i) && live(emitted, k));
        }
    }
    assert(code_ok(opened.buffer));
    let inner = Emitter {
        paren_depth: opened.paren_depth + 1,
        starts_base: opened.starts_base + 5,
        current_level: 0,
        ..opened
    };
    let done = inner.mark();
    lemma_end_is_split(opened.buffer);
    assert forall|i: int| #[trigger] live(done, i) implies split_ok(
        done.buffer,
        done.starts[i] as int,
    ) by {
        if i < inner.starts_base {
            assert(live(opened, i));
        }
    }
    assert forall|i: int, k: int|
        #![trigger live(done, i), live(done, k)]
        live(done, i) && live(done, k) && i <= k implies done.starts[i] <= done.starts[k] by {
        if k < inner.starts_base {
            assert(live(opened, i) && live(opened, k));
        }
    }
    assert forall|k: int| 0 <= k < done.num_jumps implies pending_ok(
        done.buffer,
        #[trigger] done.future_jumps[k] as int,
    ) by {
        assert(pending_ok(opened.buffer, opened.future_jumps[k] as int));
    }
    assert(done == e.open_group()->Ok_0);
    assert(done.wf(src));
}

/// A group that closes keeps the code in order.
#[verifier::rlimit(50)]
pub proof fn lemma_close_group_structured(e: Emitter, src: Source)
    requires
        structured(e, src),
        e.close_group(src).buffer.len() <= 32767,
    ensures
        structured(e.close_group(src), src),
{
    if e.paren_depth > 0 {
        let closed = Emitter {
            starts_base: e.starts_base - 5,
            current_level: 4,
            paren_depth: e.paren_depth - 1,
            ..e
        };
        assert forall|i: int| #[trigger] live(closed, i) implies split_ok(
            closed.buffer,
            closed.starts[i] as int,
        ) by {
            assert(live(e, i));
        }
        assert forall|i: int, k: int|
            #![trigger live(closed, i), live(closed, k)]
            live(closed, i) && live(closed, k) && i <= k implies closed.starts[i]
            <= closed.starts[k] by {
            assert(live(e, i) && live(e, k));
        }
        if closed.paren_depth < closed.num_open_registers {
            let popped = Emitter { num_open_registers: closed.num_open_registers - 1, ..closed };
            assert forall|i: int| #[trigger] live(popped, i) implies split_ok(
                popped.buffer,
                popped.starts[i] as int,
            ) by {
                assert(live(closed, i));
            }
            assert forall|i: int, k: int|
                #![trigger live(popped, i), live(popped, k)]
                live(popped, i) && live(popped, k) && i <= k implies popped.starts[i]
                <= popped.starts[k] by {
                assert(live(closed, i) && live(closed, k));
            }
            let row = seq![
                CompiledOp::EndMemory.spec_to_byte(),
                closed.open_registers[closed.num_open_registers - 1],
            ];
            assert(instr_end(row, 0) == Some(2int));
            assert(structured(popped, src));
            lemma_emit_structured(popped, src, row);
        } else {
            assert(structured(closed, src));
        }
    } else {
        lemma_mark_structured(e, src);
        lemma_exact_is_one_instr(')');
        lemma_emit_structured(e.mark(), src, seq![4u8] + char_operand(')'));
    }
}

/// A state that differs from one whose code is in order only in what does
/// not bear on the code has its code in order too.
pub proof fn lemma_same_structure(e: Emitter, other: Emitter, src: Source)
    requires
        structured(e, src),
        other.wf(src),
        other.buffer == e.buffer,
        other.starts == e.starts,
        other.starts_base == e.starts_base,
        other.current_level == e.current_level,
        other.future_jumps == e.future_jumps,
        other.num_jumps == e.num_jumps,
    ensures
        structured(other, src),
{
    assert forall|i: int| #[trigger] live(other, i) implies split_ok(
        other.buffer,
        other.starts[i] as int,
    ) by {
        assert(live(e, i));
    }
    assert forall|i: int, k: int|
        #![trigger live(other, i), live(other, k)]
        live(other, i) && live(other, k) && i <= k implies other.starts[i] <= other.starts[k] by {
        assert(live(e, i) && live(e, k));
    }
}

/// A new expression that is one instruction, and no jump, keeps the code
/// in order.
pub proof fn lemma_fresh_instr_structured(e: Emitter, src: Source, row: Seq<u8>)
    requires
        structured(e, src),
        is_one_instr(row),
        !is_jump(CompiledOp::spec_from_byte(row[0])->0),
        e.buffer.len() + row.len() <= 32767,
    ensures
        structured(e.mark().emit(row), src),
{
    lemma_mark_structured(e, src);
    lemma_emit_structured(e.mark(), src, row);
}

/// The ranges of the class that the compiler reads where the cursor stands
/// behind the opening bracket.
pub open spec fn class_ranges(src: Source, pos: int) -> Seq<ClassRange> {
    let complement = pos < src.pattern.len() && src.pattern[pos] == '^';
    let body = if complement {
        pos + 1
    } else {
        pos
    };
    match src.scan_class(body, ClassScan::fresh()) {
        Ok((ranges, _)) => ranges,
        Err(_) => Seq::empty(),
    }
}

/// Is the operator lowered to one new instruction without a choice?
pub open spec fn is_simple(op: SyntaxOp) -> bool {
    op == SyntaxOp::Normal || op == SyntaxOp::AnyChar || op == SyntaxOp::BegBuf || op
        == SyntaxOp::EndBuf || op == SyntaxOp::WordChar || op == SyntaxOp::NotWordChar || op
        == SyntaxOp::WordBeg || op == SyntaxOp::WordEnd || op == SyntaxOp::WordBound || op
        == SyntaxOp::NotWordBound || op == SyntaxOp::Memory
}

/// The lowering of an operator that becomes one new instruction keeps the
/// code in order.
#[verifier::rlimit(50)]
pub proof fn lemma_process_simple(e: Emitter, src: Source, op: SyntaxOp, ch: char)
    requires
        structured(e, src),
        is_simple(op),
        e.process(src, op, ch) is Ok,
        e.process(src, op, ch)->Ok_0.buffer.len() <= 32767,
    ensures
        structured(e.process(src, op, ch)->Ok_0, src),
{
    let byte: u8 = match op {
        SyntaxOp::AnyChar => 5u8,
        SyntaxOp::BegBuf => 14u8,
        SyntaxOp::EndBuf => 15u8,
        SyntaxOp::WordBeg => 16u8,
        SyntaxOp::WordEnd => 17u8,
        SyntaxOp::WordBound => 18u8,
        _ => 19u8,
    };
    if op == SyntaxOp::Normal {
        lemma_exact_is_one_instr(ch);
        lemma_fresh_instr_structured(e, src, seq![4u8] + char_operand(ch));
    } else if op == SyntaxOp::Memory {
        let row = seq![CompiledOp::MatchMemory.spec_to_byte(), digit_value(ch)];
        assert(instr_end(row, 0) == Some(2int));
        lemma_fresh_instr_structured(e, src, row);
    } else if op == SyntaxOp::WordChar {
        let row = seq![CompiledOp::SyntaxSpec.spec_to_byte(), 1u8];
        assert(instr_end(row, 0) == Some(2int));
        lemma_fresh_instr_structured(e, src, row);
    } else if op == SyntaxOp::NotWordChar {
        let row = seq![CompiledOp::NotSyntaxSpec.spec_to_byte(), 1u8];
        assert(instr_end(row, 0) == Some(2int));
        lemma_fresh_instr_structured(e, src, row);
    } else {
        let row = seq![byte];
        assert(instr_end(row, 0) == Some(1int));
        lemma_fresh_instr_structured(e, src, row);
    }
}

/// The lowering of an anchor keeps the code in order.
#[verifier::rlimit(50)]
pub proof fn lemma_process_anchor(e: Emitter, src: Source, op: SyntaxOp, ch: char)
    requires
        structured(e, src),
        op == SyntaxOp::Bol || op == SyntaxOp::Eol,
        e.process(src, op, ch) is Ok,
        e.process(src, op, ch)->Ok_0.buffer.len() <= 32767,
    ensures
        structured(e.process(src, op, ch)->Ok_0, src),
{
    lemma_exact_is_one_instr('^');
    lemma_exact_is_one_instr('$');
    if op == SyntaxOp::Bol {
        let row = seq![CompiledOp::Bol.spec_to_byte()];
        assert(instr_end(row, 0) == Some(1int));
        if !e.beginning_context {
            lemma_fresh_instr_structured(e, src, seq![4u8] + char_operand('^'));
        } else {
            lemma_fresh_instr_structured(e, src, row);
        }
    } else {
        let row = seq![CompiledOp::Eol.spec_to_byte()];
        assert(instr_end(row, 0) == Some(1int));
        if !src.is_eol_context(e.pos) {
            lemma_fresh_instr_structured(e, src, seq![4u8] + char_operand('$'));
        } else {
            lemma_fresh_instr_structured(e, src, row);
        }
    }
}

/// The lowering of a repetition operator keeps the code in order.
#[verifier::rlimit(50)]
pub proof fn lemma_process_repeat(e: Emitter, src: Source, op: SyntaxOp, ch: char)
    requires
        structured(e, src),
        op == SyntaxOp::Optional || op == SyntaxOp::Star || op == SyntaxOp::Plus,
        e.process(src, op, ch) is Ok,
        e.process(src, op, ch)->Ok_0.buffer.len() <= 32767,
    ensures
        structured(e.process(src, op, ch)->Ok_0, src),
{
    let symbol = if op == SyntaxOp::Optional {
        '?'
    } else if op == SyntaxOp::Star {
        '*'
    } else {
        '+'
    };
    assert(e.process(src, op, ch) == e.repeat(src, op, symbol));
    if e.beginning_context {
        lemma_exact_is_one_instr(symbol);
        lemma_fresh_instr_structured(e, src, seq![4u8] + char_operand(symbol));
    } else if e.level_start() != e.buffer.len() {
        let start = e.level_start() as int;
        let end = e.buffer.len() as int;
        assert(live(e, e.starts_base + e.current_level));
        assert(split_ok(e.buffer, start));
        lemma_insert_jump_wf(e, src, start, CompiledOp::FailureJump, end + 3);
        lemma_insert_jump_wf(e, src, start, CompiledOp::FailureJump, end + 6);
        let first = e.insert_jump(start, CompiledOp::FailureJump, end + 6);
        lemma_insert_jump_wf(first, src, end + 3, CompiledOp::StarJump, start);
        let second = first.insert_jump(end + 3, CompiledOp::StarJump, start);
        lemma_insert_jump_wf(second, src, start, CompiledOp::DummyFailureJump, start + 6);
        if op == SyntaxOp::Optional {
            lemma_optional_structured(e, src);
        } else {
            lemma_loop_structured(e, src, op == SyntaxOp::Plus);
        }
    }
}

/// The lowering of a two-digit back-reference keeps the code in order.
#[verifier::rlimit(50)]
pub proof fn lemma_process_extended(e: Emitter, src: Source, ch: char)
    requires
        structured(e, src),
        e.process(src, SyntaxOp::ExtendedMemory, ch) is Ok,
        e.process(src, SyntaxOp::ExtendedMemory, ch)->Ok_0.buffer.len() <= 32767,
    ensures
        structured(e.process(src, SyntaxOp::ExtendedMemory, ch)->Ok_0, src),
{
    let moved = Emitter { pos: e.pos + 2, ..e };
    lemma_same_structure(e, moved, src);
    let tens = src.pattern[e.pos];
    let ones = src.pattern[e.pos + 1];
    let reg = digit_value(tens) * 10 + digit_value(ones);
    let row = seq![CompiledOp::MatchMemory.spec_to_byte(), reg as u8];
    assert(instr_end(row, 0) == Some(2int));
    lemma_fresh_instr_structured(moved, src, row);
}

/// The lowering of a character class with fewer than 256 ranges keeps the
/// code in order.
#[verifier::rlimit(50)]
pub proof fn lemma_process_class(e: Emitter, src: Source, ch: char)
    requires
        structured(e, src),
        e.process(src, SyntaxOp::OpenSet, ch) is Ok,
        e.process(src, SyntaxOp::OpenSet, ch)->Ok_0.buffer.len() <= 32767,
        class_ranges(src, e.pos).len() < 256,
    ensures
        structured(e.process(src, SyntaxOp::OpenSet, ch)->Ok_0, src),
{
    let complement = e.pos < src.pattern.len() && src.pattern[e.pos] == '^';
    let body = if complement {
        e.pos + 1
    } else {
        e.pos
    };
    let scanned = src.scan_class(body, ClassScan::fresh())->Ok_0;
    let ranges = scanned.0;
    let moved = Emitter { pos: scanned.1, ..e };
    lemma_scan_class_stays(src, body, ClassScan::fresh());
    lemma_same_structure(e, moved, src);
    let flag = if complement {
        1u8
    } else {
        0u8
    };
    lemma_class_is_one_instr(flag, ranges);
    let row = seq![CompiledOp::CharSet.spec_to_byte(), flag, ranges.len() as u8] + range_operands(
        ranges,
    );
    assert(row =~= seq![CompiledOp::CharSet.spec_to_byte(), flag, (ranges.len() % 256) as u8]
        + range_operands(ranges));
    lemma_fresh_instr_structured(moved, src, row);
}

/// The lowering of an operator keeps the code in order, if the code stays
/// within reach of a displacement and a class holds fewer than 256 ranges.
pub proof fn lemma_process_structured(e: Emitter, src: Source, op: SyntaxOp, ch: char)
    requires
        structured(e, src),
        e.current_level == precedence(src.syntax, op),
        e.process(src, op, ch) is Ok,
        e.process(src, op, ch)->Ok_0.buffer.len() <= 32767,
        op == SyntaxOp::OpenSet ==> class_ranges(src, e.pos).len() < 256,
    ensures
        structured(e.process(src, op, ch)->Ok_0, src),
{
    if is_simple(op) {
        lemma_process_simple(e, src, op, ch);
    } else if op == SyntaxOp::Bol || op == SyntaxOp::Eol {
        lemma_process_anchor(e, src, op, ch);
    } else if op == SyntaxOp::Optional || op == SyntaxOp::Star || op == SyntaxOp::Plus {
        lemma_process_repeat(e, src, op, ch);
    } else if op == SyntaxOp::Or {
        lemma_alternate_structured(e, src);
    } else if op == SyntaxOp::OpenPar {
        lemma_open_group_structured(e, src);
    } else if op == SyntaxOp::ClosePar {
        lemma_close_group_structured(e, src);
    } else if op == SyntaxOp::ExtendedMemory {
        lemma_process_extended(e, src, ch);
    } else if op == SyntaxOp::OpenSet {
        lemma_process_class(e, src, ch);
    }
}

/// Does every character class that the compiler reads from this state on
/// hold fewer than 256 ranges?
pub open spec fn classes_fit(e: Emitter, src: Source) -> bool
    decreases
            (if e.pos < src.pattern.len() {
                src.pattern.len() - e.pos
            } else {
                0
            }),
{
    if e.pos >= src.pattern.len() {
        true
    } else {
        match e.round(src) {
            Err(_) => true,
            Ok(next) => {
                proof {
                    lemma_round_advances(e, src);
                }
                (src.read_op(e.pos)->Ok_0.0 == SyntaxOp::OpenSet ==> class_ranges(
                    src,
                    src.read_op(e.pos)->Ok_0.2,
                ).len() < 256) && classes_fit(next, src)
            },
        }
    }
}

/// Every round of the compiler keeps the code in order, if the code stays
/// within reach of a displacement and a class holds fewer than 256 ranges.
#[verifier::rlimit(50)]
pub proof fn lemma_round_structured(e: Emitter, src: Source)
    requires
        structured(e, src),
        e.pos < src.pattern.len(),
        e.round(src) is Ok,
        e.round(src)->Ok_0.buffer.len() <= 32767,
        src.read_op(e.pos)->Ok_0.0 == SyntaxOp::OpenSet ==> class_ranges(
            src,
            src.read_op(e.pos)->Ok_0.2,
        ).len() < 256,
    ensures
        structured(e.round(src)->Ok_0, src),
{
    lemma_read_op_stays(src, e.pos);
    lemma_round_wf(e, src);
    let (op, ch, next) = src.read_op(e.pos)->Ok_0;
    let level = precedence(src.syntax, op) as int;
    let moved = Emitter { pos: next, ..e };
    assert(moved.wf(src));
    lemma_same_structure(e, moved, src);
    lemma_handle_precedence_wf(moved, src, level);
    lemma_handle_precedence_structured(moved, src, level);
    let levelled = moved.handle_precedence(level);
    lemma_process_structured(levelled, src, op, ch);
    let done = levelled.process(src, op, ch)->Ok_0;
    lemma_same_structure(done, e.round(src)->Ok_0, src);
}

/// Is the code well-formed: a row of whole instructions, the last of which
/// is `End`, in which every jump leads to an instruction, and a failure jump
/// follows every dummy failure jump?
pub open spec fn well_formed(code: Seq<u8>) -> bool {
    &&& code.len() > 0
    &&& parses(code, 0, code.len() as int)
    &&& is_boundary(code, code.len() - 1)
    &&& code[code.len() - 1] == CompiledOp::End.spec_to_byte()
    &&& jumps_land(code)
    &&& forall|at: int| #[trigger] is_jump_at(code, at) ==> target_of(code, at) < code.len()
}

/// From a state whose code is in order, the compiler ends with well-formed
/// code.
pub proof fn lemma_finish_structured(e: Emitter, src: Source)
    requires
        structured(e, src),
        classes_fit(e, src),
        e.finish(src) is Ok,
        e.finish(src)->Ok_0.len() <= 32767,
    ensures
        well_formed(e.finish(src)->Ok_0),
    decreases src.pattern.len() - e.pos,
{
    lemma_finish_grows(e, src);
    if e.pos >= src.pattern.len() {
        lemma_handle_precedence_wf(e, src, 0);
        lemma_handle_precedence_structured(e, src, 0);
        let closed = e.handle_precedence(0);
        let row = seq![CompiledOp::End.spec_to_byte()];
        assert(instr_end(row, 0) == Some(1int));
        lemma_append_instr(closed.buffer, row);
        assert(closed.buffer.push(0u8) =~= closed.buffer + row);
        assert(is_boundary(closed.buffer, closed.buffer.len() as int));
        let code = closed.buffer + row;
        assert forall|at: int| #[trigger] is_jump_at(code, at) implies target_of(code, at)
            < code.len() by {
            assert(is_jump_at(closed.buffer, at));
            assert(lands(closed.buffer, at));
        }
    } else {
        let next = e.round(src)->Ok_0;
        lemma_round_wf(e, src);
        lemma_finish_grows(next, src);
        lemma_round_structured(e, src);
        lemma_finish_structured(next, src);
    }
}

/// Well-formed code: the code of a pattern that compiles is a row of whole
/// instructions, the last of which is `End`, and every jump in it leads to an
/// instruction, where the code stays within reach of a 16-bit displacement
/// and every class of the pattern holds fewer than 256 ranges.
pub proof fn law_compiled_code_is_well_formed(pattern: Seq<char>, syntax: SyntaxFlags)
    requires
        compiled(pattern, syntax) is Ok,
        compiled(pattern, syntax)->Ok_0.len() <= 32767,
        classes_fit(Emitter::initial().mark(), Source { pattern, syntax, translate: None }),
    ensures
        well_formed(compiled(pattern, syntax)->Ok_0),
{
    let src = Source { pattern, syntax, translate: None };
    let e = Emitter::initial().mark();
    assert(e.wf(src));
    assert(e.buffer.len() == 0);
    assert(parses(e.buffer, 0, 0));
    assert forall|i: int| #[trigger] live(e, i) implies split_ok(e.buffer, e.starts[i] as int) by {
        assert(i == 0);
        assert(e.starts[0] == 0);
    }
    lemma_finish_structured(e, src);
}

} // verus!
