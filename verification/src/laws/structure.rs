//! The structure of the code: where its jumps lead, and how insertions and
//! new displacements keep them leading to instructions.

use crate::laws::layout::{
    instr_end, is_boundary, is_jump, lemma_boundaries_apart, lemma_insert_row_keeps,
    lemma_insert_row_only, lemma_instr_end_grows, lemma_parses_split, lemma_patch_keeps, parses,
    with_row,
};
use crate::laws::wire::lemma_displacement_round_trip;
use crate::lowering::disp_bytes;
use crate::opcodes::CompiledOp;
use crate::semantics::displacement;
use vstd::prelude::*;

verus! {

/// Does a jump begin at `at`?
pub open spec fn is_jump_at(code: Seq<u8>, at: int) -> bool {
    &&& is_boundary(code, at)
    &&& at + 3 <= code.len()
    &&& CompiledOp::spec_from_byte(code[at]) is Some
    &&& is_jump(CompiledOp::spec_from_byte(code[at])->0)
}

/// Where the jump at `at` leads.
pub open spec fn target_of(code: Seq<u8>, at: int) -> int {
    at + 3 + displacement(code[at + 1], code[at + 2])
}

/// Does the jump at `at` lead to an instruction or to the end of the code,
/// and does a failure jump follow it if it is a dummy failure jump?
pub open spec fn lands(code: Seq<u8>, at: int) -> bool {
    &&& is_boundary(code, target_of(code, at))
    &&& code[at] == CompiledOp::DummyFailureJump.spec_to_byte() ==> at + 6 <= code.len()
        && code[at + 3] == CompiledOp::FailureJump.spec_to_byte()
}

/// Does every jump of the code lead to an instruction or to the end of the
/// code?
pub open spec fn jumps_land(code: Seq<u8>) -> bool {
    forall|at: int| #[trigger] is_jump_at(code, at) ==> lands(code, at)
}

/// Does the jump at `at` stay on its side of `split`: does it lead to
/// `split` or further back if it stands before `split`, and to `split` or
/// further on if it stands there or behind? A dummy failure jump before
/// `split` has its failure jump before `split` too.
pub open spec fn stays_clear(code: Seq<u8>, at: int, split: int) -> bool {
    &&& at < split ==> target_of(code, at) <= split
    &&& at >= split ==> target_of(code, at) >= split
    &&& at < split && code[at] == CompiledOp::DummyFailureJump.spec_to_byte() ==> at + 6 <= split
}

/// Does every jump of the code stay on its side of `split`?
pub open spec fn clear_of(code: Seq<u8>, split: int) -> bool {
    forall|at: int| #[trigger] is_jump_at(code, at) ==> stays_clear(code, at, split)
}

/// A jump before a row of instructions that is inserted at a boundary
/// leads where it led, if it stayed on its side of that boundary.
pub proof fn lemma_jump_before_row(code: Seq<u8>, split: int, row: Seq<u8>, at: int)
    requires
        is_boundary(code, split),
        parses(row, 0, row.len() as int),
        is_jump_at(with_row(code, split, row), at),
        at < split,
    ensures
        is_jump_at(code, at),
        target_of(with_row(code, split, row), at) == target_of(code, at),
        with_row(code, split, row)[at] == code[at],
        lands(code, at) && stays_clear(code, at, split) ==> lands(with_row(code, split, row), at),
{
    let new = with_row(code, split, row);
    lemma_insert_row_only(code, split, row, at);
    lemma_boundaries_apart(code, 0, at, split);
    lemma_instr_end_grows(code, at);
    assert(at + 3 <= split) by {
        lemma_insert_row_keeps(code, split, row, split);
        lemma_boundaries_apart(new, 0, at, split);
    }
    assert(new[at] == code[at]);
    assert(new[at + 1] == code[at + 1]);
    assert(new[at + 2] == code[at + 2]);
    if lands(code, at) && stays_clear(code, at, split) {
        lemma_insert_row_keeps(code, split, row, target_of(code, at));
        if code[at] == CompiledOp::DummyFailureJump.spec_to_byte() {
            assert(at + 6 <= split);
            assert(new[at + 3] == code[at + 3]);
        }
    }
}

/// A jump behind a row of instructions that is inserted at a boundary
/// leads as far behind the row as it led behind the boundary, if it stayed
/// on its side of that boundary.
pub proof fn lemma_jump_behind_row(code: Seq<u8>, split: int, row: Seq<u8>, at: int)
    requires
        is_boundary(code, split),
        parses(row, 0, row.len() as int),
        is_jump_at(with_row(code, split, row), at),
        at >= split + row.len(),
    ensures
        is_jump_at(code, at - row.len()),
        target_of(with_row(code, split, row), at) == target_of(code, at - row.len()) + row.len(),
        with_row(code, split, row)[at] == code[at - row.len()],
        lands(code, at - row.len()) && stays_clear(code, at - row.len(), split) ==> lands(
            with_row(code, split, row),
            at,
        ),
{
    let new = with_row(code, split, row);
    let n = row.len() as int;
    let old = at - n;
    lemma_insert_row_only(code, split, row, at);
    assert(new[at] == code[old]);
    assert(new[at + 1] == code[old + 1]);
    assert(new[at + 2] == code[old + 2]);
    if lands(code, old) && stays_clear(code, old, split) {
        lemma_insert_row_keeps(code, split, row, target_of(code, old));
        if code[old] == CompiledOp::DummyFailureJump.spec_to_byte() {
            assert(new[at + 3] == code[old + 3]);
        }
    }
}

/// A jump with a new displacement that leads to a boundary lands; every
/// other jump leads where it led.
pub proof fn lemma_jumps_after_patch(code: Seq<u8>, new: Seq<u8>, jump: int, at: int)
    requires
        new.len() == code.len(),
        parses(code, 0, code.len() as int),
        is_jump_at(code, jump),
        forall|i: int| 0 <= i < code.len() && i != jump + 1 && i != jump + 2 ==> code[i] == new[i],
        is_jump_at(new, at),
    ensures
        is_jump_at(code, at),
        at != jump ==> target_of(new, at) == target_of(code, at),
        at != jump && lands(code, at) ==> lands(new, at),
{
    lemma_boundary_after_patch(new, code, jump, at);
    if at != jump {
        if at < jump {
            lemma_boundaries_apart(code, 0, at, jump);
            lemma_instr_end_grows(code, at);
        } else {
            lemma_boundaries_apart(code, 0, jump, at);
        }
        assert(new[at + 1] == code[at + 1]);
        assert(new[at + 2] == code[at + 2]);
        if lands(code, at) {
            lemma_boundary_after_patch(code, new, jump, target_of(code, at));
            if code[at] == CompiledOp::DummyFailureJump.spec_to_byte() {
                assert(at + 3 != jump + 1 && at + 3 != jump + 2) by {
                    if at + 3 > jump {
                        lemma_parses_split(code, 0, at, code.len() as int);
                        lemma_parses_split(code, 0, jump, code.len() as int);
                    }
                }
            }
        }
    }
}

/// A boundary of the code is a boundary of the code with a new
/// displacement in one of its jumps.
pub proof fn lemma_boundary_after_patch(code: Seq<u8>, new: Seq<u8>, jump: int, pos: int)
    requires
        new.len() == code.len(),
        0 <= jump,
        jump + 3 <= code.len(),
        CompiledOp::spec_from_byte(code[jump]) is Some,
        is_jump(CompiledOp::spec_from_byte(code[jump])->0),
        parses(code, 0, jump) || parses(new, 0, jump),
        forall|i: int| 0 <= i < code.len() && i != jump + 1 && i != jump + 2 ==> code[i] == new[i],
        is_boundary(code, pos),
    ensures
        is_boundary(new, pos),
{
    if !parses(code, 0, jump) {
        assert(code[jump] == new[jump]);
        lemma_patch_keeps(new, code, jump, 0, jump);
    }
    if pos <= jump {
        lemma_parses_split(code, 0, pos, jump);
        lemma_patch_keeps(code, new, jump, 0, pos);
    } else {
        lemma_boundaries_apart(code, 0, jump, pos);
        lemma_patch_keeps(code, new, jump, 0, pos);
    }
}

/// Is the code a row of instructions, short enough for every displacement
/// to reach across it, whose jumps all lead to instructions?
pub open spec fn code_ok(code: Seq<u8>) -> bool {
    &&& code.len() <= 32767
    &&& parses(code, 0, code.len() as int)
    &&& jumps_land(code)
}

/// Is `split` a boundary of the code that no jump crosses?
pub open spec fn split_ok(code: Seq<u8>, split: int) -> bool {
    is_boundary(code, split) && clear_of(code, split)
}

/// Does the displacement field at `field` belong to a jump that ends an
/// alternative?
pub open spec fn pending_ok(code: Seq<u8>, field: int) -> bool {
    &&& field >= 1
    &&& is_jump_at(code, field - 1)
    &&& code[field - 1] == CompiledOp::Jump.spec_to_byte()
}

/// Is the row of bytes one instruction?
pub open spec fn is_one_instr(row: Seq<u8>) -> bool {
    instr_end(row, 0) == Some(row.len() as int)
}

/// One instruction has no boundary inside.
pub proof fn lemma_one_instr_boundaries(row: Seq<u8>, pos: int)
    requires
        is_one_instr(row),
        is_boundary(row, pos),
    ensures
        pos == 0 || pos == row.len(),
        parses(row, 0, row.len() as int),
{
    lemma_instr_end_grows(row, 0);
    assert(parses(row, row.len() as int, row.len() as int));
}

/// The end of the code is a boundary that no jump crosses, where all jumps
/// lead to instructions.
pub proof fn lemma_end_is_split(code: Seq<u8>)
    requires
        parses(code, 0, code.len() as int),
        jumps_land(code),
    ensures
        split_ok(code, code.len() as int),
{
    assert forall|at: int| #[trigger] is_jump_at(code, at) implies stays_clear(
        code,
        at,
        code.len() as int,
    ) by {
        assert(lands(code, at));
    }
}

/// An instruction that is no jump, appended to the code, keeps the code in
/// order: its jumps lead to instructions, its splits stay splits, and its
/// pending jumps stay pending.
pub proof fn lemma_append_instr(code: Seq<u8>, row: Seq<u8>)
    requires
        code_ok(code),
        is_one_instr(row),
        !is_jump(CompiledOp::spec_from_byte(row[0])->0),
        code.len() + row.len() <= 32767,
    ensures
        code_ok(code + row),
        forall|split: int| #[trigger] split_ok(code, split) ==> split_ok(code + row, split),
        forall|field: int| #[trigger] pending_ok(code, field) ==> pending_ok(code + row, field),
        forall|pos: int| #[trigger] is_boundary(code, pos) ==> is_boundary(code + row, pos),
        forall|at: int|
            #[trigger] is_jump_at(code + row, at) ==> is_jump_at(code, at) && target_of(
                code + row,
                at,
            ) == target_of(code, at),
{
    let end = code.len() as int;
    let new = with_row(code, end, row);
    assert(new =~= code + row);
    lemma_one_instr_boundaries(row, 0);
    lemma_insert_row_keeps(code, end, row, end);
    assert forall|at: int| #[trigger] is_jump_at(new, at) implies is_jump_at(code, at) && at < end
        && target_of(new, at) == target_of(code, at) && lands(new, at) && new[at]
        == code[at] by {
        lemma_insert_row_only(code, end, row, at);
        if at >= end {
            lemma_one_instr_boundaries(row, at - end);
            assert(new[at] == row[at - end]);
        }
        lemma_jump_before_row(code, end, row, at);
        lemma_end_is_split(code);
    }
    assert forall|split: int| #[trigger] split_ok(code, split) implies split_ok(new, split) by {
        lemma_insert_row_keeps(code, end, row, split);
        assert forall|at: int| #[trigger] is_jump_at(new, at) implies stays_clear(new, at, split) by {
            assert(is_jump_at(code, at));
        }
    }
    assert forall|field: int| #[trigger] pending_ok(code, field) implies pending_ok(new, field) by {
        lemma_insert_row_keeps(code, end, row, field - 1);
        assert(new[field - 1] == code[field - 1]);
    }
    assert forall|pos: int| #[trigger] is_boundary(code, pos) implies is_boundary(new, pos) by {
        lemma_insert_row_keeps(code, end, row, pos);
    }
}

/// The code with the displacement at `field` set to lead to `target`.
pub open spec fn patched(code: Seq<u8>, field: int, target: int) -> Seq<u8> {
    let bytes = disp_bytes(target, field);
    code.update(field, bytes[0]).update(field + 1, bytes[1])
}

/// A pending jump that is set to lead to the end of the code keeps the
/// code in order: its jumps lead to instructions, the splits before the jump
/// stay splits, and the other pending jumps stay pending.
#[verifier::rlimit(50)]
pub proof fn lemma_patch_code(code: Seq<u8>, field: int)
    requires
        code_ok(code),
        pending_ok(code, field),
    ensures
        code_ok(patched(code, field, code.len() as int)),
        forall|split: int|
            #[trigger] split_ok(code, split) && split <= field - 1 ==> split_ok(
                patched(code, field, code.len() as int),
                split,
            ),
        forall|other: int|
            #[trigger] pending_ok(code, other) ==> pending_ok(
                patched(code, field, code.len() as int),
                other,
            ),
        forall|pos: int|
            #[trigger] is_boundary(code, pos) ==> is_boundary(
                patched(code, field, code.len() as int),
                pos,
            ),
{
    let len = code.len() as int;
    let jump = field - 1;
    let new = patched(code, field, len);
    lemma_displacement_round_trip(len, field);
    assert(new.len() == len);
    assert(new[jump] == code[jump]);
    assert(target_of(new, jump) == len);
    assert forall|pos: int| #[trigger] is_boundary(code, pos) implies is_boundary(new, pos) by {
        lemma_boundary_after_patch(code, new, jump, pos);
    }
    assert(is_boundary(code, len));
    assert(is_boundary(new, len));
    assert forall|at: int| #[trigger] is_jump_at(new, at) implies lands(new, at) && is_jump_at(
        code,
        at,
    ) && (at != jump ==> target_of(new, at) == target_of(code, at)) && new[at] == code[at] by {
        lemma_jumps_after_patch(code, new, jump, at);
        if at != jump {
            assert(lands(code, at));
            if at < jump {
                lemma_boundaries_apart(code, 0, at, jump);
                lemma_instr_end_grows(code, at);
            } else {
                lemma_boundaries_apart(code, 0, jump, at);
            }
        }
    }
    assert forall|split: int| #[trigger]
        split_ok(code, split) && split <= field - 1 implies split_ok(new, split) by {
        assert forall|at: int| #[trigger] is_jump_at(new, at) implies stays_clear(new, at, split) by {
            assert(is_jump_at(code, at));
            assert(stays_clear(code, at, split));
        }
    }
    assert forall|other: int| #[trigger] pending_ok(code, other) implies pending_ok(
        new,
        other,
    ) by {
        lemma_boundary_after_patch(code, new, jump, other - 1);
        if other - 1 != jump {
            if other - 1 < jump {
                lemma_boundaries_apart(code, 0, other - 1, jump);
                lemma_instr_end_grows(code, other - 1);
            } else {
                lemma_boundaries_apart(code, 0, jump, other - 1);
            }
        }
        assert(new[other - 1] == code[other - 1]);
    }
}

/// The code with a row inserted at `split` and another appended.
pub open spec fn wrapped(code: Seq<u8>, split: int, head: Seq<u8>, tail: Seq<u8>) -> Seq<u8> {
    with_row(code, split, head) + tail
}

/// Jumps put around the part of the code from a split on keep the code in
/// order, if they themselves lead to instructions at the split or behind
/// it: the jumps of the code lead to instructions, the splits up to this
/// one stay splits, and the pending jumps stay pending, those behind the
/// split further on.
#[verifier::rlimit(100)]
pub proof fn lemma_wrap_code(code: Seq<u8>, split: int, head: Seq<u8>, tail: Seq<u8>)
    requires
        code_ok(code),
        split_ok(code, split),
        parses(head, 0, head.len() as int),
        parses(tail, 0, tail.len() as int),
        code.len() + head.len() + tail.len() <= 32767,
        forall|at: int|
            #[trigger] is_jump_at(head, at) ==> lands(wrapped(code, split, head, tail), split + at)
                && target_of(wrapped(code, split, head, tail), split + at) >= split,
        forall|at: int|
            #[trigger] is_jump_at(tail, at) ==> lands(
                wrapped(code, split, head, tail),
                code.len() + head.len() + at,
            ) && target_of(wrapped(code, split, head, tail), code.len() + head.len() + at)
                >= split,
    ensures
        code_ok(wrapped(code, split, head, tail)),
        forall|lower: int|
            #[trigger] split_ok(code, lower) && lower <= split ==> split_ok(
                wrapped(code, split, head, tail),
                lower,
            ),
        forall|field: int|
            #[trigger] pending_ok(code, field) ==> pending_ok(
                wrapped(code, split, head, tail),
                if field >= split {
                    field + head.len()
                } else {
                    field
                },
            ),
{
    let mid = with_row(code, split, head);
    let new = wrapped(code, split, head, tail);
    let n = head.len() as int;
    let mid_len = mid.len() as int;
    assert(mid_len == code.len() + n);
    assert(new =~= with_row(mid, mid_len, tail));
    lemma_insert_row_keeps(code, split, head, code.len() as int);
    assert(is_boundary(mid, mid_len));
    lemma_insert_row_keeps(mid, mid_len, tail, mid_len);
    assert(parses(new, 0, new.len() as int));

    assert forall|at: int| #[trigger] is_jump_at(new, at) implies lands(new, at) && (at < split
        ==> is_jump_at(code, at) && target_of(new, at) == target_of(code, at) && new[at]
        == code[at]) && (at >= split ==> target_of(new, at) >= split) by {
        lemma_insert_row_only(mid, mid_len, tail, at);
        if at >= mid_len {
            assert(new[at] == tail[at - mid_len]);
            assert(new.len() == mid_len + tail.len());
            assert(is_jump_at(tail, at - mid_len));
        } else {
            lemma_jump_before_row(mid, mid_len, tail, at);
            lemma_insert_row_only(code, split, head, at);
            if at < split {
                lemma_jump_before_row(code, split, head, at);
                assert(lands(code, at));
                assert(stays_clear(code, at, split));
                assert(lands(mid, at));
                assert(target_of(mid, at) <= mid_len);
            } else if at < split + n {
                lemma_insert_row_keeps(code, split, head, split);
                lemma_boundaries_apart(mid, 0, at, split + n);
                assert(mid[at] == head[at - split]);
                assert(is_jump_at(head, at - split));
            } else {
                lemma_jump_behind_row(code, split, head, at);
                assert(lands(code, at - n));
                assert(stays_clear(code, at - n, split));
                assert(lands(mid, at));
                assert(target_of(mid, at) <= mid_len);
            }
        }
    }
    assert forall|lower: int| #[trigger]
        split_ok(code, lower) && lower <= split implies split_ok(new, lower) by {
        lemma_insert_row_keeps(code, split, head, lower);
        lemma_insert_row_keeps(mid, mid_len, tail, lower);
        assert forall|at: int| #[trigger] is_jump_at(new, at) implies stays_clear(new, at, lower) by {
            if at < split {
                assert(is_jump_at(code, at));
                assert(stays_clear(code, at, lower));
            }
        }
    }
    assert forall|field: int| #[trigger] pending_ok(code, field) implies pending_ok(
        new,
        if field >= split {
            field + n
        } else {
            field
        },
    ) by {
        let jump = field - 1;
        if jump < split {
            lemma_boundaries_apart(code, 0, jump, split);
            lemma_instr_end_grows(code, jump);
        }
        lemma_insert_row_keeps(code, split, head, jump);
        if jump >= split {
            lemma_insert_row_keeps(mid, mid_len, tail, jump + n);
            assert(new[jump + n] == code[jump]);
        } else {
            lemma_insert_row_keeps(mid, mid_len, tail, jump);
            assert(new[jump] == code[jump]);
        }
    }
}

} // verus!
