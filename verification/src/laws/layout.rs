//! The layout of the code: where its instructions begin and end.

use crate::codepoint::{char_operand, lemma_operand_round_trip, operand_at};
use crate::laws::classes::lemma_range_operands_front;
use crate::lowering::{range_operands, ClassRange};
use crate::opcodes::CompiledOp;
use vstd::prelude::*;

verus! {

/// Is the instruction a jump, with a displacement behind its opcode?
pub open spec fn is_jump(op: CompiledOp) -> bool {
    op == CompiledOp::Jump || op == CompiledOp::StarJump || op == CompiledOp::FailureJump || op
        == CompiledOp::UpdateFailureJump || op == CompiledOp::DummyFailureJump
}

/// The position behind `count` ranges that start at `pos`; `None` where an
/// operand among them is malformed.
pub open spec fn ranges_end(code: Seq<u8>, pos: int, count: nat) -> Option<int>
    decreases count,
{
    if count == 0 {
        Some(pos)
    } else {
        match operand_at(code, pos) {
            None => None,
            Some((_, mid)) => match operand_at(code, mid) {
                None => None,
                Some((_, next)) => ranges_end(code, next, (count - 1) as nat),
            },
        }
    }
}

/// The position behind the instruction that begins at `pos`; `None` where
/// no whole instruction begins there.
pub open spec fn instr_end(code: Seq<u8>, pos: int) -> Option<int> {
    if !(0 <= pos < code.len()) {
        None
    } else {
        match CompiledOp::spec_from_byte(code[pos]) {
            None => None,
            Some(op) => if is_jump(op) {
                if pos + 3 <= code.len() {
                    Some(pos + 3)
                } else {
                    None
                }
            } else if op == CompiledOp::Exact {
                match operand_at(code, pos + 1) {
                    Some((_, next)) => Some(next),
                    None => None,
                }
            } else if op == CompiledOp::CharSet {
                if pos + 3 <= code.len() {
                    ranges_end(code, pos + 3, code[pos + 2] as nat)
                } else {
                    None
                }
            } else if op.spec_arg_count() == 1 {
                if pos + 2 <= code.len() {
                    Some(pos + 2)
                } else {
                    None
                }
            } else {
                Some(pos + 1)
            },
        }
    }
}

/// Does the code from `from` up to `to` consist of whole instructions?
pub open spec fn parses(code: Seq<u8>, from: int, to: int) -> bool
    decreases to - from,
{
    if from >= to {
        from == to
    } else {
        match instr_end(code, from) {
            Some(end) => from < end <= to && parses(code, end, to),
            None => false,
        }
    }
}

/// Does an instruction begin at `pos`, or does the code end there, with
/// whole instructions before?
pub open spec fn is_boundary(code: Seq<u8>, pos: int) -> bool {
    0 <= pos <= code.len() && parses(code, 0, pos)
}

/// Do the two codes hold the same bytes from `from` up to `to` of the
/// first, which lie `shift` bytes further on in the second?
pub open spec fn same_bytes(a: Seq<u8>, b: Seq<u8>, from: int, to: int, shift: int) -> bool {
    &&& 0 <= from <= to <= a.len()
    &&& 0 <= from + shift
    &&& to + shift <= b.len()
    &&& forall|i: int| from <= i < to ==> a[i] == #[trigger] b[i + shift]
}

/// The scalar value of the operand at `pos`, where there is one.
pub open spec fn operand_value(code: Seq<u8>, pos: int) -> u32 {
    let (value, _) = operand_at(code, pos).unwrap();
    value
}

/// The position behind the operand at `pos`, where there is one.
pub open spec fn operand_end(code: Seq<u8>, pos: int) -> int {
    let (_, end) = operand_at(code, pos).unwrap();
    end
}

/// An operand is read from its own bytes and no others.
pub proof fn lemma_operand_window(a: Seq<u8>, b: Seq<u8>, pos: int, to: int, shift: int)
    requires
        same_bytes(a, b, pos, to, shift),
        operand_at(a, pos) is Some,
        operand_end(a, pos) <= to,
    ensures
        operand_at(b, pos + shift) == Some((operand_value(a, pos), operand_end(a, pos) + shift)),
{
    let n = a[pos] as int;
    assert(b[pos + shift] == a[pos]);
    let in_a = a.subrange(pos + 1, pos + 1 + n);
    let in_b = b.subrange(pos + shift + 1, pos + shift + 1 + n);
    assert forall|i: int| 0 <= i < n implies #[trigger] in_a[i] == in_b[i] by {
        assert(a[pos + 1 + i] == b[pos + 1 + i + shift]);
    }
    assert(in_a =~= in_b);
}

/// Ranges are read from their own bytes and no others.
pub proof fn lemma_ranges_end_window(
    a: Seq<u8>,
    b: Seq<u8>,
    pos: int,
    to: int,
    shift: int,
    count: nat,
)
    requires
        same_bytes(a, b, pos, to, shift),
        ranges_end(a, pos, count) is Some,
        ranges_end(a, pos, count)->0 <= to,
    ensures
        ranges_end(b, pos + shift, count) == Some(ranges_end(a, pos, count)->0 + shift),
        pos <= ranges_end(a, pos, count)->0,
    decreases count,
{
    if count > 0 {
        let mid = operand_end(a, pos);
        let next = operand_end(a, mid);
        lemma_ranges_end_grows(a, next, (count - 1) as nat);
        assert(same_bytes(a, b, mid, to, shift));
        lemma_operand_window(a, b, pos, to, shift);
        lemma_operand_window(a, b, mid, to, shift);
        assert(same_bytes(a, b, next, to, shift));
        lemma_ranges_end_window(a, b, next, to, shift, (count - 1) as nat);
    }
}

/// Ranges end behind the position at which they begin.
pub proof fn lemma_ranges_end_grows(code: Seq<u8>, pos: int, count: nat)
    ensures
        ranges_end(code, pos, count) is Some ==> pos <= ranges_end(code, pos, count)->0,
    decreases count,
{
    if count > 0 && ranges_end(code, pos, count) is Some {
        let mid = operand_end(code, pos);
        let next = operand_end(code, mid);
        lemma_ranges_end_grows(code, next, (count - 1) as nat);
    }
}

/// Ranges end inside the code.
pub proof fn lemma_ranges_end_inside(code: Seq<u8>, pos: int, count: nat)
    requires
        pos <= code.len(),
    ensures
        ranges_end(code, pos, count) is Some ==> ranges_end(code, pos, count)->0 <= code.len(),
    decreases count,
{
    if count > 0 && ranges_end(code, pos, count) is Some {
        let mid = operand_end(code, pos);
        let next = operand_end(code, mid);
        lemma_ranges_end_inside(code, next, (count - 1) as nat);
    }
}

/// An instruction ends behind the position at which it begins, inside the
/// code.
pub proof fn lemma_instr_end_grows(code: Seq<u8>, pos: int)
    ensures
        instr_end(code, pos) is Some ==> pos < instr_end(code, pos)->0 <= code.len(),
{
    if instr_end(code, pos) is Some {
        if code[pos] == CompiledOp::CharSet.spec_to_byte() {
            lemma_ranges_end_grows(code, pos + 3, code[pos + 2] as nat);
            lemma_ranges_end_inside(code, pos + 3, code[pos + 2] as nat);
        }
    }
}

/// An instruction is read from its own bytes and no others.
pub proof fn lemma_instr_end_window(a: Seq<u8>, b: Seq<u8>, pos: int, to: int, shift: int)
    requires
        same_bytes(a, b, pos, to, shift),
        instr_end(a, pos) is Some,
        instr_end(a, pos)->0 <= to,
    ensures
        instr_end(b, pos + shift) == Some(instr_end(a, pos)->0 + shift),
{
    lemma_instr_end_grows(a, pos);
    assert(b[pos + shift] == a[pos]);
    let op = CompiledOp::spec_from_byte(a[pos])->0;
    if op == CompiledOp::Exact {
        assert(same_bytes(a, b, pos + 1, to, shift));
        lemma_operand_window(a, b, pos + 1, to, shift);
    } else if op == CompiledOp::CharSet {
        lemma_ranges_end_grows(a, pos + 3, a[pos + 2] as nat);
        assert(b[pos + 2 + shift] == a[pos + 2]);
        assert(same_bytes(a, b, pos + 3, to, shift));
        lemma_ranges_end_window(a, b, pos + 3, to, shift, a[pos + 2] as nat);
    }
}

/// A row of instructions is read from its own bytes and no others.
pub proof fn lemma_parses_window(a: Seq<u8>, b: Seq<u8>, from: int, to: int, shift: int)
    requires
        same_bytes(a, b, from, to, shift),
        parses(a, from, to),
    ensures
        parses(b, from + shift, to + shift),
    decreases to - from,
{
    if from < to {
        let end = instr_end(a, from)->0;
        lemma_instr_end_window(a, b, from, to, shift);
        assert(same_bytes(a, b, end, to, shift));
        lemma_parses_window(a, b, end, to, shift);
    }
}

/// Two rows of instructions, one behind the other, are a row of
/// instructions.
pub proof fn lemma_parses_join(code: Seq<u8>, from: int, mid: int, to: int)
    requires
        parses(code, from, mid),
        parses(code, mid, to),
    ensures
        parses(code, from, to),
    decreases mid - from,
{
    if from < mid {
        lemma_parses_grows(code, mid, to);
        lemma_parses_join(code, instr_end(code, from)->0, mid, to);
    }
}

/// A row of instructions does not end before it begins.
pub proof fn lemma_parses_grows(code: Seq<u8>, from: int, to: int)
    requires
        parses(code, from, to),
    ensures
        from <= to,
{
}

/// No instruction begins inside another: of two rows of instructions that
/// begin at the same position, the longer goes on from the end of the
/// shorter.
pub proof fn lemma_parses_split(code: Seq<u8>, from: int, mid: int, to: int)
    requires
        parses(code, from, mid),
        parses(code, from, to),
        mid <= to,
    ensures
        parses(code, mid, to),
    decreases mid - from,
{
    if from < mid {
        lemma_parses_split(code, instr_end(code, from)->0, mid, to);
    }
}

/// No instruction begins inside another: a boundary behind the beginning
/// of an instruction lies at its end or further on.
pub proof fn lemma_boundaries_apart(code: Seq<u8>, from: int, one: int, other: int)
    requires
        parses(code, from, one),
        parses(code, from, other),
        one < other,
    ensures
        instr_end(code, one) is Some,
        instr_end(code, one)->0 <= other,
    decreases one - from,
{
    if from < one {
        lemma_boundaries_apart(code, instr_end(code, from)->0, one, other);
    }
}

/// The code with the row of bytes inserted at `at`.
pub open spec fn with_row(code: Seq<u8>, at: int, row: Seq<u8>) -> Seq<u8> {
    code.subrange(0, at) + row + code.subrange(at, code.len() as int)
}

/// A row of instructions inserted at a boundary leaves whole instructions
/// before and behind it: every boundary before it stays, and every boundary
/// behind it moves up by the length of the row.
pub proof fn lemma_insert_row_keeps(code: Seq<u8>, at: int, row: Seq<u8>, pos: int)
    requires
        is_boundary(code, at),
        parses(row, 0, row.len() as int),
        is_boundary(code, pos),
    ensures
        pos <= at ==> is_boundary(with_row(code, at, row), pos),
        pos >= at ==> is_boundary(with_row(code, at, row), pos + row.len()),
{
    let new = with_row(code, at, row);
    let n = row.len() as int;
    assert(same_bytes(code, new, 0, at, 0));
    lemma_parses_window(code, new, 0, at, 0);
    if pos <= at {
        assert(same_bytes(code, new, 0, pos, 0));
        lemma_parses_window(code, new, 0, pos, 0);
    }
    if pos >= at {
        assert(same_bytes(row, new, 0, n, at)) by {
            assert forall|i: int| 0 <= i < n implies row[i] == #[trigger] new[i + at] by {}
        }
        lemma_parses_window(row, new, 0, n, at);
        lemma_parses_join(new, 0, at, at + n);
        lemma_parses_split(code, 0, at, pos);
        assert(same_bytes(code, new, at, pos, n)) by {
            assert forall|i: int| at <= i < pos implies code[i] == #[trigger] new[i + n] by {}
        }
        lemma_parses_window(code, new, at, pos, n);
        lemma_parses_join(new, 0, at + n, pos + n);
    }
}

/// The boundaries of code with a row of instructions inserted at a
/// boundary are the boundaries before the row, those of the row, and those
/// behind it, moved up.
pub proof fn lemma_insert_row_only(code: Seq<u8>, at: int, row: Seq<u8>, pos: int)
    requires
        is_boundary(code, at),
        parses(row, 0, row.len() as int),
        is_boundary(with_row(code, at, row), pos),
    ensures
        pos <= at ==> is_boundary(code, pos),
        at <= pos <= at + row.len() ==> is_boundary(row, pos - at),
        pos >= at + row.len() ==> is_boundary(code, pos - row.len()),
{
    let new = with_row(code, at, row);
    let n = row.len() as int;
    lemma_insert_row_keeps(code, at, row, at);
    if pos <= at {
        assert(same_bytes(new, code, 0, pos, 0));
        lemma_parses_window(new, code, 0, pos, 0);
    }
    if at <= pos {
        lemma_parses_split(new, 0, at, pos);
        if pos <= at + n {
            assert(same_bytes(new, row, at, pos, -at)) by {
                assert forall|i: int| at <= i < pos implies new[i] == #[trigger] row[i + (-at)] by {}
            }
            lemma_parses_window(new, row, at, pos, -at);
        } else {
            lemma_parses_split(new, 0, at + n, pos);
            assert(same_bytes(new, code, at + n, pos, -n)) by {
                assert forall|i: int| at + n <= i < pos implies new[i] == #[trigger] code[i
                    + (-n)] by {}
            }
            lemma_parses_window(new, code, at + n, pos, -n);
            lemma_parses_join(code, 0, at, pos - n);
        }
    }
}

/// A new displacement in a jump leaves every instruction where it was.
pub proof fn lemma_patch_keeps(code: Seq<u8>, new: Seq<u8>, jump: int, from: int, to: int)
    requires
        new.len() == code.len(),
        0 <= jump,
        jump + 3 <= code.len(),
        CompiledOp::spec_from_byte(code[jump]) is Some,
        is_jump(CompiledOp::spec_from_byte(code[jump])->0),
        forall|i: int| 0 <= i < code.len() && i != jump + 1 && i != jump + 2 ==> code[i] == new[i],
        0 <= from,
        parses(code, from, jump) || jump + 3 <= from,
        parses(code, from, to),
    ensures
        parses(new, from, to),
    decreases to - from,
{
    if from < to {
        let end = instr_end(code, from)->0;
        lemma_instr_end_grows(code, from);
        if from == jump {
            assert(instr_end(new, from) == Some(from + 3));
        } else {
            if from < jump {
                assert(end <= jump);
            }
            lemma_parses_grows(code, end, to);
            assert forall|i: int| from <= i < end implies code[i] == #[trigger] new[i + 0] by {
                assert(i != jump + 1 && i != jump + 2);
            }
            assert(same_bytes(code, new, from, end, 0));
            lemma_instr_end_window(code, new, from, end, 0);
        }
        lemma_patch_keeps(code, new, jump, end, to);
    }
}

/// The ranges that the compiler wrote are whole.
pub proof fn lemma_ranges_end_written(before: Seq<u8>, ranges: Seq<ClassRange>, after: Seq<u8>)
    ensures
        ranges_end(before + range_operands(ranges) + after, before.len() as int, ranges.len())
            == Some((before.len() + range_operands(ranges).len()) as int),
    decreases ranges.len(),
{
    let code = before + range_operands(ranges) + after;
    if ranges.len() > 0 {
        let low = char_operand(ranges[0].0);
        let high = char_operand(ranges[0].1);
        let rest = ranges.drop_first();
        lemma_range_operands_front(ranges);
        assert(code =~= before + low + (high + range_operands(rest) + after));
        lemma_operand_round_trip(before, ranges[0].0, high + range_operands(rest) + after);
        assert(code =~= (before + low) + high + (range_operands(rest) + after));
        lemma_operand_round_trip(before + low, ranges[0].1, range_operands(rest) + after);
        assert(code =~= (before + low + high) + range_operands(rest) + after);
        lemma_ranges_end_written(before + low + high, rest, after);
    }
}

} // verus!
