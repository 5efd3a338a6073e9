//! Rounds of the compiler: what the rounds over a row of atoms and the
//! rounds that read a parenthesis or a closing `+` or `*` do to its state.

use crate::laws::atoms::{atoms_code, Atom};
use crate::laws::plain::{
    agree, atom_end, atom_read, atoms_between, lemma_atoms_between_window, lemma_round_atom,
    plain_atoms,
};
use crate::laws::repetition::{one_then_star_code, plus_code, star_loop_code};
use crate::lowering::{disp_bytes, lemma_round_advances, plain_op, Emitter, Source};
use crate::opcodes::{CompiledOp, SyntaxOp};
use crate::RegexError;
use vstd::prelude::*;

verus! {

/// The state of the compiler after the rounds that take it from this state
/// up to `stop` in the pattern, or up to the first round that fails.
pub open spec fn rounds_until(e: Emitter, src: Source, stop: int) -> Emitter
    decreases
            (if e.pos < stop {
                stop - e.pos
            } else {
                0
            }),
{
    if e.pos >= stop {
        e
    } else {
        match e.round(src) {
            Err(_) => e,
            Ok(next) => {
                proof {
                    lemma_round_advances(e, src);
                }
                rounds_until(next, src, stop)
            },
        }
    }
}

/// The compiler ends with the same code from a state and from the state
/// that its rounds lead to further on in the pattern.
pub proof fn lemma_finish_after_rounds(e: Emitter, src: Source, stop: int)
    requires
        e.pos <= stop <= src.pattern.len(),
        rounds_until(e, src, stop).pos == stop,
    ensures
        e.finish(src) == rounds_until(e, src, stop).finish(src),
    decreases stop - e.pos,
{
    if e.pos < stop {
        lemma_round_advances(e, src);
        let next = e.round(src)->Ok_0;
        if next.pos > stop {
            lemma_rounds_stay(next, src, stop);
        }
        lemma_finish_after_rounds(next, src, stop);
    }
}

/// Rounds do not take the compiler back in the pattern.
pub proof fn lemma_rounds_stay(e: Emitter, src: Source, stop: int)
    ensures
        rounds_until(e, src, stop).pos >= e.pos,
    decreases
            (if e.pos < stop {
                stop - e.pos
            } else {
                0
            }),
{
    if e.pos < stop && e.round(src) is Ok {
        lemma_round_advances(e, src);
        lemma_rounds_stay(e.round(src)->Ok_0, src, stop);
    }
}

/// The rounds over a row of atoms append the code for the atoms and leave
/// the compiler at the level of single characters. Nothing else changes but
/// level starts of levels above the one the compiler came from.
#[verifier::rlimit(50)]
pub proof fn lemma_rounds_atoms(e: Emitter, src: Source, stop: int, atoms: Seq<Atom>)
    requires
        atoms_between(src, e.pos, stop) == Some(atoms),
        stop <= src.pattern.len(),
        0 <= e.current_level <= 4,
        e.starts.len() == 500,
        0 <= e.starts_base <= 495,
    ensures
        rounds_until(e, src, stop) == (Emitter {
            pos: stop,
            buffer: e.buffer + atoms_code(atoms),
            starts: rounds_until(e, src, stop).starts,
            current_level: if atoms.len() == 0 {
                e.current_level
            } else {
                4
            },
            beginning_context: if atoms.len() == 0 {
                e.beginning_context
            } else {
                false
            },
            ..e
        }),
        rounds_until(e, src, stop).starts.len() == 500,
        forall|i: int|
            0 <= i <= e.starts_base + e.current_level && i < e.starts_base + 4 ==> rounds_until(
                e,
                src,
                stop,
            ).starts[i] == e.starts[i],
        forall|i: int|
            0 <= i < e.starts_base + 4 ==> rounds_until(e, src, stop).starts[i] == e.starts[i]
                || rounds_until(e, src, stop).starts[i] == e.buffer.len() as usize,
        atoms.len() > 0 ==> forall|i: int|
            e.starts_base + e.current_level < i < e.starts_base + 4 ==> rounds_until(
                e,
                src,
                stop,
            ).starts[i] == e.buffer.len() as usize,
    decreases stop - e.pos,
{
    if e.pos < stop {
        lemma_round_atom(e, src);
        let atom = atom_read(src, e.pos);
        let next = e.round(src)->Ok_0;
        let rest = atoms_between(src, atom_end(src, e.pos), stop)->0;
        assert(atoms == seq![atom] + rest);
        assert(atoms[0] == atom);
        assert(atoms.drop_first() =~= rest);
        lemma_rounds_atoms(next, src, stop, rest);
        assert(e.buffer + atoms_code(atoms) =~= next.buffer + atoms_code(rest));
        let done = rounds_until(e, src, stop);
        assert(done == rounds_until(next, src, stop));
        assert forall|i: int|
            0 <= i <= e.starts_base + e.current_level && i < e.starts_base + 4 implies done.starts[i]
            == e.starts[i] by {
            assert(next.starts[i] == e.starts[i]);
            assert(done.starts[i] == next.starts[i]);
        }
        assert forall|i: int| 0 <= i < e.starts_base + 4 implies done.starts[i] == e.starts[i]
            || done.starts[i] == e.buffer.len() as usize by {
            assert(rounds_until(next, src, stop).starts[i] == next.starts[i]);
            assert(next.starts[i] == e.starts[i] || next.starts[i] == e.buffer.len() as usize);
        }
        assert forall|i: int|
            e.starts_base + e.current_level < i < e.starts_base + 4 implies done.starts[i]
            == e.buffer.len() as usize by {
            assert(rounds_until(next, src, stop).starts[i] == next.starts[i]);
            assert(next.starts[i] == e.buffer.len() as usize);
        }
    } else {
        assert(atoms =~= Seq::<Atom>::empty());
        assert(e.buffer + atoms_code(atoms) =~= e.buffer);
    }
}

/// The round that reads an opening parenthesis: the group gets the next
/// register, the instruction that opens it is appended, and the levels start
/// anew inside it.
#[verifier::rlimit(50)]
pub proof fn lemma_round_open(e: Emitter, src: Source)
    requires
        src.translate is None,
        0 <= e.pos < src.pattern.len(),
        src.pattern[e.pos] == '(',
        !src.syntax.needs_backslash_parens(),
        0 <= e.current_level <= 4,
        e.starts.len() == 500,
        e.open_registers.len() == 100,
        0 <= e.starts_base < 495,
        1 <= e.next_register < 100,
        0 <= e.num_open_registers < 100,
        e.buffer.len() + 2 <= usize::MAX,
    ensures
        e.round(src) is Ok,
        e.round(src)->Ok_0 == (Emitter {
            pos: e.pos + 1,
            buffer: e.buffer + seq![CompiledOp::StartMemory.spec_to_byte(), e.next_register as u8],
            starts: e.round(src)->Ok_0.starts,
            starts_base: e.starts_base + 5,
            current_level: 0,
            next_register: e.next_register + 1,
            paren_depth: e.paren_depth + 1,
            num_open_registers: e.num_open_registers + 1,
            open_registers: e.open_registers.update(e.num_open_registers, e.next_register as u8),
            beginning_context: true,
            ..e
        }),
        e.round(src)->Ok_0.starts.len() == 500,
        e.round(src)->Ok_0.starts[e.starts_base + 4] == e.buffer.len(),
        forall|i: int|
            0 <= i <= e.starts_base + e.current_level && i < e.starts_base + 4 ==> e.round(
                src,
            )->Ok_0.starts[i] == e.starts[i],
        forall|i: int|
            0 <= i < e.starts_base + 4 ==> e.round(src)->Ok_0.starts[i] == e.starts[i] || e.round(
                src,
            )->Ok_0.starts[i] == e.buffer.len() as usize,
        forall|i: int|
            e.starts_base + e.current_level < i <= e.starts_base + 4 ==> e.round(
                src,
            )->Ok_0.starts[i] == e.buffer.len() as usize,
{
    assert(plain_op(src.syntax, '(' as u32) == SyntaxOp::OpenPar);
    assert(src.read_op(e.pos) == Ok::<(SyntaxOp, char, int), RegexError>(
        (SyntaxOp::OpenPar, '(', e.pos + 1),
    ));
    let moved = Emitter { pos: e.pos + 1, ..e };
    let levelled = moved.handle_precedence(4);
    assert(levelled.buffer == e.buffer);
    assert(levelled.process(src, SyntaxOp::OpenPar, '(') == levelled.open_group());
    let done = levelled.open_group()->Ok_0;
    assert(levelled.open_group() is Ok);
    assert(done.buffer =~= e.buffer + seq![6u8, e.next_register as u8]);
}

/// The round that reads the closing parenthesis of a group that has a
/// register, with no jump pending inside the group: the instruction that
/// closes the group is appended, and the levels of the enclosing group are
/// back, at the level of single characters.
#[verifier::rlimit(50)]
pub proof fn lemma_round_close(e: Emitter, src: Source)
    requires
        src.translate is None,
        0 <= e.pos < src.pattern.len(),
        src.pattern[e.pos] == ')',
        !src.syntax.needs_backslash_parens(),
        0 <= e.current_level <= 4,
        e.starts.len() == 500,
        e.open_registers.len() == 100,
        5 <= e.starts_base <= 495,
        e.paren_depth >= 1,
        e.num_open_registers == e.paren_depth,
        e.num_open_registers <= 100,
        e.num_jumps == 0 || e.current_level <= 1 || e.future_jumps[e.num_jumps - 1]
            < e.starts[e.starts_base + 1],
    ensures
        e.round(src) is Ok,
        e.round(src)->Ok_0 == (Emitter {
            pos: e.pos + 1,
            buffer: e.buffer + seq![
                CompiledOp::EndMemory.spec_to_byte(),
                e.open_registers[e.num_open_registers - 1],
            ],
            starts: e.round(src)->Ok_0.starts,
            starts_base: e.starts_base - 5,
            current_level: 4,
            paren_depth: e.paren_depth - 1,
            num_open_registers: e.num_open_registers - 1,
            beginning_context: false,
            ..e
        }),
        e.round(src)->Ok_0.starts.len() == 500,
        forall|i: int|
            0 <= i < e.starts_base ==> e.round(src)->Ok_0.starts[i] == e.starts[i],
{
    assert(plain_op(src.syntax, ')' as u32) == SyntaxOp::ClosePar);
    assert(src.read_op(e.pos) == Ok::<(SyntaxOp, char, int), RegexError>(
        (SyntaxOp::ClosePar, ')', e.pos + 1),
    ));
    let moved = Emitter { pos: e.pos + 1, ..e };
    let levelled = moved.handle_precedence(1);
    if e.current_level > 1 {
        let lowered = Emitter { current_level: 1, ..moved };
        assert(lowered.patch_pending() == lowered);
    }
    assert(levelled.buffer == e.buffer);
    assert(levelled.num_jumps == e.num_jumps);
    assert(levelled.future_jumps == e.future_jumps);
    assert(levelled.process(src, SyntaxOp::ClosePar, ')') == Ok::<Emitter, RegexError>(
        levelled.close_group(src),
    ));
    let done = levelled.close_group(src);
    assert(done.buffer =~= e.buffer + seq![7u8, e.open_registers[e.num_open_registers - 1]]);
}

/// Rounds up to a position and on from there are the rounds up to the
/// position further on.
pub proof fn lemma_rounds_join(e: Emitter, src: Source, mid: int, stop: int)
    requires
        mid <= stop,
        rounds_until(e, src, mid).pos == mid,
    ensures
        rounds_until(e, src, stop) == rounds_until(rounds_until(e, src, mid), src, stop),
    decreases
            (if e.pos < mid {
                mid - e.pos
            } else {
                0
            }),
{
    if e.pos < mid {
        lemma_round_advances(e, src);
        let next = e.round(src)->Ok_0;
        lemma_rounds_stay(next, src, mid);
        lemma_rounds_join(next, src, mid, stop);
    } else {
        lemma_rounds_stay(e, src, mid);
    }
}

/// The pattern in parentheses.
pub open spec fn grouped(inside: Seq<char>) -> Seq<char> {
    seq!['('] + inside + seq![')']
}

/// The atoms of a plain pattern are read alike where the pattern stands
/// inside another.
pub proof fn lemma_atoms_inside(inside: Seq<char>, src: Source, shift: int)
    requires
        plain_atoms(inside, src.syntax) is Some,
        src.translate is None,
        0 <= shift,
        shift + inside.len() <= src.pattern.len(),
        forall|i: int| 0 <= i < inside.len() ==> inside[i] == #[trigger] src.pattern[i + shift],
    ensures
        atoms_between(src, shift, shift + inside.len()) == plain_atoms(inside, src.syntax),
{
    let alone = Source { pattern: inside, syntax: src.syntax, translate: None };
    assert(agree(alone, src, 0, inside.len() as int, shift));
    lemma_atoms_between_window(alone, src, 0, inside.len() as int, shift);
}

/// A `+` that ends the pattern, behind an expression that is all of the
/// code so far: the code of the pattern is the loop over the expression,
/// entered behind its failure jump.
pub proof fn lemma_finish_plus(e: Emitter, src: Source)
    requires
        src.translate is None,
        !src.syntax.needs_backslash_plus_qm(),
        0 <= e.pos,
        e.pos + 1 == src.pattern.len(),
        src.pattern[e.pos] == '+',
        e.current_level == 4,
        e.starts_base == 0,
        e.num_jumps == 0,
        !e.beginning_context,
        e.starts.len() == 500,
        e.starts[4] == 0,
        0 < e.buffer.len(),
        e.buffer.len() + 9 <= usize::MAX,
    ensures
        e.finish(src) == Ok::<Seq<u8>, RegexError>(plus_code(e.buffer)),
{
    let code = e.buffer;
    let n = code.len() as int;
    let end = e.pos;
    assert(plain_op(src.syntax, '+' as u32) == SyntaxOp::Plus);
    assert(src.read_op(end) == Ok::<(SyntaxOp, char, int), RegexError>(
        (SyntaxOp::Plus, '+', end + 1),
    ));
    let at = Emitter { pos: end + 1, ..e };
    let first = at.insert_jump(0, CompiledOp::FailureJump, n + 6);
    let second = first.insert_jump(n + 3, CompiledOp::StarJump, 0);
    let third = second.insert_jump(0, CompiledOp::DummyFailureJump, 6);
    assert(first.buffer =~= seq![11u8] + disp_bytes(n + 6, 1) + code);
    assert(second.buffer =~= seq![11u8] + disp_bytes(n + 6, 1) + code + seq![10u8] + disp_bytes(
        0,
        n + 4,
    ));
    assert(third.buffer =~= seq![13u8] + disp_bytes(6, 1) + star_loop_code(code));
    assert(e.round(src) is Ok);
    let done = e.round(src)->Ok_0;
    assert(done.buffer == third.buffer);
    assert(done.pos == end + 1 && done.num_jumps == 0);
    assert(e.finish(src) == done.finish(src));
    assert(done.finish(src) == Ok::<Seq<u8>, RegexError>(done.buffer.push(0u8)));
    assert(done.buffer.push(0u8) =~= plus_code(code));
}

/// A `*` that ends the pattern, behind an expression that is the last part
/// of the code so far: the code of the pattern is the part before the
/// expression and the loop over the expression.
pub proof fn lemma_finish_star(e: Emitter, src: Source, first: Seq<u8>, second: Seq<u8>)
    requires
        src.translate is None,
        0 <= e.pos,
        e.pos + 1 == src.pattern.len(),
        src.pattern[e.pos] == '*',
        e.current_level == 4,
        e.starts_base == 0,
        e.num_jumps == 0,
        !e.beginning_context,
        e.starts.len() == 500,
        e.buffer == first + second,
        e.starts[4] == first.len(),
        0 < second.len(),
        e.buffer.len() + 9 <= usize::MAX,
    ensures
        e.finish(src) == Ok::<Seq<u8>, RegexError>(one_then_star_code(first, second)),
{
    let n = first.len() as int;
    let k = second.len() as int;
    let end = e.pos;
    assert(plain_op(src.syntax, '*' as u32) == SyntaxOp::Star);
    assert(src.read_op(end) == Ok::<(SyntaxOp, char, int), RegexError>(
        (SyntaxOp::Star, '*', end + 1),
    ));
    let at = Emitter { pos: end + 1, ..e };
    let one = at.insert_jump(n, CompiledOp::FailureJump, n + k + 6);
    let two = one.insert_jump(n + k + 3, CompiledOp::StarJump, n);
    assert(e.buffer.subrange(0, n) =~= first);
    assert(e.buffer.subrange(n, n + k) =~= second);
    assert(disp_bytes(n + k + 6, n + 1) == disp_bytes(k + 6, 1));
    assert(disp_bytes(n, n + k + 4) == disp_bytes(0, k + 4));
    assert(one.buffer =~= first + seq![11u8] + disp_bytes(k + 6, 1) + second);
    assert(two.buffer =~= first + star_loop_code(second));
    assert(e.round(src) is Ok);
    let done = e.round(src)->Ok_0;
    assert(done.buffer == two.buffer);
    assert(done.pos == end + 1 && done.num_jumps == 0);
    assert(e.finish(src) == done.finish(src));
    assert(done.finish(src) == Ok::<Seq<u8>, RegexError>(done.buffer.push(0u8)));
    assert(done.buffer.push(0u8) =~= one_then_star_code(first, second));
}

} // verus!
