//! Alternation of two plain patterns: what the compiler emits for it, what
//! the machine does with that code, and the law that follows for the search.

use crate::laws::atoms::{
    advance_all, all_fit, atoms_agreement, atoms_code, atoms_hold, atoms_width, fallen_back,
    lemma_advance_all, lemma_atoms_hold_inside, lemma_run_atoms_code, lemma_run_out_of_atoms,
    lemma_run_through_atoms, Atom,
};
use crate::laws::plain::{
    agree, atom_end, atom_read, atoms_between, lemma_atoms_between_window, lemma_compiled_plain,
    lemma_round_atom, plain_atoms,
};
use crate::laws::search::lemma_first_match_exists;
use crate::laws::wire::lemma_displacement_round_trip;
use crate::lowering::{compiled, disp_bytes, plain_op, precedence, Emitter, Source};
use crate::matcher::job_of;
use crate::opcodes::{CompiledOp, SyntaxOp};
use crate::semantics::{displacement_at, FailurePoint, Job, Machine, Step};
use crate::syntax::SyntaxFlags;
use crate::{ExecLimits, Regex, RegexError};
use vstd::prelude::*;

verus! {

/// The failure jump that opens an alternation whose first alternative has
/// the given code.
pub open spec fn alternation_head(first: Seq<u8>) -> Seq<u8> {
    seq![CompiledOp::FailureJump.spec_to_byte()] + disp_bytes(first.len() as int + 6, 1)
}

/// The jump that ends the first alternative.
pub open spec fn alternation_middle(first: Seq<u8>, second: Seq<u8>) -> Seq<u8> {
    seq![CompiledOp::Jump.spec_to_byte()] + disp_bytes(
        first.len() as int + 6 + second.len(),
        first.len() as int + 4,
    )
}

/// The code for the alternation of two alternatives with the given codes:
/// a failure jump to the second, the first, a jump to the end, the second,
/// and `End`.
pub open spec fn alternation_code(first: Seq<u8>, second: Seq<u8>) -> Seq<u8> {
    alternation_head(first) + first + alternation_middle(first, second) + second
        + seq![CompiledOp::End.spec_to_byte()]
}

/// The parts of the code for an alternation, and where its jumps lead:
/// the failure jump to the second alternative, the jump to `End`.
#[verifier::rlimit(50)]
pub proof fn lemma_alternation_code_layout(first: Seq<u8>, second: Seq<u8>)
    requires
        first.len() + second.len() + 7 <= 32767,
    ensures
        alternation_head(first).len() == 3,
        alternation_middle(first, second).len() == 3,
        alternation_code(first, second) == alternation_head(first) + first + (alternation_middle(
            first,
            second,
        ) + second + seq![CompiledOp::End.spec_to_byte()]),
        alternation_code(first, second) == (alternation_head(first) + first + alternation_middle(
            first,
            second,
        )) + second + seq![CompiledOp::End.spec_to_byte()],
        alternation_code(first, second).len() == first.len() + second.len() + 7,
        alternation_code(first, second)[0] == CompiledOp::FailureJump.spec_to_byte(),
        displacement_at(alternation_code(first, second), 1) == Some(first.len() as int + 3),
        alternation_code(first, second)[first.len() as int + 3] == CompiledOp::Jump.spec_to_byte(),
        displacement_at(alternation_code(first, second), first.len() as int + 4) == Some(
            second.len() as int,
        ),
        alternation_code(first, second)[first.len() as int + second.len() + 6]
            == CompiledOp::End.spec_to_byte(),
{
    let la = first.len() as int;
    let lb = second.len() as int;
    let code = alternation_code(first, second);
    let head = alternation_head(first);
    let middle = alternation_middle(first, second);
    lemma_displacement_round_trip(la + 6, 1);
    lemma_displacement_round_trip(la + 6 + lb, la + 4);
    assert(head.len() == 3);
    assert(middle.len() == 3);
    assert(code =~= head + first + (middle + second + seq![0u8]));
    assert(code =~= (head + first + middle) + second + seq![0u8]);
    assert(code.len() == la + lb + 7);
    assert(code[0] == 11u8);
    assert(code[1] == disp_bytes(la + 6, 1)[0]);
    assert(code[2] == disp_bytes(la + 6, 1)[1]);
    assert(code[la + 3] == 9u8);
    assert(code[la + 4] == disp_bytes(la + 6 + lb, la + 4)[0]);
    assert(code[la + 5] == disp_bytes(la + 6 + lb, la + 4)[1]);
    assert(code[la + 6 + lb] == 0u8);
}

/// The run of the second alternative, to which the machine has fallen
/// back with an empty stack: it matches where the text holds its atoms.
#[verifier::rlimit(50)]
pub proof fn lemma_run_second_alternative(
    job: Job,
    a: Seq<Atom>,
    b: Seq<Atom>,
    m: Machine,
    ticks: int,
)
    requires
        job.code == alternation_code(atoms_code(a), atoms_code(b)),
        job.translate is None,
        all_fit(b),
        m.stack.len() == 0,
        m.code_pos == atoms_code(a).len() + 6,
        0 <= m.text_pos <= job.text.len() <= usize::MAX,
        job.limits.max_failures > 1,
        0 <= ticks,
        ticks + b.len() + 2 < job.limits.tick_limit(),
        atoms_code(a).len() + atoms_code(b).len() + 7 <= 32767,
    ensures
        job.run(m, ticks).result == if atoms_hold(job.text, m.text_pos, b) {
            Ok::<Option<usize>, RegexError>(Some((m.text_pos + atoms_width(b)) as usize))
        } else {
            Ok::<Option<usize>, RegexError>(None)
        },
{
    let first = atoms_code(a);
    let second = atoms_code(b);
    let la = first.len() as int;
    let lb = second.len() as int;
    lemma_alternation_code_layout(first, second);
    let before = alternation_head(first) + first + alternation_middle(first, second);
    if atoms_hold(job.text, m.text_pos, b) {
        lemma_atoms_hold_inside(job.text, m.text_pos, b);
        lemma_run_through_atoms(job, m, ticks, before, b, seq![0u8]);
        lemma_advance_all(m, b);
        let end = advance_all(m, b);
        assert(job.step(end) == Step::Halt(Ok(Some((m.text_pos + atoms_width(b)) as usize))));
    } else {
        lemma_run_out_of_atoms(job, m, ticks, before, b, seq![0u8]);
    }
}

/// The run of the code for the alternation of two rows of atoms matches
/// where the text holds the first, and otherwise where it holds the second.
#[verifier::rlimit(50)]
pub proof fn lemma_run_alternation_code(job: Job, a: Seq<Atom>, b: Seq<Atom>, pos: int)
    requires
        job.code == alternation_code(atoms_code(a), atoms_code(b)),
        job.translate is None,
        all_fit(a),
        all_fit(b),
        0 <= pos <= job.text.len() <= usize::MAX,
        job.limits.max_failures > 1,
        a.len() + b.len() + 5 < job.limits.tick_limit(),
        atoms_code(a).len() + atoms_code(b).len() + 7 <= 32767,
    ensures
        job.run_at(pos).result == if atoms_hold(job.text, pos, a) {
            Ok::<Option<usize>, RegexError>(Some((pos + atoms_width(a)) as usize))
        } else if atoms_hold(job.text, pos, b) {
            Ok::<Option<usize>, RegexError>(Some((pos + atoms_width(b)) as usize))
        } else {
            Ok::<Option<usize>, RegexError>(None)
        },
{
    let first = atoms_code(a);
    let second = atoms_code(b);
    let la = first.len() as int;
    let lb = second.len() as int;
    lemma_alternation_code_layout(first, second);
    let head = alternation_head(first);
    let after = alternation_middle(first, second) + second + seq![0u8];
    let m0 = Job::start(pos);
    assert(m0.stack.len() == 0);
    let point = FailurePoint { text_pos: pos as usize, code_pos: (la + 6) as usize };
    let m1 = Machine { code_pos: 3, stack: m0.stack.push(point), ..m0 };
    assert(job.step(m0) == Step::Next(m1));
    assert(job.run(m0, 0) == job.run(m1, 1));
    if atoms_hold(job.text, pos, a) {
        lemma_atoms_hold_inside(job.text, pos, a);
        lemma_run_through_atoms(job, m1, 1, head, a, after);
        lemma_advance_all(m1, a);
        let m2 = advance_all(m1, a);
        let m3 = Machine { code_pos: la + 6 + lb, ..m2 };
        assert(job.step(m2) == Step::Next(m3));
        assert(job.step(m3) == Step::Halt(Ok(Some((pos + atoms_width(a)) as usize))));
        assert(job.run(m2, 1 + a.len() as int) == job.run(m3, 2 + a.len() as int));
    } else {
        lemma_run_out_of_atoms(job, m1, 1, head, a, after);
        let passed = advance_all(m1, a.take(atoms_agreement(job.text, pos, a)));
        lemma_advance_all(m1, a.take(atoms_agreement(job.text, pos, a)));
        let m2 = fallen_back(passed);
        assert(m2.stack =~= m0.stack);
        lemma_run_second_alternative(job, a, b, m2, 1 + atoms_agreement(job.text, pos, a) + 1);
    }
}

/// The code with the displacement at `field` set to lead to the end of the
/// code.
pub open spec fn closed_at(code: Seq<u8>, field: int) -> Seq<u8> {
    let bytes = disp_bytes(code.len() as int, field);
    code.update(field, bytes[0]).update(field + 1, bytes[1])
}

/// From a state with one pending jump, the rest of a pattern that is a row
/// of atoms compiles to the code for the atoms, with the jump set to lead
/// behind them, and `End`.
#[verifier::rlimit(50)]
pub proof fn lemma_finish_after_bar(e: Emitter, src: Source, field: int, atoms: Seq<Atom>)
    requires
        atoms_between(src, e.pos, src.pattern.len() as int) == Some(atoms),
        1 <= e.current_level <= 4,
        e.starts_base == 0,
        e.starts.len() == 500,
        e.future_jumps.len() == 100,
        e.num_jumps == 1,
        e.future_jumps[0] == field,
        e.starts[0] <= field,
        0 <= field,
        field + 2 <= e.buffer.len(),
    ensures
        e.finish(src) == Ok::<Seq<u8>, RegexError>(
            closed_at(e.buffer + atoms_code(atoms), field).push(CompiledOp::End.spec_to_byte()),
        ),
    decreases src.pattern.len() - e.pos,
{
    if e.pos >= src.pattern.len() {
        assert(atoms =~= Seq::<Atom>::empty());
        assert(e.buffer + atoms_code(atoms) =~= e.buffer);
        let lowered = Emitter { current_level: 0, ..e };
        let patched = Emitter { num_jumps: 0, ..lowered }.put_addr(field, e.buffer.len() as int);
        assert(lowered.patch_pending() == patched.patch_pending());
        assert(patched.patch_pending() == patched);
    } else {
        lemma_round_atom(e, src);
        let atom = atom_read(src, e.pos);
        let next = e.round(src)->Ok_0;
        let rest = atoms_between(src, atom_end(src, e.pos), src.pattern.len() as int)->0;
        assert(atoms == seq![atom] + rest);
        assert(atoms[0] == atom);
        assert(atoms.drop_first() =~= rest);
        assert(next.starts[0] == e.starts[0]);
        lemma_finish_after_bar(next, src, field, rest);
        assert(e.buffer + atoms_code(atoms) =~= next.buffer + atoms_code(rest));
    }
}

/// The round that reads `|` behind a first alternative that began at the
/// beginning of the code, with no jump pending: a failure jump goes in front
/// of the code, a jump with an open displacement behind it, and the next
/// alternative begins.
#[verifier::rlimit(50)]
pub proof fn lemma_round_bar(e: Emitter, src: Source)
    requires
        src.translate is None,
        0 <= e.pos < src.pattern.len(),
        src.pattern[e.pos] == '|',
        !src.syntax.needs_backslash_vbar(),
        e.buffer.len() + 9 <= usize::MAX,
        e.current_level == 0 || e.current_level == 4,
        e.current_level == 0 ==> e.buffer.len() == 0,
        e.starts_base == 0,
        e.num_jumps == 0,
        e.starts.len() == 500,
        e.future_jumps.len() == 100,
        forall|i: int| 0 <= i <= 3 ==> e.starts[i] == 0,
    ensures
        e.round(src) is Ok,
        e.round(src)->Ok_0 == (Emitter {
            pos: e.pos + 1,
            buffer: alternation_head(e.buffer) + e.buffer + seq![
                CompiledOp::Jump.spec_to_byte(),
                0u8,
                0u8,
            ],
            starts: e.round(src)->Ok_0.starts,
            future_jumps: e.round(src)->Ok_0.future_jumps,
            num_jumps: 1,
            current_level: precedence(src.syntax, SyntaxOp::Or) as int,
            beginning_context: true,
            ..e
        }),
        e.round(src)->Ok_0.starts.len() == 500,
        e.round(src)->Ok_0.starts[0] == 0,
        e.round(src)->Ok_0.future_jumps.len() == 100,
        e.round(src)->Ok_0.future_jumps[0] == e.buffer.len() + 4,
{
    let la = e.buffer.len() as int;
    assert(plain_op(src.syntax, '|' as u32) == SyntaxOp::Or);
    assert(src.read_op(e.pos) == Ok::<(SyntaxOp, char, int), RegexError>(
        (SyntaxOp::Or, '|', e.pos + 1),
    ));
    let level = precedence(src.syntax, SyntaxOp::Or) as int;
    let moved = Emitter { pos: e.pos + 1, ..e };
    let levelled = moved.handle_precedence(level);
    assert(levelled.buffer == e.buffer);
    assert(levelled.level_start() == 0);
    assert(levelled.num_jumps == 0);
    assert(levelled.starts[0] == 0);
    let wrapped = levelled.insert_jump(0, CompiledOp::FailureJump, la + 6);
    assert(wrapped.future_jumps =~= levelled.future_jumps);
    assert(wrapped.buffer =~= seq![11u8] + disp_bytes(la + 6, 1) + e.buffer);
    assert(levelled.process(src, SyntaxOp::Or, '|') == levelled.alternate());
    let done = levelled.alternate()->Ok_0;
    assert(levelled.alternate() is Ok);
    assert(done.buffer =~= seq![11u8] + disp_bytes(la + 6, 1) + e.buffer + seq![9u8, 0u8, 0u8]);
}

/// From a state inside the first alternative, the alternation of two rows
/// of atoms compiles to its code.
#[verifier::rlimit(50)]
pub proof fn lemma_finish_before_bar(
    e: Emitter,
    src: Source,
    bar: int,
    rest: Seq<Atom>,
    second: Seq<Atom>,
)
    requires
        src.translate is None,
        !src.syntax.needs_backslash_vbar(),
        0 <= e.pos <= bar < src.pattern.len(),
        src.pattern[bar] == '|',
        atoms_between(src, e.pos, bar) == Some(rest),
        atoms_between(src, bar + 1, src.pattern.len() as int) == Some(second),
        e.buffer.len() + atoms_code(rest).len() + 9 <= usize::MAX,
        e.current_level == 0 || e.current_level == 4,
        e.current_level == 0 ==> e.buffer.len() == 0,
        e.starts_base == 0,
        e.num_jumps == 0,
        e.starts.len() == 500,
        e.future_jumps.len() == 100,
        forall|i: int| 0 <= i <= 3 ==> e.starts[i] == 0,
    ensures
        e.finish(src) == Ok::<Seq<u8>, RegexError>(
            alternation_code(e.buffer + atoms_code(rest), atoms_code(second)),
        ),
    decreases bar - e.pos,
{
    if e.pos < bar {
        lemma_round_atom(e, src);
        let atom = atom_read(src, e.pos);
        let next = e.round(src)->Ok_0;
        let tail = atoms_between(src, atom_end(src, e.pos), bar)->0;
        assert(rest == seq![atom] + tail);
        assert(rest[0] == atom);
        assert(rest.drop_first() =~= tail);
        assert(e.buffer + atoms_code(rest) =~= next.buffer + atoms_code(tail));
        assert forall|i: int| 0 <= i <= 3 implies next.starts[i] == 0 by {}
        lemma_finish_before_bar(next, src, bar, tail, second);
    } else {
        assert(rest =~= Seq::<Atom>::empty());
        assert(e.buffer + atoms_code(rest) =~= e.buffer);
        lemma_round_bar(e, src);
        let next = e.round(src)->Ok_0;
        let first = e.buffer;
        let la = first.len() as int;
        lemma_finish_after_bar(next, src, la + 4, second);
        assert(closed_at(next.buffer + atoms_code(second), la + 4).push(0u8) =~= alternation_code(
            first,
            atoms_code(second),
        ));
    }
}

/// The pattern `a|b`.
pub open spec fn alternation(a: Seq<char>, b: Seq<char>) -> Seq<char> {
    a + seq!['|'] + b
}

/// The alternation of two plain patterns compiles to its code, in a
/// dialect in which `|` alternates without a backslash.
pub proof fn lemma_compiled_alternation(a: Seq<char>, b: Seq<char>, syntax: SyntaxFlags)
    requires
        plain_atoms(a, syntax) is Some,
        plain_atoms(b, syntax) is Some,
        !syntax.needs_backslash_vbar(),
        atoms_code(plain_atoms(a, syntax)->0).len() + 9 <= usize::MAX,
    ensures
        compiled(alternation(a, b), syntax) == Ok::<Seq<u8>, RegexError>(
            alternation_code(
                atoms_code(plain_atoms(a, syntax)->0),
                atoms_code(plain_atoms(b, syntax)->0),
            ),
        ),
{
    let src = Source { pattern: alternation(a, b), syntax, translate: None };
    let left = Source { pattern: a, syntax, translate: None };
    let right = Source { pattern: b, syntax, translate: None };
    let bar = a.len() as int;
    assert(src.pattern.len() == a.len() + 1 + b.len());
    assert(src.pattern[bar] == '|');
    assert(agree(left, src, 0, bar, 0)) by {
        assert forall|i: int| 0 <= i < bar implies left.pattern[i] == #[trigger] src.pattern[i
            + 0] by {}
    }
    lemma_atoms_between_window(left, src, 0, bar, 0);
    assert(agree(right, src, 0, b.len() as int, bar + 1)) by {
        assert forall|i: int| 0 <= i < b.len() implies right.pattern[i] == #[trigger] src.pattern[i
            + (bar + 1)] by {}
    }
    lemma_atoms_between_window(right, src, 0, b.len() as int, bar + 1);
    let e = Emitter::initial().mark();
    let first = plain_atoms(a, syntax)->0;
    let second = plain_atoms(b, syntax)->0;
    lemma_finish_before_bar(e, src, bar, first, second);
    assert(e.buffer + atoms_code(first) =~= atoms_code(first));
}

/// Alternation of plain patterns: where `a` and `b` are rows of atoms,
/// `|` alternates, and the code stays within reach of a 16-bit displacement,
/// the pattern `a|b` matches in a text exactly where `a` does or `b` does,
/// given ticks for every atom of both and room for two resume points.
#[verifier::rlimit(50)]
pub proof fn law_alternation_of_plain_patterns(
    both: Regex,
    left: Regex,
    right: Regex,
    a: Seq<char>,
    b: Seq<char>,
    syntax: SyntaxFlags,
    text: Seq<char>,
    limits: ExecLimits,
)
    requires
        plain_atoms(a, syntax) is Some,
        plain_atoms(b, syntax) is Some,
        all_fit(plain_atoms(a, syntax)->0),
        all_fit(plain_atoms(b, syntax)->0),
        !syntax.needs_backslash_vbar(),
        atoms_code(plain_atoms(a, syntax)->0).len() + atoms_code(plain_atoms(b, syntax)->0).len()
            + 7 <= 32767,
        plain_atoms(a, syntax)->0.len() + plain_atoms(b, syntax)->0.len() + 5
            < limits.tick_limit(),
        limits.max_failures > 1,
        text.len() <= usize::MAX,
        compiled(alternation(a, b), syntax) is Ok ==> both.code() == compiled(
            alternation(a, b),
            syntax,
        )->Ok_0 && both.translation() is None,
        compiled(a, syntax) is Ok ==> left.code() == compiled(a, syntax)->Ok_0
            && left.translation() is None,
        compiled(b, syntax) is Ok ==> right.code() == compiled(b, syntax)->Ok_0
            && right.translation() is None,
    ensures
        compiled(alternation(a, b), syntax) is Ok,
        compiled(a, syntax) is Ok,
        compiled(b, syntax) is Ok,
        both.first_match(text, limits) is Some <==> left.first_match(text, limits) is Some
            || right.first_match(text, limits) is Some,
{
    let first = plain_atoms(a, syntax)->0;
    let second = plain_atoms(b, syntax)->0;
    lemma_compiled_alternation(a, b, syntax);
    lemma_compiled_plain(a, syntax);
    lemma_compiled_plain(b, syntax);
    let job_both = job_of(&both, text, limits);
    let job_left = job_of(&left, text, limits);
    let job_right = job_of(&right, text, limits);
    assert forall|p: int| 0 <= p <= text.len() implies #[trigger] job_both.run_at(p).result is Ok by {
        lemma_run_alternation_code(job_both, first, second, p);
    }
    assert forall|p: int| 0 <= p <= text.len() implies #[trigger] job_left.run_at(p).result is Ok by {
        lemma_run_atoms_code(job_left, first, p);
    }
    assert forall|p: int| 0 <= p <= text.len() implies #[trigger] job_right.run_at(
        p,
    ).result is Ok by {
        lemma_run_atoms_code(job_right, second, p);
    }
    lemma_first_match_exists(both, text, limits);
    lemma_first_match_exists(left, text, limits);
    lemma_first_match_exists(right, text, limits);
    if both.first_match(text, limits) is Some {
        let p = choose|p: int|
            0 <= p <= text.len() && p <= i32::MAX && #[trigger] job_both.matches_at(p);
        lemma_run_alternation_code(job_both, first, second, p);
        lemma_run_atoms_code(job_left, first, p);
        lemma_run_atoms_code(job_right, second, p);
        assert(job_left.matches_at(p) || job_right.matches_at(p));
    }
    if left.first_match(text, limits) is Some {
        let p = choose|p: int|
            0 <= p <= text.len() && p <= i32::MAX && #[trigger] job_left.matches_at(p);
        lemma_run_alternation_code(job_both, first, second, p);
        lemma_run_atoms_code(job_left, first, p);
        assert(job_both.matches_at(p));
    }
    if right.first_match(text, limits) is Some {
        let p = choose|p: int|
            0 <= p <= text.len() && p <= i32::MAX && #[trigger] job_right.matches_at(p);
        lemma_run_alternation_code(job_both, first, second, p);
        lemma_run_atoms_code(job_right, second, p);
        assert(job_both.matches_at(p));
    }
}

} // verus!
