//! Repetition of one atom or of one group of atoms: what the compiler emits
//! for `x+` and for `xx*`, what the machine does in the loop they share, and
//! the law that follows for the search.

use crate::laws::atoms::{
    advance_all, all_fit, atoms_agreement, atoms_code, atoms_hold, atoms_width, fallen_back,
    lemma_advance_all, lemma_atom_code_len, lemma_atoms_hold_inside, lemma_run_out_of_atoms,
    lemma_run_through_atoms, lemma_single_atom_row, Atom,
};
use crate::laws::plain::{
    agree, atom_at, atom_end, atom_read, lemma_atom_at_window, lemma_round_atom,
};
use crate::laws::search::{lemma_scan_forward_alike, lemma_scan_forward_finds_first};
use crate::laws::size::lemma_range_operands_len;
use crate::laws::wire::lemma_displacement_round_trip;
use crate::codepoint::lemma_operand_round_trip;
use crate::lowering::{compiled, disp_bytes, plain_op, Emitter, Source};
use crate::matcher::job_of;
use crate::opcodes::{CompiledOp, SyntaxOp};
use crate::semantics::{displacement_at, refreshed, FailurePoint, Job, Machine, Step};
use crate::syntax::SyntaxFlags;
use crate::{ExecLimits, Regex, RegexError};
use vstd::prelude::*;

verus! {

/// The number of times that the text holds the row of atoms from `pos` on,
/// one time behind the other. A row that takes no character is not counted.
pub open spec fn run_length(text: Seq<char>, pos: int, body: Seq<Atom>) -> int
    decreases text.len() - pos,
{
    if atoms_width(body) >= 1 && atoms_hold(text, pos, body) {
        proof {
            lemma_atoms_hold_inside(text, pos, body);
        }
        1 + run_length(text, pos + atoms_width(body), body)
    } else {
        0
    }
}

/// The position behind the last of the times that the text holds the row
/// of atoms from `pos` on.
pub open spec fn run_end(text: Seq<char>, pos: int, body: Seq<Atom>) -> int
    decreases text.len() - pos,
{
    if atoms_width(body) >= 1 && atoms_hold(text, pos, body) {
        proof {
            lemma_atoms_hold_inside(text, pos, body);
        }
        run_end(text, pos + atoms_width(body), body)
    } else {
        pos
    }
}

/// The loop that matches a row of atoms any number of times: a failure
/// jump to the exit, the instructions for the atoms, and a star jump back to
/// the failure jump.
pub open spec fn star_loop_code(body: Seq<u8>) -> Seq<u8> {
    let n = body.len() as int;
    seq![CompiledOp::FailureJump.spec_to_byte()] + disp_bytes(n + 6, 1) + body
        + seq![CompiledOp::StarJump.spec_to_byte()] + disp_bytes(0, n + 4)
}

/// What the run of a star loop comes to, from a stack of the given depth:
/// the match ends behind the last time that the text holds the row, unless
/// the stack fills up on the way, which takes one resume point for each time
/// and one more.
pub open spec fn star_loop_result(job: Job, pos: int, depth: int, body: Seq<Atom>) -> Result<
    Option<usize>,
    RegexError,
> {
    if depth + run_length(job.text, pos, body) + 1 < job.limits.max_failures {
        Ok(Some(run_end(job.text, pos, body) as usize))
    } else {
        Err(RegexError::ExecutionError)
    }
}

/// The length of a run is not negative, and the run ends inside the text.
pub proof fn lemma_run_length_bounds(text: Seq<char>, pos: int, body: Seq<Atom>)
    requires
        0 <= pos <= text.len(),
    ensures
        0 <= run_length(text, pos, body),
        pos <= run_end(text, pos, body) <= text.len(),
    decreases text.len() - pos,
{
    if atoms_width(body) >= 1 && atoms_hold(text, pos, body) {
        lemma_atoms_hold_inside(text, pos, body);
        lemma_run_length_bounds(text, pos + atoms_width(body), body);
    }
}

/// The instruction for an atom that fits takes fewer than 2600 bytes.
pub proof fn lemma_atom_code_is_short(atom: Atom)
    requires
        atom.fits(),
    ensures
        1 <= atom.code().len() <= 2553,
{
    match atom {
        Atom::Exact(c) => {
            lemma_operand_round_trip(Seq::empty(), c, Seq::empty());
        },
        Atom::Class(_, ranges) => {
            lemma_range_operands_len(ranges);
        },
        _ => {},
    }
}

/// The parts of a star loop that stands in the code behind `before` and
/// before `End`, and where its jumps lead: the failure jump to `End`, the
/// star jump to the failure jump.
#[verifier::rlimit(50)]
pub proof fn lemma_star_loop_layout(code: Seq<u8>, before: Seq<u8>, body: Seq<u8>)
    requires
        code == before + star_loop_code(body) + seq![CompiledOp::End.spec_to_byte()],
        body.len() + 6 <= 32767,
    ensures
        code.len() == before.len() + body.len() + 7,
        code[before.len() as int] == CompiledOp::FailureJump.spec_to_byte(),
        displacement_at(code, before.len() as int + 1) == Some(body.len() as int + 3),
        code == (before + seq![CompiledOp::FailureJump.spec_to_byte()] + disp_bytes(
            body.len() as int + 6,
            1,
        )) + body + (seq![CompiledOp::StarJump.spec_to_byte()] + disp_bytes(
            0,
            body.len() as int + 4,
        ) + seq![CompiledOp::End.spec_to_byte()]),
        code[before.len() as int + 3 + body.len()] == CompiledOp::StarJump.spec_to_byte(),
        displacement_at(code, before.len() as int + 4 + body.len()) == Some(
            -(body.len() as int + 6),
        ),
        code[before.len() as int + body.len() + 6] == CompiledOp::End.spec_to_byte(),
{
    let n = body.len() as int;
    let at = before.len() as int;
    lemma_displacement_round_trip(n + 6, 1);
    lemma_displacement_round_trip(0, n + 4);
    let head = before + seq![11u8] + disp_bytes(n + 6, 1);
    let tail = seq![10u8] + disp_bytes(0, n + 4) + seq![0u8];
    assert(code =~= head + body + tail);
    assert(code.len() == at + n + 7);
    assert(code[at] == 11u8);
    assert(code[at + 1] == disp_bytes(n + 6, 1)[0]);
    assert(code[at + 2] == disp_bytes(n + 6, 1)[1]);
    assert(code[at + 3 + n] == 10u8);
    assert(code[at + 4 + n] == disp_bytes(0, n + 4)[0]);
    assert(code[at + 5 + n] == disp_bytes(0, n + 4)[1]);
    assert(code[at + 6 + n] == 0u8);
}

/// The ticks that a star loop over a row of `atoms` atoms may take on
/// `rest` characters of text: the failure jump, the atoms and the star jump
/// for every character, and once more.
pub open spec fn loop_cost(atoms: int, rest: int) -> int {
    (atoms + 2) * (rest + 1)
}

/// A star loop that has taken a character has the cost of one round less
/// before it.
pub proof fn lemma_loop_cost_falls(atoms: int, rest: int, less: int)
    requires
        0 <= atoms,
        0 <= less < rest,
    ensures
        loop_cost(atoms, less) + atoms + 2 <= loop_cost(atoms, rest),
        atoms + 2 <= loop_cost(atoms, less),
{
    assert((atoms + 2) * (less + 1) + (atoms + 2) <= (atoms + 2) * (rest + 1)) by (nonlinear_arith)
        requires
            0 <= atoms,
            0 <= less < rest,
    ;
    assert(atoms + 2 <= (atoms + 2) * (less + 1)) by (nonlinear_arith)
        requires
            0 <= atoms,
            0 <= less,
    ;
}

/// The machine in a star loop takes the row of atoms as often as the text
/// holds it and leaves the loop behind the last time.
#[verifier::rlimit(100)]
pub proof fn lemma_run_star_loop(
    job: Job,
    m: Machine,
    ticks: int,
    before: Seq<u8>,
    body: Seq<Atom>,
)
    requires
        job.code == before + star_loop_code(atoms_code(body)) + seq![
            CompiledOp::End.spec_to_byte(),
        ],
        atoms_code(body).len() + 6 <= 32767,
        job.code.len() <= usize::MAX,
        job.translate is None,
        all_fit(body),
        atoms_width(body) >= 1,
        m.code_pos == before.len(),
        0 <= m.text_pos <= job.text.len() <= usize::MAX,
        0 <= ticks,
        ticks + loop_cost(body.len() as int, job.text.len() - m.text_pos) + 2
            < job.limits.tick_limit(),
    ensures
        job.run(m, ticks).result == star_loop_result(job, m.text_pos, m.stack.len() as int, body),
    decreases job.text.len() - m.text_pos,
{
    let rows = atoms_code(body);
    let n = rows.len() as int;
    let count = body.len() as int;
    let at = before.len() as int;
    let exit = at + n + 6;
    let depth = m.stack.len() as int;
    let rest = job.text.len() - m.text_pos;
    lemma_run_length_bounds(job.text, m.text_pos, body);
    lemma_star_loop_layout(job.code, before, rows);
    lemma_advance_all(m, body);
    assert(count + 2 <= loop_cost(count, rest)) by (nonlinear_arith)
        requires
            0 <= count,
            0 <= rest,
    ;
    if depth >= job.limits.max_failures {
        assert(job.step(m) == Step::Halt(Err(RegexError::ExecutionError)));
    } else {
        let point = FailurePoint { text_pos: m.text_pos as usize, code_pos: exit as usize };
        let m1 = Machine { code_pos: at + 3, stack: m.stack.push(point), ..m };
        assert(job.step(m) == Step::Next(m1));
        assert(job.run(m, ticks) == job.run(m1, ticks + 1));
        let head = before + seq![11u8] + disp_bytes(n + 6, 1);
        let tail = seq![10u8] + disp_bytes(0, n + 4) + seq![0u8];
        if depth + 1 >= job.limits.max_failures {
            assert(body.len() > 0);
            assert(job.code[at + 3] == rows[0]);
            assert(job.step(m1) == Step::Halt(Err(RegexError::ExecutionError)));
        } else if atoms_hold(job.text, m.text_pos, body) {
            lemma_atoms_hold_inside(job.text, m.text_pos, body);
            lemma_run_through_atoms(job, m1, ticks + 1, head, body, tail);
            lemma_advance_all(m1, body);
            let m2 = advance_all(m1, body);
            let again = FailurePoint {
                text_pos: m2.text_pos as usize,
                code_pos: exit as usize,
            };
            let m3 = Machine { code_pos: at, stack: m.stack.push(again), ..m2 };
            assert(refreshed(m2) =~= m.stack.push(again));
            assert(job.step(m2) == Step::Next(m3));
            assert(job.run(m2, ticks + 1 + count) == job.run(m3, ticks + 2 + count));
            lemma_loop_cost_falls(count, rest, job.text.len() - m2.text_pos);
            lemma_run_star_loop(job, m3, ticks + 2 + count, before, body);
        } else {
            lemma_run_out_of_atoms(job, m1, ticks + 1, head, body, tail);
            let j = atoms_agreement(job.text, m.text_pos, body);
            lemma_advance_all(m1, body.take(j));
            let m2 = fallen_back(advance_all(m1, body.take(j)));
            assert(m2.stack =~= m.stack);
            assert(job.step(m2) == Step::Halt(Ok(Some(m.text_pos as usize))));
        }
    }
}

/// The code for `x+`: a dummy failure jump over the failure jump of the
/// loop, the loop, and `End`.
pub open spec fn plus_code(body: Seq<u8>) -> Seq<u8> {
    seq![CompiledOp::DummyFailureJump.spec_to_byte()] + disp_bytes(6, 1) + star_loop_code(body)
        + seq![CompiledOp::End.spec_to_byte()]
}

/// The code for `xx*`: the instructions for `x`, the loop over those for
/// the second `x`, and `End`.
pub open spec fn one_then_star_code(first: Seq<u8>, second: Seq<u8>) -> Seq<u8> {
    first + star_loop_code(second) + seq![CompiledOp::End.spec_to_byte()]
}

/// What the run of either code comes to from a position of the text: no
/// match where the text does not hold the row there, and otherwise what the
/// loop comes to from behind it.
pub open spec fn repetition_result(job: Job, pos: int, body: Seq<Atom>) -> Result<
    Option<usize>,
    RegexError,
> {
    if job.limits.max_failures == 0 {
        Err(RegexError::ExecutionError)
    } else if atoms_hold(job.text, pos, body) {
        star_loop_result(job, pos + atoms_width(body), 0, body)
    } else {
        Ok(None)
    }
}

/// Are the two rows of atoms the same but for the registers of their
/// groups?
pub open spec fn same_tests(one: Seq<Atom>, other: Seq<Atom>) -> bool {
    &&& one.len() == other.len()
    &&& forall|i: int|
        0 <= i < one.len() ==> (#[trigger] one[i] == other[i] || (one[i] is Open
            && other[i] is Open) || (one[i] is Close && other[i] is Close))
}

/// Rows of atoms that are the same but for their registers take the same
/// characters: the text holds both or neither.
pub proof fn lemma_same_tests_hold(text: Seq<char>, pos: int, one: Seq<Atom>, other: Seq<Atom>)
    requires
        same_tests(one, other),
    ensures
        atoms_hold(text, pos, one) == atoms_hold(text, pos, other),
        atoms_width(one) == atoms_width(other),
        all_fit(one) == all_fit(other),
    decreases one.len(),
{
    if one.len() > 0 {
        assert(one[0] == other[0] || (one[0] is Open && other[0] is Open) || (one[0] is Close
            && other[0] is Close));
        assert(same_tests(one.drop_first(), other.drop_first())) by {
            assert forall|i: int| 0 <= i < one.len() - 1 implies (#[trigger] one.drop_first()[i]
                == other.drop_first()[i] || (one.drop_first()[i] is Open
                && other.drop_first()[i] is Open) || (one.drop_first()[i] is Close
                && other.drop_first()[i] is Close)) by {
                assert(one[i + 1] == other[i + 1] || (one[i + 1] is Open && other[i + 1] is Open)
                    || (one[i + 1] is Close && other[i + 1] is Close));
            }
        }
        lemma_same_tests_hold(text, pos + one[0].width(), one.drop_first(), other.drop_first());
    }
    if all_fit(one) {
        assert forall|i: int| 0 <= i < other.len() implies (#[trigger] other[i]).fits() by {
            assert(one[i].fits());
            assert(one[i] == other[i] || (one[i] is Open && other[i] is Open) || (one[i] is Close
                && other[i] is Close));
        }
    }
    if all_fit(other) {
        assert forall|i: int| 0 <= i < one.len() implies (#[trigger] one[i]).fits() by {
            assert(other[i].fits());
            assert(one[i] == other[i] || (one[i] is Open && other[i] is Open) || (one[i] is Close
                && other[i] is Close));
        }
    }
}

/// Rows of atoms that are the same but for their registers are held
/// equally often by a text, up to the same end.
pub proof fn lemma_same_tests_run(text: Seq<char>, pos: int, one: Seq<Atom>, other: Seq<Atom>)
    requires
        same_tests(one, other),
        0 <= pos <= text.len(),
    ensures
        run_length(text, pos, one) == run_length(text, pos, other),
        run_end(text, pos, one) == run_end(text, pos, other),
    decreases text.len() - pos,
{
    lemma_same_tests_hold(text, pos, one, other);
    if atoms_width(one) >= 1 && atoms_hold(text, pos, one) {
        lemma_atoms_hold_inside(text, pos, one);
        lemma_same_tests_run(text, pos + atoms_width(one), one, other);
    }
}

/// The run of the code for `x+` from a position of the text.
#[verifier::rlimit(100)]
pub proof fn lemma_run_plus_code(job: Job, body: Seq<Atom>, pos: int)
    requires
        job.code == plus_code(atoms_code(body)),
        atoms_code(body).len() + 6 <= 32767,
        job.translate is None,
        all_fit(body),
        atoms_width(body) >= 1,
        0 <= pos <= job.text.len() <= usize::MAX,
        loop_cost(body.len() as int, job.text.len() as int) + 8 < job.limits.tick_limit(),
    ensures
        job.run_at(pos).result == repetition_result(job, pos, body),
{
    let rows = atoms_code(body);
    let n = rows.len() as int;
    let count = body.len() as int;
    let dummy = seq![13u8] + disp_bytes(6, 1);
    lemma_displacement_round_trip(6, 1);
    assert(job.code =~= dummy + star_loop_code(rows) + seq![0u8]);
    lemma_star_loop_layout(job.code, dummy, rows);
    assert(job.code[0] == 13u8);
    assert(job.code[1] == disp_bytes(6, 1)[0]);
    assert(job.code[2] == disp_bytes(6, 1)[1]);
    assert(count + 2 <= loop_cost(count, job.text.len() as int)) by (nonlinear_arith)
        requires
            0 <= count,
            0 <= job.text.len(),
    ;
    let m0 = Job::start(pos);
    assert(m0.stack.len() == 0);
    if job.limits.max_failures == 0 {
        assert(job.step(m0) == Step::Halt(Err(RegexError::ExecutionError)));
    } else {
        let m1 = Machine { code_pos: 6, ..m0 };
        assert(job.step(m0) == Step::Next(m1));
        assert(job.run(m0, 0) == job.run(m1, 1));
        let head = dummy + seq![11u8] + disp_bytes(n + 6, 1);
        let tail = seq![10u8] + disp_bytes(0, n + 4) + seq![0u8];
        if atoms_hold(job.text, pos, body) {
            lemma_atoms_hold_inside(job.text, pos, body);
            lemma_run_through_atoms(job, m1, 1, head, body, tail);
            lemma_advance_all(m1, body);
            let m2 = advance_all(m1, body);
            let m3 = Machine { code_pos: 3, ..m2 };
            assert(refreshed(m2) =~= m2.stack);
            assert(job.step(m2) == Step::Next(m3));
            assert(job.run(m2, 1 + count) == job.run(m3, 2 + count));
            lemma_loop_cost_falls(count, job.text.len() as int, job.text.len() - m3.text_pos);
            lemma_run_star_loop(job, m3, 2 + count, dummy, body);
        } else {
            lemma_run_out_of_atoms(job, m1, 1, head, body, tail);
        }
    }
}

/// The run of the code for `xx*` from a position of the text.
#[verifier::rlimit(100)]
pub proof fn lemma_run_one_then_star_code(
    job: Job,
    first: Seq<Atom>,
    second: Seq<Atom>,
    pos: int,
)
    requires
        job.code == one_then_star_code(atoms_code(first), atoms_code(second)),
        atoms_code(second).len() + 6 <= 32767,
        job.code.len() <= usize::MAX,
        job.translate is None,
        all_fit(first),
        same_tests(first, second),
        atoms_width(first) >= 1,
        0 <= pos <= job.text.len() <= usize::MAX,
        loop_cost(first.len() as int, job.text.len() as int) + 8 < job.limits.tick_limit(),
    ensures
        job.run_at(pos).result == repetition_result(job, pos, first),
{
    let rows = atoms_code(second);
    let count = first.len() as int;
    lemma_same_tests_hold(job.text, pos, first, second);
    assert(job.code =~= atoms_code(first) + star_loop_code(rows) + seq![0u8]);
    assert(count + 2 <= loop_cost(count, job.text.len() as int)) by (nonlinear_arith)
        requires
            0 <= count,
            0 <= job.text.len(),
    ;
    let m0 = Job::start(pos);
    assert(m0.stack.len() == 0);
    assert(first.len() > 0);
    if job.limits.max_failures == 0 {
        assert(job.code[0] == atoms_code(first)[0]);
        assert(atoms_code(first)[0] == first[0].code()[0]);
        assert(job.step(m0) == Step::Halt(Err(RegexError::ExecutionError)));
    } else {
        assert(job.code =~= Seq::<u8>::empty() + atoms_code(first) + (star_loop_code(rows)
            + seq![0u8]));
        if atoms_hold(job.text, pos, first) {
            lemma_atoms_hold_inside(job.text, pos, first);
            lemma_run_through_atoms(
                job,
                m0,
                0,
                Seq::empty(),
                first,
                star_loop_code(rows) + seq![0u8],
            );
            lemma_advance_all(m0, first);
            let m1 = advance_all(m0, first);
            lemma_loop_cost_falls(count, job.text.len() as int, job.text.len() - m1.text_pos);
            lemma_run_star_loop(job, m1, count, atoms_code(first), second);
            lemma_same_tests_run(job.text, m1.text_pos, first, second);
        } else {
            lemma_run_out_of_atoms(
                job,
                m0,
                0,
                Seq::empty(),
                first,
                star_loop_code(rows) + seq![0u8],
            );
        }
    }
}

/// Is the pattern one atom, from its first character to its last, and
/// one that takes a character?
pub open spec fn is_one_atom(x: Seq<char>, syntax: SyntaxFlags) -> bool {
    atom_at(Source { pattern: x, syntax, translate: None }, 0) is Some && atom_end(
        Source { pattern: x, syntax, translate: None },
        0,
    ) == x.len() && atom_read(Source { pattern: x, syntax, translate: None }, 0).width() == 1
}

/// The atom that a pattern of one atom is.
pub open spec fn the_atom(x: Seq<char>, syntax: SyntaxFlags) -> Atom {
    atom_read(Source { pattern: x, syntax, translate: None }, 0)
}

/// The pattern `x+` compiles to its code, where `x` is one atom, in a
/// dialect in which `+` repeats without a backslash.
#[verifier::rlimit(50)]
pub proof fn lemma_compiled_plus(x: Seq<char>, syntax: SyntaxFlags)
    requires
        is_one_atom(x, syntax),
        the_atom(x, syntax).code().len() + 9 <= usize::MAX,
        !syntax.needs_backslash_plus_qm(),
    ensures
        compiled(x + seq!['+'], syntax) == Ok::<Seq<u8>, RegexError>(
            plus_code(the_atom(x, syntax).code()),
        ),
{
    let alone = Source { pattern: x, syntax, translate: None };
    let src = Source { pattern: x + seq!['+'], syntax, translate: None };
    let atom = the_atom(x, syntax);
    let code = atom.code();
    let n = code.len() as int;
    let end = x.len() as int;
    lemma_atom_code_len(atom);
    assert(agree(alone, src, 0, end, 0)) by {
        assert forall|i: int| 0 <= i < end implies alone.pattern[i] == #[trigger] src.pattern[i
            + 0] by {}
    }
    lemma_atom_at_window(alone, src, 0, end, 0);
    let e0 = Emitter::initial().mark();
    lemma_round_atom(e0, src);
    let e1 = e0.round(src)->Ok_0;
    assert(e1.buffer =~= code);
    assert(e1.starts[4] == 0);
    assert(src.pattern[end] == '+');
    assert(plain_op(syntax, '+' as u32) == SyntaxOp::Plus);
    assert(src.read_op(end) == Ok::<(SyntaxOp, char, int), RegexError>(
        (SyntaxOp::Plus, '+', end + 1),
    ));
    let first = e1.insert_jump(0, CompiledOp::FailureJump, n + 6);
    let second = first.insert_jump(n + 3, CompiledOp::StarJump, 0);
    let third = second.insert_jump(0, CompiledOp::DummyFailureJump, 6);
    assert(first.buffer =~= seq![11u8] + disp_bytes(n + 6, 1) + code);
    assert(second.buffer =~= seq![11u8] + disp_bytes(n + 6, 1) + code + seq![10u8] + disp_bytes(
        0,
        n + 4,
    ));
    assert(third.buffer =~= seq![13u8] + disp_bytes(6, 1) + star_loop_code(code));
    let e2 = e1.round(src)->Ok_0;
    assert(e1.round(src) is Ok);
    assert(e2.buffer == third.buffer);
    assert(e2.pos == end + 1 && e2.num_jumps == 0);
    assert(e0.finish(src) == e1.finish(src));
    assert(e1.finish(src) == e2.finish(src));
    assert(e2.finish(src) == Ok::<Seq<u8>, RegexError>(e2.buffer.push(0u8)));
    assert(e2.buffer.push(0u8) =~= plus_code(code));
}

/// The pattern `xx*` compiles to its code, where `x` is one atom.
#[verifier::rlimit(50)]
pub proof fn lemma_compiled_one_then_star(x: Seq<char>, syntax: SyntaxFlags)
    requires
        is_one_atom(x, syntax),
        2 * the_atom(x, syntax).code().len() + 9 <= usize::MAX,
    ensures
        compiled(x + x + seq!['*'], syntax) == Ok::<Seq<u8>, RegexError>(
            one_then_star_code(the_atom(x, syntax).code(), the_atom(x, syntax).code()),
        ),
{
    let alone = Source { pattern: x, syntax, translate: None };
    let src = Source { pattern: x + x + seq!['*'], syntax, translate: None };
    let atom = the_atom(x, syntax);
    let code = atom.code();
    let n = code.len() as int;
    let end = x.len() as int;
    lemma_atom_code_len(atom);
    assert(agree(alone, src, 0, end, 0)) by {
        assert forall|i: int| 0 <= i < end implies alone.pattern[i] == #[trigger] src.pattern[i
            + 0] by {}
    }
    lemma_atom_at_window(alone, src, 0, end, 0);
    assert(agree(alone, src, 0, end, end)) by {
        assert forall|i: int| 0 <= i < end implies alone.pattern[i] == #[trigger] src.pattern[i
            + end] by {}
    }
    lemma_atom_at_window(alone, src, 0, end, end);
    let e0 = Emitter::initial().mark();
    lemma_round_atom(e0, src);
    let e1 = e0.round(src)->Ok_0;
    assert(e1.buffer =~= code);
    lemma_round_atom(e1, src);
    let e2 = e1.round(src)->Ok_0;
    assert(e2.buffer =~= code + code);
    assert(e2.starts[4] == n);
    assert(src.pattern[2 * end] == '*');
    assert(plain_op(syntax, '*' as u32) == SyntaxOp::Star);
    assert(src.read_op(2 * end) == Ok::<(SyntaxOp, char, int), RegexError>(
        (SyntaxOp::Star, '*', 2 * end + 1),
    ));
    let first = e2.insert_jump(n, CompiledOp::FailureJump, 2 * n + 6);
    let second = first.insert_jump(2 * n + 3, CompiledOp::StarJump, n);
    assert(e2.buffer.subrange(0, n) =~= code);
    assert(e2.buffer.subrange(n, 2 * n) =~= code);
    assert(disp_bytes(2 * n + 6, n + 1) == disp_bytes(n + 6, 1));
    assert(disp_bytes(n, 2 * n + 4) == disp_bytes(0, n + 4));
    assert(first.buffer =~= code + seq![11u8] + disp_bytes(n + 6, 1) + code);
    assert(second.buffer =~= code + star_loop_code(code));
    let e3 = e2.round(src)->Ok_0;
    assert(e2.round(src) is Ok);
    assert(e3.buffer == second.buffer);
    assert(e3.pos == 2 * end + 1 && e3.num_jumps == 0);
    assert(e0.finish(src) == e1.finish(src));
    assert(e1.finish(src) == e2.finish(src));
    assert(e2.finish(src) == e3.finish(src));
    assert(e3.finish(src) == Ok::<Seq<u8>, RegexError>(e3.buffer.push(0u8)));
    assert(e3.buffer.push(0u8) =~= one_then_star_code(code, code));
}

/// Quantifier relation: where `x` is one atom whose instruction holds it in
/// full and `+` repeats, the patterns `x+` and `xx*` both compile, and in
/// every text they match at the same first position and up to the same end,
/// or both match nowhere, given ticks for three instructions for each
/// character of the text.
#[verifier::rlimit(50)]
pub proof fn law_plus_is_one_then_star(
    plus: Regex,
    star: Regex,
    x: Seq<char>,
    syntax: SyntaxFlags,
    text: Seq<char>,
    limits: ExecLimits,
)
    requires
        is_one_atom(x, syntax),
        the_atom(x, syntax).fits(),
        !syntax.needs_backslash_plus_qm(),
        text.len() <= usize::MAX,
        3 * text.len() + 11 < limits.tick_limit(),
        compiled(x + seq!['+'], syntax) is Ok ==> plus.code() == compiled(
            x + seq!['+'],
            syntax,
        )->Ok_0 && plus.translation() is None,
        compiled(x + x + seq!['*'], syntax) is Ok ==> star.code() == compiled(
            x + x + seq!['*'],
            syntax,
        )->Ok_0 && star.translation() is None,
    ensures
        compiled(x + seq!['+'], syntax) is Ok,
        compiled(x + x + seq!['*'], syntax) is Ok,
        plus.first_match(text, limits) is Some <==> star.first_match(text, limits) is Some,
        plus.first_match(text, limits) is Some ==> plus.first_match(text, limits)->0[0]
            == star.first_match(text, limits)->0[0],
{
    let atom = the_atom(x, syntax);
    let body = seq![atom];
    lemma_atom_code_is_short(atom);
    lemma_single_atom_row(atom);
    assert(same_tests(body, body));
    assert(loop_cost(1, text.len() as int) == 3 * (text.len() + 1)) by (nonlinear_arith);
    lemma_compiled_plus(x, syntax);
    lemma_compiled_one_then_star(x, syntax);
    let one = job_of(&plus, text, limits);
    let other = job_of(&star, text, limits);
    assert forall|p: int| 0 <= p <= text.len() implies #[trigger] one.run_at(p).result
        == other.run_at(p).result by {
        lemma_run_plus_code(one, body, p);
        lemma_run_one_then_star_code(other, body, body, p);
    }
    let range = if text.len() <= i32::MAX {
        text.len() as int
    } else {
        i32::MAX as int
    };
    lemma_scan_forward_alike(one, other, 0, range);
    lemma_scan_forward_finds_first(one, 0, range);
    match one.search_result(0, range) {
        Ok(found) => {
            if found >= 0 {
                assert(one.run_at(found as int).result == other.run_at(found as int).result);
            }
        },
        Err(_) => {},
    }
}

} // verus!
