//! Atoms: the parts of a pattern that test one character each, those that
//! test the place in the text, and the marks that open and close a group
//! around them. What the machine does with the instruction for an atom, and
//! with a row of them.

use crate::codepoint::{char_operand, lemma_char_value, lemma_operand_round_trip};
use crate::laws::classes::{in_ranges, lemma_machine_scans_ranges};
use crate::lowering::{range_operands, ClassRange};
use crate::opcodes::CompiledOp;
use crate::semantics::{backtrack, is_word, Job, Machine, Step};
use crate::RegexError;
use vstd::prelude::*;

verus! {

/// A place in a text that a pattern can ask for without taking a
/// character.
pub enum Edge {
    /// The beginning of the text.
    TextStart,
    /// The end of the text.
    TextEnd,
    /// Before a word character that no word character precedes.
    WordStart,
    /// Behind a word character that no word character follows.
    WordEnd,
    /// Between a word character and none, either way round.
    WordEdge,
    /// Between two characters that are both of a word or both not.
    Within,
}

impl Edge {
    /// The instruction that tests for the place.
    pub open spec fn op(self) -> CompiledOp {
        match self {
            Edge::TextStart => CompiledOp::BegBuf,
            Edge::TextEnd => CompiledOp::EndBuf,
            Edge::WordStart => CompiledOp::WordBeg,
            Edge::WordEnd => CompiledOp::WordEnd,
            Edge::WordEdge => CompiledOp::WordBound,
            Edge::Within => CompiledOp::NotWordBound,
        }
    }

    /// Is `pos` such a place in the text?
    pub open spec fn holds(self, text: Seq<char>, pos: int) -> bool {
        let before = pos > 0 && is_word(text[pos - 1]);
        let after = pos < text.len() && is_word(text[pos]);
        match self {
            Edge::TextStart => pos == 0,
            Edge::TextEnd => pos >= text.len(),
            Edge::WordStart => after && !before,
            Edge::WordEnd => before && !after,
            Edge::WordEdge => before != after,
            Edge::Within => 0 < pos < text.len() && before == after,
        }
    }
}

/// A part of a pattern that tests one character or the place in the text,
/// or that opens or closes a group.
pub enum Atom {
    /// The given character.
    Exact(char),
    /// Any character but a newline.
    Any,
    /// A word character, or any other character.
    Word(bool),
    /// A character in one of the ranges, or in none of them.
    Class(bool, Seq<ClassRange>),
    /// The given place in the text.
    At(Edge),
    /// The beginning of the group with the given register.
    Open(u8),
    /// The end of the group with the given register.
    Close(u8),
}

impl Atom {
    /// The instruction for the atom.
    pub open spec fn code(self) -> Seq<u8> {
        match self {
            Atom::Exact(c) => seq![CompiledOp::Exact.spec_to_byte()] + char_operand(c),
            Atom::Any => seq![CompiledOp::AnyChar.spec_to_byte()],
            Atom::Word(inside) => if inside {
                seq![CompiledOp::SyntaxSpec.spec_to_byte(), 1u8]
            } else {
                seq![CompiledOp::NotSyntaxSpec.spec_to_byte(), 1u8]
            },
            Atom::Class(complement, ranges) => seq![
                CompiledOp::CharSet.spec_to_byte(),
                if complement {
                    1u8
                } else {
                    0u8
                },
                (ranges.len() % 256) as u8,
            ] + range_operands(ranges),
            Atom::At(edge) => seq![edge.op().spec_to_byte()],
            Atom::Open(reg) => seq![CompiledOp::StartMemory.spec_to_byte(), reg],
            Atom::Close(reg) => seq![CompiledOp::EndMemory.spec_to_byte(), reg],
        }
    }

    /// The number of characters that the atom takes: one, or none for a
    /// test of the place and for the marks of a group.
    pub open spec fn width(self) -> int {
        match self {
            Atom::At(_) | Atom::Open(_) | Atom::Close(_) => 0,
            _ => 1,
        }
    }

    /// Does the atom accept the character? An atom that takes no character
    /// accepts any.
    pub open spec fn accepts(self, ch: char) -> bool {
        match self {
            Atom::Exact(c) => ch == c,
            Atom::Any => ch != '\n',
            Atom::Word(inside) => is_word(ch) == inside,
            Atom::Class(complement, ranges) => in_ranges(ranges, ch as u32) != complement,
            Atom::At(_) | Atom::Open(_) | Atom::Close(_) => true,
        }
    }

    /// Does the instruction hold the atom in full? A class with 256 ranges
    /// or more does not: its count is cut to eight bits.
    pub open spec fn fits(self) -> bool {
        match self {
            Atom::Class(_, ranges) => ranges.len() < 256,
            _ => true,
        }
    }

    /// Does the machine get past the atom at `pos` in the text: is the atom
    /// a mark of a group, is `pos` the place it asks for, or does it accept
    /// the character there?
    pub open spec fn passes(self, text: Seq<char>, pos: int) -> bool {
        match self {
            Atom::At(edge) => edge.holds(text, pos),
            Atom::Open(_) | Atom::Close(_) => true,
            _ => 0 <= pos < text.len() && self.accepts(text[pos]),
        }
    }

    /// The machine behind the atom: behind the instruction and the character
    /// it took, or with the cursor noted in the registers of the group.
    pub open spec fn advance(self, m: Machine) -> Machine {
        let here = Some(m.text_pos as usize);
        match self {
            Atom::At(_) => Machine { code_pos: m.code_pos + 1, ..m },
            Atom::Open(reg) => Machine {
                code_pos: m.code_pos + 2,
                reg_maybe: if reg < 100 {
                    m.reg_maybe.update(reg as int, here)
                } else {
                    m.reg_maybe
                },
                ..m
            },
            Atom::Close(reg) => Machine {
                code_pos: m.code_pos + 2,
                reg_start: if reg < 100 {
                    m.reg_start.update(reg as int, m.reg_maybe[reg as int])
                } else {
                    m.reg_start
                },
                reg_end: if reg < 100 {
                    m.reg_end.update(reg as int, here)
                } else {
                    m.reg_end
                },
                ..m
            },
            _ => Machine {
                text_pos: m.text_pos + 1,
                code_pos: m.code_pos + self.code().len(),
                ..m
            },
        }
    }
}

/// The code for a row of atoms.
pub open spec fn atoms_code(atoms: Seq<Atom>) -> Seq<u8>
    decreases atoms.len(),
{
    if atoms.len() == 0 {
        Seq::empty()
    } else {
        atoms[0].code() + atoms_code(atoms.drop_first())
    }
}

/// The number of characters that a row of atoms takes.
pub open spec fn atoms_width(atoms: Seq<Atom>) -> int
    decreases atoms.len(),
{
    if atoms.len() == 0 {
        0
    } else {
        atoms[0].width() + atoms_width(atoms.drop_first())
    }
}

/// Do all atoms of the row fit their instructions?
pub open spec fn all_fit(atoms: Seq<Atom>) -> bool {
    forall|i: int| 0 <= i < atoms.len() ==> (#[trigger] atoms[i]).fits()
}

/// Does the text hold the row from `pos` on: for each atom in turn a
/// character that it accepts, or the place that it tests for?
pub open spec fn atoms_hold(text: Seq<char>, pos: int, atoms: Seq<Atom>) -> bool
    decreases atoms.len(),
{
    if atoms.len() == 0 {
        0 <= pos <= text.len()
    } else {
        0 <= pos <= text.len() && atoms[0].passes(text, pos) && atoms_hold(
            text,
            pos + atoms[0].width(),
            atoms.drop_first(),
        )
    }
}

/// The number of atoms at the head of the row that the machine gets past
/// in the text from `pos` on, before the first that it does not.
pub open spec fn atoms_agreement(text: Seq<char>, pos: int, atoms: Seq<Atom>) -> int
    decreases atoms.len(),
{
    if atoms.len() == 0 || !atoms[0].passes(text, pos) {
        0
    } else {
        1 + atoms_agreement(text, pos + atoms[0].width(), atoms.drop_first())
    }
}

/// The machine behind a row of atoms.
pub open spec fn advance_all(m: Machine, atoms: Seq<Atom>) -> Machine
    decreases atoms.len(),
{
    if atoms.len() == 0 {
        m
    } else {
        advance_all(atoms[0].advance(m), atoms.drop_first())
    }
}

/// The code for an atom is not empty.
pub proof fn lemma_atom_code_len(atom: Atom)
    ensures
        1 <= atom.code().len(),
{
}

/// Behind a row of atoms the machine stands behind their code and behind
/// the characters they took, with its stack as it was.
pub proof fn lemma_advance_all(m: Machine, atoms: Seq<Atom>)
    ensures
        advance_all(m, atoms).text_pos == m.text_pos + atoms_width(atoms),
        advance_all(m, atoms).code_pos == m.code_pos + atoms_code(atoms).len(),
        advance_all(m, atoms).stack == m.stack,
        0 <= atoms_width(atoms) <= atoms.len(),
    decreases atoms.len(),
{
    if atoms.len() > 0 {
        lemma_advance_all(atoms[0].advance(m), atoms.drop_first());
    }
}

/// The instruction for an atom takes the machine past the atom where the
/// atom lets it pass, and makes it fall back where it does not.
#[verifier::rlimit(50)]
pub proof fn lemma_step_atom(job: Job, m: Machine, before: Seq<u8>, atom: Atom, after: Seq<u8>)
    requires
        job.code == before + atom.code() + after,
        job.translate is None,
        atom.fits(),
        m.code_pos == before.len(),
        0 <= m.text_pos <= job.text.len(),
        m.stack.len() < job.limits.max_failures,
    ensures
        job.step(m) == if atom.passes(job.text, m.text_pos) {
            Step::Next(atom.advance(m))
        } else {
            backtrack(m)
        },
{
    let at = before.len() as int;
    let code = job.code;
    assert(code[at] == atom.code()[0]);
    if m.text_pos < job.text.len() {
        lemma_char_value(job.text[m.text_pos]);
    }
    match atom {
        Atom::Exact(c) => {
            lemma_char_value(c);
            assert(code =~= (before + seq![4u8]) + char_operand(c) + after);
            lemma_operand_round_trip(before + seq![4u8], c, after);
        },
        Atom::Any => {},
        Atom::Word(inside) => {
            assert(code[at + 1] == 1u8);
        },
        Atom::Class(complement, ranges) => {
            let head = seq![
                3u8,
                if complement {
                    1u8
                } else {
                    0u8
                },
                ranges.len() as u8,
            ];
            assert(code =~= (before + head) + range_operands(ranges) + after);
            assert(code[at + 1] == head[1]);
            assert(code[at + 2] == ranges.len() as u8);
            if m.text_pos < job.text.len() {
                lemma_machine_scans_ranges(
                    job,
                    before + head,
                    ranges,
                    after,
                    job.text[m.text_pos] as u32,
                );
            }
        },
        Atom::At(edge) => {
            assert(code[at] == edge.op().spec_to_byte());
        },
        Atom::Open(reg) => {
            assert(code[at + 1] == reg);
        },
        Atom::Close(reg) => {
            assert(code[at + 1] == reg);
        },
    }
}

/// The rest of a row of atoms that fit fits.
pub proof fn lemma_rest_fits(atoms: Seq<Atom>)
    requires
        all_fit(atoms),
        atoms.len() > 0,
    ensures
        atoms[0].fits(),
        all_fit(atoms.drop_first()),
{
    let rest = atoms.drop_first();
    assert forall|i: int| 0 <= i < rest.len() implies (#[trigger] rest[i]).fits() by {
        assert(rest[i] == atoms[i + 1]);
    }
}

/// The machine runs through the code for a row of atoms where the text
/// holds the row: with ticks to spare and room
/// on the stack, the run from before the row is the run from behind it.
#[verifier::rlimit(50)]
pub proof fn lemma_run_through_atoms(
    job: Job,
    m: Machine,
    ticks: int,
    before: Seq<u8>,
    atoms: Seq<Atom>,
    after: Seq<u8>,
)
    requires
        job.code == before + atoms_code(atoms) + after,
        job.translate is None,
        all_fit(atoms),
        m.code_pos == before.len(),
        atoms_hold(job.text, m.text_pos, atoms),
        m.stack.len() < job.limits.max_failures,
        0 <= ticks,
        ticks + atoms.len() + 1 < job.limits.tick_limit(),
    ensures
        job.run(m, ticks) == job.run(advance_all(m, atoms), ticks + atoms.len()),
    decreases atoms.len(),
{
    if atoms.len() > 0 {
        let atom = atoms[0];
        let rest = atoms.drop_first();
        lemma_rest_fits(atoms);
        assert(job.code =~= before + atom.code() + (atoms_code(rest) + after));
        lemma_step_atom(job, m, before, atom, atoms_code(rest) + after);
        let next = atom.advance(m);
        assert(job.step(m) == Step::Next(next));
        assert(job.code =~= (before + atom.code()) + atoms_code(rest) + after);
        lemma_run_through_atoms(job, next, ticks + 1, before + atom.code(), rest, after);
    }
}

/// The machine after it has fallen back to the latest point on its stack.
pub open spec fn fallen_back(m: Machine) -> Machine {
    Machine {
        text_pos: m.stack.last().text_pos as int,
        code_pos: m.stack.last().code_pos as int,
        stack: m.stack.drop_last(),
        ..m
    }
}

/// The machine falls back out of the code for a row of atoms where the
/// text does not hold the row: with an empty stack the run ends
/// without a match, and otherwise it goes on from the latest resume point,
/// after one instruction for each atom that it got past and one for the
/// first that it did not.
#[verifier::rlimit(50)]
pub proof fn lemma_run_out_of_atoms(
    job: Job,
    m: Machine,
    ticks: int,
    before: Seq<u8>,
    atoms: Seq<Atom>,
    after: Seq<u8>,
)
    requires
        job.code == before + atoms_code(atoms) + after,
        job.translate is None,
        all_fit(atoms),
        m.code_pos == before.len(),
        0 <= m.text_pos <= job.text.len(),
        !atoms_hold(job.text, m.text_pos, atoms),
        m.stack.len() < job.limits.max_failures,
        0 <= ticks,
        ticks + atoms.len() + 1 < job.limits.tick_limit(),
    ensures
        0 <= atoms_agreement(job.text, m.text_pos, atoms) < atoms.len(),
        m.stack.len() == 0 ==> job.run(m, ticks).result == Ok::<Option<usize>, RegexError>(None),
        m.stack.len() > 0 ==> job.run(m, ticks) == job.run(
            fallen_back(
                advance_all(m, atoms.take(atoms_agreement(job.text, m.text_pos, atoms))),
            ),
            ticks + atoms_agreement(job.text, m.text_pos, atoms) + 1,
        ),
    decreases atoms.len(),
{
    if atoms.len() > 0 {
        let atom = atoms[0];
        let rest = atoms.drop_first();
        lemma_rest_fits(atoms);
        assert(job.code =~= before + atom.code() + (atoms_code(rest) + after));
        lemma_step_atom(job, m, before, atom, atoms_code(rest) + after);
        if atom.passes(job.text, m.text_pos) {
            let next = atom.advance(m);
            assert(job.step(m) == Step::Next(next));
            assert(job.code =~= (before + atom.code()) + atoms_code(rest) + after);
            lemma_run_out_of_atoms(job, next, ticks + 1, before + atom.code(), rest, after);
            let j = atoms_agreement(job.text, next.text_pos, rest);
            assert(atoms.take(j + 1).drop_first() =~= rest.take(j));
            assert(atoms.take(j + 1)[0] == atom);
        } else {
            assert(job.step(m) == backtrack(m));
            assert(atoms.take(0) =~= Seq::<Atom>::empty());
        }
    }
}

/// The run of the code of a row of atoms, closed by `End`, matches exactly
/// where the text holds the row, and ends behind the characters it took.
pub proof fn lemma_run_atoms_code(job: Job, atoms: Seq<Atom>, pos: int)
    requires
        job.code == atoms_code(atoms) + seq![CompiledOp::End.spec_to_byte()],
        job.translate is None,
        all_fit(atoms),
        0 <= pos <= job.text.len() <= usize::MAX,
        job.limits.max_failures > 0,
        atoms.len() + 2 < job.limits.tick_limit(),
    ensures
        job.run_at(pos).result == if atoms_hold(job.text, pos, atoms) {
            Ok::<Option<usize>, RegexError>(Some((pos + atoms_width(atoms)) as usize))
        } else {
            Ok::<Option<usize>, RegexError>(None)
        },
{
    let m = Job::start(pos);
    assert(m.stack.len() == 0);
    assert(job.code =~= Seq::<u8>::empty() + atoms_code(atoms) + seq![0u8]);
    if atoms_hold(job.text, pos, atoms) {
        lemma_atoms_hold_inside(job.text, pos, atoms);
        lemma_run_through_atoms(job, m, 0, Seq::empty(), atoms, seq![0u8]);
        lemma_advance_all(m, atoms);
        let end = advance_all(m, atoms);
        assert(job.code[end.code_pos] == 0u8);
        assert(job.step(end) == Step::Halt(Ok(Some((pos + atoms_width(atoms)) as usize))));
    } else {
        lemma_run_out_of_atoms(job, m, 0, Seq::empty(), atoms, seq![0u8]);
    }
}

/// A row of atoms that the text holds at `pos` ends inside the text.
pub proof fn lemma_atoms_hold_inside(text: Seq<char>, pos: int, atoms: Seq<Atom>)
    requires
        atoms_hold(text, pos, atoms),
    ensures
        0 <= pos,
        pos + atoms_width(atoms) <= text.len(),
    decreases atoms.len(),
{
    if atoms.len() > 0 {
        lemma_atoms_hold_inside(text, pos + atoms[0].width(), atoms.drop_first());
    }
}

/// A row of one atom has the code and the width of the atom.
pub proof fn lemma_single_atom_row(atom: Atom)
    ensures
        atoms_code(seq![atom]) == atom.code(),
        atoms_width(seq![atom]) == atom.width(),
        all_fit(seq![atom]) == atom.fits(),
{
    let row = seq![atom];
    let rest = row.drop_first();
    assert(rest =~= Seq::<Atom>::empty());
    assert(row[0] == atom);
    assert(atoms_code(rest) =~= Seq::<u8>::empty());
    assert(atoms_code(row) =~= atom.code());
    assert(atoms_width(rest) == 0);
    if atom.fits() {
        assert forall|i: int| 0 <= i < row.len() implies (#[trigger] row[i]).fits() by {}
    }
}

/// The code, the width and the fit of two rows of atoms, one behind the
/// other, are those of the rows together.
pub proof fn lemma_atoms_concat(one: Seq<Atom>, other: Seq<Atom>)
    ensures
        atoms_code(one + other) == atoms_code(one) + atoms_code(other),
        atoms_width(one + other) == atoms_width(one) + atoms_width(other),
        all_fit(one + other) == (all_fit(one) && all_fit(other)),
    decreases one.len(),
{
    let both = one + other;
    if one.len() == 0 {
        assert(both =~= other);
        assert(atoms_code(one) + atoms_code(other) =~= atoms_code(other));
    } else {
        assert(both[0] == one[0]);
        assert(both.drop_first() =~= one.drop_first() + other);
        lemma_atoms_concat(one.drop_first(), other);
        assert(atoms_code(both) =~= atoms_code(one) + atoms_code(other));
    }
    if all_fit(both) {
        assert forall|i: int| 0 <= i < one.len() implies (#[trigger] one[i]).fits() by {
            assert(both[i] == one[i]);
        }
        assert forall|i: int| 0 <= i < other.len() implies (#[trigger] other[i]).fits() by {
            assert(both[i + one.len()] == other[i]);
        }
    }
    if all_fit(one) && all_fit(other) {
        assert forall|i: int| 0 <= i < both.len() implies (#[trigger] both[i]).fits() by {
            if i < one.len() {
                assert(both[i] == one[i]);
            } else {
                assert(both[i] == other[i - one.len()]);
            }
        }
    }
}

/// The row of atoms of a group: the mark that opens it, the atoms inside,
/// and the mark that closes it.
pub open spec fn group_atoms(reg: u8, inside: Seq<Atom>) -> Seq<Atom> {
    seq![Atom::Open(reg)] + inside + seq![Atom::Close(reg)]
}

/// The code of a group is the instruction that opens it, the code of the
/// atoms inside, and the instruction that closes it; it takes the characters
/// of the atoms inside, and it fits where they fit.
pub proof fn lemma_group_atoms(reg: u8, inside: Seq<Atom>)
    ensures
        atoms_code(group_atoms(reg, inside)) == seq![CompiledOp::StartMemory.spec_to_byte(), reg]
            + atoms_code(inside) + seq![CompiledOp::EndMemory.spec_to_byte(), reg],
        atoms_width(group_atoms(reg, inside)) == atoms_width(inside),
        all_fit(group_atoms(reg, inside)) == all_fit(inside),
        group_atoms(reg, inside).len() == inside.len() + 2,
{
    lemma_single_atom_row(Atom::Open(reg));
    lemma_single_atom_row(Atom::Close(reg));
    lemma_atoms_concat(seq![Atom::Open(reg)], inside);
    lemma_atoms_concat(seq![Atom::Open(reg)] + inside, seq![Atom::Close(reg)]);
}

} // verus!
