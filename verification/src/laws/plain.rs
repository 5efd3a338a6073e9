//! Plain patterns: patterns that are rows of atoms, without repetition,
//! alternation, groups or line anchors. What the compiler reads as an atom,
//! what it emits for one, and what a plain pattern compiles to.

use crate::invariants::lemma_scan_class_stays;
use crate::laws::atoms::{all_fit, atoms_code, atoms_hold, lemma_run_atoms_code, Atom, Edge};
use crate::laws::search::lemma_first_match_exists;
use crate::matcher::job_of;
use crate::lowering::{
    compiled, lemma_scan_class_advances, ClassRange, ClassScan, Emitter, Source,
};
use crate::opcodes::{CompiledOp, SyntaxOp};
use crate::semantics::translated;
use crate::syntax::SyntaxFlags;
use crate::{ExecLimits, Regex, RegexError};
use vstd::prelude::*;

verus! {

/// The atom that the compiler reads at `pos`, and the position behind it;
/// `None` where it reads anything else there, or fails.
pub open spec fn atom_at(src: Source, pos: int) -> Option<(Atom, int)> {
    if !(0 <= pos < src.pattern.len()) {
        None
    } else {
        match src.read_op(pos) {
            Ok((op, ch, next)) => match op {
                SyntaxOp::Normal => Some((Atom::Exact(ch), next)),
                SyntaxOp::AnyChar => Some((Atom::Any, next)),
                SyntaxOp::WordChar => Some((Atom::Word(true), next)),
                SyntaxOp::NotWordChar => Some((Atom::Word(false), next)),
                SyntaxOp::BegBuf => Some((Atom::At(Edge::TextStart), next)),
                SyntaxOp::EndBuf => Some((Atom::At(Edge::TextEnd), next)),
                SyntaxOp::WordBeg => Some((Atom::At(Edge::WordStart), next)),
                SyntaxOp::WordEnd => Some((Atom::At(Edge::WordEnd), next)),
                SyntaxOp::WordBound => Some((Atom::At(Edge::WordEdge), next)),
                SyntaxOp::NotWordBound => Some((Atom::At(Edge::Within), next)),
                SyntaxOp::OpenSet => {
                    let complement = next < src.pattern.len() && src.pattern[next] == '^';
                    let body = if complement {
                        next + 1
                    } else {
                        next
                    };
                    match src.scan_class(body, ClassScan::fresh()) {
                        Ok((ranges, end)) => Some((Atom::Class(complement, ranges), end)),
                        Err(_) => None,
                    }
                },
                _ => None,
            },
            Err(_) => None,
        }
    }
}

/// The atom that the compiler reads at `pos`, where it reads one.
pub open spec fn atom_read(src: Source, pos: int) -> Atom {
    let (atom, _) = atom_at(src, pos).unwrap();
    atom
}

/// The position behind the atom that the compiler reads at `pos`, where it
/// reads one.
pub open spec fn atom_end(src: Source, pos: int) -> int {
    let (_, end) = atom_at(src, pos).unwrap();
    end
}

/// The atoms that the pattern consists of from `pos` up to `stop`; `None`
/// where the compiler reads anything but atoms there, or reads an atom
/// across `stop`.
pub open spec fn atoms_between(src: Source, pos: int, stop: int) -> Option<Seq<Atom>>
    decreases stop - pos,
{
    if pos >= stop {
        if pos == stop {
            Some(Seq::empty())
        } else {
            None
        }
    } else {
        match atom_at(src, pos) {
            Some((atom, next)) => if pos < next <= stop {
                match atoms_between(src, next, stop) {
                    Some(rest) => Some(seq![atom] + rest),
                    None => None,
                }
            } else {
                None
            },
            None => None,
        }
    }
}

/// The atoms that a plain pattern consists of; `None` for a pattern that
/// is not plain.
pub open spec fn plain_atoms(pattern: Seq<char>, syntax: SyntaxFlags) -> Option<Seq<Atom>> {
    atoms_between(Source { pattern, syntax, translate: None }, 0, pattern.len() as int)
}

/// An atom ends behind the position at which it is read, inside the
/// pattern.
pub proof fn lemma_atom_at_stays(src: Source, pos: int)
    ensures
        atom_at(src, pos) is Some ==> pos < atom_end(src, pos) <= src.pattern.len(),
{
    if atom_at(src, pos) is Some {
        let (op, ch, next) = src.read_op(pos)->Ok_0;
        if op == SyntaxOp::OpenSet {
            let complement = next < src.pattern.len() && src.pattern[next] == '^';
            let body = if complement {
                next + 1
            } else {
                next
            };
            lemma_scan_class_stays(src, body, ClassScan::fresh());
        }
    }
}

/// The round that reads an atom: the compiler moves up to the level of
/// single characters and appends the instruction for the atom. Nothing else
/// changes but the level starts of the levels it moves through, which begin
/// at the end of the code as it was.
#[verifier::rlimit(50)]
pub proof fn lemma_round_atom(e: Emitter, src: Source)
    requires
        atom_at(src, e.pos) is Some,
        0 <= e.current_level <= 4,
        e.starts.len() == 500,
        0 <= e.starts_base <= 495,
    ensures
        e.round(src) is Ok,
        e.round(src)->Ok_0 == (Emitter {
            pos: atom_end(src, e.pos),
            buffer: e.buffer + atom_read(src, e.pos).code(),
            starts: e.round(src)->Ok_0.starts,
            current_level: 4,
            beginning_context: false,
            ..e
        }),
        e.round(src)->Ok_0.starts.len() == 500,
        forall|i: int|
            0 <= i < 500 ==> e.round(src)->Ok_0.starts[i] == if e.starts_base + e.current_level < i
                <= e.starts_base + 4 || i == e.starts_base + 4 {
                e.buffer.len() as usize
            } else {
                e.starts[i]
            },
{
    let atom = atom_read(src, e.pos);
    let (op, ch, next) = src.read_op(e.pos)->Ok_0;
    let moved = Emitter { pos: next, ..e };
    let levelled = moved.handle_precedence(4);
    assert(levelled.buffer == e.buffer);
    assert(levelled.pos == next);
    match op {
        SyntaxOp::Normal => {
            assert(levelled.process(src, op, ch) == Ok::<Emitter, RegexError>(
                levelled.literal(ch),
            ));
        },
        SyntaxOp::AnyChar => {
            assert(levelled.process(src, op, ch) == Ok::<Emitter, RegexError>(
                levelled.simple(CompiledOp::AnyChar),
            ));
        },
        SyntaxOp::WordChar => {
            assert(levelled.process(src, op, ch) == Ok::<Emitter, RegexError>(
                levelled.with_arg(CompiledOp::SyntaxSpec, 1),
            ));
        },
        SyntaxOp::NotWordChar => {
            assert(levelled.process(src, op, ch) == Ok::<Emitter, RegexError>(
                levelled.with_arg(CompiledOp::NotSyntaxSpec, 1),
            ));
        },
        SyntaxOp::BegBuf => {
            assert(levelled.process(src, op, ch) == Ok::<Emitter, RegexError>(
                levelled.simple(CompiledOp::BegBuf),
            ));
        },
        SyntaxOp::EndBuf => {
            assert(levelled.process(src, op, ch) == Ok::<Emitter, RegexError>(
                levelled.simple(CompiledOp::EndBuf),
            ));
        },
        SyntaxOp::WordBeg => {
            assert(levelled.process(src, op, ch) == Ok::<Emitter, RegexError>(
                levelled.simple(CompiledOp::WordBeg),
            ));
        },
        SyntaxOp::WordEnd => {
            assert(levelled.process(src, op, ch) == Ok::<Emitter, RegexError>(
                levelled.simple(CompiledOp::WordEnd),
            ));
        },
        SyntaxOp::WordBound => {
            assert(levelled.process(src, op, ch) == Ok::<Emitter, RegexError>(
                levelled.simple(CompiledOp::WordBound),
            ));
        },
        SyntaxOp::NotWordBound => {
            assert(levelled.process(src, op, ch) == Ok::<Emitter, RegexError>(
                levelled.simple(CompiledOp::NotWordBound),
            ));
        },
        SyntaxOp::OpenSet => {
            assert(levelled.process(src, op, ch) == levelled.character_set(src));
            let done = levelled.character_set(src)->Ok_0;
            assert(done.buffer =~= e.buffer + atom.code());
        },
        _ => {},
    }
    let done = e.round(src)->Ok_0;
    assert(done.buffer =~= e.buffer + atom.code());
}

/// From a state without pending jumps, the rest of a pattern that is a row
/// of atoms compiles to the code for the atoms and `End`.
pub proof fn lemma_finish_atoms(e: Emitter, src: Source, atoms: Seq<Atom>)
    requires
        atoms_between(src, e.pos, src.pattern.len() as int) == Some(atoms),
        0 <= e.current_level <= 4,
        e.num_jumps == 0,
        e.starts.len() == 500,
        0 <= e.starts_base <= 495,
    ensures
        e.finish(src) == Ok::<Seq<u8>, RegexError>(
            e.buffer + atoms_code(atoms) + seq![CompiledOp::End.spec_to_byte()],
        ),
    decreases src.pattern.len() - e.pos,
{
    if e.pos >= src.pattern.len() {
        assert(atoms =~= Seq::<Atom>::empty());
        assert(e.buffer + atoms_code(atoms) + seq![0u8] =~= e.buffer.push(0u8));
    } else {
        lemma_round_atom(e, src);
        let atom = atom_read(src, e.pos);
        let next_pos = atom_end(src, e.pos);
        let next = e.round(src)->Ok_0;
        let rest = atoms_between(src, next_pos, src.pattern.len() as int)->0;
        assert(atoms == seq![atom] + rest);
        assert(atoms[0] == atom);
        assert(atoms.drop_first() =~= rest);
        lemma_finish_atoms(next, src, rest);
        assert(e.buffer + atoms_code(atoms) + seq![0u8] =~= next.buffer + atoms_code(rest)
            + seq![0u8]);
    }
}

/// A plain pattern compiles, to the code for its atoms and `End`.
pub proof fn lemma_compiled_plain(pattern: Seq<char>, syntax: SyntaxFlags)
    requires
        plain_atoms(pattern, syntax) is Some,
    ensures
        compiled(pattern, syntax) == Ok::<Seq<u8>, RegexError>(
            atoms_code(plain_atoms(pattern, syntax)->0) + seq![CompiledOp::End.spec_to_byte()],
        ),
{
    let src = Source { pattern, syntax, translate: None };
    let e = Emitter::initial().mark();
    let atoms = plain_atoms(pattern, syntax)->0;
    lemma_finish_atoms(e, src, atoms);
    assert(e.buffer + atoms_code(atoms) + seq![0u8] =~= atoms_code(atoms) + seq![0u8]);
}

/// Do the two patterns agree on the stretch from `from` up to `to` of the
/// first, which lies `shift` characters further on in the second?
pub open spec fn agree(a: Source, b: Source, from: int, to: int, shift: int) -> bool {
    &&& a.syntax == b.syntax
    &&& a.translate == b.translate
    &&& 0 <= from <= to <= a.pattern.len()
    &&& 0 <= shift
    &&& to + shift <= b.pattern.len()
    &&& forall|i: int| from <= i < to ==> a.pattern[i] == #[trigger] b.pattern[i + shift]
}

/// The scan of a class body sees only the pattern up to the closing
/// bracket: a pattern that agrees with this one up to there gives the same
/// members.
#[verifier::rlimit(50)]
pub proof fn lemma_scan_class_window(
    a: Source,
    b: Source,
    pos: int,
    to: int,
    shift: int,
    scan: ClassScan,
)
    requires
        agree(a, b, pos, to, shift),
        a.scan_class(pos, scan) is Ok,
        a.scan_class(pos, scan)->Ok_0.1 <= to,
    ensures
        b.scan_class(pos + shift, scan) == Ok::<(Seq<ClassRange>, int), RegexError>(
            (a.scan_class(pos, scan)->Ok_0.0, a.scan_class(pos, scan)->Ok_0.1 + shift),
        ),
    decreases a.pattern.len() - pos,
{
    lemma_scan_class_advances(a, pos, scan);
    let ch = a.pattern[pos];
    assert(b.pattern[pos + shift] == ch);
    if !(ch == ']' && !scan.first) {
        let member = if ch == '\\' && a.syntax.ansi_sequences() && pos + 1 < a.pattern.len() {
            a.ansi_translate(pos + 2, a.pattern[pos + 1])
        } else {
            Ok((ch, pos + 1))
        };
        let (raw, next) = member->Ok_0;
        let actual = translated(a.translate, raw);
        let after = scan.take(a, ch, actual, next);
        lemma_scan_class_advances(a, next, after);
        assert(next < to);
        assert(b.pattern[next + shift] == a.pattern[next]);
        if pos + 1 < to {
            assert(b.pattern[pos + 1 + shift] == a.pattern[pos + 1]);
        }
        if pos + 2 < to {
            assert(b.pattern[pos + 2 + shift] == a.pattern[pos + 2]);
        }
        if pos + 3 < to {
            assert(b.pattern[pos + 3 + shift] == a.pattern[pos + 3]);
        }
        assert(after == scan.take(b, ch, actual, next + shift));
        lemma_scan_class_window(a, b, next, to, shift, after);
    }
}

/// The compiler reads an operator from the characters it takes and no
/// others: a pattern that agrees with this one on them gives the same
/// operator.
pub proof fn lemma_read_op_window(a: Source, b: Source, pos: int, to: int, shift: int)
    requires
        agree(a, b, pos, to, shift),
        pos < a.pattern.len(),
        a.read_op(pos) is Ok,
        a.read_op(pos)->Ok_0.2 <= to,
    ensures
        b.read_op(pos + shift) == Ok::<(SyntaxOp, char, int), RegexError>(
            (a.read_op(pos)->Ok_0.0, a.read_op(pos)->Ok_0.1, a.read_op(pos)->Ok_0.2 + shift),
        ),
{
    assert(b.pattern[pos + shift] == a.pattern[pos]);
    if pos + 1 < to {
        assert(b.pattern[pos + 1 + shift] == a.pattern[pos + 1]);
    }
    if pos + 2 < to {
        assert(b.pattern[pos + 2 + shift] == a.pattern[pos + 2]);
    }
    if pos + 3 < to {
        assert(b.pattern[pos + 3 + shift] == a.pattern[pos + 3]);
    }
}

/// The compiler reads an atom from the characters it takes and no others:
/// a pattern that agrees with this one on them gives the same atom.
pub proof fn lemma_atom_at_window(a: Source, b: Source, pos: int, to: int, shift: int)
    requires
        agree(a, b, pos, to, shift),
        atom_at(a, pos) is Some,
        atom_end(a, pos) <= to,
    ensures
        atom_at(b, pos + shift) == Some((atom_read(a, pos), atom_end(a, pos) + shift)),
{
    lemma_atom_at_stays(a, pos);
    let (op, ch, next) = a.read_op(pos)->Ok_0;
    lemma_read_op_window(a, b, pos, to, shift);
    if op == SyntaxOp::OpenSet {
        let complement = next < a.pattern.len() && a.pattern[next] == '^';
        let body = if complement {
            next + 1
        } else {
            next
        };
        lemma_scan_class_advances(a, body, ClassScan::fresh());
        assert(next < to);
        assert(b.pattern[next + shift] == a.pattern[next]);
        lemma_scan_class_window(a, b, body, to, shift, ClassScan::fresh());
    }
}

/// A row of atoms is read from its own characters and no others: a pattern
/// that agrees with this one on them gives the same atoms.
pub proof fn lemma_atoms_between_window(a: Source, b: Source, pos: int, stop: int, shift: int)
    requires
        agree(a, b, pos, stop, shift),
        atoms_between(a, pos, stop) is Some,
    ensures
        atoms_between(b, pos + shift, stop + shift) == atoms_between(a, pos, stop),
    decreases stop - pos,
{
    if pos < stop {
        lemma_atom_at_window(a, b, pos, stop, shift);
        lemma_atoms_between_window(a, b, atom_end(a, pos), stop, shift);
    }
}

/// Plain patterns: a pattern that is a row of atoms compiles, and it
/// matches in a text exactly where the text holds, from one of its first
/// positions on, what each atom asks for in turn: a character that the atom
/// accepts, or the place in the text that it tests for. This is given ticks
/// for every atom and room for one resume point. The first positions are
/// those up to `i32::MAX`.
pub proof fn law_plain_pattern_matches_where_its_atoms_hold(
    regex: Regex,
    pattern: Seq<char>,
    syntax: SyntaxFlags,
    text: Seq<char>,
    limits: ExecLimits,
)
    requires
        plain_atoms(pattern, syntax) is Some,
        all_fit(plain_atoms(pattern, syntax)->0),
        plain_atoms(pattern, syntax)->0.len() + 2 < limits.tick_limit(),
        limits.max_failures > 0,
        text.len() <= usize::MAX,
        compiled(pattern, syntax) is Ok ==> regex.code() == compiled(pattern, syntax)->Ok_0
            && regex.translation() is None,
    ensures
        compiled(pattern, syntax) is Ok,
        regex.first_match(text, limits) is Some <==> exists|p: int|
            0 <= p <= text.len() && p <= i32::MAX && #[trigger] atoms_hold(
                text,
                p,
                plain_atoms(pattern, syntax)->0,
            ),
{
    let atoms = plain_atoms(pattern, syntax)->0;
    lemma_compiled_plain(pattern, syntax);
    let job = job_of(&regex, text, limits);
    assert forall|p: int| 0 <= p <= text.len() implies #[trigger] job.run_at(p).result is Ok by {
        lemma_run_atoms_code(job, atoms, p);
    }
    lemma_first_match_exists(regex, text, limits);
    if regex.first_match(text, limits) is Some {
        let p = choose|p: int|
            0 <= p <= text.len() && p <= i32::MAX && #[trigger] job.matches_at(p);
        lemma_run_atoms_code(job, atoms, p);
        assert(atoms_hold(text, p, atoms));
    }
    if exists|p: int| 0 <= p <= text.len() && p <= i32::MAX && #[trigger] atoms_hold(text, p, atoms) {
        let p = choose|p: int|
            0 <= p <= text.len() && p <= i32::MAX && #[trigger] atoms_hold(text, p, atoms);
        lemma_run_atoms_code(job, atoms, p);
        assert(job.matches_at(p));
    }
}

} // verus!
