//! Patterns made of rows of atoms and of groups, one inside the other: what
//! the compiler emits for them round by round, the law of alternation
//! between two of them, and the law of repetition of a group of them.

use crate::laws::alternation::{
    alternation, alternation_code, lemma_finish_after_bar, lemma_round_bar,
    lemma_run_alternation_code,
};
use crate::laws::atoms::{
    all_fit, atoms_code, atoms_width, group_atoms, lemma_atoms_concat,
    lemma_group_atoms, lemma_run_atoms_code, Atom,
};
use crate::laws::rounds::{
    grouped, lemma_atoms_inside, lemma_finish_after_rounds, lemma_finish_plus, lemma_finish_star,
    lemma_round_close, lemma_round_open, lemma_rounds_atoms, lemma_rounds_join, rounds_until,
};
use crate::laws::plain::{atoms_between, plain_atoms};
use crate::laws::repetition::{
    lemma_run_one_then_star_code, lemma_run_plus_code, lemma_same_tests_hold, loop_cost,
    one_then_star_code, plus_code, same_tests,
};
use crate::laws::search::{
    lemma_first_match_exists, lemma_scan_forward_alike, lemma_scan_forward_finds_first,
};
use crate::lowering::{compiled, Emitter, Source};
use crate::matcher::job_of;
use crate::opcodes::CompiledOp;
use crate::syntax::SyntaxFlags;
use crate::{ExecLimits, Regex, RegexError};
use vstd::prelude::*;

verus! {

/// A part of a pattern: a row of atoms, or a group of parts in
/// parentheses.
pub enum Part {
    Row(Seq<char>),
    Group(Seq<Part>),
}

/// The pattern that consists of the parts, one behind the other.
pub open spec fn parts_text(parts: Seq<Part>) -> Seq<char>
    decreases parts,
{
    if parts.len() == 0 {
        Seq::empty()
    } else {
        (match parts[0] {
            Part::Row(chars) => chars,
            Part::Group(inside) => grouped(parts_text(inside)),
        }) + parts_text(parts.drop_first())
    }
}

/// Is every row among the parts, inside the groups too, a row of one atom
/// or more under the dialect?
pub open spec fn parts_plain(parts: Seq<Part>, syntax: SyntaxFlags) -> bool
    decreases parts,
{
    if parts.len() == 0 {
        true
    } else {
        (match parts[0] {
            Part::Row(chars) => plain_atoms(chars, syntax) is Some && chars.len() >= 1,
            Part::Group(inside) => parts_plain(inside, syntax),
        }) && parts_plain(parts.drop_first(), syntax)
    }
}

/// The number of groups among the parts, those inside groups too.
pub open spec fn parts_groups(parts: Seq<Part>) -> nat
    decreases parts,
{
    if parts.len() == 0 {
        0
    } else {
        (match parts[0] {
            Part::Row(_) => 0nat,
            Part::Group(inside) => 1 + parts_groups(inside),
        }) + parts_groups(parts.drop_first())
    }
}

/// The atoms of the parts, one part behind the other, where the groups
/// take the registers from `reg` on in the order in which they open.
pub open spec fn parts_atoms(parts: Seq<Part>, syntax: SyntaxFlags, reg: int) -> Seq<Atom>
    decreases parts,
{
    if parts.len() == 0 {
        Seq::empty()
    } else {
        match parts[0] {
            Part::Row(chars) => plain_atoms(chars, syntax)->0 + parts_atoms(
                parts.drop_first(),
                syntax,
                reg,
            ),
            Part::Group(inside) => group_atoms(reg as u8, parts_atoms(inside, syntax, reg + 1))
                + parts_atoms(parts.drop_first(), syntax, reg + 1 + parts_groups(inside)),
        }
    }
}

/// Two rows that are the same but for the registers of their groups, each
/// behind another such row, are the same but for those registers.
pub proof fn lemma_same_tests_concat(a: Seq<Atom>, b: Seq<Atom>, c: Seq<Atom>, d: Seq<Atom>)
    requires
        same_tests(a, b),
        same_tests(c, d),
    ensures
        same_tests(a + c, b + d),
{
    assert forall|i: int| 0 <= i < (a + c).len() implies (#[trigger] (a + c)[i] == (b + d)[i] || ((a
        + c)[i] is Open && (b + d)[i] is Open) || ((a + c)[i] is Close && (b + d)[i] is Close)) by {
        if i < a.len() {
            assert(a[i] == b[i] || (a[i] is Open && b[i] is Open) || (a[i] is Close
                && b[i] is Close));
        } else {
            let j = i - a.len();
            assert(c[j] == d[j] || (c[j] is Open && d[j] is Open) || (c[j] is Close
                && d[j] is Close));
        }
    }
}

/// Rows that are the same but for the registers of their groups have code
/// of the same length.
pub proof fn lemma_same_tests_code_len(one: Seq<Atom>, other: Seq<Atom>)
    requires
        same_tests(one, other),
    ensures
        atoms_code(one).len() == atoms_code(other).len(),
    decreases one.len(),
{
    if one.len() > 0 {
        assert(one[0] == other[0] || (one[0] is Open && other[0] is Open) || (one[0] is Close
            && other[0] is Close));
        assert(same_tests(one.drop_first(), other.drop_first())) by {
            assert forall|i: int| 0 <= i < one.len() - 1 implies (#[trigger] one.drop_first()[i]
                == other.drop_first()[i] || (one.drop_first()[i] is Open
                && other.drop_first()[i] is Open) || (one.drop_first()[i] is Close
                && other.drop_first()[i] is Close)) by {
                assert(one[i + 1] == other[i + 1] || (one[i + 1] is Open && other[i + 1] is Open)
                    || (one[i + 1] is Close && other[i + 1] is Close));
            }
        }
        lemma_same_tests_code_len(one.drop_first(), other.drop_first());
    }
}

/// Groups of rows that are the same but for the registers of their groups
/// are the same but for those registers.
pub proof fn lemma_group_atoms_alike(one: u8, a: Seq<Atom>, other: u8, b: Seq<Atom>)
    requires
        same_tests(a, b),
    ensures
        same_tests(group_atoms(one, a), group_atoms(other, b)),
{
    assert(same_tests(seq![Atom::Open(one)], seq![Atom::Open(other)]));
    assert(same_tests(seq![Atom::Close(one)], seq![Atom::Close(other)]));
    lemma_same_tests_concat(seq![Atom::Open(one)], seq![Atom::Open(other)], a, b);
    lemma_same_tests_concat(
        seq![Atom::Open(one)] + a,
        seq![Atom::Open(other)] + b,
        seq![Atom::Close(one)],
        seq![Atom::Close(other)],
    );
}

/// The atoms of the parts are the same, whatever registers their groups
/// take, but for those registers.
pub proof fn lemma_parts_atoms_alike(parts: Seq<Part>, syntax: SyntaxFlags, one: int, other: int)
    ensures
        same_tests(parts_atoms(parts, syntax, one), parts_atoms(parts, syntax, other)),
    decreases parts,
{
    if parts.len() > 0 {
        let rest = parts.drop_first();
        match parts[0] {
            Part::Row(chars) => {
                let row = plain_atoms(chars, syntax)->0;
                lemma_parts_atoms_alike(rest, syntax, one, other);
                assert(same_tests(row, row));
                lemma_same_tests_concat(
                    row,
                    row,
                    parts_atoms(rest, syntax, one),
                    parts_atoms(rest, syntax, other),
                );
            },
            Part::Group(inside) => {
                let taken = 1 + parts_groups(inside);
                lemma_parts_atoms_alike(inside, syntax, one + 1, other + 1);
                lemma_parts_atoms_alike(rest, syntax, one + taken, other + taken);
                let a = parts_atoms(inside, syntax, one + 1);
                let b = parts_atoms(inside, syntax, other + 1);
                lemma_group_atoms_alike(one as u8, a, other as u8, b);
                lemma_same_tests_concat(
                    group_atoms(one as u8, a),
                    group_atoms(other as u8, b),
                    parts_atoms(rest, syntax, one + taken),
                    parts_atoms(rest, syntax, other + taken),
                );
            },
        }
    }
}

/// Where a pattern holds the text of parts from a position on, it holds
/// there the text of the first part and behind it the text of the others.
pub proof fn lemma_parts_window(pattern: Seq<char>, pos: int, stop: int, parts: Seq<Part>)
    requires
        0 <= pos,
        stop == pos + parts_text(parts).len(),
        stop <= pattern.len(),
        pattern.subrange(pos, stop) == parts_text(parts),
        parts.len() > 0,
    ensures
        match parts[0] {
            Part::Row(chars) => {
                &&& pattern.subrange(pos, pos + chars.len()) == chars
                &&& pattern.subrange(pos + chars.len(), stop) == parts_text(parts.drop_first())
                &&& pos + chars.len() <= stop
            },
            Part::Group(inside) => {
                let close = pos + parts_text(inside).len() + 1;
                &&& close < stop
                &&& pattern[pos] == '('
                &&& pattern[close] == ')'
                &&& pattern.subrange(pos + 1, close) == parts_text(inside)
                &&& pattern.subrange(close + 1, stop) == parts_text(parts.drop_first())
            },
        },
{
    let rest = parts.drop_first();
    let text = match parts[0] {
        Part::Row(chars) => chars,
        Part::Group(inside) => grouped(parts_text(inside)),
    };
    let width = text.len() as int;
    let mid = pos + width;
    let window = pattern.subrange(pos, stop);
    assert(parts_text(parts) == text + parts_text(rest));
    assert forall|i: int| 0 <= i < width implies #[trigger] pattern[i + pos] == text[i] by {
        assert(window[i] == parts_text(parts)[i]);
    }
    assert(pattern.subrange(mid, stop) =~= parts_text(rest)) by {
        assert forall|i: int| 0 <= i < parts_text(rest).len() implies pattern[mid + i]
            == parts_text(rest)[i] by {
            assert(window[width + i] == parts_text(parts)[width + i]);
        }
    }
    match parts[0] {
        Part::Row(chars) => {
            assert(pattern.subrange(pos, pos + chars.len()) =~= chars) by {
                assert forall|i: int| 0 <= i < chars.len() implies pattern[pos + i] == chars[i] by {
                    assert(pattern[i + pos] == text[i]);
                }
            }
        },
        Part::Group(inside) => {
            let close = mid - 1;
            assert(pattern[0 + pos] == text[0]);
            assert(pattern[(width - 1) + pos] == text[width - 1]);
            assert(pattern.subrange(pos + 1, close) =~= parts_text(inside)) by {
                assert forall|i: int| 0 <= i < parts_text(inside).len() implies pattern[pos + 1
                    + i] == parts_text(inside)[i] by {
                    assert(pattern[(i + 1) + pos] == text[i + 1]);
                }
            }
        },
    }
}

/// The rounds over a group of parts, with no more than one jump pending
/// before it: the instruction that opens the group, the code for the parts
/// inside and the instruction that closes the group are appended, the group
/// takes the next register and the groups inside those behind it, and the
/// group is the expression at the level of single characters.
#[verifier::rlimit(100)]
pub proof fn lemma_rounds_nest(e: Emitter, src: Source, inside: Seq<Part>, close: int)
    requires
        src.translate is None,
        !src.syntax.needs_backslash_parens(),
        parts_plain(inside, src.syntax),
        0 <= e.pos,
        close == e.pos + 1 + parts_text(inside).len(),
        close < src.pattern.len(),
        src.pattern[e.pos] == '(',
        src.pattern[close] == ')',
        src.pattern.subrange(e.pos + 1, close) == parts_text(inside),
        0 <= e.current_level <= 4,
        e.starts.len() == 500,
        e.open_registers.len() == 100,
        e.future_jumps.len() == 100,
        0 <= e.paren_depth < e.next_register,
        e.starts_base == 5 * e.paren_depth,
        e.num_open_registers == e.paren_depth,
        e.next_register + 1 + parts_groups(inside) <= 100,
        e.buffer.len() + atoms_code(parts_atoms(inside, src.syntax, e.next_register + 1)).len() + 4
            <= usize::MAX,
        e.num_jumps == 0 || (e.num_jumps == 1 && e.future_jumps[0] < e.buffer.len()),
    ensures
        rounds_until(e, src, close + 1) == (Emitter {
            pos: close + 1,
            buffer: e.buffer + atoms_code(
                group_atoms(
                    e.next_register as u8,
                    parts_atoms(inside, src.syntax, e.next_register + 1),
                ),
            ),
            starts: rounds_until(e, src, close + 1).starts,
            current_level: 4,
            next_register: e.next_register + 1 + parts_groups(inside),
            open_registers: rounds_until(e, src, close + 1).open_registers,
            beginning_context: false,
            ..e
        }),
        rounds_until(e, src, close + 1).starts.len() == 500,
        rounds_until(e, src, close + 1).open_registers.len() == 100,
        forall|i: int|
            0 <= i <= e.starts_base + e.current_level && i < e.starts_base + 4 ==> rounds_until(
                e,
                src,
                close + 1,
            ).starts[i] == e.starts[i],
        forall|i: int|
            e.starts_base + e.current_level < i <= e.starts_base + 4 ==> #[trigger] rounds_until(
                e,
                src,
                close + 1,
            ).starts[i] == e.buffer.len() as usize,
        rounds_until(e, src, close + 1).starts[e.starts_base + 4] == e.buffer.len() as usize,
        forall|j: int|
            0 <= j < e.num_open_registers ==> rounds_until(e, src, close + 1).open_registers[j]
                == e.open_registers[j],
    decreases inside, 1nat,
{
    let syntax = src.syntax;
    let reg = e.next_register;
    let base = e.starts_base;
    let inner = parts_atoms(inside, syntax, reg + 1);
    lemma_group_atoms(reg as u8, inner);
    lemma_round_open(e, src);
    let e1 = e.round(src)->Ok_0;
    lemma_rounds_parts(e1, src, inside, close);
    let e2 = rounds_until(e1, src, close);
    assert(e1.open_registers[e.num_open_registers] == reg as u8);
    assert(e2.open_registers[e.num_open_registers] == e1.open_registers[e.num_open_registers]);
    if inside.len() > 0 {
        assert(e2.starts[e1.starts_base + 1] == e1.buffer.len() as usize);
    }
    lemma_round_close(e2, src);
    let e3 = e2.round(src)->Ok_0;
    assert(e3.pos == close + 1);
    assert(rounds_until(e3, src, close + 1) == e3);
    assert(rounds_until(e2, src, close + 1) == rounds_until(e3, src, close + 1));
    lemma_rounds_join(e1, src, close, close + 1);
    assert(rounds_until(e, src, close + 1) == rounds_until(e1, src, close + 1));
    assert(e3.buffer =~= e.buffer + atoms_code(group_atoms(reg as u8, inner)));
    assert forall|i: int| 0 <= i <= base + 4 implies e3.starts[i] == e1.starts[i] by {
        assert(e2.starts[i] == e1.starts[i]);
    }
    assert forall|j: int| 0 <= j < e.num_open_registers implies e3.open_registers[j]
        == e.open_registers[j] by {
        assert(e2.open_registers[j] == e1.open_registers[j]);
    }
}

/// The rounds over parts, with no more than one jump pending before them:
/// the code for their atoms is appended, the groups take the next registers
/// in the order in which they open, and the compiler is left in the group it
/// was in, at the level of single characters.
#[verifier::rlimit(100)]
pub proof fn lemma_rounds_parts(e: Emitter, src: Source, parts: Seq<Part>, stop: int)
    requires
        src.translate is None,
        !src.syntax.needs_backslash_parens(),
        parts_plain(parts, src.syntax),
        0 <= e.pos,
        stop == e.pos + parts_text(parts).len(),
        stop <= src.pattern.len(),
        src.pattern.subrange(e.pos, stop) == parts_text(parts),
        0 <= e.current_level <= 4,
        e.starts.len() == 500,
        e.open_registers.len() == 100,
        e.future_jumps.len() == 100,
        0 <= e.paren_depth < e.next_register,
        e.starts_base == 5 * e.paren_depth,
        e.num_open_registers == e.paren_depth,
        e.next_register + parts_groups(parts) <= 100,
        e.buffer.len() + atoms_code(parts_atoms(parts, src.syntax, e.next_register)).len()
            <= usize::MAX,
        e.num_jumps == 0 || (e.num_jumps == 1 && e.future_jumps[0] < e.buffer.len()),
    ensures
        rounds_until(e, src, stop) == (Emitter {
            pos: stop,
            buffer: e.buffer + atoms_code(parts_atoms(parts, src.syntax, e.next_register)),
            starts: rounds_until(e, src, stop).starts,
            current_level: if parts.len() == 0 {
                e.current_level
            } else {
                4
            },
            next_register: e.next_register + parts_groups(parts),
            open_registers: rounds_until(e, src, stop).open_registers,
            beginning_context: if parts.len() == 0 {
                e.beginning_context
            } else {
                false
            },
            ..e
        }),
        rounds_until(e, src, stop).starts.len() == 500,
        rounds_until(e, src, stop).open_registers.len() == 100,
        forall|i: int|
            0 <= i <= e.starts_base + e.current_level && i < e.starts_base + 4 ==> rounds_until(
                e,
                src,
                stop,
            ).starts[i] == e.starts[i],
        parts.len() > 0 ==> forall|i: int|
            e.starts_base + e.current_level < i < e.starts_base + 4 ==> rounds_until(
                e,
                src,
                stop,
            ).starts[i] == e.buffer.len() as usize,
        forall|j: int|
            0 <= j < e.num_open_registers ==> rounds_until(e, src, stop).open_registers[j]
                == e.open_registers[j],
    decreases parts, 0nat,
{
    let syntax = src.syntax;
    let reg = e.next_register;
    let base = e.starts_base;
    if parts.len() == 0 {
        assert(e.buffer + atoms_code(parts_atoms(parts, syntax, reg)) =~= e.buffer);
    } else {
        let rest = parts.drop_first();
        lemma_parts_window(src.pattern, e.pos, stop, parts);
        let mid = match parts[0] {
            Part::Row(chars) => e.pos + chars.len(),
            Part::Group(inside) => e.pos + parts_text(inside).len() + 2,
        };
        match parts[0] {
            Part::Row(chars) => {
                let row = plain_atoms(chars, syntax)->0;
                lemma_atoms_concat(row, parts_atoms(rest, syntax, reg));
                assert forall|i: int| 0 <= i < chars.len() implies chars[i]
                    == #[trigger] src.pattern[i + e.pos] by {
                    assert(src.pattern.subrange(e.pos, e.pos + chars.len())[i] == chars[i]);
                }
                lemma_atoms_inside(chars, src, e.pos);
                lemma_rounds_atoms(e, src, mid, row);
                assert(atoms_between(
                    Source { pattern: chars, syntax, translate: None },
                    0,
                    chars.len() as int,
                ) == Some(row));
                assert(row.len() >= 1);
            },
            Part::Group(inside) => {
                let inner = parts_atoms(inside, syntax, reg + 1);
                lemma_atoms_concat(
                    group_atoms(reg as u8, inner),
                    parts_atoms(rest, syntax, reg + 1 + parts_groups(inside)),
                );
                lemma_group_atoms(reg as u8, inner);
                lemma_rounds_nest(e, src, inside, mid - 1);
            },
        }
        let e4 = rounds_until(e, src, mid);
        assert(e4.current_level == 4);
        assert(e4.starts_base == base);
        lemma_rounds_join(e, src, mid, stop);
        lemma_rounds_parts(e4, src, rest, stop);
        let done = rounds_until(e, src, stop);
        assert(done == rounds_until(e4, src, stop));
        assert(done.buffer =~= e.buffer + atoms_code(parts_atoms(parts, syntax, reg)));
        assert forall|i: int| 0 <= i < base + 4 implies (i <= base + e.current_level
            ==> done.starts[i] == e.starts[i]) && (base + e.current_level < i ==> done.starts[i]
            == e.buffer.len() as usize) by {
            assert(done.starts[i] == e4.starts[i]);
        }
        assert forall|j: int| 0 <= j < e.num_open_registers implies done.open_registers[j]
            == e.open_registers[j] by {
            assert(done.open_registers[j] == e4.open_registers[j]);
        }
    }
}

/// A pattern of parts compiles, to the code for their atoms and `End`; the
/// groups take the registers from the first on.
#[verifier::rlimit(50)]
pub proof fn lemma_compiled_parts(parts: Seq<Part>, syntax: SyntaxFlags)
    requires
        parts_plain(parts, syntax),
        !syntax.needs_backslash_parens(),
        parts_groups(parts) <= 99,
        atoms_code(parts_atoms(parts, syntax, 1)).len() <= usize::MAX,
    ensures
        compiled(parts_text(parts), syntax) == Ok::<Seq<u8>, RegexError>(
            atoms_code(parts_atoms(parts, syntax, 1)) + seq![CompiledOp::End.spec_to_byte()],
        ),
{
    let src = Source { pattern: parts_text(parts), syntax, translate: None };
    let stop = src.pattern.len() as int;
    let e0 = Emitter::initial().mark();
    assert(src.pattern.subrange(0, stop) =~= parts_text(parts));
    lemma_rounds_parts(e0, src, parts, stop);
    let done = rounds_until(e0, src, stop);
    lemma_finish_after_rounds(e0, src, stop);
    let lowered = Emitter { current_level: 0, ..done };
    assert(lowered.patch_pending() == lowered);
    assert(done.handle_precedence(0).buffer == done.buffer);
    assert(done.buffer.push(0u8) =~= atoms_code(parts_atoms(parts, syntax, 1)) + seq![0u8]);
}

/// The alternation of two patterns of parts compiles to its code, in a
/// dialect in which `|` alternates without a backslash; the groups of the
/// second take the registers behind those of the first.
#[verifier::rlimit(100)]
pub proof fn lemma_compiled_parts_alternation(a: Seq<Part>, b: Seq<Part>, syntax: SyntaxFlags)
    requires
        parts_plain(a, syntax),
        parts_plain(b, syntax),
        !syntax.needs_backslash_parens(),
        !syntax.needs_backslash_vbar(),
        parts_groups(a) + parts_groups(b) <= 99,
        atoms_code(parts_atoms(a, syntax, 1)).len() + atoms_code(
            parts_atoms(b, syntax, 1 + parts_groups(a) as int),
        ).len() + 9 <= usize::MAX,
    ensures
        compiled(alternation(parts_text(a), parts_text(b)), syntax) == Ok::<Seq<u8>, RegexError>(
            alternation_code(
                atoms_code(parts_atoms(a, syntax, 1)),
                atoms_code(parts_atoms(b, syntax, 1 + parts_groups(a) as int)),
            ),
        ),
{
    let src = Source {
        pattern: alternation(parts_text(a), parts_text(b)),
        syntax,
        translate: None,
    };
    let bar = parts_text(a).len() as int;
    let stop = src.pattern.len() as int;
    let first = atoms_code(parts_atoms(a, syntax, 1));
    let second = atoms_code(parts_atoms(b, syntax, 1 + parts_groups(a) as int));
    let la = first.len() as int;
    assert(stop == bar + 1 + parts_text(b).len());
    assert(src.pattern[bar] == '|');
    assert(src.pattern.subrange(0, bar) =~= parts_text(a));
    assert(src.pattern.subrange(bar + 1, stop) =~= parts_text(b));
    let e0 = Emitter::initial().mark();
    lemma_rounds_parts(e0, src, a, bar);
    let e1 = rounds_until(e0, src, bar);
    lemma_finish_after_rounds(e0, src, bar);
    assert(e1.buffer =~= first);
    assert forall|i: int| 0 <= i <= 3 implies e1.starts[i] == 0 by {
        assert(e0.starts[i] == 0);
        assert(e0.starts_base + e0.current_level == 0);
        assert(a.len() == 0 ==> e1 == e0);
    }
    lemma_round_bar(e1, src);
    let e2 = e1.round(src)->Ok_0;
    assert(e1.finish(src) == e2.finish(src));
    lemma_rounds_parts(e2, src, b, stop);
    let e3 = rounds_until(e2, src, stop);
    lemma_finish_after_rounds(e2, src, stop);
    assert(atoms_between(src, stop, stop) == Some(Seq::<Atom>::empty()));
    assert(e3.starts[0] == e2.starts[0]);
    lemma_finish_after_bar(e3, src, la + 4, Seq::<Atom>::empty());
    assert(e3.buffer + atoms_code(Seq::<Atom>::empty()) =~= e3.buffer);
    assert(crate::laws::alternation::closed_at(e3.buffer, la + 4).push(0u8) =~= alternation_code(
        first,
        second,
    ));
}

/// Alternation of patterns with groups: where `a` and `b` consist of rows
/// of atoms and of groups of such rows, parentheses group, `|` alternates,
/// and the code stays within reach of a 16-bit displacement, the pattern
/// `a|b` matches in a text exactly where `a` does or `b` does, given ticks
/// for every atom and every parenthesis of both and room for two resume
/// points. The relation ends where an alternative repeats: a star jump
/// refreshes the latest resume point, which behind `|` is that of the
/// alternation, so that `a+c|ab` finds nothing in `ab`.
#[verifier::rlimit(100)]
pub proof fn law_alternation_of_patterns_with_groups(
    both: Regex,
    left: Regex,
    right: Regex,
    a: Seq<Part>,
    b: Seq<Part>,
    syntax: SyntaxFlags,
    text: Seq<char>,
    limits: ExecLimits,
)
    requires
        parts_plain(a, syntax),
        parts_plain(b, syntax),
        all_fit(parts_atoms(a, syntax, 1)),
        all_fit(parts_atoms(b, syntax, 1)),
        !syntax.needs_backslash_parens(),
        !syntax.needs_backslash_vbar(),
        parts_groups(a) + parts_groups(b) <= 99,
        atoms_code(parts_atoms(a, syntax, 1)).len() + atoms_code(parts_atoms(b, syntax, 1)).len()
            + 7 <= 32767,
        parts_atoms(a, syntax, 1).len() + parts_atoms(b, syntax, 1).len() + 5
            < limits.tick_limit(),
        limits.max_failures > 1,
        text.len() <= usize::MAX,
        compiled(alternation(parts_text(a), parts_text(b)), syntax) is Ok ==> both.code()
            == compiled(alternation(parts_text(a), parts_text(b)), syntax)->Ok_0
            && both.translation() is None,
        compiled(parts_text(a), syntax) is Ok ==> left.code() == compiled(
            parts_text(a),
            syntax,
        )->Ok_0 && left.translation() is None,
        compiled(parts_text(b), syntax) is Ok ==> right.code() == compiled(
            parts_text(b),
            syntax,
        )->Ok_0 && right.translation() is None,
    ensures
        compiled(alternation(parts_text(a), parts_text(b)), syntax) is Ok,
        compiled(parts_text(a), syntax) is Ok,
        compiled(parts_text(b), syntax) is Ok,
        both.first_match(text, limits) is Some <==> left.first_match(text, limits) is Some
            || right.first_match(text, limits) is Some,
{
    let first = parts_atoms(a, syntax, 1);
    let second = parts_atoms(b, syntax, 1);
    let moved = parts_atoms(b, syntax, 1 + parts_groups(a) as int);
    lemma_parts_atoms_alike(b, syntax, 1, 1 + parts_groups(a) as int);
    lemma_same_tests_code_len(second, moved);
    lemma_same_tests_hold(text, 0, second, moved);
    lemma_compiled_parts_alternation(a, b, syntax);
    lemma_compiled_parts(a, syntax);
    lemma_compiled_parts(b, syntax);
    let job_both = job_of(&both, text, limits);
    let job_left = job_of(&left, text, limits);
    let job_right = job_of(&right, text, limits);
    assert forall|p: int| 0 <= p <= text.len() implies #[trigger] job_both.run_at(p).result is Ok by {
        lemma_run_alternation_code(job_both, first, moved, p);
    }
    assert forall|p: int| 0 <= p <= text.len() implies #[trigger] job_left.run_at(p).result is Ok by {
        lemma_run_atoms_code(job_left, first, p);
    }
    assert forall|p: int| 0 <= p <= text.len() implies #[trigger] job_right.run_at(
        p,
    ).result is Ok by {
        lemma_run_atoms_code(job_right, second, p);
    }
    lemma_first_match_exists(both, text, limits);
    lemma_first_match_exists(left, text, limits);
    lemma_first_match_exists(right, text, limits);
    if both.first_match(text, limits) is Some {
        let p = choose|p: int|
            0 <= p <= text.len() && p <= i32::MAX && #[trigger] job_both.matches_at(p);
        lemma_same_tests_hold(text, p, second, moved);
        lemma_run_alternation_code(job_both, first, moved, p);
        lemma_run_atoms_code(job_left, first, p);
        lemma_run_atoms_code(job_right, second, p);
        assert(job_left.matches_at(p) || job_right.matches_at(p));
    }
    if left.first_match(text, limits) is Some {
        let p = choose|p: int|
            0 <= p <= text.len() && p <= i32::MAX && #[trigger] job_left.matches_at(p);
        lemma_run_alternation_code(job_both, first, moved, p);
        lemma_run_atoms_code(job_left, first, p);
        assert(job_both.matches_at(p));
    }
    if right.first_match(text, limits) is Some {
        let p = choose|p: int|
            0 <= p <= text.len() && p <= i32::MAX && #[trigger] job_right.matches_at(p);
        lemma_same_tests_hold(text, p, second, moved);
        lemma_run_alternation_code(job_both, first, moved, p);
        lemma_run_atoms_code(job_right, second, p);
        assert(job_both.matches_at(p));
    }
}

/// The pattern `(x)+` compiles to its code, where `x` consists of parts,
/// in a dialect in which parentheses group and `+` repeats without a
/// backslash.
#[verifier::rlimit(50)]
pub proof fn lemma_compiled_group_plus(x: Seq<Part>, syntax: SyntaxFlags)
    requires
        parts_plain(x, syntax),
        parts_groups(x) <= 98,
        atoms_code(parts_atoms(x, syntax, 2)).len() + 13 <= usize::MAX,
        !syntax.needs_backslash_parens(),
        !syntax.needs_backslash_plus_qm(),
    ensures
        compiled(grouped(parts_text(x)) + seq!['+'], syntax) == Ok::<Seq<u8>, RegexError>(
            plus_code(atoms_code(group_atoms(1, parts_atoms(x, syntax, 2)))),
        ),
{
    let inner = parts_atoms(x, syntax, 2);
    let src = Source { pattern: grouped(parts_text(x)) + seq!['+'], syntax, translate: None };
    let close = parts_text(x).len() as int + 1;
    assert(src.pattern[0] == '(');
    assert(src.pattern[close] == ')');
    assert(src.pattern.subrange(1, close) =~= parts_text(x));
    lemma_group_atoms(1, inner);
    let e0 = Emitter::initial().mark();
    lemma_rounds_nest(e0, src, x, close);
    let e1 = rounds_until(e0, src, close + 1);
    lemma_finish_after_rounds(e0, src, close + 1);
    assert(e1.buffer =~= atoms_code(group_atoms(1, inner)));
    lemma_finish_plus(e1, src);
}

/// The pattern `(x)(x)*` compiles to its code, where `x` consists of
/// parts; the groups of the second copy take the registers behind those of
/// the first.
#[verifier::rlimit(50)]
pub proof fn lemma_compiled_group_then_star(x: Seq<Part>, syntax: SyntaxFlags)
    requires
        parts_plain(x, syntax),
        2 * parts_groups(x) + 2 <= 99,
        atoms_code(parts_atoms(x, syntax, 2)).len() + atoms_code(
            parts_atoms(x, syntax, 3 + parts_groups(x) as int),
        ).len() + 17 <= usize::MAX,
        !syntax.needs_backslash_parens(),
    ensures
        compiled(grouped(parts_text(x)) + grouped(parts_text(x)) + seq!['*'], syntax) == Ok::<
            Seq<u8>,
            RegexError,
        >(
            one_then_star_code(
                atoms_code(group_atoms(1, parts_atoms(x, syntax, 2))),
                atoms_code(
                    group_atoms(
                        (2 + parts_groups(x)) as u8,
                        parts_atoms(x, syntax, 3 + parts_groups(x) as int),
                    ),
                ),
            ),
        ),
{
    let next = 2 + parts_groups(x) as int;
    let first = group_atoms(1, parts_atoms(x, syntax, 2));
    let second = group_atoms(next as u8, parts_atoms(x, syntax, next + 1));
    let src = Source {
        pattern: grouped(parts_text(x)) + grouped(parts_text(x)) + seq!['*'],
        syntax,
        translate: None,
    };
    let close = parts_text(x).len() as int + 1;
    let open = close + 1;
    let last = open + close;
    assert(src.pattern[0] == '(');
    assert(src.pattern[close] == ')');
    assert(src.pattern.subrange(1, close) =~= parts_text(x));
    assert(src.pattern[open] == '(');
    assert(src.pattern[last] == ')');
    assert(src.pattern.subrange(open + 1, last) =~= parts_text(x));
    lemma_group_atoms(1, parts_atoms(x, syntax, 2));
    lemma_group_atoms(next as u8, parts_atoms(x, syntax, next + 1));
    let e0 = Emitter::initial().mark();
    lemma_rounds_nest(e0, src, x, close);
    let e1 = rounds_until(e0, src, open);
    assert(e1.buffer =~= atoms_code(first));
    lemma_rounds_nest(e1, src, x, last);
    let e2 = rounds_until(e1, src, last + 1);
    lemma_rounds_join(e0, src, open, last + 1);
    lemma_finish_after_rounds(e0, src, last + 1);
    lemma_finish_star(e2, src, atoms_code(first), atoms_code(second));
}

/// Quantifier relation for a group: where `x` consists of rows of atoms
/// and of groups, takes one character at least, and its instructions hold
/// its atoms in full, parentheses group and `+` repeats, the patterns `(x)+`
/// and `(x)(x)*` both compile, and in every text they match at the same
/// first position and up to the same end, or both match nowhere, given
/// ticks for the instructions of the group and two more for each position of
/// the text. The relation ends where the group holds alternatives: the star
/// jump behind it refreshes a resume point of the group, so that `(a|ab)+c`
/// finds nothing in `abc` and `(a|ab)(a|ab)*c` finds all of it.
#[verifier::rlimit(50)]
pub proof fn law_group_plus_is_group_then_star(
    plus: Regex,
    star: Regex,
    x: Seq<Part>,
    syntax: SyntaxFlags,
    text: Seq<char>,
    limits: ExecLimits,
)
    requires
        parts_plain(x, syntax),
        2 * parts_groups(x) + 2 <= 99,
        atoms_width(parts_atoms(x, syntax, 2)) >= 1,
        all_fit(parts_atoms(x, syntax, 2)),
        atoms_code(parts_atoms(x, syntax, 2)).len() + 10 <= 32767,
        !syntax.needs_backslash_parens(),
        !syntax.needs_backslash_plus_qm(),
        text.len() <= usize::MAX,
        loop_cost(parts_atoms(x, syntax, 2).len() as int + 2, text.len() as int) + 8
            < limits.tick_limit(),
        compiled(grouped(parts_text(x)) + seq!['+'], syntax) is Ok ==> plus.code() == compiled(
            grouped(parts_text(x)) + seq!['+'],
            syntax,
        )->Ok_0 && plus.translation() is None,
        compiled(grouped(parts_text(x)) + grouped(parts_text(x)) + seq!['*'], syntax) is Ok
            ==> star.code() == compiled(
            grouped(parts_text(x)) + grouped(parts_text(x)) + seq!['*'],
            syntax,
        )->Ok_0 && star.translation() is None,
    ensures
        compiled(grouped(parts_text(x)) + seq!['+'], syntax) is Ok,
        compiled(grouped(parts_text(x)) + grouped(parts_text(x)) + seq!['*'], syntax) is Ok,
        plus.first_match(text, limits) is Some <==> star.first_match(text, limits) is Some,
        plus.first_match(text, limits) is Some ==> plus.first_match(text, limits)->0[0]
            == star.first_match(text, limits)->0[0],
{
    let next = 2 + parts_groups(x) as int;
    let inner = parts_atoms(x, syntax, 2);
    let again = parts_atoms(x, syntax, next + 1);
    let first = group_atoms(1, inner);
    let second = group_atoms(next as u8, again);
    lemma_parts_atoms_alike(x, syntax, 2, next + 1);
    lemma_group_atoms_alike(1, inner, next as u8, again);
    lemma_same_tests_code_len(inner, again);
    lemma_same_tests_code_len(first, second);
    lemma_group_atoms(1, inner);
    lemma_group_atoms(next as u8, again);
    lemma_compiled_group_plus(x, syntax);
    lemma_compiled_group_then_star(x, syntax);
    let one = job_of(&plus, text, limits);
    let other = job_of(&star, text, limits);
    assert forall|p: int| 0 <= p <= text.len() implies #[trigger] one.run_at(p).result
        == other.run_at(p).result by {
        lemma_run_plus_code(one, first, p);
        lemma_run_one_then_star_code(other, first, second, p);
    }
    let range = if text.len() <= i32::MAX {
        text.len() as int
    } else {
        i32::MAX as int
    };
    lemma_scan_forward_alike(one, other, 0, range);
    lemma_scan_forward_finds_first(one, 0, range);
    match one.search_result(0, range) {
        Ok(found) => {
            if found >= 0 {
                assert(one.run_at(found as int).result == other.run_at(found as int).result);
            }
        },
        Err(_) => {},
    }
}

} // verus!
