//! Character classes: what the compiler emits for them, how the machine
//! reads it, and the duality of a class and its complement.

use crate::{ExecLimits, Regex, RegexError};
use crate::codepoint::{char_operand, lemma_operand_round_trip};
use crate::lowering::{compiled, plain_op, range_operands, ClassRange, ClassScan, Emitter, Source};
use crate::matcher::job_of;
use crate::opcodes::{CompiledOp, SyntaxOp};
use crate::semantics::{translated, Job, Machine, Step};
use crate::syntax::SyntaxFlags;
use vstd::prelude::*;

verus! {

/// The pattern that is the character class with body `class`, complemented
/// or not.
pub open spec fn bracketed(class: Seq<char>, complement: bool) -> Seq<char> {
    if complement {
        seq!['[', '^'] + class + seq![']']
    } else {
        seq!['['] + class + seq![']']
    }
}

/// Does the scalar value `c` lie in one of the ranges?
pub open spec fn in_ranges(ranges: Seq<ClassRange>, c: u32) -> bool
    decreases ranges.len(),
{
    ranges.len() > 0 && ((ranges[0].0 as u32 <= c && c <= ranges[0].1 as u32) || in_ranges(
        ranges.drop_first(),
        c,
    ))
}

/// The scan of a class body sees only the pattern from the cursor on: two
/// patterns that agree from the cursor of each on give the same members.
#[verifier::rlimit(50)]
pub proof fn lemma_scan_class_shift(a: Source, b: Source, pos: int, shift: int, scan: ClassScan)
    requires
        a.syntax == b.syntax,
        a.translate == b.translate,
        b.pattern.len() == a.pattern.len() + shift,
        0 <= pos,
        0 <= shift,
        forall|i: int| pos <= i < a.pattern.len() ==> a.pattern[i] == #[trigger] b.pattern[i + shift],
    ensures
        match a.scan_class(pos, scan) {
            Ok((ranges, next)) => b.scan_class(pos + shift, scan) == Ok::<
                (Seq<ClassRange>, int),
                RegexError,
            >((ranges, next + shift)),
            Err(e) => b.scan_class(pos + shift, scan) == Err::<(Seq<ClassRange>, int), RegexError>(
                e,
            ),
        },
    decreases a.pattern.len() - pos,
{
    if pos < a.pattern.len() {
        let ch = a.pattern[pos];
        assert(b.pattern[pos + shift] == ch);
        if !(ch == ']' && !scan.first) {
            if pos + 1 < a.pattern.len() {
                assert(b.pattern[pos + 1 + shift] == a.pattern[pos + 1]);
            }
            if pos + 2 < a.pattern.len() {
                assert(b.pattern[pos + 2 + shift] == a.pattern[pos + 2]);
            }
            if pos + 3 < a.pattern.len() {
                assert(b.pattern[pos + 3 + shift] == a.pattern[pos + 3]);
            }
            let member = if ch == '\\' && a.syntax.ansi_sequences() && pos + 1 < a.pattern.len() {
                a.ansi_translate(pos + 2, a.pattern[pos + 1])
            } else {
                Ok((ch, pos + 1))
            };
            match member {
                Ok((raw, next)) => {
                    let actual = translated(a.translate, raw);
                    if next < a.pattern.len() {
                        assert(b.pattern[next + shift] == a.pattern[next]);
                    }
                    assert(scan.take(a, ch, actual, next) == scan.take(b, ch, actual, next + shift));
                    lemma_scan_class_shift(a, b, next, shift, scan.take(a, ch, actual, next));
                },
                Err(_) => {},
            }
        }
    }
}

/// The operands of a sequence of ranges begin with those of its first
/// range.
pub proof fn lemma_range_operands_front(ranges: Seq<ClassRange>)
    requires
        ranges.len() > 0,
    ensures
        range_operands(ranges) == char_operand(ranges[0].0) + char_operand(ranges[0].1)
            + range_operands(ranges.drop_first()),
    decreases ranges.len(),
{
    if ranges.len() == 1 {
        assert(ranges.drop_last() =~= Seq::<ClassRange>::empty());
        assert(ranges.drop_first() =~= Seq::<ClassRange>::empty());
        assert(range_operands(ranges) =~= char_operand(ranges[0].0) + char_operand(ranges[0].1)
            + range_operands(ranges.drop_first()));
    } else {
        let init = ranges.drop_last();
        lemma_range_operands_front(init);
        assert(init.drop_first() =~= ranges.drop_first().drop_last());
        assert(init[0] == ranges[0]);
        assert(ranges.drop_first().last() == ranges.last());
        assert(range_operands(ranges) =~= char_operand(ranges[0].0) + char_operand(ranges[0].1)
            + range_operands(ranges.drop_first()));
    }
}

/// The machine reads the ranges that the compiler wrote: it finds the
/// character in them exactly where it lies in one, and ends behind them.
pub proof fn lemma_machine_scans_ranges(
    job: Job,
    before: Seq<u8>,
    ranges: Seq<ClassRange>,
    after: Seq<u8>,
    c: u32,
)
    requires
        job.code == before + range_operands(ranges) + after,
    ensures
        job.scan_class(before.len() as int, ranges.len(), c) == Some(
            (in_ranges(ranges, c), (before.len() + range_operands(ranges).len()) as int),
        ),
    decreases ranges.len(),
{
    if ranges.len() > 0 {
        let low = char_operand(ranges[0].0);
        let high = char_operand(ranges[0].1);
        let rest = ranges.drop_first();
        lemma_range_operands_front(ranges);
        assert(job.code =~= before + low + (high + range_operands(rest) + after));
        lemma_operand_round_trip(before, ranges[0].0, high + range_operands(rest) + after);
        assert(job.code =~= (before + low) + high + (range_operands(rest) + after));
        lemma_operand_round_trip(before + low, ranges[0].1, range_operands(rest) + after);
        assert(job.code =~= (before + low + high) + range_operands(rest) + after);
        lemma_machine_scans_ranges(job, before + low + high, rest, after, c);
    }
}

/// A bracketed class body that closes at its last bracket compiles to one
/// class instruction and `End`.
#[verifier::rlimit(50)]
pub proof fn lemma_compiled_class(
    class: Seq<char>,
    complement: bool,
    syntax: SyntaxFlags,
    ranges: Seq<ClassRange>,
)
    requires
        class.len() > 0 ==> class[0] != '^',
        (Source { pattern: bracketed(class, false), syntax, translate: None }).scan_class(
            1,
            ClassScan::fresh(),
        ) == Ok::<(Seq<ClassRange>, int), RegexError>((ranges, class.len() as int + 2)),
    ensures
        compiled(bracketed(class, complement), syntax) == Ok::<Seq<u8>, RegexError>(
            seq![
                CompiledOp::CharSet.spec_to_byte(),
                if complement {
                    1u8
                } else {
                    0u8
                },
                (ranges.len() % 256) as u8,
            ] + range_operands(ranges) + seq![CompiledOp::End.spec_to_byte()],
        ),
{
    let plain = Source { pattern: bracketed(class, false), syntax, translate: None };
    let src = Source { pattern: bracketed(class, complement), syntax, translate: None };
    let e = Emitter::initial().mark();
    assert(src.pattern[0] == '[');
    assert(plain_op(syntax, '[' as u32) == SyntaxOp::OpenSet);
    let body: int = if complement {
        2
    } else {
        1
    };
    if complement {
        assert(src.pattern[1] == '^');
        assert forall|i: int| 1 <= i < plain.pattern.len() implies plain.pattern[i]
            == #[trigger] src.pattern[i + 1] by {}
        lemma_scan_class_shift(plain, src, 1, 1, ClassScan::fresh());
    } else {
        assert(src.pattern[1] != '^');
    }
    assert(src.scan_class(body, ClassScan::fresh()) == Ok::<(Seq<ClassRange>, int), RegexError>(
        (ranges, src.pattern.len() as int),
    ));
    let done = e.round(src)->Ok_0;
    assert(e.round(src) is Ok);
    assert(done.pos == src.pattern.len());
    assert(done.num_jumps == 0);
    let head = seq![
        3u8,
        if complement {
            1u8
        } else {
            0u8
        },
        (ranges.len() % 256) as u8,
    ];
    assert(done.buffer =~= head + range_operands(ranges));
    assert(e.finish(src) == done.finish(src));
    assert(done.finish(src) == Ok::<Seq<u8>, RegexError>(done.buffer.push(0u8)));
    assert(done.buffer.push(0u8) =~= head + range_operands(ranges) + seq![0u8]);
}

/// The run of a single class instruction at a position inside the text
/// matches exactly where the character lies in a range, or in none for a
/// complemented class.
#[verifier::rlimit(50)]
pub proof fn lemma_run_class(job: Job, pos: int, complement: bool, ranges: Seq<ClassRange>)
    requires
        job.code == seq![
            CompiledOp::CharSet.spec_to_byte(),
            if complement {
                1u8
            } else {
                0u8
            },
            ranges.len() as u8,
        ] + range_operands(ranges) + seq![CompiledOp::End.spec_to_byte()],
        ranges.len() < 256,
        job.translate is None,
        0 <= pos < job.text.len(),
        job.limits.tick_limit() > 2,
        job.limits.max_failures > 0,
    ensures
        job.matches_at(pos) == (in_ranges(ranges, job.text[pos] as u32) != complement),
{
    let head = seq![
        3u8,
        if complement {
            1u8
        } else {
            0u8
        },
        ranges.len() as u8,
    ];
    let c = job.text[pos] as u32;
    let m = Job::start(pos);
    assert(m.stack.len() == 0);
    lemma_machine_scans_ranges(job, head, ranges, seq![0u8], c);
    let end = (3 + range_operands(ranges).len()) as int;
    assert(job.code[0] == 3u8);
    assert(job.code[1] == head[1]);
    assert(job.code[2] == ranges.len() as u8);
    assert(job.code[end] == 0u8);
    let hit = in_ranges(ranges, c);
    if hit != complement {
        let next = Machine { text_pos: pos + 1, code_pos: end, ..m };
        assert(job.step(m) == Step::Next(next));
        assert(job.step(next) == Step::Halt(Ok(Some((pos + 1) as usize))));
        assert(job.run(next, 1).result == Ok::<Option<usize>, RegexError>(
            Some((pos + 1) as usize),
        ));
    } else {
        assert(job.step(m) == Step::Halt(Ok(None)));
    }
}

/// Complement duality: where the body of a character class closes at the
/// bracket behind it and holds fewer than 256 ranges, both the class and its
/// complement compile, and at every position inside a text exactly one of
/// the two matches, given ticks for the two instructions and room for one
/// resume point.
pub proof fn law_class_and_complement_are_opposites(
    plain: Regex,
    negated: Regex,
    class: Seq<char>,
    syntax: SyntaxFlags,
    text: Seq<char>,
    pos: int,
    limits: ExecLimits,
)
    requires
        class.len() > 0 ==> class[0] != '^',
        ({
            let scanned = (Source {
                pattern: bracketed(class, false),
                syntax,
                translate: None,
            }).scan_class(1, ClassScan::fresh());
            scanned is Ok && scanned->Ok_0.1 == class.len() + 2 && scanned->Ok_0.0.len() < 256
        }),
        compiled(bracketed(class, false), syntax) is Ok ==> plain.code() == compiled(
            bracketed(class, false),
            syntax,
        )->Ok_0 && plain.translation() is None,
        compiled(bracketed(class, true), syntax) is Ok ==> negated.code() == compiled(
            bracketed(class, true),
            syntax,
        )->Ok_0 && negated.translation() is None,
        0 <= pos < text.len(),
        limits.tick_limit() > 2,
        limits.max_failures > 0,
    ensures
        compiled(bracketed(class, false), syntax) is Ok,
        compiled(bracketed(class, true), syntax) is Ok,
        job_of(&plain, text, limits).matches_at(pos) != job_of(&negated, text, limits).matches_at(
            pos,
        ),
{
    let scanned = (Source { pattern: bracketed(class, false), syntax, translate: None }).scan_class(
        1,
        ClassScan::fresh(),
    );
    let ranges = scanned->Ok_0.0;
    lemma_compiled_class(class, false, syntax, ranges);
    lemma_compiled_class(class, true, syntax, ranges);
    lemma_run_class(job_of(&plain, text, limits), pos, false, ranges);
    lemma_run_class(job_of(&negated, text, limits), pos, true, ranges);
}

} // verus!
