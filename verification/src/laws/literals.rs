//! Patterns without operators: what the compiler emits for them, what the
//! machine does with that code, and the round trip that follows.

use crate::codepoint::{char_operand, lemma_operand_round_trip};
use crate::lowering::{compiled, plain_op, Emitter, Source};
use crate::matcher::job_of;
use crate::opcodes::{CompiledOp, SyntaxOp};
use crate::semantics::{Job, Machine, Step};
use crate::syntax::SyntaxFlags;
use crate::{ExecLimits, Regex, RegexError};
use vstd::prelude::*;

verus! {

/// Is no character of `s` an operator of the dialect when it stands
/// unquoted?
pub open spec fn is_literal(s: Seq<char>, syntax: SyntaxFlags) -> bool {
    forall|i: int| 0 <= i < s.len() ==> plain_op(syntax, #[trigger] s[i] as u32) == SyntaxOp::Normal
}

/// The code that matches the characters of `s` one after the other: an
/// `Exact` instruction for each.
pub open spec fn literal_code(s: Seq<char>) -> Seq<u8>
    decreases s.len(),
{
    if s.len() == 0 {
        Seq::empty()
    } else {
        seq![CompiledOp::Exact.spec_to_byte()] + char_operand(s[0]) + literal_code(s.drop_first())
    }
}

/// The round that reads a character that is no operator: the compiler
/// moves up to the level of single characters and appends the instruction for
/// the character. Nothing else changes but the level starts of the levels it
/// moves through.
#[verifier::rlimit(50)]
pub proof fn lemma_round_literal(e: Emitter, src: Source)
    requires
        src.translate is None,
        0 <= e.pos < src.pattern.len(),
        plain_op(src.syntax, src.pattern[e.pos] as u32) == SyntaxOp::Normal,
        0 <= e.current_level <= 4,
        e.starts.len() == 500,
        0 <= e.starts_base <= 495,
    ensures
        e.round(src) is Ok,
        e.round(src)->Ok_0 == (Emitter {
            pos: e.pos + 1,
            buffer: e.buffer + (seq![CompiledOp::Exact.spec_to_byte()] + char_operand(
                src.pattern[e.pos],
            )),
            starts: e.round(src)->Ok_0.starts,
            current_level: 4,
            beginning_context: false,
            ..e
        }),
        e.round(src)->Ok_0.starts.len() == 500,
        e.round(src)->Ok_0.starts[e.starts_base + 4] == e.buffer.len() as usize,
        forall|i: int|
            0 <= i <= e.starts_base + e.current_level && i < e.starts_base + 4 ==> e.round(
                src,
            )->Ok_0.starts[i] == e.starts[i],
{
    let ch = src.pattern[e.pos];
    assert(src.read_op(e.pos) == Ok::<(SyntaxOp, char, int), RegexError>(
        (SyntaxOp::Normal, ch, e.pos + 1),
    ));
    let moved = Emitter { pos: e.pos + 1, ..e };
    let levelled = moved.handle_precedence(4);
    assert(levelled.buffer == e.buffer);
    assert(levelled.process(src, SyntaxOp::Normal, ch) == Ok::<Emitter, RegexError>(
        levelled.literal(ch),
    ));
}

/// From a state without pending jumps, the rest of a pattern without
/// operators compiles to the code for its characters and `End`.
pub proof fn lemma_finish_literal(e: Emitter, src: Source)
    requires
        src.translate is None,
        is_literal(src.pattern, src.syntax),
        0 <= e.pos <= src.pattern.len(),
        0 <= e.current_level <= 4,
        e.num_jumps == 0,
        e.starts.len() == 500,
        0 <= e.starts_base <= 495,
    ensures
        e.finish(src) == Ok::<Seq<u8>, RegexError>(
            e.buffer + literal_code(src.pattern.skip(e.pos)) + seq![CompiledOp::End.spec_to_byte()],
        ),
    decreases src.pattern.len() - e.pos,
{
    let rest = src.pattern.skip(e.pos);
    if e.pos >= src.pattern.len() {
        assert(e.buffer + literal_code(rest) + seq![0u8] =~= e.buffer.push(0u8));
    } else {
        let ch = src.pattern[e.pos];
        assert(plain_op(src.syntax, ch as u32) == SyntaxOp::Normal);
        lemma_round_literal(e, src);
        let next = e.round(src)->Ok_0;
        lemma_finish_literal(next, src);
        assert(rest[0] == ch);
        assert(rest.drop_first() =~= src.pattern.skip(next.pos));
        assert(e.buffer + literal_code(rest) + seq![0u8] =~= next.buffer + literal_code(
            src.pattern.skip(next.pos),
        ) + seq![0u8]);
    }
}

/// A pattern without operators compiles, to the code for its characters
/// and `End`.
pub proof fn lemma_compiled_literal(s: Seq<char>, syntax: SyntaxFlags)
    requires
        is_literal(s, syntax),
    ensures
        compiled(s, syntax) == Ok::<Seq<u8>, RegexError>(
            literal_code(s) + seq![CompiledOp::End.spec_to_byte()],
        ),
{
    let src = Source { pattern: s, syntax, translate: None };
    let e = Emitter::initial().mark();
    lemma_finish_literal(e, src);
    assert(s.skip(0) =~= s);
    assert(e.buffer + literal_code(s) + seq![0u8] =~= literal_code(s) + seq![0u8]);
}

/// The machine runs through the code for a literal where the text holds
/// the literal at the cursor: with ticks to spare and room on the stack, the
/// run from before the literal is the run from behind it.
#[verifier::rlimit(50)]
pub proof fn lemma_run_through_literal(
    job: Job,
    m: Machine,
    ticks: int,
    before: Seq<u8>,
    lit: Seq<char>,
    after: Seq<u8>,
)
    requires
        job.code == before + literal_code(lit) + after,
        job.translate is None,
        m.code_pos == before.len(),
        0 <= m.text_pos,
        m.text_pos + lit.len() <= job.text.len(),
        job.text.subrange(m.text_pos, m.text_pos + lit.len()) == lit,
        m.stack.len() < job.limits.max_failures,
        0 <= ticks,
        ticks + lit.len() + 1 < job.limits.tick_limit(),
    ensures
        job.run(m, ticks) == job.run(
            Machine {
                text_pos: m.text_pos + lit.len(),
                code_pos: m.code_pos + literal_code(lit).len(),
                ..m
            },
            ticks + lit.len(),
        ),
    decreases lit.len(),
{
    if lit.len() > 0 {
        let ch = lit[0];
        let rest = lit.drop_first();
        let op = seq![4u8] + char_operand(ch);
        let tail = literal_code(rest) + after;
        assert(job.code =~= (before + seq![4u8]) + char_operand(ch) + tail);
        lemma_operand_round_trip(before + seq![4u8], ch, tail);
        assert(job.code[m.code_pos] == 4u8);
        assert(job.text[m.text_pos] == lit[0]) by {
            assert(job.text.subrange(m.text_pos, m.text_pos + lit.len())[0] == job.text[m.text_pos]);
        }
        let next = Machine {
            text_pos: m.text_pos + 1,
            code_pos: m.code_pos + 1 + char_operand(ch).len(),
            ..m
        };
        assert(job.step(m) == Step::Next(next));
        assert(job.code =~= (before + op) + literal_code(rest) + after);
        assert(job.text.subrange(next.text_pos, next.text_pos + rest.len()) =~= rest);
        lemma_run_through_literal(job, next, ticks + 1, before + op, rest, after);
        assert(literal_code(lit).len() == op.len() + literal_code(rest).len());
    }
}

/// Round trip on literal patterns: a string without operators of the
/// dialect compiles, and the compiled pattern finds the string in itself,
/// from its first character to its last.
pub proof fn law_literal_pattern_matches_itself(regex: Regex, s: Seq<char>, syntax: SyntaxFlags)
    requires
        is_literal(s, syntax),
        s.len() + 1 < usize::MAX,
        compiled(s, syntax) is Ok ==> regex.code() == compiled(s, syntax)->Ok_0
            && regex.translation() is None,
    ensures
        compiled(s, syntax) is Ok,
        regex.first_match(s, ExecLimits::spec_default()) is Some,
        regex.first_match(s, ExecLimits::spec_default())->0[0] == (
            Some(0usize),
            Some(s.len() as usize),
        ),
{
    lemma_compiled_literal(s, syntax);
    let limits = ExecLimits::spec_default();
    let job = job_of(&regex, s, limits);
    let m = Job::start(0);
    assert(m.stack.len() == 0);
    assert(job.code =~= Seq::<u8>::empty() + literal_code(s) + seq![0u8]);
    assert(s.subrange(0, s.len() as int) =~= s);
    lemma_run_through_literal(job, m, 0, Seq::empty(), s, seq![0u8]);
    let end = Machine {
        text_pos: s.len() as int,
        code_pos: literal_code(s).len() as int,
        ..m
    };
    assert(job.code[end.code_pos] == 0u8);
    assert(job.step(end) == Step::Halt(Ok(Some(s.len() as usize))));
    assert(job.run_at(0).result == Ok::<Option<usize>, RegexError>(Some(s.len() as usize)));
}

} // verus!
