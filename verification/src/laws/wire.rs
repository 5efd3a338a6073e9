//! The wire format of the code: it ends with `End`, and a displacement
//! is read back as it was written.

use crate::lowering::{compiled, disp_bytes, lemma_round_advances, Emitter, Source};
use crate::opcodes::CompiledOp;
use crate::semantics::displacement;
use crate::syntax::SyntaxFlags;
use vstd::prelude::*;

verus! {

/// A displacement that fits 16 bits is read back as it was written.
pub proof fn lemma_displacement_round_trip(target: int, field: int)
    requires
        -32768 <= target - (field + 2) < 32768,
    ensures
        disp_bytes(target, field).len() == 2,
        displacement(disp_bytes(target, field)[0], disp_bytes(target, field)[1]) == target - (field
            + 2),
{
    let d = target - (field + 2);
    let word = d % 65536;
    assert(0 <= word < 65536);
    assert(d >= 0 ==> word == d);
    assert(d < 0 ==> word == d + 65536);
    assert(word == (word % 256) + 256 * (word / 256));
    assert(0 <= word / 256 < 256);
}

/// Whatever state the compiler goes on from, the code it ends with has
/// `End` as its last byte.
pub proof fn lemma_finish_ends_with_end(e: Emitter, src: Source)
    ensures
        e.finish(src) is Ok ==> e.finish(src)->Ok_0.len() > 0 && e.finish(src)->Ok_0.last()
            == CompiledOp::End.spec_to_byte(),
    decreases
            (if e.pos < src.pattern.len() {
                src.pattern.len() - e.pos
            } else {
                0
            }),
{
    if e.pos < src.pattern.len() && e.round(src) is Ok {
        lemma_round_advances(e, src);
        lemma_finish_ends_with_end(e.round(src)->Ok_0, src);
    }
}

/// The code of every pattern that compiles ends with the `End`
/// instruction.
pub proof fn law_code_ends_with_end(pattern: Seq<char>, syntax: SyntaxFlags)
    ensures
        compiled(pattern, syntax) is Ok ==> compiled(pattern, syntax)->Ok_0.len() > 0 && compiled(
            pattern,
            syntax,
        )->Ok_0.last() == CompiledOp::End.spec_to_byte(),
{
    lemma_finish_ends_with_end(
        Emitter::initial().mark(),
        Source { pattern, syntax, translate: None },
    );
}

} // verus!
