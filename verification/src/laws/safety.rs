//! Safety of well-formed code: the machine finds a whole instruction
//! wherever it gets to, and reports an execution error only for a full
//! stack.

use crate::laws::layout::{
    instr_end, is_boundary, is_jump, lemma_boundaries_apart, lemma_instr_end_grows,
    lemma_parses_join, lemma_parses_split, operand_end, parses, ranges_end,
};
use crate::laws::structure::{is_jump_at, lands, target_of};
use crate::laws::wellformed::well_formed;
use crate::opcodes::CompiledOp;
use crate::semantics::{backtrack, Job, Machine, Step};
use crate::RegexError;
use vstd::prelude::*;

verus! {

/// Does the machine stand at an instruction of the code, and does every
/// resume point on its stack lead to one?
pub open spec fn at_instructions(job: Job, m: Machine) -> bool {
    &&& is_boundary(job.code, m.code_pos)
    &&& m.code_pos < job.code.len()
    &&& forall|i: int|
        0 <= i < m.stack.len() ==> is_boundary(job.code, (#[trigger] m.stack[i]).code_pos as int)
            && m.stack[i].code_pos < job.code.len()
}

/// What a step of the machine may come to on well-formed code: a match, no
/// match, an execution error for a full stack, or a state in which the
/// machine stands at an instruction again.
pub open spec fn is_safe_step(job: Job, m: Machine, step: Step) -> bool {
    match step {
        Step::Halt(Ok(_)) => true,
        Step::Halt(Err(e)) => e == RegexError::ExecutionError && m.stack.len()
            >= job.limits.max_failures,
        Step::Next(next) => at_instructions(job, next),
    }
}

/// The position behind the ranges that the machine reads at `pos`, where it
/// can read them.
pub open spec fn scan_end(job: Job, pos: int, count: nat, c: u32) -> int {
    let (_, end) = job.scan_class(pos, count, c).unwrap();
    end
}

/// The machine reads the ranges of a class wherever they are whole.
pub proof fn lemma_scan_class_reads(job: Job, pos: int, count: nat, c: u32)
    requires
        ranges_end(job.code, pos, count) is Some,
    ensures
        job.scan_class(pos, count, c) is Some,
        scan_end(job, pos, count, c) == ranges_end(job.code, pos, count)->0,
    decreases count,
{
    if count > 0 {
        let mid = operand_end(job.code, pos);
        let next = operand_end(job.code, mid);
        lemma_scan_class_reads(job, next, (count - 1) as nat, c);
    }
}

/// The instruction at which the machine stands is whole, and ends at an
/// instruction unless it is the `End` that closes the code.
pub proof fn lemma_instruction_is_whole(code: Seq<u8>, pos: int)
    requires
        well_formed(code),
        is_boundary(code, pos),
        pos < code.len(),
    ensures
        instr_end(code, pos) is Some,
        is_boundary(code, instr_end(code, pos)->0),
        pos != code.len() - 1 ==> instr_end(code, pos)->0 < code.len(),
        pos == code.len() - 1 ==> code[pos] == CompiledOp::End.spec_to_byte(),
{
    let len = code.len() as int;
    lemma_parses_split(code, 0, pos, len);
    lemma_instr_end_grows(code, pos);
    let end = instr_end(code, pos)->0;
    assert(parses(code, end, end)) by {
        lemma_instr_end_grows(code, end);
    }
    assert(parses(code, pos, end));
    lemma_parses_join(code, 0, pos, end);
    if pos < len - 1 {
        lemma_boundaries_apart(code, 0, pos, len - 1);
    }
}

/// After a mismatch the machine stands at an instruction again, or the
/// run ends without a match.
pub proof fn lemma_backtrack_is_safe(job: Job, m: Machine, fresh: Machine)
    requires
        at_instructions(job, m),
        fresh.stack == m.stack,
    ensures
        is_safe_step(job, m, backtrack(fresh)),
{
    if fresh.stack.len() > 0 {
        let next = backtrack(fresh)->Next_0;
        assert forall|i: int| 0 <= i < next.stack.len() implies is_boundary(
            job.code,
            (#[trigger] next.stack[i]).code_pos as int,
        ) && next.stack[i].code_pos < job.code.len() by {
            assert(next.stack[i] == m.stack[i]);
        }
    }
}

/// Safety of well-formed code: from a state in which the machine stands at
/// an instruction of well-formed code, a step ends the run with a match or
/// without one, ends it with an execution error only where the stack is full,
/// or leads to a state in which the machine stands at an instruction again.
#[verifier::rlimit(100)]
pub proof fn law_well_formed_code_runs_safely(job: Job, m: Machine)
    requires
        well_formed(job.code),
        job.code.len() <= usize::MAX,
        at_instructions(job, m),
    ensures
        is_safe_step(job, m, job.step(m)),
{
    let code = job.code;
    let pos = m.code_pos;
    let len = code.len() as int;
    if m.stack.len() < job.limits.max_failures {
        lemma_instruction_is_whole(code, pos);
        let end = instr_end(code, pos)->0;
        let op = CompiledOp::spec_from_byte(code[pos])->0;
        let m1 = Machine { code_pos: pos + 1, ..m };
        lemma_backtrack_is_safe(job, m, m1);
        if is_jump(op) {
            assert(is_jump_at(code, pos));
            assert(lands(code, pos));
            assert(target_of(code, pos) < len);
            lemma_jump_is_safe(job, m, op);
        } else if op == CompiledOp::Exact {
            let moved = Machine { code_pos: end, ..m };
            lemma_backtrack_is_safe(job, m, moved);
        } else if op == CompiledOp::CharSet {
            if !job.at_end(m1) {
                lemma_scan_class_reads(
                    job,
                    pos + 3,
                    code[pos + 2] as nat,
                    job.current(m1) as u32,
                );
            }
        } else if op.spec_arg_count() == 1 {
            let moved = Machine { code_pos: pos + 2, ..m };
            lemma_backtrack_is_safe(job, m, moved);
        }
    }
}

/// A jump of well-formed code leads the machine to an instruction.
#[verifier::rlimit(100)]
pub proof fn lemma_jump_is_safe(job: Job, m: Machine, op: CompiledOp)
    requires
        well_formed(job.code),
        job.code.len() <= usize::MAX,
        at_instructions(job, m),
        m.stack.len() < job.limits.max_failures,
        CompiledOp::spec_from_byte(job.code[m.code_pos]) == Some(op),
        is_jump(op),
    ensures
        is_safe_step(job, m, job.step(m)),
{
    let code = job.code;
    let pos = m.code_pos;
    let len = code.len() as int;
    lemma_instruction_is_whole(code, pos);
    assert(is_jump_at(code, pos));
    assert(lands(code, pos));
    let target = target_of(code, pos);
    assert(0 <= target < len);
    let m1 = Machine { code_pos: pos + 1, ..m };
    assert(job.step(m) == job.step_jump(m1, op));
    if op == CompiledOp::DummyFailureJump {
        assert(is_boundary(code, pos + 3));
        lemma_instruction_is_whole(code, pos + 3);
        assert(instr_end(code, pos + 3) == Some(pos + 6));
    } else if op == CompiledOp::FailureJump {
        let next = job.step(m)->Next_0;
        assert forall|i: int| 0 <= i < next.stack.len() implies is_boundary(
            code,
            (#[trigger] next.stack[i]).code_pos as int,
        ) && next.stack[i].code_pos < len by {
            if i < m.stack.len() {
                assert(next.stack[i] == m.stack[i]);
            }
        }
    } else if op == CompiledOp::Jump {
    } else {
        let next = job.step(m)->Next_0;
        assert forall|i: int| 0 <= i < next.stack.len() implies is_boundary(
            code,
            (#[trigger] next.stack[i]).code_pos as int,
        ) && next.stack[i].code_pos < len by {
            if i < m.stack.len() - 1 {
                assert(next.stack[i] == m.stack[i]);
            } else {
                assert(next.stack[i].code_pos == m.stack[i].code_pos);
            }
        }
    }
}

/// A step stacks at most one resume point.
#[verifier::rlimit(50)]
pub proof fn lemma_step_stacks_one(job: Job, m: Machine)
    ensures
        job.step(m) is Next ==> job.step(m)->Next_0.stack.len() <= m.stack.len() + 1,
{
}

/// A run on well-formed code, from a state in which the machine stands at
/// an instruction and has stacked no more resume points than it has fetched
/// instructions, does not end in an execution error where the stack has room
/// for one resume point for every tick.
pub proof fn lemma_run_is_safe(job: Job, m: Machine, ticks: int)
    requires
        well_formed(job.code),
        job.code.len() <= usize::MAX,
        at_instructions(job, m),
        0 <= m.stack.len() <= ticks,
        job.limits.max_failures >= job.limits.tick_limit(),
    ensures
        job.run(m, ticks).result != Err::<Option<usize>, RegexError>(RegexError::ExecutionError),
    decreases job.limits.tick_limit() - ticks,
{
    if ticks + 1 < job.limits.tick_limit() {
        law_well_formed_code_runs_safely(job, m);
        lemma_step_stacks_one(job, m);
        match job.step(m) {
            Step::Halt(_) => {},
            Step::Next(next) => {
                lemma_run_is_safe(job, next, ticks + 1);
            },
        }
    }
}

/// Safety of compiled patterns: a run of well-formed code from any
/// position ends in a match, in no match or in a timeout, and never in an
/// execution error, where the stack has room for one resume point for every
/// tick.
pub proof fn law_well_formed_code_runs_without_error(job: Job, pos: int)
    requires
        well_formed(job.code),
        job.code.len() <= usize::MAX,
        job.limits.max_failures >= job.limits.tick_limit(),
    ensures
        job.run_at(pos).result != Err::<Option<usize>, RegexError>(RegexError::ExecutionError),
{
    let m = Job::start(pos);
    assert(m.stack.len() == 0);
    assert(parses(job.code, 0, 0));
    lemma_run_is_safe(job, m, 0);
}

} // verus!
