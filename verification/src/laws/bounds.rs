//! Boundedness: a run stays within its ticks and within its text.

use crate::laws::search::lemma_scan_forward_finds_first;
use crate::matcher::job_of;
use crate::semantics::{Job, Machine, Step};
use crate::{span_of, ExecLimits, Regex};
use vstd::prelude::*;

verus! {

/// A run that has fetched `ticks` instructions, no more than its limit,
/// ends with a count between `ticks` and the limit.
pub proof fn lemma_run_within_ticks(job: Job, m: Machine, ticks: int)
    requires
        0 <= ticks <= job.limits.tick_limit(),
    ensures
        ticks <= job.run(m, ticks).ticks <= job.limits.tick_limit(),
    decreases job.limits.tick_limit() - ticks,
{
    if ticks + 1 < job.limits.tick_limit() {
        match job.step(m) {
            Step::Halt(_) => {},
            Step::Next(next) => {
                lemma_run_within_ticks(job, next, ticks + 1);
            },
        }
    }
}

/// A run under a limit that is not zero stops short of the limit.
pub proof fn lemma_run_stops_short(job: Job, m: Machine, ticks: int)
    requires
        0 <= ticks < job.limits.tick_limit(),
    ensures
        job.run(m, ticks).ticks < job.limits.tick_limit(),
    decreases job.limits.tick_limit() - ticks,
{
    if ticks + 1 < job.limits.tick_limit() {
        match job.step(m) {
            Step::Halt(_) => {},
            Step::Next(next) => {
                lemma_run_stops_short(job, next, ticks + 1);
            },
        }
    }
}

/// Boundedness: under a limit of `k` ticks, a run from any position ends
/// after fetching at most `k` instructions, whatever the pattern and the
/// text; and it fetches `k` only where `k` is zero.
pub proof fn law_run_is_bounded(job: Job, pos: int, k: usize)
    requires
        job.limits.max_ticks == Some(k),
    ensures
        0 <= job.run_at(pos).ticks <= k,
        k > 0 ==> job.run_at(pos).ticks < k,
{
    lemma_run_within_ticks(job, Job::start(pos), 0);
    if k > 0 {
        lemma_run_stops_short(job, Job::start(pos), 0);
    }
}

/// Do the cursor of the machine and every resume point on its stack lie in
/// the text, at `start` or behind it?
pub open spec fn stays_in_text(job: Job, m: Machine, start: int) -> bool {
    &&& start <= m.text_pos <= job.text.len()
    &&& forall|i: int|
        0 <= i < m.stack.len() ==> start <= (#[trigger] m.stack[i]).text_pos <= job.text.len()
}

/// A step keeps the cursor and the resume points in the text, at the
/// start of the run or behind it, and a match ends there.
#[verifier::rlimit(100)]
pub proof fn lemma_step_stays_in_text(job: Job, m: Machine, start: int)
    requires
        0 <= start,
        job.text.len() <= usize::MAX,
        stays_in_text(job, m, start),
    ensures
        match job.step(m) {
            Step::Next(next) => stays_in_text(job, next, start),
            Step::Halt(Ok(Some(end))) => start <= end <= job.text.len(),
            Step::Halt(_) => true,
        },
{
    match job.step(m) {
        Step::Next(next) => {
            assert forall|i: int| 0 <= i < next.stack.len() implies start <= (
            #[trigger] next.stack[i]).text_pos <= job.text.len() by {
                if i < m.stack.len() {
                    assert(start <= m.stack[i].text_pos <= job.text.len());
                }
            }
            if m.stack.len() > 0 {
                assert(start <= m.stack[m.stack.len() - 1].text_pos <= job.text.len());
            }
        },
        Step::Halt(_) => {},
    }
}

/// A run keeps to the text: a match that it reports ends in the text, at
/// the start of the run or behind it.
pub proof fn lemma_run_stays_in_text(job: Job, m: Machine, ticks: int, start: int)
    requires
        0 <= start,
        job.text.len() <= usize::MAX,
        stays_in_text(job, m, start),
    ensures
        match job.run(m, ticks).result {
            Ok(Some(end)) => start <= end <= job.text.len(),
            _ => true,
        },
    decreases job.limits.tick_limit() - ticks,
{
    if ticks + 1 < job.limits.tick_limit() {
        lemma_step_stays_in_text(job, m, start);
        match job.step(m) {
            Step::Halt(_) => {},
            Step::Next(next) => {
                lemma_run_stays_in_text(job, next, ticks + 1, start);
            },
        }
    }
}

/// A match lies in the text: a run from a position of the text that ends
/// in a match ends at that position or behind it, and not behind the end of
/// the text.
pub proof fn law_match_lies_in_text(job: Job, pos: int)
    requires
        0 <= pos <= job.text.len() <= usize::MAX,
    ensures
        match job.run_at(pos).result {
            Ok(Some(end)) => pos <= end <= job.text.len(),
            _ => true,
        },
{
    let m = Job::start(pos);
    assert(m.stack.len() == 0);
    lemma_run_stays_in_text(job, m, 0, pos);
}

/// The span that the search reports lies in the text: its start is not
/// behind its end, and its end is not behind the end of the text.
pub proof fn law_found_span_lies_in_text(regex: Regex, text: Seq<char>, limits: ExecLimits)
    requires
        text.len() <= usize::MAX,
    ensures
        match regex.first_match(text, limits) {
            Some(groups) => match span_of(groups[0]) {
                Some((start, end)) => start <= end <= text.len(),
                None => false,
            },
            None => true,
        },
{
    let job = job_of(&regex, text, limits);
    let range = if text.len() <= i32::MAX {
        text.len() as int
    } else {
        i32::MAX as int
    };
    lemma_scan_forward_finds_first(job, 0, range);
    match job.search_result(0, range) {
        Ok(found) => {
            if found >= 0 {
                law_match_lies_in_text(job, found as int);
            }
        },
        Err(_) => {},
    }
}

/// Is the position, where there is one, a position of the text at
/// `start` or behind it?
pub open spec fn point_in_text(job: Job, point: Option<usize>, start: int) -> bool {
    match point {
        Some(at) => start <= at <= job.text.len(),
        None => true,
    }
}

/// Does every register that is set hold a position of the text, at `start`
/// or behind it?
pub open spec fn registers_in_text(job: Job, m: Machine, start: int) -> bool {
    &&& m.reg_start.len() == 100
    &&& m.reg_end.len() == 100
    &&& m.reg_maybe.len() == 100
    &&& forall|r: int| 0 <= r < 100 ==> point_in_text(job, #[trigger] m.reg_start[r], start)
    &&& forall|r: int| 0 <= r < 100 ==> point_in_text(job, #[trigger] m.reg_end[r], start)
    &&& forall|r: int| 0 <= r < 100 ==> point_in_text(job, #[trigger] m.reg_maybe[r], start)
}

/// A step keeps the registers in the text: it sets none but to the
/// cursor, or to what another register held.
#[verifier::rlimit(100)]
pub proof fn lemma_step_keeps_registers(job: Job, m: Machine, start: int)
    requires
        0 <= start,
        job.text.len() <= usize::MAX,
        stays_in_text(job, m, start),
        registers_in_text(job, m, start),
    ensures
        match job.step(m) {
            Step::Next(next) => registers_in_text(job, next, start),
            Step::Halt(_) => true,
        },
{
    match job.step(m) {
        Step::Next(next) => {
            assert forall|r: int| 0 <= r < 100 implies point_in_text(
                job,
                #[trigger] next.reg_start[r],
                start,
            ) by {
                assert(point_in_text(job, m.reg_start[r], start));
                assert(point_in_text(job, m.reg_maybe[r], start));
            }
            assert forall|r: int| 0 <= r < 100 implies point_in_text(
                job,
                #[trigger] next.reg_end[r],
                start,
            ) by {
                assert(point_in_text(job, m.reg_end[r], start));
            }
            assert forall|r: int| 0 <= r < 100 implies point_in_text(
                job,
                #[trigger] next.reg_maybe[r],
                start,
            ) by {
                assert(point_in_text(job, m.reg_maybe[r], start));
            }
        },
        Step::Halt(_) => {},
    }
}

/// A run keeps the registers in the text: those that it ends with hold
/// positions of the text, at the start of the run or behind it.
pub proof fn lemma_run_keeps_registers(job: Job, m: Machine, ticks: int, start: int)
    requires
        0 <= start,
        job.text.len() <= usize::MAX,
        stays_in_text(job, m, start),
        registers_in_text(job, m, start),
    ensures
        forall|r: int|
            0 <= r < 100 ==> point_in_text(job, #[trigger] job.run(m, ticks).reg_start[r], start),
        forall|r: int|
            0 <= r < 100 ==> point_in_text(job, #[trigger] job.run(m, ticks).reg_end[r], start),
    decreases job.limits.tick_limit() - ticks,
{
    if ticks + 1 < job.limits.tick_limit() {
        lemma_step_stays_in_text(job, m, start);
        lemma_step_keeps_registers(job, m, start);
        match job.step(m) {
            Step::Halt(_) => {},
            Step::Next(next) => {
                lemma_run_keeps_registers(job, next, ticks + 1, start);
            },
        }
    }
}

/// The groups that the search reports lie in the text: both ends of each
/// are positions of the text, at the start of the match or behind it.
pub proof fn law_found_groups_lie_in_text(regex: Regex, text: Seq<char>, limits: ExecLimits)
    requires
        text.len() <= usize::MAX,
    ensures
        match regex.first_match(text, limits) {
            Some(groups) => match span_of(groups[0]) {
                Some((found, _)) => groups.len() == 100 && forall|r: int|
                    0 <= r < 100 ==> match span_of(#[trigger] groups[r]) {
                        Some((start, end)) => found <= start <= text.len() && found <= end
                            <= text.len(),
                        None => true,
                    },
                None => false,
            },
            None => true,
        },
{
    let job = job_of(&regex, text, limits);
    let range = if text.len() <= i32::MAX {
        text.len() as int
    } else {
        i32::MAX as int
    };
    lemma_scan_forward_finds_first(job, 0, range);
    match job.search_result(0, range) {
        Ok(found) => {
            if found >= 0 {
                let m = Job::start(found as int);
                assert(m.stack.len() == 0);
                law_match_lies_in_text(job, found as int);
                lemma_run_keeps_registers(job, m, 0, found as int);
                let outcome = job.run_at(found as int);
                assert forall|r: int| 0 <= r < 100 implies point_in_text(
                    job,
                    outcome.reg_start[r],
                    found as int,
                ) && point_in_text(job, outcome.reg_end[r], found as int) by {}
            }
        },
        Err(_) => {},
    }
}

} // verus!
