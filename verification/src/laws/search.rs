//! What the search reports, in terms of the runs from single positions.

use crate::{ExecLimits, Regex, RegexError};
use crate::matcher::job_of;
use crate::semantics::Job;
use vstd::prelude::*;

verus! {

/// A forward scan reports a position only where the run matches, and then
/// the first such position of its range; it reports -1 only where no run in
/// the range matches; and the only error it reports is a timeout.
pub proof fn lemma_scan_forward_finds_first(job: Job, from: int, last: int)
    requires
        0 <= from,
        last <= i32::MAX,
    ensures
        match job.scan_forward(from, last) {
            Ok(found) => {
                &&& found == -1 || from <= found <= last
                &&& found >= 0 ==> job.run_at(found as int).result is Ok && job.run_at(
                    found as int,
                ).result->Ok_0 is Some
                &&& forall|p: int|
                    from <= p <= last && (found == -1 || p < found) ==> !(#[trigger] job.run_at(
                        p,
                    ).result is Ok && job.run_at(p).result->Ok_0 is Some)
            },
            Err(e) => e == RegexError::Timeout,
        },
    decreases last - from + 1,
{
    if from <= last {
        match job.run_at(from).result {
            Ok(Some(_)) => {},
            Err(RegexError::Timeout) => {},
            _ => {
                lemma_scan_forward_finds_first(job, from + 1, last);
            },
        }
    }
}

/// A forward scan over positions from which no run ends in an error ends
/// without an error.
pub proof fn lemma_scan_forward_succeeds(job: Job, from: int, last: int)
    requires
        forall|p: int| from <= p <= last ==> #[trigger] job.run_at(p).result is Ok,
    ensures
        job.scan_forward(from, last) is Ok,
    decreases last - from + 1,
{
    if from <= last {
        assert(job.run_at(from).result is Ok);
        lemma_scan_forward_succeeds(job, from + 1, last);
    }
}

/// Two patterns whose runs end alike from every position of a text are
/// searched alike in it.
pub proof fn lemma_scan_forward_alike(one: Job, other: Job, from: int, last: int)
    requires
        one.text == other.text,
        0 <= from,
        forall|p: int|
            from <= p <= last ==> #[trigger] one.run_at(p).result == other.run_at(p).result,
    ensures
        one.scan_forward(from, last) == other.scan_forward(from, last),
    decreases last - from + 1,
{
    if from <= last {
        assert(one.run_at(from).result == other.run_at(from).result);
        lemma_scan_forward_alike(one, other, from + 1, last);
    }
}

/// Where no run from a position of the text ends in an error, the search
/// finds a match exactly where a run from one of the first positions
/// matches; the first positions are those up to `i32::MAX`.
pub proof fn lemma_first_match_exists(regex: Regex, text: Seq<char>, limits: ExecLimits)
    requires
        forall|p: int|
            0 <= p <= text.len() ==> #[trigger] job_of(&regex, text, limits).run_at(p).result is Ok,
    ensures
        regex.first_match(text, limits) is Some <==> exists|p: int|
            0 <= p <= text.len() && p <= i32::MAX && #[trigger] job_of(
                &regex,
                text,
                limits,
            ).matches_at(p),
{
    let job = job_of(&regex, text, limits);
    let range = if text.len() <= i32::MAX {
        text.len() as int
    } else {
        i32::MAX as int
    };
    lemma_scan_forward_finds_first(job, 0, range);
    lemma_scan_forward_succeeds(job, 0, range);
    let found = job.search_result(0, range)->Ok_0;
    if found >= 0 {
        assert(job.matches_at(found as int));
    } else {
        assert forall|p: int| 0 <= p <= text.len() && p <= i32::MAX implies !#[trigger] job.matches_at(
            p,
        ) by {
            assert(!(job.run_at(p).result is Ok && job.run_at(p).result->Ok_0 is Some));
        }
    }
}

} // verus!
