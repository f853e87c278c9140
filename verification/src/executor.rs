//! The bounded-concurrency executor model: jobs are started while a fixed
//! in-flight bound allows, completions arrive in any order, and the
//! collected reports come back in job order. The resume decision for one
//! job lives here too.

use vstd::prelude::*;
use crate::models::HostReport;

verus! {

/// What one scan job must do with respect to the resume cache.
#[derive(Clone, Copy, PartialEq, Eq, Debug, Structural)]
pub enum JobPlan {
    /// Decode the persisted artifact; do not invoke the external scan.
    UseCached,
    /// Invoke the external scan.
    RunScan,
}

/// The resume rule: a persisted artifact is reused exactly when resume mode
/// is on and the artifact exists; presence alone is sufficient, with no
/// staleness check.
pub open spec fn plan_job_spec(resume: bool, artifact_exists: bool) -> JobPlan {
    if resume && artifact_exists {
        JobPlan::UseCached
    } else {
        JobPlan::RunScan
    }
}

/// Decides how one scan job proceeds given the resume flag and whether the
/// per-host artifact is already persisted.
pub fn plan_job(resume: bool, artifact_exists: bool) -> (r: JobPlan)
    ensures
        r == plan_job_spec(resume, artifact_exists),
{
    if resume && artifact_exists {
        JobPlan::UseCached
    } else {
        JobPlan::RunScan
    }
}

/// Resume-cache law: in resume mode, a job whose artifact already exists is
/// never planned to invoke the external scan.
pub proof fn lemma_resume_never_scans(resume: bool, artifact_exists: bool)
    ensures
        resume && artifact_exists ==> plan_job_spec(resume, artifact_exists) != JobPlan::RunScan,
{
}

/// How many slots already hold a report.
pub open spec fn count_done(s: Seq<Option<HostReport>>) -> int
    decreases s.len(),
{
    if s.len() == 0 {
        0
    } else {
        count_done(s.drop_last()) + if s.last() is Some {
            1int
        } else {
            0int
        }
    }
}

proof fn lemma_count_done_bounds(s: Seq<Option<HostReport>>)
    ensures
        0 <= count_done(s) <= s.len(),
    decreases s.len(),
{
    if s.len() > 0 {
        lemma_count_done_bounds(s.drop_last());
    }
}

proof fn lemma_count_done_update(s: Seq<Option<HostReport>>, i: int, rep: HostReport)
    requires
        0 <= i < s.len(),
        s[i] is None,
    ensures
        count_done(s.update(i, Some(rep))) == count_done(s) + 1,
    decreases s.len(),
{
    let t = s.update(i, Some(rep));
    if i == s.len() - 1 {
        assert(t.drop_last() =~= s.drop_last());
    } else {
        assert(t.drop_last() =~= s.drop_last().update(i, Some(rep)));
        assert(t.last() == s.last());
        lemma_count_done_update(s.drop_last(), i, rep);
    }
}

proof fn lemma_count_done_tail_none(s: Seq<Option<HostReport>>, k: int)
    requires
        0 <= k <= s.len(),
        forall|i: int| k <= i < s.len() ==> s[i] is None,
    ensures
        count_done(s) == count_done(s.subrange(0, k)),
    decreases s.len() - k,
{
    if k == s.len() {
        assert(s.subrange(0, k) =~= s);
    } else {
        assert(s.last() is None);
        assert(s.drop_last() =~= s.subrange(0, s.len() - 1));
        lemma_count_done_tail_none(s.drop_last(), k);
        assert(s.drop_last().subrange(0, k) =~= s.subrange(0, k));
    }
}

proof fn lemma_count_done_with_none(s: Seq<Option<HostReport>>, idx: int)
    requires
        0 <= idx < s.len(),
        s[idx] is None,
    ensures
        count_done(s) <= s.len() - 1,
    decreases s.len(),
{
    if idx == s.len() - 1 {
        lemma_count_done_bounds(s.drop_last());
    } else {
        assert(s.drop_last()[idx] == s[idx]);
        lemma_count_done_with_none(s.drop_last(), idx);
    }
}

/// The executor for one batch: at most `limit` jobs in flight at once;
/// each completion lands in its job's slot, so the collected reports keep
/// job order whatever the completion order was.
pub struct BatchExecutor {
    /// The concurrency bound.
    pub limit: usize,
    /// Jobs `0 .. next_to_start` have been started.
    pub next_to_start: usize,
    /// Started jobs whose completion has not arrived yet.
    pub in_flight: usize,
    /// One slot per job, filled by its completion.
    pub results: Vec<Option<HostReport>>,
}

impl BatchExecutor {
    /// The machine's invariant: the bound holds, only started jobs have
    /// results, and the in-flight count is exactly started minus done.
    pub open spec fn wf(self) -> bool {
        &&& self.next_to_start <= self.results@.len()
        &&& self.in_flight <= self.limit
        &&& 1 <= self.limit
        &&& forall|i: int|
            self.next_to_start <= i < self.results@.len() ==> self.results@[i] is None
        &&& self.in_flight == self.next_to_start - count_done(self.results@)
    }

    /// A fresh executor for `n_jobs` jobs under the given bound.
    pub fn new(n_jobs: usize, limit: usize) -> (r: BatchExecutor)
        requires
            limit >= 1,
        ensures
            r.wf(),
            r.results@.len() == n_jobs,
            r.next_to_start == 0,
            r.in_flight == 0,
            forall|i: int| 0 <= i < n_jobs ==> r.results@[i] is None,
    {
        let mut results: Vec<Option<HostReport>> = Vec::new();
        let mut i: usize = 0;
        while i < n_jobs
            invariant
                i <= n_jobs,
                results@.len() == i,
                forall|j: int| 0 <= j < i ==> results@[j] is None,
            decreases n_jobs - i,
        {
            results.push(None);
            i += 1;
        }
        let r = BatchExecutor { limit, next_to_start: 0, in_flight: 0, results };
        proof {
            lemma_count_done_all_none(r.results@);
        }
        r
    }

    /// May another job be started now?
    pub fn can_start(&self) -> (r: bool)
        ensures
            r == (self.in_flight < self.limit && self.next_to_start < self.results@.len()),
    {
        self.in_flight < self.limit && self.next_to_start < self.results.len()
    }

    /// Starts the next job, when the bound allows one more; the job index
    /// is handed back for the caller to run.
    pub fn start_next(&mut self) -> (r: Option<usize>)
        requires
            old(self).wf(),
        ensures
            final(self).wf(),
            final(self).results@ == old(self).results@,
            final(self).limit == old(self).limit,
            match r {
                Some(idx) => {
                    &&& old(self).in_flight < old(self).limit
                    &&& old(self).next_to_start < old(self).results@.len()
                    &&& idx == old(self).next_to_start
                    &&& final(self).next_to_start == old(self).next_to_start + 1
                    &&& final(self).in_flight == old(self).in_flight + 1
                },
                None => {
                    &&& !(old(self).in_flight < old(self).limit && old(self).next_to_start < old(
                        self,
                    ).results@.len())
                    &&& *final(self) == *old(self)
                },
            },
    {
        if self.in_flight < self.limit && self.next_to_start < self.results.len() {
            let idx = self.next_to_start;
            self.next_to_start = self.next_to_start + 1;
            self.in_flight = self.in_flight + 1;
            Some(idx)
        } else {
            None
        }
    }

    /// Records the completion of a started, still-pending job: the report
    /// lands in that job's slot and frees its in-flight place.
    pub fn complete(&mut self, idx: usize, rep: HostReport)
        requires
            old(self).wf(),
            idx < old(self).next_to_start,
            old(self).results@[idx as int] is None,
        ensures
            final(self).wf(),
            final(self).limit == old(self).limit,
            final(self).next_to_start == old(self).next_to_start,
            final(self).in_flight == old(self).in_flight - 1,
            final(self).results@ == old(self).results@.update(idx as int, Some(rep)),
    {
        proof {
            lemma_count_done_bounds(self.results@);
            lemma_count_done_update(self.results@, idx as int, rep);
            lemma_count_done_tail_none(self.results@, self.next_to_start as int);
            assert(self.results@.subrange(0, self.next_to_start as int)[idx as int] == self
                .results@[idx as int]);
            lemma_count_done_with_none(
                self.results@.subrange(0, self.next_to_start as int),
                idx as int,
            );
            assert(self.in_flight >= 1);
        }
        self.results[idx] = Some(rep);
        self.in_flight = self.in_flight - 1;
    }

    /// Are all jobs started and completed?
    pub fn is_done(&self) -> (r: bool)
        requires
            self.wf(),
        ensures
            r == (self.next_to_start == self.results@.len() && self.in_flight == 0),
            r ==> forall|i: int| 0 <= i < self.results@.len() ==> self.results@[i] is Some,
    {
        let r = self.next_to_start == self.results.len() && self.in_flight == 0;
        proof {
            if r {
                lemma_all_done(self.results@, self.next_to_start as int);
            }
        }
        r
    }

    /// Hands the collected reports out, one per job, in job order.
    pub fn into_reports(self) -> (r: Vec<HostReport>)
        requires
            self.wf(),
            self.next_to_start == self.results@.len(),
            self.in_flight == 0,
        ensures
            r@.len() == self.results@.len(),
            forall|i: int| 0 <= i < r@.len() ==> Some(#[trigger] r@[i]) == self.results@[i],
    {
        proof {
            lemma_all_done(self.results@, self.next_to_start as int);
        }
        let ghost orig = self.results@;
        let mut slots = self.results;
        let mut out: Vec<HostReport> = Vec::new();
        while slots.len() > 0
            invariant
                out@.len() + slots@.len() == orig.len(),
                forall|i: int| 0 <= i < out@.len() ==> Some(#[trigger] out@[i]) == orig[i],
                forall|i: int|
                    0 <= i < slots@.len() ==> #[trigger] slots@[i] == orig[i + out@.len()],
                forall|i: int| 0 <= i < slots@.len() ==> #[trigger] slots@[i] is Some,
            decreases slots.len(),
        {
            let ghost prev = slots@;
            let slot = slots.remove(0);
            match slot {
                Some(rep) => {
                    out.push(rep);
                },
                None => {
                    proof {
                        assert(false);
                    }
                },
            }
            proof {
                prev.remove_ensures(0);
            }
        }
        out
    }
}

proof fn lemma_count_done_all_none(s: Seq<Option<HostReport>>)
    requires
        forall|i: int| 0 <= i < s.len() ==> s[i] is None,
    ensures
        count_done(s) == 0,
    decreases s.len(),
{
    if s.len() > 0 {
        assert(forall|i: int| 0 <= i < s.len() - 1 ==> s.drop_last()[i] == s[i]);
        lemma_count_done_all_none(s.drop_last());
    }
}

proof fn lemma_all_done(s: Seq<Option<HostReport>>, started: int)
    requires
        started == s.len(),
        count_done(s) == started,
    ensures
        forall|i: int| 0 <= i < s.len() ==> s[i] is Some,
    decreases s.len(),
{
    if s.len() > 0 {
        lemma_count_done_bounds(s.drop_last());
        assert(count_done(s) == count_done(s.drop_last()) + if s.last() is Some {
            1int
        } else {
            0int
        });
        assert(s.last() is Some);
        lemma_all_done(s.drop_last(), started - 1);
        assert(forall|i: int| 0 <= i < s.len() - 1 ==> s[i] == s.drop_last()[i]);
    }
}

/// A row of empty result slots.
pub open spec fn all_none(n: int) -> Seq<Option<HostReport>> {
    Seq::new(n as nat, |i: int| None::<HostReport>)
}

/// The slots after a row of completions, each landing in its job's slot.
pub open spec fn apply_completions(
    slots: Seq<Option<HostReport>>,
    outcome: Seq<HostReport>,
    order: Seq<int>,
) -> Seq<Option<HostReport>>
    decreases order.len(),
{
    if order.len() == 0 {
        slots
    } else {
        apply_completions(
            slots.update(order[0], Some(outcome[order[0]])),
            outcome,
            order.drop_first(),
        )
    }
}

proof fn lemma_apply_completions_frame(
    slots: Seq<Option<HostReport>>,
    outcome: Seq<HostReport>,
    order: Seq<int>,
    i: int,
)
    requires
        0 <= i < slots.len(),
        outcome.len() == slots.len(),
        forall|j: int| 0 <= j < order.len() ==> 0 <= #[trigger] order[j] < slots.len(),
    ensures
        order.contains(i) ==> apply_completions(slots, outcome, order)[i] == Some(outcome[i]),
        !order.contains(i) ==> apply_completions(slots, outcome, order)[i] == slots[i],
        apply_completions(slots, outcome, order).len() == slots.len(),
    decreases order.len(),
{
    if order.len() > 0 {
        let slots2 = slots.update(order[0], Some(outcome[order[0]]));
        lemma_apply_completions_frame(slots2, outcome, order.drop_first(), i);
        if order.contains(i) {
            let j = choose|j: int| 0 <= j < order.len() && order[j] == i;
            if j > 0 {
                assert(order.drop_first()[j - 1] == i);
            }
            if !order.drop_first().contains(i) {
                assert(order[0] == i);
                assert(slots2[i] == Some(outcome[i]));
            }
        } else {
            assert(order[0] != i) by {
                if order[0] == i {
                    assert(order.contains(i));
                }
            }
            if order.drop_first().contains(i) {
                let j = choose|j: int|
                    0 <= j < order.drop_first().len() && order.drop_first()[j] == i;
                assert(order[j + 1] == i);
            }
        }
    }
}

/// Order-independence of the executor: for any batch and any order in which
/// the jobs' completions arrive, once every job has completed, each slot
/// holds exactly its own job's report — so the collected sequence has one
/// report per job, in job order, regardless of completion order.
pub proof fn lemma_executor_order_independent(outcome: Seq<HostReport>, order: Seq<int>)
    requires
        forall|j: int| 0 <= j < order.len() ==> 0 <= #[trigger] order[j] < outcome.len(),
        forall|i: int| 0 <= i < outcome.len() ==> order.contains(i),
    ensures
        apply_completions(all_none(outcome.len() as int), outcome, order).len() == outcome.len(),
        forall|i: int|
            0 <= i < outcome.len() ==> apply_completions(
                all_none(outcome.len() as int),
                outcome,
                order,
            )[i] == Some(outcome[i]),
{
    let slots = all_none(outcome.len() as int);
    assert forall|i: int| 0 <= i < outcome.len() implies apply_completions(slots, outcome, order)[i]
        == Some(outcome[i]) by {
        lemma_apply_completions_frame(slots, outcome, order, i);
    }
    if outcome.len() > 0 {
        lemma_apply_completions_frame(slots, outcome, order, 0);
    }
}

} // verus!
