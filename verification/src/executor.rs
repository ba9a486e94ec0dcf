//! The work queue of the executor: jobs wait with a cost estimate and leave
//! in descending order of it, first come first served among equals. The
//! threads that take the jobs live outside this library; what is decided
//! here is which job runs next, and whether a job is queued at all.

use vstd::prelude::*;

verus! {

/// The place that a new job with estimate `estimate` takes among the jobs in
/// `pending`: behind every job whose estimate is at least as high.
pub open spec fn dispatch_rank<T>(pending: Seq<(usize, T)>, estimate: usize) -> int
    decreases pending.len(),
{
    if pending.len() == 0 || pending[0].0 < estimate {
        0
    } else {
        1 + dispatch_rank(pending.skip(1), estimate)
    }
}

/// The estimates never rise from one job to the next.
pub open spec fn descending<T>(pending: Seq<(usize, T)>) -> bool {
    forall|i: int, j: int| 0 <= i <= j < pending.len() ==> pending[i].0 >= pending[j].0
}

/// In a descending queue the rank of an estimate parts the jobs that are at
/// least as costly from the cheaper ones.
pub proof fn lemma_dispatch_rank<T>(pending: Seq<(usize, T)>, estimate: usize)
    requires
        descending(pending),
    ensures
        0 <= dispatch_rank(pending, estimate) <= pending.len(),
        forall|i: int| 0 <= i < dispatch_rank(pending, estimate) ==> pending[i].0 >= estimate,
        forall|i: int|
            dispatch_rank(pending, estimate) <= i < pending.len() ==> pending[i].0 < estimate,
    decreases pending.len(),
{
    if pending.len() == 0 || pending[0].0 < estimate {
    } else {
        let rest = pending.skip(1);
        assert(descending(rest)) by {
            assert forall|i: int, j: int| 0 <= i <= j < rest.len() implies rest[i].0
                >= rest[j].0 by {
                assert(pending[i + 1].0 >= pending[j + 1].0);
            }
        }
        lemma_dispatch_rank(rest, estimate);
        let k = dispatch_rank(rest, estimate);
        assert forall|i: int| 0 <= i < k + 1 implies pending[i].0 >= estimate by {
            if i > 0 {
                assert(rest[i - 1].0 >= estimate);
            }
        }
        assert forall|i: int| k + 1 <= i < pending.len() implies pending[i].0 < estimate by {
            assert(rest[i - 1].0 < estimate);
        }
    }
}

/// The one position that parts a descending queue in this way is the rank.
pub proof fn lemma_dispatch_rank_unique<T>(pending: Seq<(usize, T)>, estimate: usize, k: int)
    requires
        0 <= k <= pending.len(),
        forall|i: int| 0 <= i < k ==> pending[i].0 >= estimate,
        forall|i: int| k <= i < pending.len() ==> pending[i].0 < estimate,
    ensures
        dispatch_rank(pending, estimate) == k,
    decreases pending.len(),
{
    if pending.len() == 0 || pending[0].0 < estimate {
        if k > 0 {
            assert(pending[0].0 >= estimate);
        }
    } else {
        let rest = pending.skip(1);
        if k == 0 {
            assert(pending[0].0 < estimate);
        }
        assert forall|i: int| 0 <= i < k - 1 implies rest[i].0 >= estimate by {
            assert(pending[i + 1].0 >= estimate);
        }
        assert forall|i: int| k - 1 <= i < rest.len() implies rest[i].0 < estimate by {
            assert(pending[i + 1].0 < estimate);
        }
        lemma_dispatch_rank_unique(rest, estimate, k - 1);
    }
}

/// The first job of a descending queue is as costly as any job that waits.
pub proof fn lemma_first_is_costliest<T>(pending: Seq<(usize, T)>)
    requires
        descending(pending),
    ensures
        forall|i: int| 0 <= i < pending.len() ==> pending[0].0 >= (#[trigger] pending[i]).0,
{
}

/// A job that is put into a descending queue at its rank leaves the queue
/// descending, and stands before every job that is cheaper.
pub proof fn lemma_insert_at_rank<T>(pending: Seq<(usize, T)>, estimate: usize, task: T)
    requires
        descending(pending),
    ensures
        descending(pending.insert(dispatch_rank(pending, estimate), (estimate, task))),
        forall|i: int|
            dispatch_rank(pending, estimate) < i <= pending.len() ==> (#[trigger] pending.insert(
                dispatch_rank(pending, estimate),
                (estimate, task),
            )[i]).0 < estimate,
{
    lemma_dispatch_rank(pending, estimate);
    let k = dispatch_rank(pending, estimate);
    let after = pending.insert(k, (estimate, task));
    assert forall|i: int, j: int| 0 <= i <= j < after.len() implies after[i].0 >= after[j].0 by {
        let a = if i < k {
            pending[i].0
        } else if i == k {
            estimate
        } else {
            pending[i - 1].0
        };
        let b = if j < k {
            pending[j].0
        } else if j == k {
            estimate
        } else {
            pending[j - 1].0
        };
        assert(after[i].0 == a && after[j].0 == b);
    }
    assert forall|i: int| k < i <= pending.len() implies (#[trigger] after[i]).0 < estimate by {
        assert(after[i] == pending[i - 1]);
    }
}

/// The state of a work queue: how many workers serve it and the jobs that
/// wait.
pub struct Executor<T> {
    concurrency: usize,
    // Ascending by estimate, so that the next job to run is the last.
    queue: Vec<(usize, T)>,
}

impl<T> Executor<T> {
    /// The number of workers that the queue was made for.
    pub closed spec fn concurrency(&self) -> usize {
        self.concurrency
    }

    /// The waiting jobs with their estimates, the next to run first.
    pub closed spec fn pending(&self) -> Seq<(usize, T)> {
        self.queue@.reverse()
    }

    /// The invariant of the queue: the jobs wait in descending order of their
    /// estimates.
    pub closed spec fn wf(&self) -> bool {
        forall|i: int, j: int|
            0 <= i <= j < self.queue@.len() ==> self.queue@[i].0 <= self.queue@[j].0
    }

    /// The waiting jobs are in descending order of their estimates, so that
    /// the job that runs next is as costly as any that waits.
    pub proof fn lemma_pending_descending(&self)
        requires
            self.wf(),
        ensures
            descending(self.pending()),
            forall|i: int|
                0 <= i < self.pending().len() ==> self.pending()[0].0 >= (
                #[trigger] self.pending()[i]).0,
    {
        let q = self.queue@;
        let p = self.pending();
        assert forall|i: int, j: int| 0 <= i <= j < p.len() implies p[i].0 >= p[j].0 by {
            assert(p[i] == q[q.len() - 1 - i]);
            assert(p[j] == q[q.len() - 1 - j]);
        }
    }

    /// An empty queue for `concurrency` workers. With at most one worker
    /// nothing is ever queued: jobs run on the thread that submits them.
    pub fn new(concurrency: usize) -> (e: Executor<T>)
        ensures
            e.wf(),
            e.concurrency() == concurrency,
            e.pending() == Seq::<(usize, T)>::empty(),
    {
        let e = Executor { concurrency, queue: Vec::new() };
        assert(e.pending() =~= Seq::<(usize, T)>::empty());
        e
    }

    /// Whether submitted jobs run on the submitting thread.
    pub fn is_synchronous(&self) -> (r: bool)
        ensures
            r == (self.concurrency() <= 1),
    {
        self.concurrency <= 1
    }

    /// The number of waiting jobs.
    pub fn queued(&self) -> (n: usize)
        ensures
            n == self.pending().len(),
    {
        self.queue.len()
    }

    /// Submits a job. With at most one worker the job comes straight back,
    /// for the caller to run at once; otherwise it is queued behind the jobs
    /// whose estimate is at least as high, and `None` comes back.
    pub fn exec(&mut self, estimate: usize, task: T) -> (now: Option<T>)
        requires
            old(self).wf(),
        ensures
            final(self).wf(),
            final(self).concurrency() == old(self).concurrency(),
            old(self).concurrency() <= 1 ==> now == Some(task) && final(self).pending() == old(
                self,
            ).pending(),
            old(self).concurrency() > 1 ==> now is None && final(self).pending() == old(
                self,
            ).pending().insert(dispatch_rank(old(self).pending(), estimate), (estimate, task)),
    {
        if self.concurrency <= 1 {
            return Some(task);
        }
        // The first position that holds an estimate at least as high.
        let mut lo: usize = 0;
        let mut hi: usize = self.queue.len();
        while lo < hi
            invariant
                self.wf(),
                0 <= lo <= hi <= self.queue@.len(),
                forall|i: int| 0 <= i < lo ==> self.queue@[i].0 < estimate,
                forall|i: int| hi <= i < self.queue@.len() ==> self.queue@[i].0 >= estimate,
            decreases hi - lo,
        {
            let mid: usize = lo + (hi - lo) / 2;
            if self.queue[mid].0 < estimate {
                lo = mid + 1;
            } else {
                hi = mid;
            }
        }
        let ghost before = self.queue@;
        self.queue.insert(lo, (estimate, task));
        proof {
            let n = before.len() as int;
            let p = old(self).pending();
            let k = n - lo;
            assert forall|i: int| 0 <= i < k implies p[i].0 >= estimate by {
                assert(p[i] == before[n - 1 - i]);
            }
            assert forall|i: int| k <= i < p.len() implies p[i].0 < estimate by {
                assert(p[i] == before[n - 1 - i]);
            }
            lemma_dispatch_rank_unique(p, estimate, k);
            let q = final(self).pending();
            let goal = p.insert(k, (estimate, task));
            assert(q.len() == goal.len());
            assert forall|i: int| 0 <= i < q.len() implies q[i] == goal[i] by {
                assert(q[i] == self.queue@[n - i]);
                if i < k {
                    assert(p[i] == before[n - 1 - i]);
                } else if i > k {
                    assert(p[i - 1] == before[n - i]);
                }
            }
            assert(q =~= goal);
        }
        None
    }

    /// Takes the job that runs next: the first to have come among those with
    /// the highest estimate. `None` when no job waits.
    pub fn next_job(&mut self) -> (job: Option<(usize, T)>)
        requires
            old(self).wf(),
        ensures
            final(self).wf(),
            final(self).concurrency() == old(self).concurrency(),
            match job {
                Some(j) => old(self).pending().len() > 0 && j == old(self).pending()[0]
                    && final(self).pending() == old(self).pending().skip(1),
                None => old(self).pending().len() == 0 && final(self).pending() == old(
                    self,
                ).pending(),
            },
    {
        let job = self.queue.pop();
        proof {
            if job is Some {
                assert(final(self).pending() =~= old(self).pending().skip(1));
            }
        }
        job
    }
}

} // verus!
