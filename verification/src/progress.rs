//! Bookkeeping of the solver's progress reports, which arrive from several
//! restarts running side by side.
use vstd::prelude::*;

verus! {

/// How far each restart has got, and which report the display follows.
#[derive(Debug, Clone)]
pub struct SolverProgress {
    /// Highest iteration reported by each restart.
    pub restarts_progress: Vec<usize>,
    /// The restart whose figures are displayed.
    pub current_restart: usize,
    /// The highest iteration displayed so far.
    pub max_iteration: usize,
}

/// The per-restart progress after a report: reset to zeros when the number
/// of restarts changed, then the reporting restart's high-water mark raised.
pub open spec fn after_report(progress: Seq<usize>, restart: int, total_restarts: nat, iteration: usize) -> Seq<usize> {
    let base = if progress.len() == total_restarts {
        progress
    } else {
        Seq::new(total_restarts, |i: int| 0usize)
    };
    if iteration > base[restart] {
        base.update(restart, iteration)
    } else {
        base
    }
}

/// The display follows a report from the same or a later restart, or one
/// further along than any shown.
pub open spec fn spec_shows_report(current_restart: usize, max_iteration: usize, restart: usize, iteration: usize) -> bool {
    restart >= current_restart || iteration > max_iteration
}

/// Sum of the high-water marks.
pub open spec fn total_of(s: Seq<usize>) -> nat
    decreases s.len(),
{
    if s.len() == 0 {
        0
    } else {
        total_of(s.drop_last()) + s.last() as nat
    }
}

impl SolverProgress {
    pub fn new() -> (r: Self)
        ensures
            r.restarts_progress@.len() == 0,
            r.current_restart == 0,
            r.max_iteration == 0,
    {
        SolverProgress { restarts_progress: Vec::new(), current_restart: 0, max_iteration: 0 }
    }

    /// Records that `restart` (of `total_restarts`) has reached `iteration`;
    /// says whether the display should now follow this report.
    pub fn record(&mut self, restart: usize, total_restarts: usize, iteration: usize) -> (show: bool)
        requires
            restart < total_restarts,
        ensures
            final(self).restarts_progress@ == after_report(
                old(self).restarts_progress@,
                restart as int,
                total_restarts as nat,
                iteration,
            ),
            show == spec_shows_report(old(self).current_restart, old(self).max_iteration, restart, iteration),
            show ==> final(self).current_restart == restart && final(self).max_iteration == iteration,
            !show ==> final(self).current_restart == old(self).current_restart && final(self).max_iteration == old(
                self,
            ).max_iteration,
    {
        if self.restarts_progress.len() != total_restarts {
            let mut zeros: Vec<usize> = Vec::new();
            let mut i: usize = 0;
            while i < total_restarts
                invariant
                    i <= total_restarts,
                    zeros@ == Seq::new(i as nat, |k: int| 0usize),
                decreases total_restarts - i,
            {
                zeros.push(0);
                i = i + 1;
                assert(zeros@ =~= Seq::new(i as nat, |k: int| 0usize));
            }
            self.restarts_progress = zeros;
        }
        if iteration > self.restarts_progress[restart] {
            self.restarts_progress.set(restart, iteration);
        }
        let show = restart >= self.current_restart || iteration > self.max_iteration;
        if show {
            self.current_restart = restart;
            self.max_iteration = iteration;
        }
        show
    }

    /// Iterations completed across all restarts.
    pub fn completed_work(&self) -> (r: usize)
        requires
            total_of(self.restarts_progress@) <= usize::MAX,
        ensures
            r == total_of(self.restarts_progress@),
    {
        let mut sum: usize = 0;
        let mut i: usize = 0;
        while i < self.restarts_progress.len()
            invariant
                i <= self.restarts_progress@.len(),
                sum == total_of(self.restarts_progress@.take(i as int)),
                total_of(self.restarts_progress@) <= usize::MAX,
            decreases self.restarts_progress.len() - i,
        {
            proof {
                lemma_total_prefix(self.restarts_progress@, i + 1);
            }
            assert(self.restarts_progress@.take(i + 1).drop_last() =~= self.restarts_progress@.take(i as int));
            sum = sum + self.restarts_progress[i];
            i = i + 1;
        }
        assert(self.restarts_progress@.take(i as int) =~= self.restarts_progress@);
        sum
    }
}

/// A prefix sums to no more than the whole.
proof fn lemma_total_prefix(s: Seq<usize>, k: int)
    requires
        0 <= k <= s.len(),
    ensures
        total_of(s.take(k)) <= total_of(s),
    decreases s.len() - k,
{
    if k < s.len() {
        lemma_total_prefix(s, k + 1);
        assert(s.take(k + 1).drop_last() =~= s.take(k));
    } else {
        assert(s.take(k) =~= s);
    }
}

/// Reports never lower a restart's recorded progress while the number of
/// restarts stays the same.
pub proof fn lemma_progress_never_drops(progress: Seq<usize>, restart: int, iteration: usize, i: int)
    requires
        0 <= restart < progress.len(),
        0 <= i < progress.len(),
    ensures
        after_report(progress, restart, progress.len(), iteration)[i] >= progress[i],
        after_report(progress, restart, progress.len(), iteration)[restart] >= iteration,
{
}

} // verus!
