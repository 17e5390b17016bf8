//! The driver that advances the active engine: when auto-play is on and the step
//! interval has passed since the last step, it steps the engine once and records
//! the time.
use vstd::prelude::*;
use crate::bfs::BFSVisualizer;
use crate::dfs::DFSVisualizer;
use crate::dijkstra::DijkstraVisualizer;
use crate::euclidean::EuclideanVisualizer;
use crate::heap_sort::HeapSortVisualizer;
use crate::lcs::LCSVisualizer;
use crate::merge_sort::MergeSortVisualizer;

verus! {

/// Time between two automatic steps, in milliseconds.
pub const STEP_INTERVAL_MS: u64 = 2000;

/// Whether a step is due at time `now`: auto-play is on, and no step was taken yet
/// or `interval` has passed since the last one. A clock that went back makes no
/// step due.
pub fn step_due(auto_play: bool, last_step_time: Option<u64>, now: u64, interval: u64) -> (r: bool)
    ensures
        r == (auto_play && match last_step_time {
            None => true,
            Some(t) => now >= t && now - t >= interval,
        }),
{
    if !auto_play {
        return false;
    }
    match last_step_time {
        None => true,
        Some(t) => now >= t && now - t >= interval,
    }
}

/// The engine that the driver holds: one variant per algorithm.
pub enum Engine {
    Bfs(BFSVisualizer),
    Dfs(DFSVisualizer),
    Dijkstra(DijkstraVisualizer),
    MergeSort(MergeSortVisualizer),
    HeapSort(HeapSortVisualizer),
    Lcs(LCSVisualizer),
    Euclidean(EuclideanVisualizer),
}

impl Engine {
    pub open spec fn wf(&self) -> bool {
        match self {
            Engine::Bfs(e) => e@.wf(),
            Engine::Dfs(e) => e@.wf(),
            Engine::Dijkstra(e) => e@.wf(),
            Engine::MergeSort(e) => e@.wf(),
            Engine::HeapSort(e) => e@.wf(),
            Engine::Lcs(e) => e@.wf(),
            Engine::Euclidean(e) => e@.wf(),
        }
    }

    pub open spec fn spec_auto_play(&self) -> bool {
        match self {
            Engine::Bfs(e) => e@.auto_traverse,
            Engine::Dfs(e) => e@.auto_traverse,
            Engine::Dijkstra(e) => e@.auto_play,
            Engine::MergeSort(e) => e@.auto_play,
            Engine::HeapSort(e) => e@.auto_play,
            Engine::Lcs(e) => e@.auto_play,
            Engine::Euclidean(e) => e@.auto_traverse,
        }
    }

    pub open spec fn spec_last_step_time(&self) -> Option<u64> {
        match self {
            Engine::Bfs(e) => e@.last_step_time,
            Engine::Dfs(e) => e@.last_step_time,
            Engine::Dijkstra(e) => e@.last_step_time,
            Engine::MergeSort(e) => e@.last_step_time,
            Engine::HeapSort(e) => e@.last_step,
            Engine::Lcs(e) => e@.last_step_time,
            Engine::Euclidean(e) => e@.last_step,
        }
    }

    /// `self` and `other` are engines of the same kind.
    pub open spec fn same_kind(&self, other: &Engine) -> bool {
        match (self, other) {
            (Engine::Bfs(_), Engine::Bfs(_)) => true,
            (Engine::Dfs(_), Engine::Dfs(_)) => true,
            (Engine::Dijkstra(_), Engine::Dijkstra(_)) => true,
            (Engine::MergeSort(_), Engine::MergeSort(_)) => true,
            (Engine::HeapSort(_), Engine::HeapSort(_)) => true,
            (Engine::Lcs(_), Engine::Lcs(_)) => true,
            (Engine::Euclidean(_), Engine::Euclidean(_)) => true,
            _ => false,
        }
    }

    /// `next` is this engine after one step, as that engine's `step` states it.
    pub open spec fn stepped(&self, next: &Engine) -> bool {
        match (self, next) {
            (Engine::Bfs(a), Engine::Bfs(b)) => b@ == a@.after_step(),
            (Engine::Dfs(a), Engine::Dfs(b)) => b@ == a@.after_step(),
            (Engine::Dijkstra(a), Engine::Dijkstra(b)) => b@ == a@.after_step(),
            (Engine::MergeSort(a), Engine::MergeSort(b)) => b@ == a@.after_step(),
            (Engine::HeapSort(a), Engine::HeapSort(b)) => b@ == a@.after_step(),
            (Engine::Lcs(a), Engine::Lcs(b)) => b@ == a@.after_step(),
            (Engine::Euclidean(a), Engine::Euclidean(b)) => b@ == a@.after_step(),
            _ => false,
        }
    }

    /// `next` is this engine after its own `start`, as that engine's `started` states it.
    pub open spec fn started(&self, next: &Engine) -> bool {
        match (self, next) {
            (Engine::Bfs(a), Engine::Bfs(b)) => a@.started(b@),
            (Engine::Dfs(a), Engine::Dfs(b)) => a@.started(b@),
            (Engine::Dijkstra(a), Engine::Dijkstra(b)) => a@.started(b@),
            (Engine::MergeSort(a), Engine::MergeSort(b)) => a@.started(b@),
            (Engine::HeapSort(a), Engine::HeapSort(b)) => a@.started(b@),
            (Engine::Lcs(a), Engine::Lcs(b)) => a@.started(b@),
            (Engine::Euclidean(a), Engine::Euclidean(b)) => a@.started(b@),
            _ => false,
        }
    }

    /// `next` is this engine with auto-play flipped and all else as it was.
    pub open spec fn toggled(&self, next: &Engine) -> bool {
        match (self, next) {
            (Engine::Bfs(a), Engine::Bfs(b)) => b@ == (crate::bfs::BfsState {
                auto_traverse: !a@.auto_traverse,
                ..a@
            }),
            (Engine::Dfs(a), Engine::Dfs(b)) => b@ == (crate::dfs::DfsState {
                auto_traverse: !a@.auto_traverse,
                ..a@
            }),
            (Engine::Dijkstra(a), Engine::Dijkstra(b)) => b@ == (crate::dijkstra::DijkstraState {
                auto_play: !a@.auto_play,
                ..a@
            }),
            (Engine::MergeSort(a), Engine::MergeSort(b)) => b@ == (crate::merge_sort::MergeSortState {
                auto_play: !a@.auto_play,
                ..a@
            }),
            (Engine::HeapSort(a), Engine::HeapSort(b)) => b@ == (crate::heap_sort::HeapSortState {
                auto_play: !a@.auto_play,
                ..a@
            }),
            (Engine::Lcs(a), Engine::Lcs(b)) => b@ == (crate::lcs::LcsState {
                auto_play: !a@.auto_play,
                ..a@
            }),
            (Engine::Euclidean(a), Engine::Euclidean(b)) => b@ == (crate::euclidean::EuclideanState {
                auto_traverse: !a@.auto_traverse,
                ..a@
            }),
            _ => false,
        }
    }

    /// `self` is `other` with `time` recorded as the last step's time.
    pub open spec fn with_time(&self, other: &Engine, time: Option<u64>) -> bool {
        match (self, other) {
            (Engine::Bfs(a), Engine::Bfs(b)) => a@ == (crate::bfs::BfsState { last_step_time: time, ..b@ }),
            (Engine::Dfs(a), Engine::Dfs(b)) => a@ == (crate::dfs::DfsState { last_step_time: time, ..b@ }),
            (Engine::Dijkstra(a), Engine::Dijkstra(b)) => a@ == (crate::dijkstra::DijkstraState {
                last_step_time: time,
                ..b@
            }),
            (Engine::MergeSort(a), Engine::MergeSort(b)) => a@ == (crate::merge_sort::MergeSortState {
                last_step_time: time,
                ..b@
            }),
            (Engine::HeapSort(a), Engine::HeapSort(b)) => a@ == (crate::heap_sort::HeapSortState {
                last_step: time,
                ..b@
            }),
            (Engine::Lcs(a), Engine::Lcs(b)) => a@ == (crate::lcs::LcsState { last_step_time: time, ..b@ }),
            (Engine::Euclidean(a), Engine::Euclidean(b)) => a@ == (crate::euclidean::EuclideanState {
                last_step: time,
                ..b@
            }),
            _ => false,
        }
    }

    /// `next` is this engine after one step, with `now` recorded as the step's time.
    pub open spec fn stepped_at(&self, next: &Engine, now: u64) -> bool {
        match (self, next) {
            (Engine::Bfs(a), Engine::Bfs(b)) => b@ == (crate::bfs::BfsState {
                last_step_time: Some(now),
                ..a@.after_step()
            }),
            (Engine::Dfs(a), Engine::Dfs(b)) => b@ == (crate::dfs::DfsState {
                last_step_time: Some(now),
                ..a@.after_step()
            }),
            (Engine::Dijkstra(a), Engine::Dijkstra(b)) => b@ == (crate::dijkstra::DijkstraState {
                last_step_time: Some(now),
                ..a@.after_step()
            }),
            (Engine::MergeSort(a), Engine::MergeSort(b)) => b@ == (crate::merge_sort::MergeSortState {
                last_step_time: Some(now),
                ..a@.after_step()
            }),
            (Engine::HeapSort(a), Engine::HeapSort(b)) => b@ == (crate::heap_sort::HeapSortState {
                last_step: Some(now),
                ..a@.after_step()
            }),
            (Engine::Lcs(a), Engine::Lcs(b)) => b@ == (crate::lcs::LcsState {
                last_step_time: Some(now),
                ..a@.after_step()
            }),
            (Engine::Euclidean(a), Engine::Euclidean(b)) => b@ == (crate::euclidean::EuclideanState {
                last_step: Some(now),
                ..a@.after_step()
            }),
            _ => false,
        }
    }

    pub fn auto_play(&self) -> (r: bool)
        ensures
            r == self.spec_auto_play(),
    {
        match self {
            Engine::Bfs(e) => e.auto_play(),
            Engine::Dfs(e) => e.auto_play(),
            Engine::Dijkstra(e) => e.auto_play(),
            Engine::MergeSort(e) => e.auto_play(),
            Engine::HeapSort(e) => e.auto_play(),
            Engine::Lcs(e) => e.auto_play(),
            Engine::Euclidean(e) => e.auto_play(),
        }
    }

    pub fn last_step_time(&self) -> (r: Option<u64>)
        ensures
            r == self.spec_last_step_time(),
    {
        match self {
            Engine::Bfs(e) => e.last_step_time(),
            Engine::Dfs(e) => e.last_step_time(),
            Engine::Dijkstra(e) => e.last_step_time(),
            Engine::MergeSort(e) => e.last_step_time(),
            Engine::HeapSort(e) => e.last_step_time(),
            Engine::Lcs(e) => e.last_step_time(),
            Engine::Euclidean(e) => e.last_step_time(),
        }
    }

    /// Steps the engine once.
    pub fn step(&mut self)
        requires
            old(self).wf(),
        ensures
            final(self).wf(),
            old(self).stepped(&*final(self)),
    {
        match self {
            Engine::Bfs(e) => e.step(),
            Engine::Dfs(e) => e.step(),
            Engine::Dijkstra(e) => e.step(),
            Engine::MergeSort(e) => e.step(),
            Engine::HeapSort(e) => e.step(),
            Engine::Lcs(e) => e.step(),
            Engine::Euclidean(e) => e.step(),
        }
    }

    /// Flips auto-play.
    pub fn toggle_auto_traverse(&mut self)
        requires
            old(self).wf(),
        ensures
            final(self).wf(),
            final(self).same_kind(&*old(self)),
            final(self).spec_auto_play() == !old(self).spec_auto_play(),
            final(self).spec_last_step_time() == old(self).spec_last_step_time(),
            old(self).toggled(&*final(self)),
    {
        match self {
            Engine::Bfs(e) => e.toggle_auto_traverse(),
            Engine::Dfs(e) => e.toggle_auto_traverse(),
            Engine::Dijkstra(e) => e.toggle_auto_traverse(),
            Engine::MergeSort(e) => e.toggle_auto_traverse(),
            Engine::HeapSort(e) => e.toggle_auto_traverse(),
            Engine::Lcs(e) => e.toggle_auto_traverse(),
            Engine::Euclidean(e) => e.toggle_auto_traverse(),
        }
    }

    /// The engine's own priming for a run (see each engine's `start`).
    pub fn start(&mut self)
        requires
            old(self).wf(),
        ensures
            final(self).wf(),
            final(self).same_kind(&*old(self)),
            old(self).started(&*final(self)),
    {
        match self {
            Engine::Bfs(e) => e.start(),
            Engine::Dfs(e) => e.start(),
            Engine::Dijkstra(e) => e.start(),
            Engine::MergeSort(e) => e.start(),
            Engine::HeapSort(e) => e.start(),
            Engine::Lcs(e) => e.start(),
            Engine::Euclidean(e) => e.start(),
        }
    }

    /// Records `time` as the time of the last step.
    pub fn set_last_step_time(&mut self, time: Option<u64>)
        requires
            old(self).wf(),
        ensures
            final(self).wf(),
            final(self).same_kind(&*old(self)),
            final(self).spec_last_step_time() == time,
            final(self).spec_auto_play() == old(self).spec_auto_play(),
            final(self).with_time(&*old(self), time),
    {
        match self {
            Engine::Bfs(e) => e.set_last_step_time(time),
            Engine::Dfs(e) => e.set_last_step_time(time),
            Engine::Dijkstra(e) => e.set_last_step_time(time),
            Engine::MergeSort(e) => e.set_last_step_time(time),
            Engine::HeapSort(e) => e.set_last_step_time(time),
            Engine::Lcs(e) => e.set_last_step_time(time),
            Engine::Euclidean(e) => e.set_last_step_time(time),
        }
    }

    /// One tick of the driver at time `now`: if a step is due (see `step_due`), steps
    /// the engine once and records `now`; otherwise changes nothing. Returns whether
    /// it stepped.
    pub fn tick(&mut self, now: u64) -> (stepped: bool)
        requires
            old(self).wf(),
        ensures
            final(self).wf(),
            stepped == (old(self).spec_auto_play() && match old(self).spec_last_step_time() {
                None => true,
                Some(t) => now >= t && now - t >= STEP_INTERVAL_MS,
            }),
            !stepped ==> *final(self) == *old(self),
            stepped ==> old(self).stepped_at(&*final(self), now),
    {
        let due = step_due(self.auto_play(), self.last_step_time(), now, STEP_INTERVAL_MS);
        if due {
            self.step();
            self.set_last_step_time(Some(now));
        }
        due
    }
}

} // verus!
