//! Heap sort, one sift-down per step: first building a max-heap from the last
//! parent down to the root, then moving the root behind a shrinking heap.
use rand::Rng;
use vstd::prelude::*;

verus! {

/// The heap condition at node `k` of the first `n` cells: no child is larger.
pub open spec fn heap_ok(d: Seq<i32>, n: int, k: int) -> bool {
    &&& 2 * k + 1 < n ==> d[k] >= d[2 * k + 1]
    &&& 2 * k + 2 < n ==> d[k] >= d[2 * k + 2]
}

/// The heap condition holds at every node from `lo` up to `n`.
pub open spec fn heap_from(d: Seq<i32>, n: int, lo: int) -> bool {
    forall|k: int| lo <= k < n ==> #[trigger] heap_ok(d, n, k)
}

/// The heap condition holds from `lo` up to `n` but perhaps at `i`, and `i`'s parent
/// (if it is at `lo` or above) is no smaller than `i`'s children.
pub open spec fn heap_except(d: Seq<i32>, n: int, i: int, lo: int) -> bool {
    &&& forall|k: int| lo <= k < n && k != i ==> #[trigger] heap_ok(d, n, k)
    &&& i > lo ==> {
        let p = (i - 1) / 2;
        &&& 2 * i + 1 < n ==> d[p] >= d[2 * i + 1]
        &&& 2 * i + 2 < n ==> d[p] >= d[2 * i + 2]
    }
}

/// The larger of `i` and its children within the first `n` cells (`i` on ties).
pub open spec fn largest_of(d: Seq<i32>, n: int, i: int) -> int {
    let l = 2 * i + 1;
    let r = 2 * i + 2;
    let a = if l < n && d[l] > d[i] {
        l
    } else {
        i
    };
    if r < n && d[r] > d[a] {
        r
    } else {
        a
    }
}

pub open spec fn swapped(d: Seq<i32>, a: int, b: int) -> Seq<i32> {
    d.update(a, d[b]).update(b, d[a])
}

/// Sift-down of `i` within the first `n` cells: the array, the last pair compared,
/// and the last pair swapped (`swp` if none).
pub open spec fn sift(d: Seq<i32>, n: int, i: int, swp: (usize, usize)) -> (
    Seq<i32>,
    (usize, usize),
    (usize, usize),
)
    decreases n - i,
{
    let c = largest_of(d, n, i);
    if c != i && i < c < n && i >= 0 {
        sift(swapped(d, i, c), n, c, (i as usize, c as usize))
    } else {
        (d, (i as usize, c as usize), swp)
    }
}

/// Where the heap sort stands.
#[derive(Clone, Copy, Debug, PartialEq, Eq, Structural)]
pub enum HeapSortStage {
    BuildHeap,
    Sorting,
    Done,
}

pub open spec fn sorted_from(d: Seq<i32>, lo: int) -> bool {
    forall|a: int, b: int| lo <= a < b < d.len() ==> d[a] <= d[b]
}

pub struct HeapSortVisualizer {
    data: Vec<i32>,
    heap_size: usize,
    current_index: usize,
    comparing_indices: (usize, usize),
    swapping_indices: (usize, usize),
    is_auto_traversing: bool,
    last_step: Option<u64>,
    stage: HeapSortStage,
}

/// What a `HeapSortVisualizer` holds, as mathematical values.
pub struct HeapSortState {
    pub data: Seq<i32>,
    pub heap_size: nat,
    pub current_index: nat,
    pub comparing: (usize, usize),
    pub swapping: (usize, usize),
    pub auto_play: bool,
    pub last_step: Option<u64>,
    pub stage: HeapSortStage,
}

impl View for HeapSortVisualizer {
    type V = HeapSortState;

    closed spec fn view(&self) -> HeapSortState {
        HeapSortState {
            data: self.data@,
            heap_size: self.heap_size as nat,
            current_index: self.current_index as nat,
            comparing: self.comparing_indices,
            swapping: self.swapping_indices,
            auto_play: self.is_auto_traversing,
            last_step: self.last_step,
            stage: self.stage,
        }
    }
}

impl HeapSortState {
    /// `next` is this state after `start` (or `initialize`): 20 values from `1..100`
    /// loaded, the whole array a heap to build from its last parent (9); the marks,
    /// auto-play and the step time as they were.
    pub open spec fn started(&self, next: HeapSortState) -> bool {
        &&& next.data.len() == 20
        &&& forall|k: int| 0 <= k < 20 ==> 1 <= #[trigger] next.data[k] < 100
        &&& next.stage == HeapSortStage::BuildHeap
        &&& next.heap_size == 20
        &&& next.current_index == 9
        &&& next.comparing == self.comparing
        &&& next.swapping == self.swapping
        &&& next.auto_play == self.auto_play
        &&& next.last_step == self.last_step
    }

    /// While building, every node above the cursor is a heap node; while sorting,
    /// the heap is the prefix up to the cursor, holds no value above the sorted
    /// suffix behind it; once done, the whole array is sorted and the heap is empty.
    pub open spec fn wf(&self) -> bool {
        let n = self.data.len() as int;
        &&& n <= usize::MAX / 2
        &&& self.stage == HeapSortStage::BuildHeap ==> (n < 2 || {
            &&& self.heap_size == n
            &&& self.current_index < n / 2
            &&& heap_from(self.data, n, self.current_index + 1 as int)
        })
        &&& self.stage == HeapSortStage::Sorting ==> {
            &&& n >= 2
            &&& self.current_index < n
            &&& self.heap_size == self.current_index + 1
            &&& heap_from(self.data, self.heap_size as int, 0)
            &&& sorted_from(self.data, self.heap_size as int)
            &&& self.heap_size < n ==> forall|k: int|
                0 <= k < self.heap_size ==> #[trigger] self.data[k] <= self.data[self.heap_size as int]
        }
        &&& self.stage == HeapSortStage::Done ==> sorted_from(self.data, 0) && self.heap_size == 0
    }
}

impl HeapSortState {
    /// One step. Building (two or more cells): sift the cursor's node down, then move
    /// the cursor to the previous node, or after the root to the last cell and the
    /// sorting stage; with fewer cells, finish. Sorting: while the cursor is above 0,
    /// swap the root with the cursor's cell, shrink the heap, sift the root down and
    /// move the cursor back; at 0, finish with an empty heap. Done: nothing.
    pub open spec fn after_step(&self) -> HeapSortState {
        let n = self.data.len() as int;
        let ci = self.current_index as int;
        match self.stage {
            HeapSortStage::BuildHeap => if n >= 2 {
                let r = sift(self.data, n, ci, self.swapping);
                HeapSortState {
                    data: r.0,
                    comparing: r.1,
                    swapping: r.2,
                    current_index: if ci == 0 {
                        (n - 1) as nat
                    } else {
                        (ci - 1) as nat
                    },
                    stage: if ci == 0 {
                        HeapSortStage::Sorting
                    } else {
                        HeapSortStage::BuildHeap
                    },
                    ..*self
                }
            } else {
                HeapSortState { stage: HeapSortStage::Done, heap_size: 0, ..*self }
            },
            HeapSortStage::Sorting => if ci > 0 {
                let r = sift(swapped(self.data, 0, ci), ci, 0, (0usize, ci as usize));
                HeapSortState {
                    data: r.0,
                    comparing: r.1,
                    swapping: r.2,
                    heap_size: ci as nat,
                    current_index: (ci - 1) as nat,
                    ..*self
                }
            } else {
                HeapSortState { stage: HeapSortStage::Done, heap_size: 0, ..*self }
            },
            HeapSortStage::Done => *self,
        }
    }
}

/// In a heap, the root is no smaller than any cell of it.
proof fn lemma_root_max(d: Seq<i32>, n: int, k: int)
    requires
        heap_from(d, n, 0),
        0 <= k < n,
    ensures
        d[0] >= d[k],
    decreases k,
{
    if k > 0 {
        let p = (k - 1) / 2;
        lemma_root_max(d, n, p);
        assert(heap_ok(d, n, p));
    }
}

/// Once done, the array is sorted ascending and the heap is empty.
pub proof fn lemma_heap_sort_sorts(s: HeapSortState)
    requires
        s.wf(),
        s.stage == HeapSortStage::Done,
    ensures
        forall|a: int, b: int| 0 <= a < b < s.data.len() ==> s.data[a] <= s.data[b],
        s.heap_size == 0,
{
}

/// Swapping `i` with its larger child `c` moves the only possible violation of the
/// heap condition down to `c`, and keeps a bound on the first `n` cells that the
/// cell just past them sets.
proof fn lemma_sift_swap(d: Seq<i32>, n: int, i: int, c: int, lo: int)
    requires
        0 <= lo <= i < c < n <= d.len(),
        c == largest_of(d, n, i),
    ensures
        heap_except(d, n, i, lo) ==> heap_except(swapped(d, i, c), n, c, lo),
        n < d.len() && (forall|k: int| 0 <= k < n ==> #[trigger] d[k] <= d[n]) ==> (forall|k: int|
            0 <= k < n ==> #[trigger] swapped(d, i, c)[k] <= swapped(d, i, c)[n]),
{
    let d1 = swapped(d, i, c);
    if heap_except(d, n, i, lo) {
        assert forall|k: int| lo <= k < n && k != c implies #[trigger] heap_ok(d1, n, k) by {
            if k != i {
                assert(heap_ok(d, n, k));
            }
        }
        assert(heap_ok(d, n, c));
    }
    if n < d.len() && (forall|k: int| 0 <= k < n ==> #[trigger] d[k] <= d[n]) {
        assert forall|k: int| 0 <= k < n implies #[trigger] d1[k] <= d1[n] by {
            if k == i {
                assert(d1[k] == d[c]);
            } else if k == c {
                assert(d1[k] == d[i]);
            } else {
                assert(d1[k] == d[k]);
            }
        }
    }
}

/// Moving the root of the heap `0..=ci` behind it keeps the suffix from `ci` sorted
/// and bounded as before, and leaves a heap on `0..ci` but perhaps at the root.
proof fn lemma_sort_swap(d: Seq<i32>, ci: int)
    requires
        0 < ci < d.len(),
        heap_from(d, ci + 1, 0),
        sorted_from(d, ci + 1),
        ci + 1 < d.len() ==> forall|k: int| 0 <= k < ci + 1 ==> #[trigger] d[k] <= d[ci + 1],
    ensures
        heap_except(swapped(d, 0, ci), ci, 0, 0),
        sorted_from(swapped(d, 0, ci), ci),
        forall|k: int| 0 <= k < ci ==> #[trigger] swapped(d, 0, ci)[k] <= swapped(d, 0, ci)[ci],
{
    let d1 = swapped(d, 0, ci);
    assert forall|k: int| 0 <= k < ci + 1 implies d[0] >= #[trigger] d[k] by {
        lemma_root_max(d, ci + 1, k);
    }
    assert forall|k: int| 0 <= k < ci && k != 0 implies #[trigger] heap_ok(d1, ci, k) by {
        assert(heap_ok(d, ci + 1, k));
    }
    assert forall|a: int, b: int| ci <= a < b < d1.len() implies d1[a] <= d1[b] by {
        if a == ci {
            assert(d[0] <= d[ci + 1]);
            assert(d[ci + 1] <= d[b]);
        }
    }
    assert forall|k: int| 0 <= k < ci implies #[trigger] d1[k] <= d1[ci] by {
        if k == 0 {
            assert(d1[k] == d[ci]);
        } else {
            assert(d1[k] == d[k]);
        }
    }
}

/// Swapping two cells keeps the values.
proof fn lemma_swapped_multiset(d: Seq<i32>, a: int, b: int)
    requires
        0 <= a < d.len(),
        0 <= b < d.len(),
    ensures
        swapped(d, a, b).to_multiset() == d.to_multiset(),
        swapped(d, a, b).len() == d.len(),
{
    broadcast use vstd::seq_lib::group_to_multiset_ensures;
    broadcast use vstd::multiset::group_multiset_axioms;

    let d1 = d.update(a, d[b]);
    assert(d1.to_multiset() =~= d.to_multiset().insert(d[b]).remove(d[a]));
    assert(d1.update(b, d[a]).to_multiset() =~= d1.to_multiset().insert(d[a]).remove(d1[b]));
    if a == b {
        assert(d1 =~= d);
        assert(swapped(d, a, b) =~= d);
    } else {
        assert(d1[b] == d[b]);
    }
    assert(swapped(d, a, b).to_multiset() =~= d.to_multiset());
}

/// Swaps cells `a` and `b`.
fn swap_cells(v: &mut Vec<i32>, a: usize, b: usize)
    requires
        a < old(v).len(),
        b < old(v).len(),
    ensures
        final(v)@ == swapped(old(v)@, a as int, b as int),
{
    let t = v[a];
    let u = v[b];
    v[a] = u;
    v[b] = t;
}

impl HeapSortVisualizer {
    /// Sifts the value at `i` down the heap of the first `heap_size` cells: while a
    /// child is larger, swaps it with the larger child. Records the last pair
    /// compared and the last pair swapped.
    fn heapify(&mut self, i: usize, lo: Ghost<int>)
        requires
            i < old(self)@.heap_size <= old(self)@.data.len() <= usize::MAX / 2,
            0 <= lo@ <= i,
        ensures
            ({
                let r = sift(old(self)@.data, old(self)@.heap_size as int, i as int, old(self)@.swapping);
                final(self)@ == (HeapSortState { data: r.0, comparing: r.1, swapping: r.2, ..old(self)@ })
            }),
            final(self)@.data.len() == old(self)@.data.len(),
            final(self)@.data.to_multiset() == old(self)@.data.to_multiset(),
            heap_except(old(self)@.data, old(self)@.heap_size as int, i as int, lo@) ==> heap_from(
                final(self)@.data,
                old(self)@.heap_size as int,
                lo@,
            ),
            forall|k: int|
                0 <= k < old(self)@.data.len() && (k < i || k >= old(self)@.heap_size)
                    ==> #[trigger] final(self)@.data[k] == old(self)@.data[k],
            ({
                let n = old(self)@.heap_size as int;
                n < old(self)@.data.len() && (forall|k: int|
                    0 <= k < n ==> #[trigger] old(self)@.data[k] <= old(self)@.data[n]) ==> (forall|k: int|
                    0 <= k < n ==> #[trigger] final(self)@.data[k] <= final(self)@.data[n])
            }),
        decreases old(self)@.heap_size - i,
    {
        let ghost d = self@.data;
        let n = self.heap_size;
        let left = 2 * i + 1;
        let right = 2 * i + 2;
        let mut largest = i;
        if left < n && self.data[left] > self.data[largest] {
            largest = left;
        }
        if right < n && self.data[right] > self.data[largest] {
            largest = right;
        }
        assert(largest == largest_of(d, n as int, i as int));
        proof {
            if largest == i && heap_except(d, n as int, i as int, lo@) {
                assert(heap_ok(d, n as int, i as int));
            }
        }
        self.comparing_indices = (i, largest);
        if largest != i {
            self.swapping_indices = (i, largest);
            swap_cells(&mut self.data, i, largest);
            proof {
                lemma_sift_swap(d, n as int, i as int, largest as int, lo@);
                lemma_swapped_multiset(d, i as int, largest as int);
            }
            self.heapify(largest, lo);
        }
    }

    /// An empty visualizer, building stage, nothing to sort yet.
    pub fn new() -> (r: Self)
        ensures
            r@.wf(),
            r@ == (HeapSortState {
                data: Seq::empty(),
                heap_size: 0,
                current_index: 0,
                comparing: (0, 0),
                swapping: (0, 0),
                auto_play: false,
                last_step: None,
                stage: HeapSortStage::BuildHeap,
            }),
    {
        HeapSortVisualizer {
            data: Vec::new(),
            heap_size: 0,
            current_index: 0,
            comparing_indices: (0, 0),
            swapping_indices: (0, 0),
            is_auto_traversing: false,
            last_step: None,
            stage: HeapSortStage::BuildHeap,
        }
    }

    /// Loads `data` to be sorted: the heap is the whole array and the build starts
    /// at its last parent. An array of fewer than two values is sorted already.
    pub fn initialize_with(&mut self, data: Vec<i32>)
        requires
            data@.len() <= usize::MAX / 2,
        ensures
            final(self)@.wf(),
            final(self)@.data == data@,
            data@.len() >= 2 ==> final(self)@.stage == HeapSortStage::BuildHeap
                && final(self)@.heap_size == data@.len() && final(self)@.current_index == data@.len()
                / 2 - 1,
            data@.len() < 2 ==> final(self)@.stage == HeapSortStage::Done && final(self)@.heap_size
                == 0 && final(self)@.current_index == 0,
            final(self)@.comparing == old(self)@.comparing,
            final(self)@.swapping == old(self)@.swapping,
            final(self)@.auto_play == old(self)@.auto_play,
            final(self)@.last_step == old(self)@.last_step,
    {
        let n = data.len();
        self.data = data;
        if n >= 2 {
            self.heap_size = n;
            self.current_index = n / 2 - 1;
            self.stage = HeapSortStage::BuildHeap;
        } else {
            self.heap_size = 0;
            self.current_index = 0;
            self.stage = HeapSortStage::Done;
        }
    }

    /// Loads 20 values drawn at random from `1..100` and starts building the heap.
    pub fn initialize(&mut self)
        ensures
            final(self)@.wf(),
            old(self)@.started(final(self)@),
    {
        let mut data: Vec<i32> = Vec::new();
        for k in 0..20usize
            invariant
                data@.len() == k,
                forall|j: int| 0 <= j < k ==> 1 <= #[trigger] data@[j] < 100,
        {
            data.push(random_in(1, 100));
        }
        self.initialize_with(data);
    }

    /// One step (see `HeapSortState::after_step`); once done, nothing changes.
    pub fn step(&mut self)
        requires
            old(self)@.wf(),
        ensures
            final(self)@.wf(),
            old(self)@.stage == HeapSortStage::Done ==> final(self)@ == old(self)@,
            final(self)@.data.to_multiset() == old(self)@.data.to_multiset(),
            final(self)@ == old(self)@.after_step(),
    {
        let ghost s = self@;
        match self.stage {
            HeapSortStage::BuildHeap => {
                if self.data.len() < 2 {
                    self.stage = HeapSortStage::Done;
                    self.heap_size = 0;
                } else {
                    let ci = self.current_index;
                    assert(heap_except(s.data, s.data.len() as int, ci as int, ci as int));
                    self.heapify(ci, Ghost(ci as int));
                    if self.current_index == 0 {
                        self.stage = HeapSortStage::Sorting;
                        self.current_index = self.data.len() - 1;
                    } else {
                        self.current_index -= 1;
                    }
                }
            },
            HeapSortStage::Sorting => {
                if self.current_index > 0 {
                    let ci = self.current_index;
                    proof {
                        lemma_sort_swap(s.data, ci as int);
                        lemma_swapped_multiset(s.data, 0, ci as int);
                    }
                    self.swapping_indices = (0, ci);
                    swap_cells(&mut self.data, 0, ci);
                    self.heap_size -= 1;
                    self.heapify(0, Ghost(0));
                    self.current_index -= 1;
                } else {
                    self.stage = HeapSortStage::Done;
                    self.heap_size = 0;
                    proof {
                        assert forall|a: int, b: int| 0 <= a < b < s.data.len() implies s.data[a] <= s.data[b] by {
                            if a == 0 && b > 1 {
                                assert(s.data[0] <= s.data[1]);
                            }
                        }
                    }
                }
            },
            HeapSortStage::Done => {},
        }
    }

    pub fn auto_play(&self) -> (r: bool)
        ensures
            r == self@.auto_play,
    {
        self.is_auto_traversing
    }

    pub fn toggle_auto_traverse(&mut self)
        requires
            old(self)@.wf(),
        ensures
            final(self)@.wf(),
            final(self)@ == (HeapSortState { auto_play: !old(self)@.auto_play, ..old(self)@ }),
    {
        self.is_auto_traversing = !self.is_auto_traversing;
    }

    /// Loads fresh random values, as `initialize` does.
    pub fn start(&mut self)
        ensures
            final(self)@.wf(),
            old(self)@.started(final(self)@),
    {
        self.initialize();
    }

    pub fn last_step_time(&self) -> (r: Option<u64>)
        ensures
            r == self@.last_step,
    {
        self.last_step
    }

    pub fn set_last_step_time(&mut self, time: Option<u64>)
        requires
            old(self)@.wf(),
        ensures
            final(self)@.wf(),
            final(self)@ == (HeapSortState { last_step: time, ..old(self)@ }),
    {
        self.last_step = time;
    }

    pub fn data(&self) -> (r: &Vec<i32>)
        ensures
            r@ == self@.data,
    {
        &self.data
    }

    pub fn heap_size(&self) -> (r: usize)
        ensures
            r == self@.heap_size,
    {
        self.heap_size
    }

    pub fn current_index(&self) -> (r: usize)
        ensures
            r == self@.current_index,
    {
        self.current_index
    }

    pub fn comparing_indices(&self) -> (r: (usize, usize))
        ensures
            r == self@.comparing,
    {
        self.comparing_indices
    }

    pub fn swapping_indices(&self) -> (r: (usize, usize))
        ensures
            r == self@.swapping,
    {
        self.swapping_indices
    }

    pub fn stage(&self) -> (r: HeapSortStage)
        ensures
            r == self@.stage,
    {
        self.stage
    }
}

/// Relies on `rand::Rng::random_range` on the thread-local generator `rand::rng()`:
/// a value drawn from the non-empty range `lo..hi`.
#[verifier::external_body]
fn random_in(lo: i32, hi: i32) -> (r: i32)
    requires
        lo < hi,
    ensures
        lo <= r < hi,
{
    rand::rng().random_range(lo..hi)
}

} // verus!
