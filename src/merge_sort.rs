//! Merge sort replayed one whole merge per step, from a precomputed list of the
//! ranges that the recursion merges, in post-order.
use vstd::multiset::Multiset;
use vstd::prelude::*;

verus! {

broadcast use vstd::seq_lib::group_seq_properties;

/// Where the range `left..=right` is split.
pub open spec fn mid_of(left: int, right: int) -> int {
    left + (right - left) / 2
}

/// The ranges that merge sort on `left..=right` merges, in the order it merges them:
/// both halves' ranges first, then the whole.
pub open spec fn merge_steps(left: int, right: int) -> Seq<(usize, usize)>
    decreases right - left,
{
    if left >= right {
        Seq::empty()
    } else {
        merge_steps(left, mid_of(left, right)) + merge_steps(mid_of(left, right) + 1, right) + seq![
            (left as usize, right as usize),
        ]
    }
}

/// The stable merge of `a` and `b`: on equal heads, `a`'s goes first.
pub open spec fn merged(a: Seq<i32>, b: Seq<i32>) -> Seq<i32>
    decreases a.len() + b.len(),
{
    if a.len() == 0 {
        b
    } else if b.len() == 0 {
        a
    } else if a[0] <= b[0] {
        seq![a[0]] + merged(a.drop_first(), b)
    } else {
        seq![b[0]] + merged(a, b.drop_first())
    }
}

pub open spec fn sorted(s: Seq<i32>) -> bool {
    forall|i: int, j: int| 0 <= i < j < s.len() ==> s[i] <= s[j]
}

/// `data` with `left..=right` replaced by the merge of its two halves.
pub open spec fn merge_range(data: Seq<i32>, left: int, right: int) -> Seq<i32> {
    let mid = mid_of(left, right);
    data.subrange(0, left) + merged(data.subrange(left, mid + 1), data.subrange(mid + 1, right + 1))
        + data.subrange(right + 1, data.len() as int)
}

proof fn lemma_merged_lower(a: Seq<i32>, b: Seq<i32>, x: i32)
    requires
        forall|i: int| 0 <= i < a.len() ==> x <= #[trigger] a[i],
        forall|i: int| 0 <= i < b.len() ==> x <= #[trigger] b[i],
    ensures
        forall|i: int| 0 <= i < merged(a, b).len() ==> x <= #[trigger] merged(a, b)[i],
    decreases a.len() + b.len(),
{
    if a.len() > 0 && b.len() > 0 {
        if a[0] <= b[0] {
            let t = a.drop_first();
            lemma_merged_lower(t, b, x);
            assert forall|i: int| 0 <= i < merged(a, b).len() implies x <= #[trigger] merged(a, b)[i] by {
                if i > 0 {
                    assert(merged(a, b)[i] == merged(t, b)[i - 1]);
                }
            }
        } else {
            let t = b.drop_first();
            lemma_merged_lower(a, t, x);
            assert forall|i: int| 0 <= i < merged(a, b).len() implies x <= #[trigger] merged(a, b)[i] by {
                if i > 0 {
                    assert(merged(a, b)[i] == merged(a, t)[i - 1]);
                }
            }
        }
    }
}

proof fn lemma_merged(a: Seq<i32>, b: Seq<i32>)
    ensures
        merged(a, b).len() == a.len() + b.len(),
        merged(a, b).to_multiset() == a.to_multiset().add(b.to_multiset()),
        sorted(a) && sorted(b) ==> sorted(merged(a, b)),
    decreases a.len() + b.len(),
{
    broadcast use vstd::multiset::group_multiset_axioms;

    if a.len() == 0 {
        assert(a.to_multiset() =~= Multiset::empty());
    } else if b.len() == 0 {
        assert(b.to_multiset() =~= Multiset::empty());
    } else if a[0] <= b[0] {
        let t = a.drop_first();
        lemma_merged(t, b);
        assert(a =~= seq![a[0]] + t);
        vstd::seq_lib::lemma_multiset_commutative(seq![a[0]], t);
        vstd::seq_lib::lemma_multiset_commutative(seq![a[0]], merged(t, b));
        if sorted(a) && sorted(b) {
            lemma_merged_lower(t, b, a[0]);
            let m = merged(a, b);
            assert forall|i: int, j: int| 0 <= i < j < m.len() implies m[i] <= m[j] by {
                if i > 0 {
                    assert(m[i] == merged(t, b)[i - 1]);
                }
                assert(m[j] == merged(t, b)[j - 1]);
            }
        }
    } else {
        let t = b.drop_first();
        lemma_merged(a, t);
        assert(b =~= seq![b[0]] + t);
        vstd::seq_lib::lemma_multiset_commutative(seq![b[0]], t);
        vstd::seq_lib::lemma_multiset_commutative(seq![b[0]], merged(a, t));
        vstd::seq_lib::lemma_multiset_commutative(a, b);
        vstd::seq_lib::lemma_multiset_commutative(a, t);
        if sorted(a) && sorted(b) {
            lemma_merged_lower(a, t, b[0]);
            let m = merged(a, b);
            assert forall|i: int, j: int| 0 <= i < j < m.len() implies m[i] <= m[j] by {
                if i > 0 {
                    assert(m[i] == merged(a, t)[i - 1]);
                }
                assert(m[j] == merged(a, t)[j - 1]);
            }
        }
    }
}

/// Range `p` lies inside range `q`.
pub open spec fn range_within(p: (usize, usize), q: (usize, usize)) -> bool {
    q.0 <= p.0 && p.1 <= q.1
}

/// Ranges `p` and `q` share no index.
pub open spec fn range_disjoint(p: (usize, usize), q: (usize, usize)) -> bool {
    p.1 < q.0 || q.1 < p.0
}

/// The merged ranges lie within `left..=right`, each of at least two indices; a
/// range merged earlier lies inside a later one or apart from it; the halves of
/// each range that hold two or more indices were merged before it; and the
/// whole range is merged last.
proof fn lemma_steps_shape(left: int, right: int)
    requires
        0 <= left,
        right <= usize::MAX,
    ensures
        forall|t: int|
            0 <= t < merge_steps(left, right).len() ==> left <= (#[trigger] merge_steps(left, right)[t]).0
                < merge_steps(left, right)[t].1 <= right,
        forall|t1: int, t2: int|
            0 <= t1 < t2 < merge_steps(left, right).len() ==> range_within(
                #[trigger] merge_steps(left, right)[t1],
                #[trigger] merge_steps(left, right)[t2],
            ) || range_disjoint(merge_steps(left, right)[t1], merge_steps(left, right)[t2]),
        forall|t: int|
            0 <= t < merge_steps(left, right).len() ==> halves_done(merge_steps(left, right), t),
        left < right ==> merge_steps(left, right).len() > 0 && merge_steps(left, right).last() == (
        left as usize, right as usize),
    decreases right - left,
{
    if left < right {
        let mid = mid_of(left, right);
        lemma_steps_shape(left, mid);
        lemma_steps_shape(mid + 1, right);
        let l = merge_steps(left, mid);
        let r = merge_steps(mid + 1, right);
        let s = merge_steps(left, right);
        assert(s == l + r + seq![(left as usize, right as usize)]);
        let nl = l.len() as int;
        let nr = r.len() as int;
        assert forall|t: int| 0 <= t < s.len() implies left <= (#[trigger] s[t]).0 < s[t].1 <= right by {
            if t < nl {
                assert(s[t] == l[t]);
            } else if t < nl + nr {
                assert(s[t] == r[t - nl]);
            }
        }
        assert forall|t1: int, t2: int| 0 <= t1 < t2 < s.len() implies range_within(
            #[trigger] s[t1],
            #[trigger] s[t2],
        ) || range_disjoint(s[t1], s[t2]) by {
            if t2 < nl {
                assert(s[t1] == l[t1] && s[t2] == l[t2]);
            } else if t2 < nl + nr {
                if t1 < nl {
                    assert(s[t1] == l[t1] && s[t2] == r[t2 - nl]);
                } else {
                    assert(s[t1] == r[t1 - nl] && s[t2] == r[t2 - nl]);
                }
            } else {
                if t1 < nl {
                    assert(s[t1] == l[t1]);
                } else {
                    assert(s[t1] == r[t1 - nl]);
                }
            }
        }
        assert forall|t: int| 0 <= t < s.len() implies halves_done(s, t) by {
            if t < nl {
                assert(halves_done(l, t));
                assert(s[t] == l[t]);
                let (a, b) = (s[t].0 as int, s[t].1 as int);
                let m = mid_of(a, b);
                if a < m {
                    let t2 = choose|t2: int| 0 <= t2 < t && l[t2] == (a as usize, m as usize);
                    assert(s[t2] == l[t2]);
                }
                if m + 1 < b {
                    let t2 = choose|t2: int| 0 <= t2 < t && l[t2] == ((m + 1) as usize, b as usize);
                    assert(s[t2] == l[t2]);
                }
            } else if t < nl + nr {
                assert(halves_done(r, t - nl));
                assert(s[t] == r[t - nl]);
                let (a, b) = (s[t].0 as int, s[t].1 as int);
                let m = mid_of(a, b);
                if a < m {
                    let t2 = choose|t2: int| 0 <= t2 < t - nl && r[t2] == (a as usize, m as usize);
                    assert(s[t2 + nl] == r[t2]);
                }
                if m + 1 < b {
                    let t2 = choose|t2: int| 0 <= t2 < t - nl && r[t2] == ((m + 1) as usize, b as usize);
                    assert(s[t2 + nl] == r[t2]);
                }
            } else {
                if left < mid {
                    assert(s[nl - 1] == l[nl - 1]);
                }
                if mid + 1 < right {
                    assert(s[nl + nr - 1] == r[nr - 1]);
                }
            }
        }
        assert(s.last() == s[s.len() - 1]);
    }
}

/// Each half of range `t` of `steps` that holds two or more indices is a range
/// that comes before it.
pub open spec fn halves_done(steps: Seq<(usize, usize)>, t: int) -> bool {
    let a = steps[t].0 as int;
    let b = steps[t].1 as int;
    let m = mid_of(a, b);
    &&& a < m ==> exists|t2: int| 0 <= t2 < t && steps[t2] == (a as usize, m as usize)
    &&& m + 1 < b ==> exists|t2: int| 0 <= t2 < t && steps[t2] == ((m + 1) as usize, b as usize)
}

proof fn lemma_merge_range_facts(d: Seq<i32>, left: int, right: int)
    requires
        0 <= left < right < d.len(),
    ensures
        merge_range(d, left, right).len() == d.len(),
        forall|i: int|
            0 <= i < d.len() && (i < left || i > right) ==> #[trigger] merge_range(d, left, right)[i]
                == d[i],
        merge_range(d, left, right).subrange(left, right + 1) == merged(
            d.subrange(left, mid_of(left, right) + 1),
            d.subrange(mid_of(left, right) + 1, right + 1),
        ),
        merge_range(d, left, right).to_multiset() == d.to_multiset(),
{
    let mid = mid_of(left, right);
    let a = d.subrange(left, mid + 1);
    let b = d.subrange(mid + 1, right + 1);
    let pre = d.subrange(0, left);
    let post = d.subrange(right + 1, d.len() as int);
    lemma_merged(a, b);
    let m = merged(a, b);
    let d1 = merge_range(d, left, right);
    assert(d1 == pre + m + post);
    assert(d1.subrange(left, right + 1) =~= m);
    assert forall|i: int| 0 <= i < d.len() && (i < left || i > right) implies #[trigger] d1[i] == d[i] by {
        if i < left {
            assert(d1[i] == pre[i]);
        } else {
            assert(d1[i] == post[i - right - 1]);
        }
    }
    assert(d =~= pre + (a + b) + post);
    vstd::seq_lib::lemma_multiset_commutative(a, b);
    vstd::seq_lib::lemma_multiset_commutative(pre, a + b);
    vstd::seq_lib::lemma_multiset_commutative(pre + (a + b), post);
    vstd::seq_lib::lemma_multiset_commutative(pre, m);
    vstd::seq_lib::lemma_multiset_commutative(pre + m, post);
}

/// Merging range `t` keeps sorted every range merged before it and sorts range `t`.
proof fn lemma_merge_keeps_sorted(d: Seq<i32>, steps: Seq<(usize, usize)>, t: int)
    requires
        0 <= t < steps.len(),
        forall|k: int| 0 <= k < steps.len() ==> (#[trigger] steps[k]).0 < steps[k].1 < d.len(),
        forall|t1: int, t2: int|
            0 <= t1 < t2 < steps.len() ==> range_within(#[trigger] steps[t1], #[trigger] steps[t2])
                || range_disjoint(steps[t1], steps[t2]),
        halves_done(steps, t),
        forall|k: int|
            0 <= k < t ==> sorted(d.subrange((#[trigger] steps[k]).0 as int, steps[k].1 + 1)),
    ensures
        forall|k: int|
            0 <= k <= t ==> sorted(
                merge_range(d, steps[t].0 as int, steps[t].1 as int).subrange(
                    (#[trigger] steps[k]).0 as int,
                    steps[k].1 + 1,
                ),
            ),
{
    let l = steps[t].0 as int;
    let r = steps[t].1 as int;
    let mid = mid_of(l, r);
    let a = d.subrange(l, mid + 1);
    let b = d.subrange(mid + 1, r + 1);
    lemma_merge_range_facts(d, l, r);
    let d1 = merge_range(d, l, r);
    if l < mid {
        let t2 = choose|t2: int| 0 <= t2 < t && steps[t2] == (l as usize, mid as usize);
        assert(sorted(d.subrange(steps[t2].0 as int, steps[t2].1 + 1)));
    }
    if mid + 1 < r {
        let t2 = choose|t2: int| 0 <= t2 < t && steps[t2] == ((mid + 1) as usize, r as usize);
        assert(sorted(d.subrange(steps[t2].0 as int, steps[t2].1 + 1)));
    }
    lemma_merged(a, b);
    let m = d1.subrange(l, r + 1);
    assert(sorted(m));
    assert forall|k: int| 0 <= k <= t implies sorted(
        d1.subrange((#[trigger] steps[k]).0 as int, steps[k].1 + 1),
    ) by {
        let p = steps[k].0 as int;
        let q = steps[k].1 as int;
        let sub = d1.subrange(p, q + 1);
        if k == t {
        } else if range_within(steps[k], steps[t]) {
            assert forall|i: int, j: int| 0 <= i < j < sub.len() implies sub[i] <= sub[j] by {
                assert(sub[i] == m[p - l + i]);
                assert(sub[j] == m[p - l + j]);
            }
        } else {
            let old_sub = d.subrange(p, q + 1);
            assert(sorted(old_sub));
            assert forall|i: int, j: int| 0 <= i < j < sub.len() implies sub[i] <= sub[j] by {
                assert(sub[i] == d1[p + i]);
                assert(sub[j] == d1[p + j]);
                assert(d1[p + i] == d[p + i]);
                assert(d1[p + j] == d[p + j]);
                assert(old_sub[i] == d[p + i]);
                assert(old_sub[j] == d[p + j]);
            }
        }
    }
}

/// The array that the example sorts.
pub open spec fn example_data() -> Seq<i32> {
    seq![45, 23, 11, 89, 77, 98, 4, 28, 65, 43, 56, 12, 35, 67, 99, 21, 74, 3, 18, 40, 81, 66, 29, 92, 7]
}

pub struct MergeSortVisualizer {
    data: Vec<i32>,
    temp: Vec<i32>,
    steps: Vec<(usize, usize)>,
    current_step: usize,
    current_ranges: Option<(usize, usize, usize)>,
    auto_play: bool,
    last_step_time: Option<u64>,
    input: Vec<i32>,
}

/// What a `MergeSortVisualizer` holds, as mathematical values: the scratch array
/// appears only by its length, and `input` is the array it starts from.
pub struct MergeSortState {
    pub data: Seq<i32>,
    pub scratch_len: nat,
    pub steps: Seq<(usize, usize)>,
    pub current_step: nat,
    pub current_ranges: Option<(usize, usize, usize)>,
    pub auto_play: bool,
    pub last_step_time: Option<u64>,
    pub input: Seq<i32>,
}

impl View for MergeSortVisualizer {
    type V = MergeSortState;

    closed spec fn view(&self) -> MergeSortState {
        MergeSortState {
            data: self.data@,
            scratch_len: self.temp@.len(),
            steps: self.steps@,
            current_step: self.current_step as nat,
            current_ranges: self.current_ranges,
            auto_play: self.auto_play,
            last_step_time: self.last_step_time,
            input: self.input@,
        }
    }
}

impl MergeSortState {
    /// The step list is merge sort's on the whole array; the array is a permutation
    /// of the input; and every range merged so far is sorted.
    pub open spec fn wf(&self) -> bool {
        &&& 1 <= self.data.len() <= usize::MAX
        &&& self.scratch_len == self.data.len()
        &&& self.steps == merge_steps(0, self.data.len() - 1)
        &&& self.current_step <= self.steps.len()
        &&& self.input.len() == self.data.len()
        &&& self.data.to_multiset() == self.input.to_multiset()
        &&& forall|k: int|
            0 <= k < self.current_step ==> sorted(
                self.data.subrange((#[trigger] self.steps[k]).0 as int, self.steps[k].1 + 1),
            )
    }

    /// One step: replay the next merge whole and mark its halves as the active
    /// ranges `(start, mid + 1, end + 1)`; once every merge is replayed, nothing.
    pub open spec fn after_step(&self) -> MergeSortState {
        if self.is_done() {
            *self
        } else {
            let (l, r) = self.steps[self.current_step as int];
            MergeSortState {
                data: merge_range(self.data, l as int, r as int),
                current_step: self.current_step + 1,
                current_ranges: Some((l, (mid_of(l as int, r as int) + 1) as usize, (r + 1) as usize)),
                ..*self
            }
        }
    }

    /// This state rewound to the input: the array restored, the cursor at the first
    /// merge, no active ranges, and the step time cleared.
    pub open spec fn rewound(&self) -> MergeSortState {
        MergeSortState {
            data: self.input,
            current_step: 0,
            current_ranges: None,
            last_step_time: None,
            ..*self
        }
    }

    /// `next` is this state after `start`: rewound, with auto-play on.
    pub open spec fn started(&self, next: MergeSortState) -> bool {
        next == (MergeSortState { auto_play: true, ..self.rewound() })
    }

    /// Every merge has been replayed.
    pub open spec fn is_done(&self) -> bool {
        self.current_step >= self.steps.len()
    }
}

/// Once every merge has been replayed, the array is sorted ascending and holds
/// exactly the values it started with.
pub proof fn lemma_merge_sort_sorts(s: MergeSortState)
    requires
        s.wf(),
        s.is_done(),
    ensures
        sorted(s.data),
        s.data.to_multiset() == s.input.to_multiset(),
{
    let n = s.data.len() as int;
    lemma_steps_shape(0, n - 1);
    if n > 1 {
        let k = s.steps.len() - 1;
        assert(s.steps[k] == (0usize, (n - 1) as usize));
        assert(s.data.subrange(0, n) =~= s.data);
        assert(sorted(s.data.subrange(s.steps[k].0 as int, s.steps[k].1 + 1)));
    }
}

/// Merges the halves `left..=mid` and `mid + 1..=right` of `data`
/// through `temp`, as `merged` does, leaving the rest of `data` as it was.
fn merge_halves(data: &mut Vec<i32>, temp: &mut Vec<i32>, left: usize, right: usize)
    requires
        left < right < old(data).len(),
        old(temp).len() == old(data).len(),
    ensures
        final(data)@ == merge_range(old(data)@, left as int, right as int),
        final(temp)@.len() == old(temp)@.len(),
{
    let ghost d = data@;
    let n = data.len();
    let mid = left + (right - left) / 2;
    let ghost a = d.subrange(left as int, mid + 1);
    let ghost b = d.subrange(mid + 1, right + 1);
    let mut i = left;
    let mut j = mid + 1;
    let mut k = left;
    assert(temp@.subrange(left as int, k as int) + merged(a, b) =~= merged(a, b));
    while i <= mid && j <= right
        invariant
            data@ == d,
            temp@.len() == d.len(),
            left <= i <= mid + 1,
            mid + 1 <= j <= right + 1,
            mid == mid_of(left as int, right as int),
            right < d.len(),
            d.len() == n,
            k == i + j - mid - 1,
            temp@.subrange(left as int, k as int) + merged(
                d.subrange(i as int, mid + 1),
                d.subrange(j as int, right + 1),
            ) == merged(a, b),
        decreases (mid + 1 - i) + (right + 1 - j),
    {
        let ghost x = d.subrange(i as int, mid + 1);
        let ghost y = d.subrange(j as int, right + 1);
        let ghost t0 = temp@.subrange(left as int, k as int);
        if data[i] <= data[j] {
            temp[k] = data[i];
            assert(x.drop_first() =~= d.subrange(i + 1, mid + 1));
            assert(temp@.subrange(left as int, k + 1) =~= t0 + seq![x[0]]);
            i += 1;
        } else {
            temp[k] = data[j];
            assert(y.drop_first() =~= d.subrange(j + 1, right + 1));
            assert(temp@.subrange(left as int, k + 1) =~= t0 + seq![y[0]]);
            j += 1;
        }
        k += 1;
    }
    while i <= mid
        invariant
            data@ == d,
            temp@.len() == d.len(),
            left <= i <= mid + 1,
            mid + 1 <= j <= right + 1,
            mid == mid_of(left as int, right as int),
            right < d.len(),
            d.len() == n,
            i <= mid ==> j == right + 1,
            k == i + j - mid - 1,
            temp@.subrange(left as int, k as int) + merged(
                d.subrange(i as int, mid + 1),
                d.subrange(j as int, right + 1),
            ) == merged(a, b),
        decreases mid + 1 - i,
    {
        let ghost x = d.subrange(i as int, mid + 1);
        let ghost t0 = temp@.subrange(left as int, k as int);
        assert(d.subrange(j as int, right + 1).len() == 0);
        temp[k] = data[i];
        assert(x.drop_first() =~= d.subrange(i + 1, mid + 1));
        assert(temp@.subrange(left as int, k + 1) =~= t0 + seq![x[0]]);
        i += 1;
        k += 1;
    }
    while j <= right
        invariant
            data@ == d,
            temp@.len() == d.len(),
            i == mid + 1,
            mid + 1 <= j <= right + 1,
            mid == mid_of(left as int, right as int),
            right < d.len(),
            d.len() == n,
            k == i + j - mid - 1,
            temp@.subrange(left as int, k as int) + merged(
                d.subrange(i as int, mid + 1),
                d.subrange(j as int, right + 1),
            ) == merged(a, b),
        decreases right + 1 - j,
    {
        let ghost y = d.subrange(j as int, right + 1);
        let ghost t0 = temp@.subrange(left as int, k as int);
        assert(d.subrange(i as int, mid + 1).len() == 0);
        temp[k] = data[j];
        assert(y.drop_first() =~= d.subrange(j + 1, right + 1));
        assert(temp@.subrange(left as int, k + 1) =~= t0 + seq![y[0]]);
        j += 1;
        k += 1;
    }
    assert(temp@.subrange(left as int, k as int) =~= merged(a, b));
    let ghost m = merged(a, b);
    let mut idx = left;
    while idx <= right
        invariant
            left <= idx <= right + 1,
            right < d.len(),
            d.len() == n,
            temp@.len() == d.len(),
            temp@.subrange(left as int, right + 1) == m,
            data@.len() == d.len(),
            forall|p: int| 0 <= p < left ==> #[trigger] data@[p] == d[p],
            forall|p: int| right < p < d.len() ==> #[trigger] data@[p] == d[p],
            forall|p: int| left <= p < idx ==> #[trigger] data@[p] == m[p - left],
        decreases right + 1 - idx,
    {
        data[idx] = temp[idx];
        assert(temp@[idx as int] == temp@.subrange(left as int, right + 1)[idx - left]);
        idx += 1;
    }
    assert(data@ =~= merge_range(d, left as int, right as int));
}

/// A copy of `v`.
fn copy_values(v: &Vec<i32>) -> (r: Vec<i32>)
    ensures
        r@ == v@,
{
    let mut r: Vec<i32> = Vec::new();
    for i in 0..v.len()
        invariant
            r@ == v@.take(i as int),
    {
        r.push(v[i]);
        assert(v@.take(i + 1) =~= r@);
    }
    assert(v@.take(v.len() as int) =~= v@);
    r
}

impl MergeSortVisualizer {
    /// A visualizer for the example array, its merge list computed, the cursor at
    /// the start.
    pub fn new() -> (r: Self)
        ensures
            r@.wf(),
            r@.data == example_data(),
            r@.input == example_data(),
            r@.current_step == 0,
            r@.current_ranges is None,
            !r@.auto_play,
            r@.last_step_time is None,
    {
        let data: Vec<i32> = vec![45, 23, 11, 89, 77, 98, 4, 28, 65, 43, 56, 12, 35, 67, 99, 21, 74, 3, 18, 40, 81, 66, 29, 92, 7];
        assert(data@ =~= example_data());
        let temp = data.clone();
        let input = copy_values(&data);
        let mut steps: Vec<(usize, usize)> = Vec::new();
        Self::generate_steps(&mut steps, 0, data.len() - 1);
        assert(steps@ =~= merge_steps(0, data.len() - 1));
        MergeSortVisualizer {
            data,
            temp,
            steps,
            current_step: 0,
            current_ranges: None,
            auto_play: false,
            last_step_time: None,
            input,
        }
    }

    /// Appends the ranges that merge sort on `left..=right` merges, in order.
    fn generate_steps(steps: &mut Vec<(usize, usize)>, left: usize, right: usize)
        ensures
            final(steps)@ == old(steps)@ + merge_steps(left as int, right as int),
        decreases right - left,
    {
        if left >= right {
            assert(old(steps)@ + merge_steps(left as int, right as int) =~= old(steps)@);
            return;
        }
        let mid = left + (right - left) / 2;
        Self::generate_steps(steps, left, mid);
        Self::generate_steps(steps, mid + 1, right);
        steps.push((left, right));
        assert(final(steps)@ =~= old(steps)@ + merge_steps(left as int, right as int));
    }

    fn merge(&mut self, left: usize, right: usize)
        requires
            left <= right < old(self)@.data.len(),
            old(self)@.scratch_len == old(self)@.data.len(),
        ensures
            final(self)@ == (MergeSortState {
                data: merge_range(old(self)@.data, left as int, right as int),
                ..old(self)@
            }),
    {
        if left == right {
            let ghost d = self@.data;
            assert(d.subrange(left as int, left + 1) + d.subrange(left + 1, left + 1) =~= d.subrange(left as int, left + 1));
            assert(merge_range(d, left as int, right as int) =~= d);
            return;
        }
        merge_halves(&mut self.data, &mut self.temp, left, right);
    }

    /// Replays the next merge whole and marks its halves as the active ranges
    /// `(start, mid + 1, end + 1)`; once every merge is replayed, changes nothing.
    pub fn step(&mut self)
        requires
            old(self)@.wf(),
        ensures
            final(self)@.wf(),
            old(self)@.is_done() ==> final(self)@ == old(self)@,
            final(self)@ == old(self)@.after_step(),
    {
        let ghost s = self@;
        if self.current_step < self.steps.len() {
            let (left, right) = self.steps[self.current_step];
            proof {
                lemma_steps_shape(0, s.data.len() - 1);
                lemma_merge_range_facts(s.data, left as int, right as int);
                lemma_merge_keeps_sorted(s.data, s.steps, s.current_step as int);
            }
            let mid = left + (right - left) / 2;
            self.merge(left, right);
            self.current_step += 1;
            self.current_ranges = Some((left, mid + 1, right + 1));
        }
    }

    /// Restores the input array, rewinds the cursor to the first merge, and clears
    /// the active ranges, auto-play and the step time.
    pub fn initialize(&mut self)
        requires
            old(self)@.wf(),
        ensures
            final(self)@.wf(),
            final(self)@ == (MergeSortState { auto_play: false, ..old(self)@.rewound() }),
            final(self)@.data == old(self)@.input,
    {
        self.data = copy_values(&self.input);
        self.current_ranges = None;
        self.current_step = 0;
        self.auto_play = false;
        self.last_step_time = None;
    }

    pub fn auto_play(&self) -> (r: bool)
        ensures
            r == self@.auto_play,
    {
        self.auto_play
    }

    pub fn toggle_auto_traverse(&mut self)
        requires
            old(self)@.wf(),
        ensures
            final(self)@.wf(),
            final(self)@ == (MergeSortState { auto_play: !old(self)@.auto_play, ..old(self)@ }),
    {
        self.auto_play = !self.auto_play;
    }

    /// Restores and rewinds, as `initialize` does, and turns auto-play on.
    pub fn start(&mut self)
        requires
            old(self)@.wf(),
        ensures
            final(self)@.wf(),
            old(self)@.started(final(self)@),
    {
        self.initialize();
        self.auto_play = true;
    }

    pub fn last_step_time(&self) -> (r: Option<u64>)
        ensures
            r == self@.last_step_time,
    {
        self.last_step_time
    }

    pub fn set_last_step_time(&mut self, time: Option<u64>)
        requires
            old(self)@.wf(),
        ensures
            final(self)@.wf(),
            final(self)@ == (MergeSortState { last_step_time: time, ..old(self)@ }),
    {
        self.last_step_time = time;
    }

    pub fn data(&self) -> (r: &Vec<i32>)
        ensures
            r@ == self@.data,
    {
        &self.data
    }

    pub fn steps(&self) -> (r: &Vec<(usize, usize)>)
        ensures
            r@ == self@.steps,
    {
        &self.steps
    }

    pub fn current_step(&self) -> (r: usize)
        ensures
            r == self@.current_step,
    {
        self.current_step
    }

    /// The halves of the last merge, as `(start, mid + 1, end + 1)`.
    pub fn current_ranges(&self) -> (r: Option<(usize, usize, usize)>)
        ensures
            r == self@.current_ranges,
    {
        self.current_ranges
    }
}

} // verus!
