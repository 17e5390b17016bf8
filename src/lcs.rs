//! Longest common subsequence by dynamic programming: one table cell per step,
//! then one traceback move per step.
use vstd::prelude::*;
use crate::common::chars_of;

verus! {

/// Length of a longest common subsequence of `a[..i]` and `b[..j]`.
pub open spec fn lcs_len(a: Seq<char>, b: Seq<char>, i: int, j: int) -> nat
    decreases i + j,
{
    if i <= 0 || j <= 0 {
        0
    } else if a[i - 1] == b[j - 1] {
        lcs_len(a, b, i - 1, j - 1) + 1
    } else {
        let up = lcs_len(a, b, i - 1, j);
        let left = lcs_len(a, b, i, j - 1);
        if up >= left {
            up
        } else {
            left
        }
    }
}

proof fn lemma_lcs_len_le(a: Seq<char>, b: Seq<char>, i: int, j: int)
    requires
        i >= 0,
        j >= 0,
    ensures
        lcs_len(a, b, i, j) <= i,
    decreases i + j,
{
    if i > 0 && j > 0 {
        lemma_lcs_len_le(a, b, i - 1, j - 1);
        lemma_lcs_len_le(a, b, i - 1, j);
        lemma_lcs_len_le(a, b, i, j - 1);
    }
}

/// `r` is a subsequence of `s`: its characters occur in `s` in order.
pub open spec fn is_subseq(r: Seq<char>, s: Seq<char>) -> bool
    decreases s.len(),
{
    if r.len() == 0 {
        true
    } else if s.len() == 0 {
        false
    } else if r[0] == s[0] {
        is_subseq(r.drop_first(), s.drop_first())
    } else {
        is_subseq(r, s.drop_first())
    }
}

/// A subsequence of `s` is one of `x` followed by `s`.
proof fn lemma_subseq_extend(r: Seq<char>, s: Seq<char>, x: char)
    requires
        is_subseq(r, s),
    ensures
        is_subseq(r, seq![x] + s),
    decreases s.len(), 1int,
{
    let xs = seq![x] + s;
    assert(xs.drop_first() =~= s);
    if r.len() > 0 && r[0] == x {
        lemma_subseq_tail(r, s);
    }
}

/// Dropping the first character of a subsequence keeps it a subsequence.
proof fn lemma_subseq_tail(r: Seq<char>, s: Seq<char>)
    requires
        is_subseq(r, s),
        r.len() > 0,
    ensures
        is_subseq(r.drop_first(), s),
    decreases s.len(), 0int,
{
    let s1 = s.drop_first();
    let r1 = r.drop_first();
    assert(seq![s[0]] + s1 =~= s);
    if r[0] == s[0] {
        lemma_subseq_extend(r1, s1, s[0]);
    } else {
        lemma_subseq_tail(r, s1);
        lemma_subseq_extend(r1, s1, s[0]);
    }
}

/// A subsequence of a suffix of `s` is one of `s`.
proof fn lemma_subseq_suffix(r: Seq<char>, s: Seq<char>, i: int)
    requires
        0 <= i <= s.len(),
        is_subseq(r, s.subrange(i, s.len() as int)),
    ensures
        is_subseq(r, s),
    decreases i,
{
    if i > 0 {
        assert(seq![s[i - 1]] + s.subrange(i, s.len() as int) =~= s.subrange(i - 1, s.len() as int));
        lemma_subseq_extend(r, s.subrange(i, s.len() as int), s[i - 1]);
        lemma_subseq_suffix(r, s, i - 1);
    } else {
        assert(s.subrange(0, s.len() as int) =~= s);
    }
}

/// How a table cell is shown.
#[derive(Clone, Copy, Debug, PartialEq, Eq, Structural)]
pub enum CellState {
    Default,
    Current,
    LCS(usize),
}

/// Where the computation stands.
#[derive(Clone, Copy, Debug, PartialEq, Eq, Structural)]
pub enum LCSPhase {
    Building,
    Reconstructing,
    Done,
}

/// A `rows` by `cols` table of zeros.
fn zero_table(rows: usize, cols: usize) -> (t: Vec<Vec<usize>>)
    ensures
        t@.len() == rows,
        forall|i: int| 0 <= i < rows ==> (#[trigger] t@[i])@ == Seq::new(cols as nat, |j: int| 0usize),
{
    let mut t: Vec<Vec<usize>> = Vec::new();
    for i in 0..rows
        invariant
            t@.len() == i,
            forall|k: int| 0 <= k < i ==> (#[trigger] t@[k])@ == Seq::new(cols as nat, |j: int| 0usize),
    {
        let mut row: Vec<usize> = Vec::new();
        for j in 0..cols
            invariant
                row@ == Seq::new(j as nat, |x: int| 0usize),
        {
            row.push(0);
            assert(row@ =~= Seq::new((j + 1) as nat, |x: int| 0usize));
        }
        t.push(row);
    }
    t
}

/// A `rows` by `cols` table of `CellState::Default`.
fn default_cells(rows: usize, cols: usize) -> (t: Vec<Vec<CellState>>)
    ensures
        t@.len() == rows,
        forall|i: int|
            0 <= i < rows ==> (#[trigger] t@[i])@ == Seq::new(cols as nat, |j: int| CellState::Default),
{
    let mut t: Vec<Vec<CellState>> = Vec::new();
    for i in 0..rows
        invariant
            t@.len() == i,
            forall|k: int|
                0 <= k < i ==> (#[trigger] t@[k])@ == Seq::new(cols as nat, |j: int| CellState::Default),
    {
        let mut row: Vec<CellState> = Vec::new();
        for j in 0..cols
            invariant
                row@ == Seq::new(j as nat, |x: int| CellState::Default),
        {
            row.push(CellState::Default);
            assert(row@ =~= Seq::new((j + 1) as nat, |x: int| CellState::Default));
        }
        t.push(row);
    }
    t
}

pub struct LCSVisualizer {
    str1: Vec<char>,
    str2: Vec<char>,
    dp_table: Vec<Vec<usize>>,
    cell_states: Vec<Vec<CellState>>,
    current_i: usize,
    current_j: usize,
    phase: LCSPhase,
    auto_play: bool,
    last_step_time: Option<u64>,
    lcs_result: Vec<char>,
}

/// What an `LCSVisualizer` holds, as mathematical values.
pub struct LcsState {
    pub str1: Seq<char>,
    pub str2: Seq<char>,
    pub dp: Seq<Seq<usize>>,
    pub cells: Seq<Seq<CellState>>,
    pub i: int,
    pub j: int,
    pub phase: LCSPhase,
    pub auto_play: bool,
    pub last_step_time: Option<u64>,
    pub result: Seq<char>,
}

impl View for LCSVisualizer {
    type V = LcsState;

    closed spec fn view(&self) -> LcsState {
        LcsState {
            str1: self.str1@,
            str2: self.str2@,
            dp: self.dp_table@.map_values(|r: Vec<usize>| r@),
            cells: self.cell_states@.map_values(|r: Vec<CellState>| r@),
            i: self.current_i as int,
            j: self.current_j as int,
            phase: self.phase,
            auto_play: self.auto_play,
            last_step_time: self.last_step_time,
            result: self.lcs_result@,
        }
    }
}

impl LcsState {
    /// `next` is this state after `start`: the computation reset for the same
    /// strings, auto-play and the step time as they were.
    pub open spec fn started(&self, next: LcsState) -> bool {
        &&& next.wf()
        &&& next.is_reset()
        &&& next.str1 == self.str1
        &&& next.str2 == self.str2
        &&& next.auto_play == self.auto_play
        &&& next.last_step_time == self.last_step_time
    }

    pub open spec fn m(&self) -> int {
        self.str1.len() as int
    }

    pub open spec fn n(&self) -> int {
        self.str2.len() as int
    }

    pub open spec fn lcs(&self, i: int, j: int) -> nat {
        lcs_len(self.str1, self.str2, i, j)
    }

    /// Cell `(i, j)` has been computed while building: the border, the rows above the
    /// cursor, and the cells left of it in its row.
    pub open spec fn computed(&self, i: int, j: int) -> bool {
        self.phase != LCSPhase::Building || i == 0 || j == 0 || i < self.i || (i == self.i && j
            < self.j)
    }

    /// Both tables are `(m + 1) x (n + 1)`; every computed cell holds its LCS length
    /// and every other cell 0; the cursor stays within the table; and during the
    /// traceback the result and the LCS length at the cursor add up to the whole.
    pub open spec fn wf(&self) -> bool {
        &&& self.dp.len() == self.m() + 1
        &&& self.cells.len() == self.m() + 1
        &&& forall|i: int| 0 <= i <= self.m() ==> (#[trigger] self.dp[i]).len() == self.n() + 1
        &&& forall|i: int| 0 <= i <= self.m() ==> (#[trigger] self.cells[i]).len() == self.n() + 1
        &&& forall|i: int, j: int|
            0 <= i <= self.m() && 0 <= j <= self.n() ==> #[trigger] self.dp[i][j] == (if self.computed(
                i,
                j,
            ) {
                self.lcs(i, j)
            } else {
                0
            })
        &&& self.phase == LCSPhase::Building ==> {
            &&& 1 <= self.i <= self.m() + 1
            &&& 1 <= self.j <= self.n() || (self.n() == 0 && self.j == 1)
            &&& self.result.len() == 0
        }
        &&& self.phase != LCSPhase::Building ==> {
            &&& 0 <= self.i <= self.m()
            &&& 0 <= self.j <= self.n()
            &&& self.result.len() + self.lcs(self.i, self.j) == self.lcs(self.m(), self.n())
            &&& is_subseq(self.result, self.str1.subrange(self.i, self.m()))
            &&& is_subseq(self.result, self.str2.subrange(self.j, self.n()))
        }
        &&& self.phase == LCSPhase::Done ==> self.i == 0 || self.j == 0
    }

    /// The building step: compute cell `(i, j)` (its LCS length; marked with it on a
    /// character match, else marked current) and advance the cursor along the row,
    /// wrapping to the next; past the last row (or with an empty second string),
    /// switch to the traceback from `(m, n)`.
    pub open spec fn after_build_step(&self) -> LcsState {
        if self.i <= self.m() && self.n() > 0 {
            let v = self.lcs(self.i, self.j) as usize;
            let matched = self.str1[self.i - 1] == self.str2[self.j - 1];
            LcsState {
                dp: self.dp.update(self.i, self.dp[self.i].update(self.j, v)),
                cells: self.cells.update(
                    self.i,
                    self.cells[self.i].update(
                        self.j,
                        if matched {
                            CellState::LCS(v)
                        } else {
                            CellState::Current
                        },
                    ),
                ),
                i: if self.j + 1 > self.n() {
                    self.i + 1
                } else {
                    self.i
                },
                j: if self.j + 1 > self.n() {
                    1
                } else {
                    self.j + 1
                },
                ..*self
            }
        } else {
            LcsState { phase: LCSPhase::Reconstructing, i: self.m(), j: self.n(), ..*self }
        }
    }

    /// The traceback step from `(i, j)`: mark the cell current; on matching
    /// characters prepend the character and move diagonally, else move up when the
    /// cell above holds more than the cell to the left, else left. At the border,
    /// finish and clear auto-play.
    pub open spec fn after_reconstruct_step(&self) -> LcsState {
        if self.i > 0 && self.j > 0 {
            let cells = self.cells.update(self.i, self.cells[self.i].update(self.j, CellState::Current));
            if self.str1[self.i - 1] == self.str2[self.j - 1] {
                LcsState {
                    cells,
                    result: seq![self.str1[self.i - 1]] + self.result,
                    i: self.i - 1,
                    j: self.j - 1,
                    ..*self
                }
            } else if self.dp[self.i - 1][self.j] > self.dp[self.i][self.j - 1] {
                LcsState { cells, i: self.i - 1, ..*self }
            } else {
                LcsState { cells, j: self.j - 1, ..*self }
            }
        } else {
            LcsState { phase: LCSPhase::Done, auto_play: false, ..*self }
        }
    }

    /// One step of whichever phase is current; once done, nothing.
    pub open spec fn after_step(&self) -> LcsState {
        match self.phase {
            LCSPhase::Building => self.after_build_step(),
            LCSPhase::Reconstructing => self.after_reconstruct_step(),
            LCSPhase::Done => *self,
        }
    }

    /// The tables and cursor freshly reset for the current strings.
    pub open spec fn is_reset(&self) -> bool {
        &&& self.dp.len() == self.m() + 1
        &&& self.cells.len() == self.m() + 1
        &&& forall|i: int|
            0 <= i <= self.m() ==> #[trigger] self.dp[i] == Seq::new((self.n() + 1) as nat, |j: int| 0usize)
        &&& forall|i: int|
            0 <= i <= self.m() ==> #[trigger] self.cells[i] == Seq::new(
                (self.n() + 1) as nat,
                |j: int| CellState::Default,
            )
        &&& self.i == 1
        &&& self.j == 1
        &&& self.phase == LCSPhase::Building
        &&& self.result.len() == 0
    }
}

/// Once the traceback is done, the result is a common subsequence of the two
/// strings, as long as a longest one, which is the table's last cell.
pub proof fn lemma_lcs_result(s: LcsState)
    requires
        s.wf(),
        s.phase == LCSPhase::Done,
    ensures
        s.result.len() == s.lcs(s.m(), s.n()),
        s.dp[s.m()][s.n()] == s.result.len(),
        is_subseq(s.result, s.str1),
        is_subseq(s.result, s.str2),
{
    lemma_subseq_suffix(s.result, s.str1, s.i);
    lemma_subseq_suffix(s.result, s.str2, s.j);
}

impl LCSVisualizer {
    /// A visualizer for the strings "ABCBDAB" and "BDCAB", with zeroed tables.
    pub fn new() -> (r: Self)
        ensures
            r@.wf(),
            r@.is_reset(),
            r@.str1 == seq!['A', 'B', 'C', 'B', 'D', 'A', 'B'],
            r@.str2 == seq!['B', 'D', 'C', 'A', 'B'],
            !r@.auto_play,
            r@.last_step_time is None,
    {
        let str1: Vec<char> = vec!['A', 'B', 'C', 'B', 'D', 'A', 'B'];
        let str2: Vec<char> = vec!['B', 'D', 'C', 'A', 'B'];
        let m = str1.len();
        let n = str2.len();
        let r = LCSVisualizer {
            str1,
            str2,
            dp_table: zero_table(m + 1, n + 1),
            cell_states: default_cells(m + 1, n + 1),
            current_i: 1,
            current_j: 1,
            phase: LCSPhase::Building,
            auto_play: false,
            last_step_time: None,
            lcs_result: Vec::new(),
        };
        assert(r@.str1 =~= seq!['A', 'B', 'C', 'B', 'D', 'A', 'B']);
        assert(r@.str2 =~= seq!['B', 'D', 'C', 'A', 'B']);
        r
    }

    /// Computes cell `(i, j)` at the cursor from its neighbors and moves the cursor
    /// along the row, wrapping to the next row; past the last row, switches to the
    /// traceback from `(m, n)` instead. Returns whether a cell was computed.
    fn step_build_table(&mut self) -> (r: bool)
        requires
            old(self)@.wf(),
            old(self)@.phase == LCSPhase::Building,
        ensures
            final(self)@.wf(),
            r == (old(self)@.i <= old(self)@.m() && old(self)@.n() > 0),
            final(self)@ == old(self)@.after_build_step(),
    {
        let ghost s = self@;
        let m = self.str1.len();
        let n = self.str2.len();
        let rows = self.dp_table.len();
        let cols = self.dp_table[0].len();
        assert(s.dp[0] == self.dp_table@[0]@);
        assert(rows == m + 1 && cols == n + 1);
        if self.current_i <= m && n > 0 {
            let i = self.current_i;
            let j = self.current_j;
            proof {
                lemma_lcs_len_le(s.str1, s.str2, i - 1, j - 1);
                assert(s.dp[i - 1][j - 1] == s.lcs(i - 1, j - 1));
                assert(s.dp[i - 1][j as int] == s.lcs(i - 1, j as int));
                assert(s.dp[i as int][j - 1] == s.lcs(i as int, j - 1));
            }
            let matched = self.str1[i - 1] == self.str2[j - 1];
            let v: usize;
            if matched {
                v = self.dp_table[i - 1][j - 1] + 1;
                self.dp_table[i][j] = v;
                self.cell_states[i][j] = CellState::LCS(v);
            } else {
                let up = self.dp_table[i - 1][j];
                let left = self.dp_table[i][j - 1];
                v = if up >= left {
                    up
                } else {
                    left
                };
                self.dp_table[i][j] = v;
                self.cell_states[i][j] = CellState::Current;
            }
            assert(v == s.lcs(i as int, j as int));
            self.current_j += 1;
            if self.current_j > n {
                self.current_j = 1;
                self.current_i += 1;
            }
            assert(self@.dp =~= s.dp.update(i as int, s.dp[i as int].update(j as int, v)));
            assert(self@.cells =~= s.cells.update(
                i as int,
                s.cells[i as int].update(
                    j as int,
                    if matched {
                        CellState::LCS(v)
                    } else {
                        CellState::Current
                    },
                ),
            ));
            true
        } else {
            self.phase = LCSPhase::Reconstructing;
            self.current_i = m;
            self.current_j = n;
            false
        }
    }

    /// One traceback move from the cursor `(i, j)`: on matching characters, prepends
    /// the character to the result and moves diagonally; otherwise moves up if the
    /// cell above holds more than the cell to the left, else left. At the border,
    /// finishes and clears auto-play. Returns whether a move was made.
    fn step_reconstruct(&mut self) -> (r: bool)
        requires
            old(self)@.wf(),
            old(self)@.phase == LCSPhase::Reconstructing,
        ensures
            final(self)@.wf(),
            r == (old(self)@.i > 0 && old(self)@.j > 0),
            final(self)@ == old(self)@.after_reconstruct_step(),
    {
        let ghost s = self@;
        if self.current_i > 0 && self.current_j > 0 {
            let i = self.current_i;
            let j = self.current_j;
            self.cell_states[i][j] = CellState::Current;
            assert(self@.cells =~= s.cells.update(i as int, s.cells[i as int].update(j as int, CellState::Current)));
            proof {
                assert(s.dp[i - 1][j as int] == s.lcs(i - 1, j as int));
                assert(s.dp[i as int][j - 1] == s.lcs(i as int, j - 1));
            }
            let ghost a1 = s.str1.subrange(i as int, s.m());
            let ghost b1 = s.str2.subrange(j as int, s.n());
            assert(seq![s.str1[i - 1]] + a1 =~= s.str1.subrange(i - 1, s.m()));
            assert(seq![s.str2[j - 1]] + b1 =~= s.str2.subrange(j - 1, s.n()));
            if self.str1[i - 1] == self.str2[j - 1] {
                let c = self.str1[i - 1];
                self.lcs_result.insert(0, c);
                assert(self.lcs_result@ =~= seq![c] + s.result);
                proof {
                    let r = seq![c] + s.result;
                    assert(r.drop_first() =~= s.result);
                    assert((seq![c] + a1).drop_first() =~= a1);
                    assert((seq![c] + b1).drop_first() =~= b1);
                    assert(is_subseq(r, seq![c] + a1));
                    assert(is_subseq(r, seq![c] + b1));
                }
                self.current_i -= 1;
                self.current_j -= 1;
            } else if self.dp_table[i - 1][j] > self.dp_table[i][j - 1] {
                proof {
                    lemma_subseq_extend(s.result, a1, s.str1[i - 1]);
                }
                self.current_i -= 1;
            } else {
                proof {
                    lemma_subseq_extend(s.result, b1, s.str2[j - 1]);
                }
                self.current_j -= 1;
            }
            true
        } else {
            self.phase = LCSPhase::Done;
            self.auto_play = false;
            false
        }
    }

    /// Resets the tables, cursor, phase and result for the current strings.
    pub fn initialize(&mut self)
        requires
            old(self)@.wf(),
        ensures
            final(self)@.wf(),
            final(self)@.is_reset(),
            final(self)@.str1 == old(self)@.str1,
            final(self)@.str2 == old(self)@.str2,
            final(self)@.auto_play == old(self)@.auto_play,
            final(self)@.last_step_time == old(self)@.last_step_time,
    {
        let m = self.str1.len();
        let n = self.str2.len();
        let rows = self.dp_table.len();
        let cols = self.dp_table[0].len();
        assert(self@.dp[0] == self.dp_table@[0]@);
        self.reset_tables(m, n);
    }

    fn reset_tables(&mut self, m: usize, n: usize)
        requires
            m == old(self)@.m(),
            n == old(self)@.n(),
            m < usize::MAX,
            n < usize::MAX,
        ensures
            final(self)@.wf(),
            final(self)@.is_reset(),
            final(self)@.str1 == old(self)@.str1,
            final(self)@.str2 == old(self)@.str2,
            final(self)@.auto_play == old(self)@.auto_play,
            final(self)@.last_step_time == old(self)@.last_step_time,
    {
        self.dp_table = zero_table(m + 1, n + 1);
        self.cell_states = default_cells(m + 1, n + 1);
        self.current_i = 1;
        self.current_j = 1;
        self.phase = LCSPhase::Building;
        self.lcs_result.clear();
        proof {
            let s = self@;
            assert forall|i: int| 0 <= i <= s.m() implies #[trigger] s.dp[i] == Seq::new((s.n() + 1) as nat, |j: int| 0usize) by {
                assert(s.dp[i] == self.dp_table@[i]@);
            }
            assert forall|i: int| 0 <= i <= s.m() implies #[trigger] s.cells[i] == Seq::new((s.n() + 1) as nat, |j: int| CellState::Default) by {
                assert(s.cells[i] == self.cell_states@[i]@);
            }
        }
    }

    /// Replaces both strings, as editing them does, and resets the computation.
    pub fn set_strings(&mut self, s1: &str, s2: &str)
        requires
            s1@.len() < usize::MAX,
            s2@.len() < usize::MAX,
        ensures
            final(self)@.wf(),
            final(self)@.is_reset(),
            final(self)@.str1 == s1@,
            final(self)@.str2 == s2@,
            final(self)@.auto_play == old(self)@.auto_play,
            final(self)@.last_step_time == old(self)@.last_step_time,
    {
        self.str1 = chars_of(s1);
        self.str2 = chars_of(s2);
        let m = self.str1.len();
        let n = self.str2.len();
        self.reset_tables(m, n);
    }

    /// One step of whichever phase is current; once done, nothing changes.
    pub fn step(&mut self)
        requires
            old(self)@.wf(),
        ensures
            final(self)@.wf(),
            final(self)@ == old(self)@.after_step(),
            old(self)@.phase == LCSPhase::Done ==> final(self)@ == old(self)@,
    {
        match self.phase {
            LCSPhase::Building => {
                self.step_build_table();
            },
            LCSPhase::Reconstructing => {
                self.step_reconstruct();
            },
            LCSPhase::Done => {},
        }
    }

    pub fn auto_play(&self) -> (r: bool)
        ensures
            r == self@.auto_play,
    {
        self.auto_play
    }

    pub fn toggle_auto_traverse(&mut self)
        requires
            old(self)@.wf(),
        ensures
            final(self)@.wf(),
            final(self)@ == (LcsState { auto_play: !old(self)@.auto_play, ..old(self)@ }),
    {
        self.auto_play = !self.auto_play;
    }

    /// Resets the computation, as `initialize` does.
    pub fn start(&mut self)
        requires
            old(self)@.wf(),
        ensures
            final(self)@.wf(),
            old(self)@.started(final(self)@),
    {
        self.initialize();
    }

    pub fn last_step_time(&self) -> (r: Option<u64>)
        ensures
            r == self@.last_step_time,
    {
        self.last_step_time
    }

    pub fn set_last_step_time(&mut self, time: Option<u64>)
        requires
            old(self)@.wf(),
        ensures
            final(self)@.wf(),
            final(self)@ == (LcsState { last_step_time: time, ..old(self)@ }),
    {
        self.last_step_time = time;
    }

    pub fn str1(&self) -> (r: &Vec<char>)
        ensures
            r@ == self@.str1,
    {
        &self.str1
    }

    pub fn str2(&self) -> (r: &Vec<char>)
        ensures
            r@ == self@.str2,
    {
        &self.str2
    }

    /// The table's rows.
    pub fn dp_table(&self) -> (r: &Vec<Vec<usize>>)
        ensures
            r@.map_values(|row: Vec<usize>| row@) == self@.dp,
    {
        &self.dp_table
    }

    pub fn cell_states(&self) -> (r: &Vec<Vec<CellState>>)
        ensures
            r@.map_values(|row: Vec<CellState>| row@) == self@.cells,
    {
        &self.cell_states
    }

    pub fn phase(&self) -> (r: LCSPhase)
        ensures
            r == self@.phase,
    {
        self.phase
    }

    /// The subsequence reconstructed so far.
    pub fn lcs_result(&self) -> (r: &Vec<char>)
        ensures
            r@ == self@.result,
    {
        &self.lcs_result
    }
}

} // verus!
