//! Euclid's greatest-common-divisor algorithm, replayed one remainder step at a time.
use vstd::prelude::*;

verus! {

/// The remainder that Rust's `%` gives on `i32`: it takes the sign of the dividend.
pub open spec fn trunc_rem(a: int, b: int) -> int {
    if a >= 0 {
        a % abs(b)
    } else {
        -((-a) % abs(b))
    }
}

pub open spec fn abs(x: int) -> int {
    if x < 0 {
        -x
    } else {
        x
    }
}

/// The pairs `(a, b)` that the remainder recursion passes through, starting at
/// `(a, b)` and stopping before the pair whose second member is zero.
pub open spec fn euclid_pairs(a: i32, b: i32) -> Seq<(i32, i32)>
    decreases abs(b as int),
{
    if b == 0 {
        Seq::empty()
    } else {
        seq![(a, b)] + euclid_pairs(b, trunc_rem(a as int, b as int) as i32)
    }
}

/// The first member of the pair at which the remainder recursion stops.
pub open spec fn euclid_result(a: i32, b: i32) -> i32
    decreases abs(b as int),
{
    if b == 0 {
        a
    } else {
        euclid_result(b, trunc_rem(a as int, b as int) as i32)
    }
}

proof fn lemma_trunc_rem_bounds(a: int, b: int)
    requires
        b != 0,
    ensures
        abs(trunc_rem(a, b)) < abs(b),
{
}

pub struct EuclideanVisualizer {
    number1: i32,
    number2: i32,
    current_a: i32,
    current_b: i32,
    steps: Vec<(i32, i32)>,
    current_step: usize,
    auto_traverse: bool,
    last_step: Option<u64>,
    result: Option<i32>,
}

/// What an `EuclideanVisualizer` holds, as mathematical values.
pub struct EuclideanState {
    pub number1: i32,
    pub number2: i32,
    pub current_a: i32,
    pub current_b: i32,
    pub steps: Seq<(i32, i32)>,
    pub current_step: nat,
    pub auto_traverse: bool,
    pub last_step: Option<u64>,
    pub result: Option<i32>,
}

impl View for EuclideanVisualizer {
    type V = EuclideanState;

    closed spec fn view(&self) -> EuclideanState {
        EuclideanState {
            number1: self.number1,
            number2: self.number2,
            current_a: self.current_a,
            current_b: self.current_b,
            steps: self.steps@,
            current_step: self.current_step as nat,
            auto_traverse: self.auto_traverse,
            last_step: self.last_step,
            result: self.result,
        }
    }
}

impl EuclideanState {
    /// `next` is this state after `start`: the step list recomputed for the same
    /// inputs and the cursor rewound; auto-play and the step time as they were.
    pub open spec fn started(&self, next: EuclideanState) -> bool {
        &&& next.is_fresh(self.number1, self.number2)
        &&& next.auto_traverse == self.auto_traverse
        &&& next.last_step == self.last_step
    }

    /// The step list is either not computed yet or is the remainder recursion
    /// of the two inputs, and the cursor lies within it.
    pub open spec fn wf(&self) -> bool {
        &&& self.current_step <= self.steps.len()
        &&& (self.result is None ==> self.steps.len() == 0)
        &&& (self.result is Some ==> {
            &&& self.steps == euclid_pairs(self.number1, self.number2)
            &&& self.result == Some(euclid_result(self.number1, self.number2))
        })
    }

    /// Every precomputed pair has been shown.
    pub open spec fn is_done(&self) -> bool {
        self.current_step >= self.steps.len()
    }

    /// One step: show the next precomputed pair; once all are shown, nothing.
    pub open spec fn after_step(&self) -> EuclideanState {
        if self.is_done() {
            *self
        } else {
            EuclideanState {
                current_a: self.steps[self.current_step as int].0,
                current_b: self.steps[self.current_step as int].1,
                current_step: self.current_step + 1,
                ..*self
            }
        }
    }

    /// The state freshly computed for the inputs `a` and `b`, cursor at the start.
    pub open spec fn is_fresh(&self, a: i32, b: i32) -> bool {
        &&& self.number1 == a
        &&& self.number2 == b
        &&& self.current_a == a
        &&& self.current_b == b
        &&& self.steps == euclid_pairs(a, b)
        &&& self.current_step == 0
        &&& self.result == Some(euclid_result(a, b))
    }
}

impl EuclideanVisualizer {
    /// A visualizer for the inputs 48 and 18, with no step list computed yet.
    pub fn new() -> (r: Self)
        ensures
            r@.wf(),
            r@.number1 == 48 && r@.number2 == 18,
            r@.current_a == 48 && r@.current_b == 18,
            r@.steps.len() == 0,
            r@.current_step == 0,
            !r@.auto_traverse,
            r@.last_step is None,
            r@.result is None,
    {
        EuclideanVisualizer {
            number1: 48,
            number2: 18,
            current_a: 48,
            current_b: 18,
            steps: Vec::new(),
            current_step: 0,
            auto_traverse: false,
            last_step: None,
            result: None,
        }
    }

    fn calculate_steps(&mut self)
        ensures
            final(self)@.is_fresh(old(self)@.number1, old(self)@.number2),
            final(self)@.wf(),
            final(self)@.auto_traverse == old(self)@.auto_traverse,
            final(self)@.last_step == old(self)@.last_step,
    {
        self.steps.clear();
        let mut a = self.number1;
        let mut b = self.number2;
        while b != 0
            invariant
                self.number1 == old(self).number1,
                self.number2 == old(self).number2,
                self.auto_traverse == old(self).auto_traverse,
                self.last_step == old(self).last_step,
                self.steps@ + euclid_pairs(a, b) == euclid_pairs(self.number1, self.number2),
                euclid_result(a, b) == euclid_result(self.number1, self.number2),
            decreases abs(b as int),
        {
            let ghost prev = self.steps@;
            proof {
                lemma_trunc_rem_bounds(a as int, b as int);
            }
            let checked = a.checked_rem(b);
            let r: i32 = match checked {
                Some(r) => r,
                None => 0,
            };
            proof {
                if a == i32::MIN && b == -1 {
                    assert((-(a as int)) % 1 == 0);
                    assert(checked is None);
                } else {
                    assert(checked is Some);
                    if a == 0 {
                    } else if a > 0 && b > 0 {
                    } else if a < 0 && b < 0 {
                        assert(r == ((a as int * -1) % (b as int * -1)) * -1);
                    } else if a < 0 {
                        assert(r == ((a as int * -1) % (b as int)) * -1);
                    } else {
                    }
                }
            }
            assert(r == trunc_rem(a as int, b as int));
            self.steps.push((a, b));
            assert(self.steps@ + euclid_pairs(b, r) =~= prev + euclid_pairs(a, b));
            let temp = b;
            b = r;
            a = temp;
        }
        assert(self.steps@ =~= self.steps@ + euclid_pairs(a, b));
        self.result = Some(a);
        self.current_step = 0;
        self.current_a = self.number1;
        self.current_b = self.number2;
    }

    /// Computes the step list for the current inputs and puts the cursor at its start.
    pub fn initialize(&mut self)
        ensures
            final(self)@.wf(),
            final(self)@.is_fresh(old(self)@.number1, old(self)@.number2),
            final(self)@.auto_traverse == old(self)@.auto_traverse,
            final(self)@.last_step == old(self)@.last_step,
    {
        self.calculate_steps();
    }

    /// Shows the next precomputed pair; once every pair has been shown, does nothing.
    pub fn step(&mut self)
        requires
            old(self)@.wf(),
        ensures
            final(self)@.wf(),
            final(self)@ == old(self)@.after_step(),
            old(self)@.is_done() ==> final(self)@ == old(self)@,
    {
        if self.current_step < self.steps.len() {
            let (a, b) = self.steps[self.current_step];
            self.current_a = a;
            self.current_b = b;
            self.current_step += 1;
        }
    }

    /// Replaces both inputs and recomputes the step list, as editing them does.
    pub fn set_numbers(&mut self, a: i32, b: i32)
        ensures
            final(self)@.wf(),
            final(self)@.is_fresh(a, b),
            final(self)@.auto_traverse == old(self)@.auto_traverse,
            final(self)@.last_step == old(self)@.last_step,
    {
        self.number1 = a;
        self.number2 = b;
        self.calculate_steps();
    }

    pub fn auto_play(&self) -> (r: bool)
        ensures
            r == self@.auto_traverse,
    {
        self.auto_traverse
    }

    pub fn toggle_auto_traverse(&mut self)
        ensures
            final(self)@ == (EuclideanState { auto_traverse: !old(self)@.auto_traverse, ..old(self)@ }),
    {
        self.auto_traverse = !self.auto_traverse;
    }

    /// Recomputes the step list and rewinds the cursor.
    pub fn start(&mut self)
        ensures
            final(self)@.wf(),
            old(self)@.started(final(self)@),
    {
        self.current_step = 0;
        self.calculate_steps();
    }

    pub fn last_step_time(&self) -> (r: Option<u64>)
        ensures
            r == self@.last_step,
    {
        self.last_step
    }

    pub fn set_last_step_time(&mut self, time: Option<u64>)
        ensures
            final(self)@ == (EuclideanState { last_step: time, ..old(self)@ }),
    {
        self.last_step = time;
    }

    pub fn number1(&self) -> (r: i32)
        ensures
            r == self@.number1,
    {
        self.number1
    }

    pub fn number2(&self) -> (r: i32)
        ensures
            r == self@.number2,
    {
        self.number2
    }

    pub fn current_a(&self) -> (r: i32)
        ensures
            r == self@.current_a,
    {
        self.current_a
    }

    pub fn current_b(&self) -> (r: i32)
        ensures
            r == self@.current_b,
    {
        self.current_b
    }

    pub fn current_step(&self) -> (r: usize)
        ensures
            r == self@.current_step,
    {
        self.current_step
    }

    pub fn steps(&self) -> (r: &Vec<(i32, i32)>)
        ensures
            r@ == self@.steps,
    {
        &self.steps
    }

    pub fn result(&self) -> (r: Option<i32>)
        ensures
            r == self@.result,
    {
        self.result
    }
}

} // verus!
