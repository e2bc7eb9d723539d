//! Per-method tallies of proposal outcomes and the step-size decision they drive.
use vstd::prelude::*;

use crate::random::{random_below, MyRng};

verus! {

/// Number of proposal kernels.
pub const METHODS: usize = 6;

/// Number of outcome classes a proposal can end in.
pub const OUTCOMES: usize = 3;

/// How an adaptive proposal scale should move after a sweep.
#[derive(Clone, Copy, Debug, PartialEq, Eq, Structural)]
pub enum ScaleChange {
    /// Too few rejections: take larger steps.
    Grow,
    /// Too many rejections: take smaller steps.
    Shrink,
    Keep,
}

/// Counts of outcomes (lower, accepted, rejected) for each proposal kernel.
pub struct AcceptanceCounter {
    counts: Vec<u32>,
}

/// The rejection fraction `rejected / total` is below one half.
pub open spec fn grows(rejected: int, total: int) -> bool {
    2 * rejected < total
}

/// The rejection fraction `rejected / total` is above three fifths.
pub open spec fn shrinks(rejected: int, total: int) -> bool {
    5 * rejected > 3 * total
}

pub open spec fn change_for(rejected: int, total: int) -> ScaleChange {
    if grows(rejected, total) {
        ScaleChange::Grow
    } else if shrinks(rejected, total) {
        ScaleChange::Shrink
    } else {
        ScaleChange::Keep
    }
}

impl AcceptanceCounter {
    /// Outcome index: the proposal lowered the energy.
    pub const LOWER: usize = 0;
    /// Outcome index: the proposal raised the energy and was accepted.
    pub const ACCEPTED: usize = 1;
    /// Outcome index: the proposal was rejected.
    pub const REJECTED: usize = 2;

    pub closed spec fn wf(&self) -> bool {
        self.counts@.len() == METHODS * OUTCOMES
    }

    /// The tally of `outcome` for `method`.
    pub closed spec fn count(&self, method: int, outcome: int) -> nat {
        self.counts@[method * OUTCOMES + outcome] as nat
    }

    /// All outcomes of `method` together.
    pub open spec fn method_total(&self, method: int) -> nat {
        self.count(method, 0) + self.count(method, 1) + self.count(method, 2)
    }

    /// Sum of the tallies of `outcome` over the first `n` methods.
    pub open spec fn outcome_sum(&self, outcome: int, n: int) -> nat
        decreases n,
    {
        if n <= 0 {
            0
        } else {
            self.outcome_sum(outcome, n - 1) + self.count(n - 1, outcome)
        }
    }

    pub fn zeros() -> (r: AcceptanceCounter)
        ensures
            r.wf(),
            forall|m: int, o: int|
                0 <= m < METHODS && 0 <= o < OUTCOMES ==> #[trigger] r.count(m, o) == 0,
    {
        let mut counts: Vec<u32> = Vec::new();
        let mut i: usize = 0;
        while i < METHODS * OUTCOMES
            invariant
                i <= METHODS * OUTCOMES,
                counts@.len() == i,
                forall|j: int| 0 <= j < i ==> counts@[j] == 0,
            decreases METHODS * OUTCOMES - i,
        {
            counts.push(0);
            i = i + 1;
        }
        let r = AcceptanceCounter { counts };
        assert forall|m: int, o: int| 0 <= m < METHODS && 0 <= o < OUTCOMES implies #[trigger] r.count(
            m,
            o,
        ) == 0 by {
            assert(0 <= m * OUTCOMES + o < METHODS * OUTCOMES) by (nonlinear_arith)
                requires
                    0 <= m < METHODS,
                    0 <= o < OUTCOMES,
            ;
        }
        r
    }

    /// The tally of `outcome` for `method`.
    pub fn get(&self, method: usize, outcome: usize) -> (r: u32)
        requires
            self.wf(),
            method < METHODS,
            outcome < OUTCOMES,
        ensures
            r == self.count(method as int, outcome as int),
    {
        proof {
            lemma_slot_in_range(method as int, outcome as int);
        }
        self.counts[method * OUTCOMES + outcome]
    }

    /// Records one proposal of kernel `method` that ended in `outcome`.
    pub fn increase(&mut self, method: usize, outcome: usize)
        requires
            old(self).wf(),
            method < METHODS,
            outcome < OUTCOMES,
            old(self).count(method as int, outcome as int) < u32::MAX,
        ensures
            final(self).wf(),
            final(self).count(method as int, outcome as int) == old(self).count(
                method as int,
                outcome as int,
            ) + 1,
            forall|m: int, o: int|
                0 <= m < METHODS && 0 <= o < OUTCOMES && (m != method || o != outcome)
                    ==> #[trigger] final(self).count(m, o) == old(self).count(m, o),
    {
        proof {
            lemma_slot_in_range(method as int, outcome as int);
        }
        let k = method * OUTCOMES + outcome;
        let v = self.counts[k];
        self.counts.set(k, v + 1);
        proof {
            assert forall|m: int, o: int|
                0 <= m < METHODS && 0 <= o < OUTCOMES && (m != method || o != outcome)
                    implies #[trigger] final(self).count(m, o) == old(self).count(m, o) by {
                lemma_slot_in_range(m, o);
                lemma_slot_distinct(m, o, method as int, outcome as int);
            }
        }
    }

    /// Resets every tally to zero.
    pub fn clear(&mut self)
        ensures
            final(self).wf(),
            forall|m: int, o: int|
                0 <= m < METHODS && 0 <= o < OUTCOMES ==> #[trigger] final(self).count(m, o) == 0,
    {
        *self = AcceptanceCounter::zeros();
    }

    /// How the scale of `method` should move, from its rejection fraction: grow
    /// below one half, shrink above three fifths, else keep. A kernel that was never
    /// tried keeps its scale.
    pub fn scale_change(&self, method: usize) -> (r: ScaleChange)
        requires
            self.wf(),
            method < METHODS,
        ensures
            r == change_for(
                self.count(method as int, Self::REJECTED as int) as int,
                self.method_total(method as int) as int,
            ),
    {
        let lower = self.get(method, Self::LOWER) as u64;
        let accepted = self.get(method, Self::ACCEPTED) as u64;
        let rejected = self.get(method, Self::REJECTED) as u64;
        let total = lower + accepted + rejected;
        if 2 * rejected < total {
            ScaleChange::Grow
        } else if 5 * rejected > 3 * total {
            ScaleChange::Shrink
        } else {
            ScaleChange::Keep
        }
    }

    /// The scale change of every kernel, in kernel order.
    pub fn scale_changes(&self) -> (r: Vec<ScaleChange>)
        requires
            self.wf(),
        ensures
            r@.len() == METHODS,
            forall|m: int|
                0 <= m < METHODS ==> #[trigger] r@[m] == change_for(
                    self.count(m, Self::REJECTED as int) as int,
                    self.method_total(m) as int,
                ),
    {
        let mut r: Vec<ScaleChange> = Vec::new();
        let mut m: usize = 0;
        while m < METHODS
            invariant
                self.wf(),
                m <= METHODS,
                r@.len() == m,
                forall|j: int|
                    0 <= j < m ==> #[trigger] r@[j] == change_for(
                        self.count(j, Self::REJECTED as int) as int,
                        self.method_total(j) as int,
                    ),
            decreases METHODS - m,
        {
            r.push(self.scale_change(m));
            m = m + 1;
        }
        r
    }

    /// The tallies of each outcome summed over all kernels, in outcome order; the
    /// rates a sweep reports are these divided by their sum.
    pub fn outcome_totals(&self) -> (r: Vec<u64>)
        requires
            self.wf(),
        ensures
            r@.len() == OUTCOMES,
            forall|o: int| 0 <= o < OUTCOMES ==> #[trigger] r@[o] == self.outcome_sum(o, METHODS as int),
    {
        let mut r: Vec<u64> = Vec::new();
        let mut o: usize = 0;
        while o < OUTCOMES
            invariant
                self.wf(),
                o <= OUTCOMES,
                r@.len() == o,
                forall|j: int| 0 <= j < o ==> #[trigger] r@[j] == self.outcome_sum(j, METHODS as int),
            decreases OUTCOMES - o,
        {
            let mut sum: u64 = 0;
            let mut m: usize = 0;
            while m < METHODS
                invariant
                    self.wf(),
                    o < OUTCOMES,
                    m <= METHODS,
                    sum == self.outcome_sum(o as int, m as int),
                    sum <= m * (u32::MAX as int),
                decreases METHODS - m,
            {
                let c = self.get(m, o);
                sum = sum + c as u64;
                m = m + 1;
            }
            r.push(sum);
            o = o + 1;
        }
        r
    }
}

proof fn lemma_slot_in_range(m: int, o: int)
    requires
        0 <= m < METHODS,
        0 <= o < OUTCOMES,
    ensures
        0 <= m * OUTCOMES + o < METHODS * OUTCOMES,
{
    assert(0 <= m * OUTCOMES + o < METHODS * OUTCOMES) by (nonlinear_arith)
        requires
            0 <= m < METHODS,
            0 <= o < OUTCOMES,
    ;
}

proof fn lemma_slot_distinct(m1: int, o1: int, m2: int, o2: int)
    requires
        0 <= m1 < METHODS,
        0 <= o1 < OUTCOMES,
        0 <= m2 < METHODS,
        0 <= o2 < OUTCOMES,
        m1 != m2 || o1 != o2,
    ensures
        m1 * OUTCOMES + o1 != m2 * OUTCOMES + o2,
{
    assert(m1 * OUTCOMES + o1 != m2 * OUTCOMES + o2) by (nonlinear_arith)
        requires
            0 <= o1 < OUTCOMES,
            0 <= o2 < OUTCOMES,
            m1 != m2 || o1 != o2,
    ;
}

/// Draws the proposal kernel for the next step, uniformly among the `METHODS` kernels.
pub fn choose_method(rng: &mut MyRng) -> (r: usize)
    ensures
        r < METHODS,
{
    random_below(rng, METHODS)
}

} // verus!
