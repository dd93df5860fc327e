use vstd::prelude::*;

use crate::rng::draw_below;

verus! {

/// Sum of a sequence of weights.
pub open spec fn weight_sum(ws: Seq<u32>) -> nat
    decreases ws.len(),
{
    if ws.len() == 0 {
        0
    } else {
        weight_sum(ws.drop_last()) + ws.last() as nat
    }
}

/// Lower end of the range of the `k`-th alternative: the weights before it, summed.
pub open spec fn range_start(ws: Seq<u32>, k: int) -> nat {
    weight_sum(ws.take(k))
}

/// `i` lies in the half-open range `[start, start + weight)` of the `k`-th alternative.
pub open spec fn in_range(ws: Seq<u32>, k: int, i: int) -> bool {
    &&& 0 <= k < ws.len()
    &&& range_start(ws, k) <= i < range_start(ws, k) + ws[k]
}

proof fn lemma_take_step(ws: Seq<u32>, k: int)
    requires
        0 <= k < ws.len(),
    ensures
        weight_sum(ws.take(k + 1)) == weight_sum(ws.take(k)) + ws[k],
{
    assert(ws.take(k + 1).drop_last() =~= ws.take(k));
}

proof fn lemma_take_monotone(ws: Seq<u32>, j: int, k: int)
    requires
        0 <= j <= k <= ws.len(),
    ensures
        weight_sum(ws.take(j)) <= weight_sum(ws.take(k)),
    decreases k - j,
{
    if j < k {
        lemma_take_monotone(ws, j, k - 1);
        lemma_take_step(ws, k - 1);
    }
}

/// The ranges of two alternatives never overlap, so a draw selects at most one of them.
pub proof fn lemma_ranges_disjoint(ws: Seq<u32>, j: int, k: int, i: int)
    requires
        in_range(ws, j, i),
        in_range(ws, k, i),
    ensures
        j == k,
{
    if j < k {
        lemma_take_step(ws, j);
        lemma_take_monotone(ws, j + 1, k);
    } else if k < j {
        lemma_take_step(ws, k);
        lemma_take_monotone(ws, k + 1, j);
    }
}

/// Why a draw could not be made.
#[derive(Clone, Copy, Debug, PartialEq, Eq)]
pub enum SampleError {
    /// The weights sum to zero, so there is no range to draw from.
    NoWeight,
}

/// Alternatives with integer weights, drawn with probability proportional to weight.
pub struct WeightedSample<T> {
    weights: Vec<u32>,
    items: Vec<T>,
    total: u32,
}

impl<T: Copy> WeightedSample<T> {
    /// The weights, in the order the alternatives were registered.
    pub closed spec fn weights(&self) -> Seq<u32> {
        self.weights@
    }

    /// The alternatives, in the order they were registered.
    pub closed spec fn items(&self) -> Seq<T> {
        self.items@
    }

    pub closed spec fn wf(&self) -> bool {
        &&& self.weights@.len() == self.items@.len()
        &&& self.total as nat == weight_sum(self.weights@)
    }

    pub open spec fn total_weight(&self) -> nat {
        weight_sum(self.weights())
    }

    /// `v` is registered with a positive weight, so a draw can yield it.
    pub open spec fn reachable(&self, v: T) -> bool {
        exists|k: int| 0 <= k < self.weights().len() && self.weights()[k] > 0 && self.items()[k] == v
    }

    pub fn new() -> (r: WeightedSample<T>)
        ensures
            r.wf(),
            r.weights() == Seq::<u32>::empty(),
            r.items() == Seq::<T>::empty(),
    {
        WeightedSample { weights: Vec::new(), items: Vec::new(), total: 0 }
    }

    /// Registers `value` with `weight`; its range follows those registered before.
    pub fn option(&mut self, weight: u32, value: T)
        requires
            old(self).wf(),
            old(self).total_weight() + weight <= u32::MAX,
        ensures
            final(self).wf(),
            final(self).weights() == old(self).weights().push(weight),
            final(self).items() == old(self).items().push(value),
            final(self).total_weight() == old(self).total_weight() + weight,
    {
        proof {
            assert(self.weights@.push(weight).drop_last() =~= self.weights@);
        }
        self.weights.push(weight);
        self.items.push(value);
        self.total = self.total + weight;
    }

    /// The sum of all weights.
    pub fn total(&self) -> (r: u32)
        requires
            self.wf(),
        ensures
            r == self.total_weight(),
    {
        self.total
    }

    /// Index of the alternative whose range holds `i`, if `i` is below the total weight.
    pub fn select(&self, i: u32) -> (r: Option<usize>)
        requires
            self.wf(),
        ensures
            r is Some <==> i < self.total_weight(),
            r matches Some(k) ==> in_range(self.weights(), k as int, i as int),
    {
        let ghost ws = self.weights@;
        let n = self.weights.len();
        let mut acc: u32 = 0;
        let mut k: usize = 0;
        proof {
            assert(ws.take(n as int) =~= ws);
        }
        while k < n
            invariant
                n == ws.len(),
                ws == self.weights@,
                self.wf(),
                k <= n,
                acc as nat == weight_sum(ws.take(k as int)),
                acc <= i,
                ws.take(n as int) == ws,
            decreases n - k,
        {
            proof {
                lemma_take_step(ws, k as int);
                lemma_take_monotone(ws, k as int + 1, n as int);
            }
            let w = self.weights[k];
            if i < acc + w {
                return Some(k);
            }
            acc = acc + w;
            k = k + 1;
        }
        None
    }

    /// Draws an alternative: a uniform `i` below the total weight selects the one whose
    /// range holds it.
    pub fn sample(&self, rng: &mut rand::XorShiftRng) -> (r: Result<T, SampleError>)
        requires
            self.wf(),
        ensures
            r is Err <==> self.total_weight() == 0,
            r matches Ok(v) ==> self.reachable(v),
    {
        if self.total == 0 {
            return Err(SampleError::NoWeight);
        }
        let i = draw_below(rng, self.total);
        match self.select(i) {
            Some(k) => {
                let v = self.items[k];
                assert(self.weights()[k as int] > 0 && self.items()[k as int] == v);
                Ok(v)
            },
            None => Err(SampleError::NoWeight),
        }
    }
}

} // verus!
