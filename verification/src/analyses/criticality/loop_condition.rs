//! Stopping predicates for the sampling loop.

use vstd::prelude::*;

verus! {

use crate::util::split_range;

/// The sum of a sequence of budgets.
pub open spec fn nat_sum(s: Seq<nat>) -> nat
    decreases s.len(),
{
    if s.len() == 0 {
        0
    } else {
        nat_sum(s.drop_last()) + s.last()
    }
}

/// A mutable stopping predicate, consulted once per sampling
/// iteration.  It carries a remaining iteration budget: `stop` returns
/// false and consumes one unit while budget remains, and returns true
/// once the budget is exhausted.  It can be split into per-worker
/// sub-conditions whose budgets exactly partition its own.
pub trait CritLoopCondition: Sized {
    spec fn wf(&self) -> bool;

    /// How many more times `stop` will return false.
    spec fn budget(&self) -> nat;

    fn stop(&mut self) -> (r: bool)
        requires
            old(self).wf(),
        ensures
            final(self).wf(),
            r == (old(self).budget() == 0),
            r ==> final(self).budget() == old(self).budget(),
            !r ==> final(self).budget() + 1 == old(self).budget(),
    ;

    fn split_to_threads(&self, threads: u64) -> (out: Vec<Self>)
        requires
            self.wf(),
            threads >= 1,
        ensures
            out@.len() == threads,
            forall|i: int| 0 <= i < out@.len() ==> (#[trigger] out@[i]).wf(),
            nat_sum(out@.map_values(|c: Self| c.budget())) == self.budget(),
    ;
}

/// Stops after a fixed number of iterations: `stop` returns false
/// exactly `max - index` times before returning true.
#[derive(Debug, Clone, Copy, PartialEq, Eq, Structural)]
pub struct MaxLoopCondition {
    pub max: u64,
    pub index: u64,
}

impl CritLoopCondition for MaxLoopCondition {
    open spec fn wf(&self) -> bool {
        self.index <= self.max
    }

    open spec fn budget(&self) -> nat {
        (self.max - self.index) as nat
    }

    /// Beyond the trait's budget contract: `max` never changes, and a
    /// false result means `index` moved up by exactly one.
    fn stop(&mut self) -> (r: bool)
        ensures
            final(self).max == old(self).max,
            r ==> *final(self) == *old(self),
            !r ==> final(self).index == old(self).index + 1,
    {
        if self.index == self.max {
            return true;
        }
        self.index = self.index + 1;
        false
    }

    /// Divides the remaining iterations `[index, max]` into one
    /// contiguous sub-range per thread; the sub-budgets sum to this
    /// condition's own budget.  Beyond the trait's contract: the
    /// pieces are exactly the `split_range` partition of
    /// `[index, max]` — contiguous, gap-free, and of equal width but
    /// for the last, which absorbs the remainder.
    fn split_to_threads(&self, threads: u64) -> (out: Vec<Self>)
        ensures
            out@[0].index == self.index,
            out@[out@.len() - 1].max == self.max,
            forall|i: int| 0 <= i < out@.len() ==> (#[trigger] out@[i]).index <= out@[i].max,
            forall|i: int|
                0 <= i < out@.len() - 1 ==> (#[trigger] out@[i]).max == out@[i + 1].index,
            forall|i: int|
                0 <= i < out@.len() - 1 ==> (#[trigger] out@[i]).max - out@[i].index == (self.max
                    - self.index) as int / (threads as int),
    {
        let mut out: Vec<MaxLoopCondition> = Vec::new();
        let splits = split_range(self.index, self.max, threads);
        let n = splits.len();
        let mut i: usize = 0;
        #[verifier::loop_isolation(false)]
        while i < n
            invariant
                n == splits@.len(),
                n == threads,
                threads >= 1,
                i <= n,
                out@.len() == i,
                splits@[0].0 == self.index,
                splits@[n - 1].1 == self.max,
                forall|j: int| 0 <= j < n ==> (#[trigger] splits@[j]).0 <= splits@[j].1,
                forall|j: int| 0 <= j < n - 1 ==> (#[trigger] splits@[j]).1 == splits@[j + 1].0,
                forall|j: int|
                    0 <= j < i ==> (#[trigger] out@[j]).index == splits@[j].0 && out@[j].max
                        == splits@[j].1,
                i > 0 ==> splits@[i - 1].1 >= self.index,
                i == 0 ==> nat_sum(out@.map_values(|c: MaxLoopCondition| c.budget())) == 0,
                i > 0 ==> nat_sum(out@.map_values(|c: MaxLoopCondition| c.budget())) == splits@[i
                    - 1].1 - self.index,
            decreases n - i,
        {
            let piece = MaxLoopCondition { max: splits[i].1, index: splits[i].0 };
            let ghost prev = out@;
            out.push(piece);
            proof {
                let f = |c: MaxLoopCondition| c.budget();
                assert(out@.map_values(f).drop_last() =~= prev.map_values(f));
                assert(out@.map_values(f).last() == piece.budget());
                if i > 0 {
                    assert(splits@[i as int].0 == splits@[i - 1].1);
                }
            }
            i += 1;
        }
        out
    }
}

/// Drives a loop condition until it fires, counting how many times it
/// returned false: a condition with budget `k` returns false exactly
/// `k` times before it first returns true.
pub fn run_to_exhaustion<C: CritLoopCondition>(condition: &mut C) -> (count: u64)
    requires
        old(condition).wf(),
        old(condition).budget() <= u64::MAX,
    ensures
        count == old(condition).budget(),
        final(condition).budget() == 0,
{
    let mut count: u64 = 0;
    loop
        invariant
            condition.wf(),
            count + condition.budget() == old(condition).budget(),
            old(condition).budget() <= u64::MAX,
        ensures
            condition.wf(),
            count + condition.budget() == old(condition).budget(),
            condition.budget() == 0,
        decreases condition.budget(),
    {
        let stop_now = condition.stop();
        if stop_now {
            break;
        }
        count = count + 1;
    }
    count
}

} // verus!
