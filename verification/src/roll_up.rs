//! Roll-up rules: how one node's operability value is computed from
//! its predecessors' values under a visibility sample.
//!
//! Operability is a fixed-point value in `[0, MAX_OPERABILITY]`:
//! `MAX_OPERABILITY` stands for full operability, `0` for none.

use vstd::prelude::*;

verus! {

use crate::analyses::VISIBLE_VAL;
use crate::node_map::NodeValueMap;

/// Full operability (the fixed-point image of 1.0).
pub const MAX_OPERABILITY: u64 = 1000;

/// No operability (the fixed-point image of 0.0).
pub const MIN_OPERABILITY: u64 = 0;

/// What `get_value` returns: a node with no predecessors is fully
/// operable; a node sampled not visible has no operability regardless
/// of its predecessors; otherwise the rule's combination of the
/// predecessors' values decides.  A node absent from the sample is
/// treated as visible.
pub open spec fn get_value_spec<R: RollUp>(
    rule: &R,
    t_id: u32,
    children: Seq<u32>,
    visibilities: Map<u32, u8>,
    values: Map<u32, u64>,
) -> u64 {
    if children.len() == 0 {
        MAX_OPERABILITY
    } else if visibilities.dom().contains(t_id) && visibilities[t_id] != VISIBLE_VAL {
        MIN_OPERABILITY
    } else {
        rule.combine_spec(t_id, children, values)
    }
}

/// A roll-up rule: computes one node's value from its predecessors'
/// already-computed values and the current visibility sample.
pub trait RollUp: Sized {
    /// The rule-specific combination of the predecessors' values.
    spec fn combine_spec(&self, t_id: u32, children: Seq<u32>, values: Map<u32, u64>) -> u64;

    /// Combining values within `[0, MAX_OPERABILITY]` stays within it.
    proof fn lemma_combine_bounded(&self, t_id: u32, children: Seq<u32>, values: Map<u32, u64>)
        requires
            forall|k: u32| values.dom().contains(k) ==> values[k] <= MAX_OPERABILITY,
        ensures
            self.combine_spec(t_id, children, values) <= MAX_OPERABILITY,
    ;

    fn compute_val(&self, t_id: u32, children: &Vec<u32>, values: &NodeValueMap<u64>) -> (r: u64)
        requires
            values.wf(),
        ensures
            r == self.combine_spec(t_id, children@, values@),
    ;

    /// The value of node `t_id` under the visibility sample: the base
    /// policy for leaves and not-visible nodes, then the rule's own
    /// combination.
    fn get_value(
        &self,
        t_id: u32,
        children: &Vec<u32>,
        visibilities: &NodeValueMap<u8>,
        values: &NodeValueMap<u64>,
    ) -> (r: u64)
        requires
            visibilities.wf(),
            values.wf(),
        ensures
            children@.len() == 0 ==> r == MAX_OPERABILITY,
            children@.len() > 0 && visibilities@.dom().contains(t_id) && visibilities@[t_id]
                != VISIBLE_VAL ==> r == MIN_OPERABILITY,
            children@.len() > 0 && (!visibilities@.dom().contains(t_id) || visibilities@[t_id]
                == VISIBLE_VAL) ==> r == self.combine_spec(t_id, children@, values@),
    {
        if children.len() == 0 {
            return MAX_OPERABILITY;
        }
        match visibilities.get(t_id) {
            None => self.compute_val(t_id, children, values),
            Some(x) => {
                if x == VISIBLE_VAL {
                    self.compute_val(t_id, children, values)
                } else {
                    MIN_OPERABILITY
                }
            },
        }
    }
}

/// The greatest value bound to any of the children, or
/// `MIN_OPERABILITY` if there are none.
pub open spec fn max_child_value(children: Seq<u32>, values: Map<u32, u64>) -> u64
    decreases children.len(),
{
    if children.len() == 0 {
        MIN_OPERABILITY
    } else {
        let m = max_child_value(children.drop_last(), values);
        let v = values[children.last()];
        if v > m {
            v
        } else {
            m
        }
    }
}

/// What `OrRule` computes: full operability if some predecessor's
/// value is still missing, else the maximum of the predecessors'
/// values.
pub open spec fn or_combine(children: Seq<u32>, values: Map<u32, u64>) -> u64 {
    if exists|j: int| 0 <= j < children.len() && !values.dom().contains(#[trigger] children[j]) {
        MAX_OPERABILITY
    } else {
        max_child_value(children, values)
    }
}

pub proof fn lemma_max_child_bounded(children: Seq<u32>, values: Map<u32, u64>)
    requires
        forall|k: u32| values.dom().contains(k) ==> values[k] <= MAX_OPERABILITY,
        forall|j: int| 0 <= j < children.len() ==> values.dom().contains(#[trigger] children[j]),
    ensures
        max_child_value(children, values) <= MAX_OPERABILITY,
    decreases children.len(),
{
    if children.len() > 0 {
        assert(forall|j: int|
            0 <= j < children.len() - 1 ==> children.drop_last()[j] == children[j]);
        lemma_max_child_bounded(children.drop_last(), values);
        assert(values.dom().contains(children[children.len() - 1]));
    }
}

/// OR-gate semantics: an aggregate is as operable as its best
/// operating input.
#[derive(Debug, Clone, Copy)]
pub struct OrRule {}

impl RollUp for OrRule {
    open spec fn combine_spec(&self, t_id: u32, children: Seq<u32>, values: Map<u32, u64>) -> u64 {
        or_combine(children, values)
    }

    proof fn lemma_combine_bounded(&self, t_id: u32, children: Seq<u32>, values: Map<u32, u64>) {
        if exists|j: int|
            0 <= j < children.len() && !values.dom().contains(#[trigger] children[j]) {
        } else {
            lemma_max_child_bounded(children, values);
        }
    }

    /// The maximum of the children's values, taking a child whose
    /// value has not been computed yet as fully operable.
    fn compute_val(&self, t_id: u32, children: &Vec<u32>, values: &NodeValueMap<u64>) -> (r: u64) {
        let mut max: u64 = MIN_OPERABILITY;
        let n = children.len();
        let mut i: usize = 0;
        while i < n
            invariant
                values.wf(),
                n == children@.len(),
                i <= n,
                forall|j: int| 0 <= j < i ==> values@.dom().contains(#[trigger] children@[j]),
                max == max_child_value(children@.take(i as int), values@),
            decreases n - i,
        {
            match values.get(children[i]) {
                None => {
                    proof {
                        assert(!values@.dom().contains(children@[i as int]));
                    }
                    return MAX_OPERABILITY;
                },
                Some(val) => {
                    proof {
                        assert(children@.take(i + 1).drop_last() =~= children@.take(i as int));
                        assert(children@.take(i + 1).last() == children@[i as int]);
                    }
                    if val > max {
                        max = val;
                    }
                },
            }
            i += 1;
        }
        proof {
            assert(children@.take(n as int) =~= children@);
            assert(forall|j: int|
                0 <= j < children@.len() ==> values@.dom().contains(#[trigger] children@[j]));
        }
        max
    }
}

} // verus!
