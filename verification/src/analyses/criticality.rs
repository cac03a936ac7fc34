//! The criticality analysis: repeated random visibility sampling with
//! per-sample roll-up and streaming aggregation.
//!
//! For a fixed graph and rule set, the analysis partitions its
//! iteration budget and its visibility generator into one share per
//! worker; each worker runs the sampling loop over its own share and
//! produces one [`GraphCritData`] aggregate.

pub mod loop_condition;
pub mod vis_gen;

use vstd::prelude::*;

verus! {

use crate::analyses::VISIBLE_VAL;
use crate::analyses::criticality::loop_condition::CritLoopCondition;
use crate::analyses::criticality::loop_condition::nat_sum;
use crate::analyses::criticality::vis_gen::VisGen;
use crate::network::Graph;
use crate::network::LinkMap;
use crate::network::lemma_reachable_in_dom;
use crate::network::lm_closed;
use crate::network::reachable;
use crate::network::reaches;
use crate::node_map::IdSet;
use crate::node_map::NodeValueMap;
use crate::roll_up::MAX_OPERABILITY;
use crate::roll_up::RollUp;
use vstd::arithmetic::mul::lemma_mul_inequality;
use vstd::pervasive::unreached;

/// Auxiliary data a loader hands to the criticality analysis.
pub struct CriticalityData {}

/// The ghost image of an aggregate: its accepted sample count, the sum
/// of the end node's values, and the per-node sums `(sum_end_on,
/// sum_end_off)`.
pub ghost struct CritView {
    pub rows: int,
    pub end_sum: int,
    pub nodes: Map<u32, (int, int)>,
}

/// Field-wise merge of two aggregate images, over the left image's key
/// set.
pub open spec fn merge_view(a: CritView, b: CritView) -> CritView {
    CritView {
        rows: a.rows + b.rows,
        end_sum: a.end_sum + b.end_sum,
        nodes: Map::new(
            |k: u32| a.nodes.dom().contains(k),
            |k: u32| (a.nodes[k].0 + b.nodes[k].0, a.nodes[k].1 + b.nodes[k].1),
        ),
    }
}

/// Law: merging aggregates that share one key set is commutative.
pub proof fn lemma_merge_comm(a: CritView, b: CritView)
    requires
        a.nodes.dom() == b.nodes.dom(),
    ensures
        merge_view(a, b) == merge_view(b, a),
{
    assert(merge_view(a, b).nodes =~= merge_view(b, a).nodes);
}

/// Law: merging aggregates that share one key set is associative.
pub proof fn lemma_merge_assoc(a: CritView, b: CritView, c: CritView)
    requires
        a.nodes.dom() == b.nodes.dom(),
        b.nodes.dom() == c.nodes.dom(),
    ensures
        merge_view(merge_view(a, b), c) == merge_view(a, merge_view(b, c)),
{
    assert(merge_view(merge_view(a, b), c).nodes =~= merge_view(a, merge_view(b, c)).nodes);
}

/// Per-node statistics: the node's own value summed over the accepted
/// samples in which it was visible (`sum_end_on`) and over those in
/// which it was not (`sum_end_off`).
#[derive(Debug, Clone, Copy, PartialEq, Eq, Structural)]
pub struct NodeCritData {
    pub sum_end_on: u64,
    pub sum_end_off: u64,
}

impl NodeCritData {
    /// Field-wise accumulation of another per-node aggregate.
    pub fn add(&mut self, d2: &NodeCritData)
        requires
            old(self).sum_end_on + d2.sum_end_on <= u64::MAX,
            old(self).sum_end_off + d2.sum_end_off <= u64::MAX,
        ensures
            final(self).sum_end_on == old(self).sum_end_on + d2.sum_end_on,
            final(self).sum_end_off == old(self).sum_end_off + d2.sum_end_off,
    {
        self.sum_end_on = self.sum_end_on + d2.sum_end_on;
        self.sum_end_off = self.sum_end_off + d2.sum_end_off;
    }
}

/// The image of a per-node statistics record.
pub open spec fn node_view(d: NodeCritData) -> (int, int) {
    (d.sum_end_on as int, d.sum_end_off as int)
}

/// The image of a per-node statistics mapping.
pub open spec fn nodes_view(m: Map<u32, NodeCritData>) -> Map<u32, (int, int)> {
    m.map_values(|d: NodeCritData| node_view(d))
}

/// One run's aggregate: the number of accepted (non-duplicate)
/// samples, the sum of the end node's values across them, and one
/// statistics record per dynamic node.
#[derive(Debug)]
pub struct GraphCritData {
    pub row_count: u64,
    pub end_op_sum: u64,
    pub node_data: NodeValueMap<NodeCritData>,
}

impl View for GraphCritData {
    type V = CritView;

    open spec fn view(&self) -> CritView {
        CritView {
            rows: self.row_count as int,
            end_sum: self.end_op_sum as int,
            nodes: nodes_view(self.node_data@),
        }
    }
}

impl GraphCritData {
    pub open spec fn wf(self) -> bool {
        self.node_data.wf()
    }

    /// Merges another aggregate into this one by field-wise addition,
    /// over this aggregate's key set; the other aggregate must bind
    /// every key this one binds.
    #[verifier::loop_isolation(false)]
    pub fn add(&mut self, d2: &GraphCritData)
        requires
            old(self).wf(),
            d2.wf(),
            old(self)@.nodes.dom().subset_of(d2@.nodes.dom()),
            old(self).row_count + d2.row_count <= u64::MAX,
            old(self).end_op_sum + d2.end_op_sum <= u64::MAX,
            forall|k: u32|
                old(self)@.nodes.dom().contains(k) ==> (#[trigger] old(self)@.nodes[k]).0
                    + d2@.nodes[k].0 <= u64::MAX && old(self)@.nodes[k].1 + d2@.nodes[k].1
                    <= u64::MAX,
        ensures
            final(self).wf(),
            final(self)@ == merge_view(old(self)@, d2@),
    {
        proof {
            self.node_data.lemma_entries();
            d2.node_data.lemma_entries();
        }
        let n = self.node_data.entry_len();
        let mut new_nodes = NodeValueMap::<NodeCritData>::new();
        let mut i: usize = 0;
        while i < n
            invariant
                i <= n,
                self == old(self),
                n == self.node_data.eseq().len(),
                new_nodes.wf(),
                forall|k: u32|
                    #[trigger] new_nodes@.dom().contains(k) <==> exists|j: int|
                        0 <= j < i && (#[trigger] self.node_data.eseq()[j]).0 == k,
                forall|k: u32|
                    #[trigger] new_nodes@.dom().contains(k) ==> node_view(new_nodes@[k]) == (
                    self@.nodes[k].0 + d2@.nodes[k].0,
                    self@.nodes[k].1 + d2@.nodes[k].1,
                ),
            decreases n - i,
        {
            let e = self.node_data.entry_at(i);
            let id = e.0;
            let mine = e.1;
            proof {
                assert(self.node_data@.dom().contains(id));
                assert(self.node_data@[id] == mine);
                assert(self@.nodes.dom().contains(id));
                assert(self@.nodes[id] == node_view(mine));
                assert(d2@.nodes.dom().contains(id));
                assert(d2.node_data@.dom().contains(id));
            }
            let theirs = match d2.node_data.get(id) {
                Some(v) => v,
                None => unreached(),
            };
            proof {
                assert(d2@.nodes[id] == node_view(theirs));
            }
            let combined = NodeCritData {
                sum_end_on: mine.sum_end_on + theirs.sum_end_on,
                sum_end_off: mine.sum_end_off + theirs.sum_end_off,
            };
            let ghost prev = new_nodes@;
            new_nodes.insert(id, combined);
            proof {
                assert forall|k: u32| #[trigger] new_nodes@.dom().contains(k) implies exists|j: int|
                    0 <= j < i + 1 && (#[trigger] self.node_data.eseq()[j]).0 == k by {
                    if k == id {
                        assert(self.node_data.eseq()[i as int].0 == k);
                    } else {
                        assert(prev.dom().contains(k));
                        let j = choose|j: int|
                            0 <= j < i && (#[trigger] self.node_data.eseq()[j]).0 == k;
                        assert(self.node_data.eseq()[j].0 == k);
                    }
                }
                assert forall|k: u32|
                    (exists|j: int|
                        0 <= j < i + 1 && (#[trigger] self.node_data.eseq()[j]).0
                            == k) implies new_nodes@.dom().contains(k) by {
                    let j = choose|j: int|
                        0 <= j < i + 1 && (#[trigger] self.node_data.eseq()[j]).0 == k;
                    if j < i {
                        assert(prev.dom().contains(k));
                    }
                }
            }
            i += 1;
        }
        self.row_count = self.row_count + d2.row_count;
        self.end_op_sum = self.end_op_sum + d2.end_op_sum;
        self.node_data = new_nodes;
        proof {
            old(self).node_data.lemma_entries();
            assert(self@.nodes =~= merge_view(old(self)@, d2@).nodes) by {
                assert forall|k: u32| #[trigger] self@.nodes.dom().contains(k) implies old(
                    self,
                )@.nodes.dom().contains(k) by {
                    let j = choose|j: int|
                        0 <= j < old(self).node_data.eseq().len() && (#[trigger] old(
                            self,
                        ).node_data.eseq()[j]).0 == k;
                    assert(old(self).node_data@.dom().contains(k));
                }
                assert forall|k: u32| old(self)@.nodes.dom().contains(k) implies #[trigger] self@.nodes.dom().contains(
                    k,
                ) by {
                    let j = choose|j: int|
                        0 <= j < old(self).node_data.eseq().len() && (#[trigger] old(
                            self,
                        ).node_data.eseq()[j]).0 == k;
                    assert(self.node_data@.dom().contains(k));
                }
            }
        }
    }
}

/// The total number of accepted samples across a sequence of
/// aggregates.
pub open spec fn rows_total(s: Seq<GraphCritData>) -> int
    decreases s.len(),
{
    if s.len() == 0 {
        0
    } else {
        rows_total(s.drop_last()) + s.last().row_count
    }
}

pub proof fn lemma_rows_total_nonneg(s: Seq<GraphCritData>)
    ensures
        rows_total(s) >= 0,
    decreases s.len(),
{
    if s.len() > 0 {
        lemma_rows_total_nonneg(s.drop_last());
    }
}

/// Whether some earlier sample holds the same mapping as `s`.
#[verifier::loop_isolation(false)]
fn contains_sample(visited: &Vec<NodeValueMap<u8>>, s: &NodeValueMap<u8>) -> (r: bool)
    requires
        s.wf(),
        forall|i: int| 0 <= i < visited@.len() ==> (#[trigger] visited@[i]).wf(),
    ensures
        r == exists|i: int| 0 <= i < visited@.len() && (#[trigger] visited@[i])@ == s@,
{
    let n = visited.len();
    let mut i: usize = 0;
    while i < n
        invariant
            i <= n,
            forall|j: int| 0 <= j < i ==> (#[trigger] visited@[j])@ != s@,
        decreases n - i,
    {
        if visited[i].same_entries(s) {
            return true;
        }
        i += 1;
    }
    false
}

/// Whether the sample treats `k` as visible: marked visible, or
/// absent from the sample altogether.
pub open spec fn sample_visible(vis: Map<u32, u8>, k: u32) -> bool {
    !vis.dom().contains(k) || vis[k] == VISIBLE_VAL
}

/// One accepted sample folded into an aggregate: one row, the end
/// node's value as the end sum, and, for each dynamic id, the node's
/// own value credited to `sum_end_on` when the sample treats it as
/// visible and to `sum_end_off` when it does not.
#[verifier::loop_isolation(false)]
pub fn single_sample_data(
    result: &NodeValueMap<u64>,
    visibility_state: &NodeValueMap<u8>,
    dynamic_ids: &IdSet,
    end_id: u32,
) -> (d: GraphCritData)
    requires
        result.wf(),
        visibility_state.wf(),
        dynamic_ids.wf(),
        result@.dom().contains(end_id),
        forall|k: u32| #[trigger] dynamic_ids@.contains(k) ==> result@.dom().contains(k),
    ensures
        d.wf(),
        d.row_count == 1,
        d.end_op_sum == result@[end_id],
        d@.nodes.dom() == dynamic_ids@,
        forall|k: u32|
            dynamic_ids@.contains(k) ==> #[trigger] d@.nodes[k] == (if sample_visible(
                visibility_state@,
                k,
            ) {
                (result@[k] as int, 0int)
            } else {
                (0int, result@[k] as int)
            }),
{
    proof {
        dynamic_ids.lemma_ids();
    }
    let end_val = result.get(end_id).unwrap();
    let mut node_data = NodeValueMap::<NodeCritData>::new();
    let nd = dynamic_ids.len();
    let mut t: usize = 0;
    while t < nd
        invariant
            t <= nd,
            nd == dynamic_ids.id_seq().len(),
            node_data.wf(),
            forall|k: u32|
                #[trigger] node_data@.dom().contains(k) <==> dynamic_ids.id_seq().take(
                    t as int,
                ).contains(k),
            forall|k: u32|
                #[trigger] node_data@.dom().contains(k) ==> node_view(node_data@[k]) == (
                if sample_visible(visibility_state@, k) {
                    (result@[k] as int, 0int)
                } else {
                    (0int, result@[k] as int)
                }),
        decreases nd - t,
    {
        let id = dynamic_ids.idx(t);
        let visible = match visibility_state.get(id) {
            None => true,
            Some(x) => x == VISIBLE_VAL,
        };
        proof {
            assert(dynamic_ids.id_seq().contains(dynamic_ids.id_seq()[t as int]));
            assert(dynamic_ids@.contains(id));
            assert(result@.dom().contains(id));
            assert(visible == sample_visible(visibility_state@, id));
        }
        let state_val = result.get(id).unwrap();
        let record = if visible {
            NodeCritData { sum_end_on: state_val, sum_end_off: 0 }
        } else {
            NodeCritData { sum_end_on: 0, sum_end_off: state_val }
        };
        let ghost prev = node_data@;
        node_data.insert(id, record);
        proof {
            let t1 = dynamic_ids.id_seq().take(t + 1);
            let t0 = dynamic_ids.id_seq().take(t as int);
            assert forall|k: u32| #[trigger] node_data@.dom().contains(k) implies t1.contains(
                k,
            ) by {
                if k == dynamic_ids.id_seq()[t as int] {
                    assert(t1[t as int] == k);
                } else {
                    let j = choose|j: int| 0 <= j < t0.len() && t0[j] == k;
                    assert(t1[j] == k);
                }
            }
            assert forall|k: u32| t1.contains(k) implies node_data@.dom().contains(k) by {
                let j = choose|j: int| 0 <= j < t1.len() && t1[j] == k;
                if j < t {
                    assert(t0[j] == k);
                }
            }
        }
        t += 1;
    }
    proof {
        assert(dynamic_ids.id_seq().take(nd as int) =~= dynamic_ids.id_seq());
        assert(node_data@.dom() =~= dynamic_ids@);
        assert(nodes_view(node_data@).dom() =~= dynamic_ids@);
    }
    GraphCritData { row_count: 1, end_op_sum: end_val, node_data }
}

/// The criticality analysis over a configured set of collaborators: a
/// graph with its adjacency index, the discovered start and end ids,
/// the dynamic (sampled) id set, a roll-up rule, a visibility
/// generator, a loop condition, and a worker count.
pub struct Criticality<G: VisGen, C: CritLoopCondition, R: RollUp> {
    pub threads: u8,
    pub graph: Graph,
    pub dynamic_ids: IdSet,
    pub vis_gen: G,
    pub loop_condition: C,
    pub roll_up_rule: R,
    pub l_map: LinkMap,
    pub start_id: u32,
    pub end_id: u32,
}

impl<G: VisGen, C: CritLoopCondition, R: RollUp> Criticality<G, C, R> {
    /// One worker's sampling loop: while the loop condition grants
    /// iterations, draw a visibility sample, discard it if it was
    /// already seen this run, otherwise propagate values along the
    /// traversal order and fold the end node's value and every dynamic
    /// node's value into the running aggregate.  The number of
    /// accepted samples never exceeds the loop condition's budget.
    pub fn calculate_data(
        graph: Graph,
        states_generator: G,
        loop_condition: C,
        roll_up_rule: &R,
        l_map: &LinkMap,
        path: &Vec<u32>,
        dynamic_ids: &IdSet,
        end_id: u32,
    ) -> (data: GraphCritData)
        requires
            l_map.wf(),
            dynamic_ids.wf(),
            states_generator.wf(),
            loop_condition.wf(),
            forall|i: int| 0 <= i < path@.len() ==> l_map@.dom().contains(#[trigger] path@[i]),
            path@.contains(end_id),
            forall|k: u32| #[trigger] dynamic_ids@.contains(k) ==> path@.contains(k),
            loop_condition.budget() * MAX_OPERABILITY <= u64::MAX,
        ensures
            data.wf(),
            data.row_count <= loop_condition.budget(),
            loop_condition.budget() > 0 ==> data.row_count >= 1,
            data@.nodes.dom() == dynamic_ids@,
            data.end_op_sum <= data.row_count * MAX_OPERABILITY,
            forall|k: u32|
                data@.nodes.dom().contains(k) ==> (#[trigger] data@.nodes[k]).0 + data@.nodes[k].1
                    <= data.row_count * MAX_OPERABILITY,
    {
        let mut states_generator = states_generator;
        let mut loop_condition = loop_condition;
        let ghost budget0 = loop_condition.budget();
        proof {
            dynamic_ids.lemma_ids();
            assert(budget0 <= budget0 * MAX_OPERABILITY) by (nonlinear_arith)
                requires
                    MAX_OPERABILITY >= 1,
                    budget0 >= 0,
            ;
        }
        let mut data = GraphCritData {
            row_count: 0,
            end_op_sum: 0,
            node_data: NodeValueMap::new(),
        };
        let nd = dynamic_ids.len();
        let mut i: usize = 0;
        #[verifier::loop_isolation(false)]
        while i < nd
            invariant
                i <= nd,
                nd == dynamic_ids.id_seq().len(),
                data.row_count == 0,
                data.end_op_sum == 0,
                data.node_data.wf(),
                forall|k: u32|
                    #[trigger] data.node_data@.dom().contains(k) <==> dynamic_ids.id_seq().take(
                        i as int,
                    ).contains(k),
                forall|k: u32|
                    #[trigger] data.node_data@.dom().contains(k) ==> data.node_data@[k]
                        == (NodeCritData { sum_end_on: 0, sum_end_off: 0 }),
            decreases nd - i,
        {
            let ghost prev = data.node_data@;
            data.node_data.insert(
                dynamic_ids.idx(i),
                NodeCritData { sum_end_on: 0, sum_end_off: 0 },
            );
            proof {
                let t1 = dynamic_ids.id_seq().take(i + 1);
                let t0 = dynamic_ids.id_seq().take(i as int);
                assert forall|k: u32| #[trigger] data.node_data@.dom().contains(k) implies
                    t1.contains(k) by {
                    if k == dynamic_ids.id_seq()[i as int] {
                        assert(t1[i as int] == k);
                    } else {
                        let j = choose|j: int| 0 <= j < t0.len() && t0[j] == k;
                        assert(t1[j] == k);
                    }
                }
                assert forall|k: u32| t1.contains(k) implies data.node_data@.dom().contains(k) by {
                    let j = choose|j: int| 0 <= j < t1.len() && t1[j] == k;
                    if j < i {
                        assert(t0[j] == k);
                    }
                }
            }
            i += 1;
        }
        proof {
            dynamic_ids.lemma_ids();
            assert(dynamic_ids.id_seq().take(nd as int) =~= dynamic_ids.id_seq());
            assert(data.node_data@.dom() =~= dynamic_ids@);
            assert(data@.nodes.dom() =~= dynamic_ids@);
        }
        let mut visited: Vec<NodeValueMap<u8>> = Vec::new();
        loop
            invariant
                l_map.wf(),
                dynamic_ids.wf(),
                nd == dynamic_ids.id_seq().len(),
                forall|p: int| 0 <= p < path@.len() ==> l_map@.dom().contains(#[trigger] path@[p]),
                path@.contains(end_id),
                forall|k: u32| #[trigger] dynamic_ids@.contains(k) ==> path@.contains(k),
                budget0 * MAX_OPERABILITY <= u64::MAX,
                budget0 <= u64::MAX,
                states_generator.wf(),
                loop_condition.wf(),
                data.wf(),
                data.row_count + loop_condition.budget() <= budget0,
                data.row_count == visited@.len(),
                loop_condition.budget() < budget0 ==> data.row_count >= 1,
                data@.nodes.dom() == dynamic_ids@,
                data.end_op_sum <= data.row_count * MAX_OPERABILITY,
                forall|k: u32|
                    data@.nodes.dom().contains(k) ==> (#[trigger] data@.nodes[k]).0
                        + data@.nodes[k].1 <= data.row_count * MAX_OPERABILITY,
                forall|v: int| 0 <= v < visited@.len() ==> (#[trigger] visited@[v]).wf(),
            ensures
                data.wf(),
                data.row_count <= budget0,
                loop_condition.budget() == 0,
                budget0 > 0 ==> data.row_count >= 1,
                data@.nodes.dom() == dynamic_ids@,
                data.end_op_sum <= data.row_count * MAX_OPERABILITY,
                forall|k: u32|
                    data@.nodes.dom().contains(k) ==> (#[trigger] data@.nodes[k]).0
                        + data@.nodes[k].1 <= data.row_count * MAX_OPERABILITY,
            decreases loop_condition.budget(),
        {
            let stop_now = loop_condition.stop();
            if stop_now {
                break;
            }
            let visibility_state = states_generator.next_states();
            if contains_sample(&visited, &visibility_state) {
                proof {
                    let v = choose|v: int|
                        0 <= v < visited@.len() && (#[trigger] visited@[v])@ == visibility_state@;
                    assert(visited@.len() >= 1);
                }
                continue;
            }
            let result = graph.roll_up_state(path, l_map, roll_up_rule, &visibility_state);
            proof {
                assert(result@.dom().contains(end_id));
            }
            let new_data = single_sample_data(&result, &visibility_state, dynamic_ids, end_id);
            proof {
                dynamic_ids.lemma_ids();
                assert(new_data@.nodes.dom() =~= dynamic_ids@);
                assert(data.row_count < budget0);
                lemma_mul_inequality(
                    (data.row_count + 1) as int,
                    budget0 as int,
                    MAX_OPERABILITY as int,
                );
                assert((data.row_count + 1) * MAX_OPERABILITY == data.row_count * MAX_OPERABILITY
                    + MAX_OPERABILITY) by (nonlinear_arith);
                assert(data.end_op_sum + new_data.end_op_sum <= u64::MAX);
                assert forall|k: u32| data@.nodes.dom().contains(k) implies (
                #[trigger] data@.nodes[k]).0 + new_data@.nodes[k].0 <= u64::MAX
                    && data@.nodes[k].1 + new_data@.nodes[k].1 <= u64::MAX by {
                    assert(dynamic_ids@.contains(k));
                    assert(path@.contains(k));
                    assert(result@.dom().contains(k));
                    assert(result@[k] <= MAX_OPERABILITY);
                    assert(new_data@.nodes[k].0 + new_data@.nodes[k].1 <= MAX_OPERABILITY);
                }
            }
            let ghost pre_add = data@;
            data.add(&new_data);
            proof {
                assert(data@.nodes.dom() =~= pre_add.nodes.dom());
                assert(data.end_op_sum <= data.row_count * MAX_OPERABILITY);
                assert forall|k: u32| data@.nodes.dom().contains(k) implies (
                #[trigger] data@.nodes[k]).0 + data@.nodes[k].1 <= data.row_count
                    * MAX_OPERABILITY by {
                    assert(data@.nodes[k] == merge_view(pre_add, new_data@).nodes[k]);
                    assert(dynamic_ids@.contains(k));
                    assert(path@.contains(k));
                    assert(result@.dom().contains(k));
                    assert(result@[k] <= MAX_OPERABILITY);
                    assert(new_data@.nodes[k].0 + new_data@.nodes[k].1 <= MAX_OPERABILITY);
                }
            }
            visited.push(visibility_state);
        }
        data
    }

    /// Runs the whole analysis sequentially: computes the traversal
    /// order once, partitions the loop condition and the visibility
    /// generator into one share per worker, runs each worker's
    /// sampling loop, and returns the workers' aggregates.  The total
    /// number of accepted samples across all workers never exceeds the
    /// analysis's whole iteration budget.
    #[verifier::loop_isolation(false)]
    pub fn analyze(self) -> (results: Vec<GraphCritData>)
        requires
            self.threads >= 1,
            self.l_map.wf(),
            self.dynamic_ids.wf(),
            self.vis_gen.wf(),
            self.loop_condition.wf(),
            lm_closed(self.l_map@),
            self.l_map@.dom().contains(self.start_id),
            reachable(self.l_map@, self.start_id, self.end_id),
            forall|k: u32|
                #[trigger] self.dynamic_ids@.contains(k) ==> reachable(
                    self.l_map@,
                    self.start_id,
                    k,
                ),
            self.loop_condition.budget() * MAX_OPERABILITY <= u64::MAX,
        ensures
            results@.len() == self.threads,
            rows_total(results@) <= self.loop_condition.budget(),
            self.loop_condition.budget() > 0 ==> rows_total(results@) >= 1,
            forall|i: int|
                0 <= i < results@.len() ==> (#[trigger] results@[i]).wf()
                    && results@[i]@.nodes.dom() == self.dynamic_ids@ && results@[i].end_op_sum
                    <= results@[i].row_count * MAX_OPERABILITY,
    {
        let path = Graph::get_bfs_path(&self.l_map, self.start_id);
        proof {
            assert forall|i: int| 0 <= i < path@.len() implies self.l_map@.dom().contains(
                #[trigger] path@[i],
            ) by {
                assert(path@.contains(path@[i]));
                let n = choose|n: nat| reaches(self.l_map@, self.start_id, path@[i], n);
                lemma_reachable_in_dom(self.l_map@, self.start_id, path@[i], n);
            }
            assert(path@.contains(self.end_id));
            assert forall|k: u32| #[trigger] self.dynamic_ids@.contains(k) implies path@.contains(
                k,
            ) by {}
        }
        let threads64 = self.threads as u64;
        let mut loop_conditions = self.loop_condition.split_to_threads(threads64);
        let mut vis_gens = self.vis_gen.split_to_threads(threads64);
        let mut results: Vec<GraphCritData> = Vec::new();
        let mut t: u8 = 0;
        while t < self.threads
            invariant
                t <= self.threads,
                results@.len() == t,
                loop_conditions@.len() == self.threads - t,
                vis_gens@.len() == self.threads - t,
                forall|j: int|
                    0 <= j < loop_conditions@.len() ==> (#[trigger] loop_conditions@[j]).wf(),
                forall|j: int| 0 <= j < vis_gens@.len() ==> (#[trigger] vis_gens@[j]).wf(),
                rows_total(results@) + nat_sum(
                    loop_conditions@.map_values(|c: C| c.budget()),
                ) <= self.loop_condition.budget(),
                self.loop_condition.budget() > 0 ==> rows_total(results@) >= 1 || nat_sum(
                    loop_conditions@.map_values(|c: C| c.budget()),
                ) > 0,
                forall|i: int|
                    0 <= i < results@.len() ==> (#[trigger] results@[i]).wf()
                        && results@[i]@.nodes.dom() == self.dynamic_ids@ && results@[i].end_op_sum
                        <= results@[i].row_count * MAX_OPERABILITY,
            decreases self.threads - t,
        {
            let ghost conds_before = loop_conditions@;
            let condition = match loop_conditions.pop() {
                Some(c) => c,
                None => unreached(),
            };
            let gen = match vis_gens.pop() {
                Some(g) => g,
                None => unreached(),
            };
            proof {
                let f = |c: C| c.budget();
                assert(conds_before.map_values(f).drop_last() =~= loop_conditions@.map_values(f));
                assert(conds_before.map_values(f).last() == condition.budget());
                lemma_rows_total_nonneg(results@);
                assert(condition.budget() <= self.loop_condition.budget());
                lemma_mul_inequality(
                    condition.budget() as int,
                    self.loop_condition.budget() as int,
                    MAX_OPERABILITY as int,
                );
            }
            let graph = self.graph.clone();
            let data = Self::calculate_data(
                graph,
                gen,
                condition,
                &self.roll_up_rule,
                &self.l_map,
                &path,
                &self.dynamic_ids,
                self.end_id,
            );
            let ghost results_before = results@;
            results.push(data);
            proof {
                assert(results@.drop_last() =~= results_before);
                assert(results@.last() == data);
                lemma_rows_total_nonneg(results_before);
                if condition.budget() > 0 {
                    assert(data.row_count >= 1);
                    assert(rows_total(results@) >= 1);
                }
            }
            t += 1;
        }
        results
    }
}

} // verus!
