//! The dependency network: nodes, directed edges, the derived
//! predecessor/successor index, traversal, and value propagation.

use vstd::prelude::*;

verus! {

use crate::errors::network::EndNodeError;
use crate::errors::network::NoEndConnectionError;
use crate::errors::network::StartNodeError;
use crate::node_map::IdSet;
use crate::node_map::NodeValueMap;
use crate::node_map::distinct_keys;
use crate::node_map::lemma_map_of_char;
use crate::node_map::lemma_map_of_push;
use crate::node_map::lemma_map_of_remove;
use crate::node_map::lemma_map_of_update;
use crate::node_map::map_of;
use crate::roll_up::MAX_OPERABILITY;
use crate::roll_up::RollUp;

/// A component of the network; identity is the id, the name is
/// cosmetic.
#[derive(Debug, Clone, PartialEq, Eq, Hash)]
pub struct Node {
    pub name: String,
    pub id: u32,
}

/// A directed relation: the child `from` feeds into the parent `to`.
#[derive(Debug, Clone, Copy, PartialEq, Eq, Structural, Hash)]
pub struct Edge {
    pub from: u32,
    pub to: u32,
}

/// The key/name pairs the node storage describes.
pub open spec fn node_pairs_of(s: Seq<Node>) -> Seq<(u32, Seq<char>)> {
    s.map(|i: int, n: Node| (n.id, n.name@))
}

/// Owns the nodes, the deduplicated directed edges, and the set of
/// static node ids (ids excluded from sampling).
#[derive(Debug, Clone)]
pub struct Graph {
    nodes: Vec<Node>,
    edges: Vec<Edge>,
    static_nodes: IdSet,
}

/// One entry of a [`LinkMap`]: a node id with its direct predecessor
/// and successor ids.
#[derive(Debug, Clone)]
pub struct LinkEntry {
    pub id: u32,
    pub preds: Vec<u32>,
    pub succs: Vec<u32>,
}

/// The entry/value pairs a link entry sequence describes.
pub open spec fn link_pairs_of(s: Seq<LinkEntry>) -> Seq<(u32, (Seq<u32>, Seq<u32>))> {
    s.map(|i: int, e: LinkEntry| (e.id, (e.preds@, e.succs@)))
}

/// The derived adjacency index: node id to direct predecessor ids and
/// direct successor ids.
#[derive(Debug, Clone)]
pub struct LinkMap {
    entries: Vec<LinkEntry>,
}

impl View for LinkMap {
    type V = Map<u32, (Seq<u32>, Seq<u32>)>;

    closed spec fn view(&self) -> Map<u32, (Seq<u32>, Seq<u32>)> {
        map_of(link_pairs_of(self.entries@))
    }
}

impl LinkMap {
    pub closed spec fn wf(self) -> bool {
        distinct_keys(link_pairs_of(self.entries@))
    }

    /// The entry sequence, for iteration.
    pub closed spec fn eseq(self) -> Seq<LinkEntry> {
        self.entries@
    }

    /// How the entry sequence and the mapping relate.
    pub proof fn lemma_entries(&self)
        requires
            self.wf(),
        ensures
            forall|k: u32|
                self@.dom().contains(k) <==> exists|i: int|
                    0 <= i < self.eseq().len() && (#[trigger] self.eseq()[i]).id == k,
            forall|i: int, j: int|
                0 <= i < j < self.eseq().len() ==> (#[trigger] self.eseq()[i]).id
                    != (#[trigger] self.eseq()[j]).id,
            forall|i: int|
                0 <= i < self.eseq().len() ==> self@.dom().contains(
                    (#[trigger] self.eseq()[i]).id,
                ) && self@[self.eseq()[i].id].0 == self.eseq()[i].preds@
                    && self@[self.eseq()[i].id].1 == self.eseq()[i].succs@,
            self@.dom().finite(),
    {
        let pairs = link_pairs_of(self.entries@);
        lemma_map_of_char(pairs);
        assert(forall|i: int|
            0 <= i < self.eseq().len() ==> (#[trigger] pairs[i]).0 == self.eseq()[i].id);
        assert forall|k: u32| self@.dom().contains(k) implies exists|i: int|
            0 <= i < self.eseq().len() && (#[trigger] self.eseq()[i]).id == k by {
            let i = choose|i: int| 0 <= i < pairs.len() && (#[trigger] pairs[i]).0 == k;
            assert(self.eseq()[i].id == k);
        }
        assert forall|k: u32|
            (exists|i: int|
                0 <= i < self.eseq().len() && (#[trigger] self.eseq()[i]).id
                    == k) implies self@.dom().contains(k) by {
            let i = choose|i: int| 0 <= i < self.eseq().len() && (#[trigger] self.eseq()[i]).id == k;
            assert(pairs[i].0 == k);
        }
        assert forall|i: int, j: int| 0 <= i < j < self.eseq().len() implies (
        #[trigger] self.eseq()[i]).id != (#[trigger] self.eseq()[j]).id by {
            assert(pairs[i].0 != pairs[j].0);
        }
        assert forall|i: int| 0 <= i < self.eseq().len() implies self@.dom().contains(
            (#[trigger] self.eseq()[i]).id,
        ) && self@[self.eseq()[i].id].0 == self.eseq()[i].preds@ && self@[self.eseq()[i].id].1
            == self.eseq()[i].succs@ by {
            assert(pairs[i].0 == self.eseq()[i].id);
            assert(self@[pairs[i].0] == pairs[i].1);
        }
    }

    pub fn entry_count(&self) -> (n: usize)
        ensures
            n == self.eseq().len(),
    {
        self.entries.len()
    }

    /// The entry for `id`, if any.
    #[verifier::loop_isolation(false)]
    pub fn get(&self, id: u32) -> (r: Option<&LinkEntry>)
        requires
            self.wf(),
        ensures
            match r {
                Some(e) => self@.dom().contains(id) && e.id == id && self@[id].0 == e.preds@
                    && self@[id].1 == e.succs@,
                None => !self@.dom().contains(id),
            },
    {
        proof {
            self.lemma_entries();
        }
        let n = self.entries.len();
        let mut i: usize = 0;
        while i < n
            invariant
                self.wf(),
                n == self.eseq().len(),
                i <= n,
                forall|j: int| 0 <= j < i ==> (#[trigger] self.eseq()[j]).id != id,
            decreases n - i,
        {
            proof {
                self.lemma_entries();
            }
            if self.entries[i].id == id {
                return Some(&self.entries[i]);
            }
            i += 1;
        }
        proof {
            self.lemma_entries();
        }
        None
    }
}

/// The predecessor ids `preds_seq(edges, id)`: the sources of the
/// edges that point at `id`, in edge-storage order.
pub open spec fn preds_seq(edges: Seq<Edge>, id: u32) -> Seq<u32>
    decreases edges.len(),
{
    if edges.len() == 0 {
        Seq::empty()
    } else {
        let rest = preds_seq(edges.drop_last(), id);
        if edges.last().to == id {
            rest.push(edges.last().from)
        } else {
            rest
        }
    }
}

/// The successor ids `succs_seq(edges, id)`: the targets of the edges
/// that leave `id`, in edge-storage order.
pub open spec fn succs_seq(edges: Seq<Edge>, id: u32) -> Seq<u32>
    decreases edges.len(),
{
    if edges.len() == 0 {
        Seq::empty()
    } else {
        let rest = succs_seq(edges.drop_last(), id);
        if edges.last().from == id {
            rest.push(edges.last().to)
        } else {
            rest
        }
    }
}

/// Whether `id` is an endpoint of some edge.
pub open spec fn is_endpoint(edges: Seq<Edge>, id: u32) -> bool {
    exists|i: int|
        0 <= i < edges.len() && ((#[trigger] edges[i]).from == id || edges[i].to == id)
}

/// The predecessor list holds exactly the sources of the edges that
/// point at `id`.
pub proof fn lemma_preds_seq_membership(edges: Seq<Edge>, id: u32)
    ensures
        forall|p: u32|
            #[trigger] preds_seq(edges, id).contains(p) <==> edges.contains(
                Edge { from: p, to: id },
            ),
    decreases edges.len(),
{
    if edges.len() > 0 {
        let dl = edges.drop_last();
        lemma_preds_seq_membership(dl, id);
        assert(forall|i: int| 0 <= i < dl.len() ==> dl[i] == edges[i]);
        let rest = preds_seq(dl, id);
        let whole = preds_seq(edges, id);
        assert forall|p: u32| #[trigger] whole.contains(p) implies edges.contains(
            Edge { from: p, to: id },
        ) by {
            let l = choose|l: int| 0 <= l < whole.len() && whole[l] == p;
            if edges.last().to == id && l == rest.len() {
                assert(edges[edges.len() - 1] == (Edge { from: p, to: id }));
            } else {
                assert(rest[l] == p);
                assert(rest.contains(p));
                let m = choose|m: int| 0 <= m < dl.len() && dl[m] == (Edge { from: p, to: id });
                assert(edges[m] == (Edge { from: p, to: id }));
            }
        }
        assert forall|p: u32| edges.contains(Edge { from: p, to: id }) implies
            #[trigger] whole.contains(p) by {
            let m = choose|m: int| 0 <= m < edges.len() && edges[m] == (Edge { from: p, to: id });
            if m < edges.len() - 1 {
                assert(dl[m] == (Edge { from: p, to: id }));
                assert(dl.contains(Edge { from: p, to: id }));
                assert(rest.contains(p));
                let l = choose|l: int| 0 <= l < rest.len() && rest[l] == p;
                assert(whole[l] == p);
            } else {
                assert(edges.last().to == id);
                assert(whole[rest.len() as int] == p);
            }
        }
    }
}

/// The successor list holds exactly the targets of the edges that
/// leave `id`.
pub proof fn lemma_succs_seq_membership(edges: Seq<Edge>, id: u32)
    ensures
        forall|t: u32|
            #[trigger] succs_seq(edges, id).contains(t) <==> edges.contains(
                Edge { from: id, to: t },
            ),
    decreases edges.len(),
{
    if edges.len() > 0 {
        let dl = edges.drop_last();
        lemma_succs_seq_membership(dl, id);
        assert(forall|i: int| 0 <= i < dl.len() ==> dl[i] == edges[i]);
        let rest = succs_seq(dl, id);
        let whole = succs_seq(edges, id);
        assert forall|t: u32| #[trigger] whole.contains(t) implies edges.contains(
            Edge { from: id, to: t },
        ) by {
            let l = choose|l: int| 0 <= l < whole.len() && whole[l] == t;
            if edges.last().from == id && l == rest.len() {
                assert(edges[edges.len() - 1] == (Edge { from: id, to: t }));
            } else {
                assert(rest[l] == t);
                assert(rest.contains(t));
                let m = choose|m: int| 0 <= m < dl.len() && dl[m] == (Edge { from: id, to: t });
                assert(edges[m] == (Edge { from: id, to: t }));
            }
        }
        assert forall|t: u32| edges.contains(Edge { from: id, to: t }) implies
            #[trigger] whole.contains(t) by {
            let m = choose|m: int| 0 <= m < edges.len() && edges[m] == (Edge { from: id, to: t });
            if m < edges.len() - 1 {
                assert(dl[m] == (Edge { from: id, to: t }));
                assert(dl.contains(Edge { from: id, to: t }));
                assert(rest.contains(t));
                let l = choose|l: int| 0 <= l < rest.len() && rest[l] == t;
                assert(whole[l] == t);
            } else {
                assert(edges.last().from == id);
                assert(whole[rest.len() as int] == t);
            }
        }
    }
}

/// With deduplicated edges the predecessor list is duplicate-free, so
/// its length is the node's in-degree.
pub proof fn lemma_preds_seq_no_duplicates(edges: Seq<Edge>, id: u32)
    requires
        edges.no_duplicates(),
    ensures
        preds_seq(edges, id).no_duplicates(),
    decreases edges.len(),
{
    if edges.len() > 0 {
        let dl = edges.drop_last();
        assert(forall|i: int| 0 <= i < dl.len() ==> dl[i] == edges[i]);
        assert(dl.no_duplicates());
        lemma_preds_seq_no_duplicates(dl, id);
        if edges.last().to == id {
            lemma_preds_seq_membership(dl, id);
            let rest = preds_seq(dl, id);
            assert(!rest.contains(edges.last().from)) by {
                if rest.contains(edges.last().from) {
                    let e = Edge { from: edges.last().from, to: id };
                    assert(dl.contains(e));
                    let m = choose|m: int| 0 <= m < dl.len() && dl[m] == e;
                    assert(edges[m] == edges[edges.len() - 1]);
                    assert(false);
                }
            }
            assert(forall|l: int| 0 <= l < rest.len() ==> rest[l] != edges.last().from);
        }
    }
}

/// With deduplicated edges the successor list is duplicate-free, so
/// its length is the node's out-degree.
pub proof fn lemma_succs_seq_no_duplicates(edges: Seq<Edge>, id: u32)
    requires
        edges.no_duplicates(),
    ensures
        succs_seq(edges, id).no_duplicates(),
    decreases edges.len(),
{
    if edges.len() > 0 {
        let dl = edges.drop_last();
        assert(forall|i: int| 0 <= i < dl.len() ==> dl[i] == edges[i]);
        assert(dl.no_duplicates());
        lemma_succs_seq_no_duplicates(dl, id);
        if edges.last().from == id {
            lemma_succs_seq_membership(dl, id);
            let rest = succs_seq(dl, id);
            assert(!rest.contains(edges.last().to)) by {
                if rest.contains(edges.last().to) {
                    let e = Edge { from: id, to: edges.last().to };
                    assert(dl.contains(e));
                    let m = choose|m: int| 0 <= m < dl.len() && dl[m] == e;
                    assert(edges[m] == edges[edges.len() - 1]);
                    assert(false);
                }
            }
            assert(forall|l: int| 0 <= l < rest.len() ==> rest[l] != edges.last().to);
        }
    }
}

/// The successor ids of `id` in the link map; absent ids have none.
pub open spec fn succs_of(lm: Map<u32, (Seq<u32>, Seq<u32>)>, id: u32) -> Seq<u32> {
    if lm.dom().contains(id) {
        lm[id].1
    } else {
        Seq::empty()
    }
}

/// `x` can be reached from `start` along successor links in at most
/// `n` steps.
pub open spec fn reaches(lm: Map<u32, (Seq<u32>, Seq<u32>)>, start: u32, x: u32, n: nat) -> bool
    decreases n,
{
    if x == start {
        true
    } else if n == 0 {
        false
    } else {
        exists|y: u32| reaches(lm, start, y, (n - 1) as nat) && succs_of(lm, y).contains(x)
    }
}

/// `x` lies on some successor chain that begins at `start`.
pub open spec fn reachable(lm: Map<u32, (Seq<u32>, Seq<u32>)>, start: u32, x: u32) -> bool {
    exists|n: nat| reaches(lm, start, x, n)
}

/// Every successor id the link map mentions is itself in the map.
pub open spec fn lm_closed(lm: Map<u32, (Seq<u32>, Seq<u32>)>) -> bool {
    forall|a: u32, j: int|
        #![trigger lm[a].1[j]]
        lm.dom().contains(a) && 0 <= j < lm[a].1.len() ==> lm.dom().contains(lm[a].1[j])
}

pub proof fn lemma_reachable_step(
    lm: Map<u32, (Seq<u32>, Seq<u32>)>,
    start: u32,
    y: u32,
    x: u32,
)
    requires
        reachable(lm, start, y),
        succs_of(lm, y).contains(x),
    ensures
        reachable(lm, start, x),
{
    let n = choose|n: nat| reaches(lm, start, y, n);
    assert(reaches(lm, start, x, n + 1));
}

/// Everything reachable from `start` lies in any set of ids that holds
/// `start` and is closed under successors.
pub proof fn lemma_reaches_closed(
    lm: Map<u32, (Seq<u32>, Seq<u32>)>,
    start: u32,
    q: Seq<u32>,
    x: u32,
    n: nat,
)
    requires
        q.contains(start),
        forall|a: u32, s: u32|
            #![trigger q.contains(a), succs_of(lm, a).contains(s)]
            q.contains(a) && succs_of(lm, a).contains(s) ==> q.contains(s),
        reaches(lm, start, x, n),
    ensures
        q.contains(x),
    decreases n,
{
    if x != start {
        let y = choose|y: u32| reaches(lm, start, y, (n - 1) as nat) && succs_of(lm, y).contains(x);
        lemma_reaches_closed(lm, start, q, y, (n - 1) as nat);
        assert(q.contains(y) && succs_of(lm, y).contains(x));
    }
}

/// In a closed link map, everything reachable from a mapped start id
/// is itself mapped.
pub proof fn lemma_reachable_in_dom(
    lm: Map<u32, (Seq<u32>, Seq<u32>)>,
    start: u32,
    x: u32,
    n: nat,
)
    requires
        lm_closed(lm),
        lm.dom().contains(start),
        reaches(lm, start, x, n),
    ensures
        lm.dom().contains(x),
    decreases n,
{
    if x != start {
        let y = choose|y: u32| reaches(lm, start, y, (n - 1) as nat) && succs_of(lm, y).contains(x);
        lemma_reachable_in_dom(lm, start, y, (n - 1) as nat);
        let j = choose|j: int| 0 <= j < succs_of(lm, y).len() && succs_of(lm, y)[j] == x;
        assert(lm[y].1[j] == x);
    }
}

/// The value state after propagating along `path`: each node in turn
/// is bound to its rolled-up value, computed from the values bound so
/// far, its predecessors in the link map, and the visibility sample.
pub open spec fn roll_up_spec<R: RollUp>(
    rule: &R,
    path: Seq<u32>,
    lm: Map<u32, (Seq<u32>, Seq<u32>)>,
    vis: Map<u32, u8>,
) -> Map<u32, u64>
    decreases path.len(),
{
    if path.len() == 0 {
        Map::empty()
    } else {
        let prev = roll_up_spec(rule, path.drop_last(), lm, vis);
        let id = path.last();
        prev.insert(id, crate::roll_up::get_value_spec(rule, id, lm[id].0, vis, prev))
    }
}

/// All successor ids that any entry mentions.
pub open spec fn succ_members(entries: Seq<LinkEntry>) -> Set<u32>
    decreases entries.len(),
{
    if entries.len() == 0 {
        Set::empty()
    } else {
        succ_members(entries.drop_last()).union(entries.last().succs@.to_set())
    }
}

pub proof fn lemma_succ_members(entries: Seq<LinkEntry>)
    ensures
        succ_members(entries).finite(),
        forall|i: int, j: int|
            #![trigger entries[i].succs@[j]]
            0 <= i < entries.len() && 0 <= j < entries[i].succs@.len() ==> succ_members(
                entries,
            ).contains(entries[i].succs@[j]),
    decreases entries.len(),
{
    broadcast use vstd::seq_lib::seq_to_set_is_finite;

    if entries.len() > 0 {
        let dl = entries.drop_last();
        lemma_succ_members(dl);
        assert(forall|i: int| 0 <= i < dl.len() ==> dl[i] == entries[i]);
        assert forall|i: int, j: int|
            #![trigger entries[i].succs@[j]]
            0 <= i < entries.len() && 0 <= j < entries[i].succs@.len() implies succ_members(
            entries,
        ).contains(entries[i].succs@[j]) by {
            if i < entries.len() - 1 {
                assert(dl[i].succs@[j] == entries[i].succs@[j]);
                assert(succ_members(dl).contains(entries[i].succs@[j]));
            } else {
                assert(entries.last().succs@.contains(entries[i].succs@[j]));
                assert(entries.last().succs@.to_set().contains(entries[i].succs@[j]));
            }
        }
    }
}

impl Graph {
    /// The mapping from node id to node name.
    pub closed spec fn nodes_view(self) -> Map<u32, Seq<char>> {
        map_of(node_pairs_of(self.nodes@))
    }

    /// The node entries in storage order.
    pub closed spec fn node_pairs(self) -> Seq<(u32, Seq<char>)> {
        node_pairs_of(self.nodes@)
    }

    /// The edges in storage order.
    pub closed spec fn edges_seq(self) -> Seq<Edge> {
        self.edges@
    }

    /// The set of edges.
    pub open spec fn edges_view(self) -> Set<Edge> {
        self.edges_seq().to_set()
    }

    /// The set of static node ids.
    pub closed spec fn static_view(self) -> Set<u32> {
        self.static_nodes@
    }

    /// Node ids are unique and edges are deduplicated.
    pub closed spec fn wf(self) -> bool {
        distinct_keys(node_pairs_of(self.nodes@)) && self.edges@.no_duplicates()
            && self.static_nodes.wf()
    }

    /// What well-formedness gives a caller: node ids are pairwise
    /// distinct, the stored edges are deduplicated, and therefore the
    /// predecessor and successor lists derived from them are
    /// duplicate-free — their lengths are the nodes' in- and
    /// out-degrees.
    pub proof fn lemma_wf(&self)
        requires
            self.wf(),
        ensures
            self.edges_seq().no_duplicates(),
            forall|i: int, j: int|
                0 <= i < j < self.node_pairs().len() ==> (#[trigger] self.node_pairs()[i]).0 != (
                #[trigger] self.node_pairs()[j]).0,
            forall|k: u32| #[trigger] preds_seq(self.edges_seq(), k).no_duplicates(),
            forall|k: u32| #[trigger] succs_seq(self.edges_seq(), k).no_duplicates(),
    {
        assert forall|k: u32| #[trigger] preds_seq(self.edges_seq(), k).no_duplicates() by {
            lemma_preds_seq_no_duplicates(self.edges_seq(), k);
        }
        assert forall|k: u32| #[trigger] succs_seq(self.edges_seq(), k).no_duplicates() by {
            lemma_succs_seq_no_duplicates(self.edges_seq(), k);
        }
    }

    pub fn new() -> (g: Graph)
        ensures
            g.wf(),
            g.nodes_view() == Map::<u32, Seq<char>>::empty(),
            g.node_pairs() == Seq::<(u32, Seq<char>)>::empty(),
            g.edges_seq() == Seq::<Edge>::empty(),
            g.static_view() == Set::<u32>::empty(),
    {
        let g = Graph { nodes: Vec::new(), edges: Vec::new(), static_nodes: IdSet::new() };
        proof {
            assert(node_pairs_of(g.nodes@) =~= Seq::<(u32, Seq<char>)>::empty());
        }
        g
    }

    /// Inserts a node; an existing node with the same id is replaced
    /// and returned.
    #[verifier::loop_isolation(false)]
    pub fn add_node(&mut self, name: String, id: u32) -> (r: Option<Node>)
        requires
            old(self).wf(),
        ensures
            final(self).wf(),
            final(self).nodes_view() == old(self).nodes_view().insert(id, name@),
            final(self).edges_seq() == old(self).edges_seq(),
            final(self).static_view() == old(self).static_view(),
            match r {
                Some(n) => old(self).nodes_view().dom().contains(id) && n.id == id && n.name@
                    == old(self).nodes_view()[id],
                None => !old(self).nodes_view().dom().contains(id),
            },
            !old(self).nodes_view().dom().contains(id) ==> final(self).node_pairs() == old(
                self,
            ).node_pairs().push((id, name@)),
    {
        proof {
            lemma_map_of_char(node_pairs_of(self.nodes@));
        }
        let ghost olds = self.nodes@;
        let n = self.nodes.len();
        let mut i: usize = 0;
        while i < n
            invariant
                self == old(self),
                n == self.nodes@.len(),
                i <= n,
                forall|j: int| 0 <= j < i ==> (#[trigger] self.nodes@[j]).id != id,
            decreases n - i,
        {
            if self.nodes[i].id == id {
                let old_node = self.nodes.remove(i);
                self.nodes.insert(i, Node { name, id });
                proof {
                    assert(self.nodes@ =~= olds.update(i as int, Node { name: self.nodes@[i as int].name, id }));
                    let pairs = node_pairs_of(olds);
                    let newpairs = node_pairs_of(self.nodes@);
                    assert(newpairs =~= pairs.update(i as int, (id, newpairs[i as int].1)));
                    lemma_map_of_update(pairs, i as int, newpairs[i as int].1);
                    lemma_map_of_char(pairs);
                }
                return Some(old_node);
            }
            i += 1;
        }
        self.nodes.push(Node { name, id });
        proof {
            let pairs = node_pairs_of(olds);
            let newpairs = node_pairs_of(self.nodes@);
            assert(forall|j: int| 0 <= j < olds.len() ==> (#[trigger] pairs[j]).0 != id);
            assert(newpairs =~= pairs.push((id, newpairs[olds.len() as int].1)));
            lemma_map_of_push(pairs, id, newpairs[olds.len() as int].1);
            lemma_map_of_char(pairs);
        }
        None
    }

    /// The node with this id, if any.
    #[verifier::loop_isolation(false)]
    pub fn get_node(&self, id: &u32) -> (r: Option<&Node>)
        requires
            self.wf(),
        ensures
            match r {
                Some(n) => self.nodes_view().dom().contains(*id) && n.id == *id && n.name@
                    == self.nodes_view()[*id],
                None => !self.nodes_view().dom().contains(*id),
            },
    {
        proof {
            lemma_map_of_char(node_pairs_of(self.nodes@));
        }
        let n = self.nodes.len();
        let mut i: usize = 0;
        while i < n
            invariant
                self.wf(),
                n == self.nodes@.len(),
                i <= n,
                forall|j: int| 0 <= j < i ==> (#[trigger] self.nodes@[j]).id != *id,
            decreases n - i,
        {
            proof {
                lemma_map_of_char(node_pairs_of(self.nodes@));
            }
            if self.nodes[i].id == *id {
                proof {
                    assert(node_pairs_of(self.nodes@)[i as int].0 == *id);
                    assert(self.nodes_view()[*id] == node_pairs_of(self.nodes@)[i as int].1);
                }
                return Some(&self.nodes[i]);
            }
            i += 1;
        }
        proof {
            lemma_map_of_char(node_pairs_of(self.nodes@));
        }
        None
    }

    /// Removes and returns the node with this id, if any.
    #[verifier::loop_isolation(false)]
    pub fn remove_node(&mut self, id: &u32) -> (r: Option<Node>)
        requires
            old(self).wf(),
        ensures
            final(self).wf(),
            final(self).nodes_view() == old(self).nodes_view().remove(*id),
            final(self).edges_seq() == old(self).edges_seq(),
            final(self).static_view() == old(self).static_view(),
            match r {
                Some(n) => old(self).nodes_view().dom().contains(*id) && n.id == *id && n.name@
                    == old(self).nodes_view()[*id],
                None => !old(self).nodes_view().dom().contains(*id),
            },
    {
        proof {
            lemma_map_of_char(node_pairs_of(self.nodes@));
        }
        let ghost olds = self.nodes@;
        let n = self.nodes.len();
        let mut i: usize = 0;
        while i < n
            invariant
                self == old(self),
                n == self.nodes@.len(),
                i <= n,
                forall|j: int| 0 <= j < i ==> (#[trigger] self.nodes@[j]).id != *id,
            decreases n - i,
        {
            if self.nodes[i].id == *id {
                let node = self.nodes.remove(i);
                proof {
                    let pairs = node_pairs_of(olds);
                    let newpairs = node_pairs_of(self.nodes@);
                    assert(newpairs =~= pairs.remove(i as int));
                    lemma_map_of_remove(pairs, i as int);
                    lemma_map_of_char(pairs);
                }
                return Some(node);
            }
            i += 1;
        }
        proof {
            lemma_map_of_char(node_pairs_of(self.nodes@));
            assert(self.nodes_view() =~= old(self).nodes_view().remove(*id));
        }
        None
    }

    /// The set of all node ids.
    #[verifier::loop_isolation(false)]
    pub fn get_node_ids(&self) -> (ids: IdSet)
        requires
            self.wf(),
        ensures
            ids.wf(),
            forall|k: u32| ids@.contains(k) <==> self.nodes_view().dom().contains(k),
    {
        let mut ids = IdSet::new();
        let n = self.nodes.len();
        let mut i: usize = 0;
        while i < n
            invariant
                self.wf(),
                n == self.nodes@.len(),
                i <= n,
                ids.wf(),
                forall|k: u32|
                    ids@.contains(k) <==> exists|j: int|
                        0 <= j < i && (#[trigger] self.nodes@[j]).id == k,
            decreases n - i,
        {
            ids.insert(self.nodes[i].id);
            proof {
                assert forall|k: u32| ids@.contains(k) implies exists|j: int|
                    0 <= j < i + 1 && (#[trigger] self.nodes@[j]).id == k by {
                    if k == self.nodes@[i as int].id {
                        assert(self.nodes@[i as int].id == k);
                    } else {
                        let j = choose|j: int| 0 <= j < i && (#[trigger] self.nodes@[j]).id == k;
                        assert(self.nodes@[j].id == k);
                    }
                }
            }
            i += 1;
        }
        proof {
            lemma_map_of_char(node_pairs_of(self.nodes@));
            assert forall|k: u32| ids@.contains(k) implies self.nodes_view().dom().contains(k) by {
                let j = choose|j: int| 0 <= j < n && (#[trigger] self.nodes@[j]).id == k;
                assert(node_pairs_of(self.nodes@)[j].0 == k);
            }
            assert forall|k: u32| self.nodes_view().dom().contains(k) implies ids@.contains(k) by {
                let j = choose|j: int|
                    0 <= j < n && (#[trigger] node_pairs_of(self.nodes@)[j]).0 == k;
                assert(self.nodes@[j].id == k);
            }
        }
        ids
    }

    /// Adds an edge; returns whether it was not present yet.
    #[verifier::loop_isolation(false)]
    pub fn add_edge(&mut self, from: u32, to: u32) -> (r: bool)
        requires
            old(self).wf(),
        ensures
            final(self).wf(),
            final(self).nodes_view() == old(self).nodes_view(),
            final(self).node_pairs() == old(self).node_pairs(),
            final(self).static_view() == old(self).static_view(),
            final(self).edges_view() == old(self).edges_view().insert(Edge { from, to }),
            r == !old(self).edges_view().contains(Edge { from, to }),
            final(self).edges_seq() == if old(self).edges_view().contains(Edge { from, to }) {
                old(self).edges_seq()
            } else {
                old(self).edges_seq().push(Edge { from, to })
            },
    {
        let edge = Edge { from, to };
        let n = self.edges.len();
        let mut i: usize = 0;
        while i < n
            invariant
                self == old(self),
                n == self.edges@.len(),
                i <= n,
                forall|j: int| 0 <= j < i ==> self.edges@[j] != edge,
            decreases n - i,
        {
            if self.edges[i].from == from && self.edges[i].to == to {
                proof {
                    assert(self.edges@[i as int] == edge);
                    assert(self.edges@.contains(edge));
                    assert(self.edges_view() =~= old(self).edges_view().insert(edge));
                }
                return false;
            }
            i += 1;
        }
        proof {
            assert(!self.edges@.contains(edge));
        }
        self.edges.push(edge);
        proof {
            let olds = old(self).edges@;
            assert(forall|j: int| 0 <= j < olds.len() ==> self.edges@[j] == olds[j]);
            assert(self.edges@[olds.len() as int] == edge);
            assert(self.edges_view() =~= old(self).edges_view().insert(edge)) by {
                assert forall|x: Edge| self.edges@.contains(x) implies old(self).edges_view().insert(
                    edge,
                ).contains(x) by {
                    let j = choose|j: int| 0 <= j < self.edges@.len() && self.edges@[j] == x;
                    if j < olds.len() {
                        assert(olds[j] == x);
                    }
                }
                assert forall|x: Edge| old(self).edges_view().insert(edge).contains(x) implies self.edges@.contains(
                    x,
                ) by {
                    if x == edge {
                        assert(self.edges@[olds.len() as int] == x);
                    } else {
                        let j = choose|j: int| 0 <= j < olds.len() && olds[j] == x;
                        assert(self.edges@[j] == x);
                    }
                }
            }
        }
        true
    }

    /// The stored edge equal to `(from, to)`, if any.
    #[verifier::loop_isolation(false)]
    pub fn get_edge(&self, from: u32, to: u32) -> (r: Option<&Edge>)
        requires
            self.wf(),
        ensures
            match r {
                Some(e) => self.edges_view().contains(Edge { from, to }) && e.from == from && e.to
                    == to,
                None => !self.edges_view().contains(Edge { from, to }),
            },
    {
        let edge = Edge { from, to };
        let n = self.edges.len();
        let mut i: usize = 0;
        while i < n
            invariant
                self.wf(),
                n == self.edges@.len(),
                i <= n,
                forall|j: int| 0 <= j < i ==> self.edges@[j] != edge,
            decreases n - i,
        {
            if self.edges[i].from == from && self.edges[i].to == to {
                proof {
                    assert(self.edges@[i as int] == edge);
                }
                return Some(&self.edges[i]);
            }
            i += 1;
        }
        proof {
            assert(!self.edges@.contains(edge));
        }
        None
    }

    /// Removes the edge `(from, to)`; returns whether it was present.
    #[verifier::loop_isolation(false)]
    pub fn remove_edge(&mut self, from: u32, to: u32) -> (r: bool)
        requires
            old(self).wf(),
        ensures
            final(self).wf(),
            final(self).nodes_view() == old(self).nodes_view(),
            final(self).node_pairs() == old(self).node_pairs(),
            final(self).static_view() == old(self).static_view(),
            final(self).edges_view() == old(self).edges_view().remove(Edge { from, to }),
            r == old(self).edges_view().contains(Edge { from, to }),
    {
        let edge = Edge { from, to };
        let ghost olds = self.edges@;
        let n = self.edges.len();
        let mut i: usize = 0;
        while i < n
            invariant
                self == old(self),
                n == self.edges@.len(),
                i <= n,
                forall|j: int| 0 <= j < i ==> self.edges@[j] != edge,
            decreases n - i,
        {
            if self.edges[i].from == from && self.edges[i].to == to {
                proof {
                    assert(self.edges@[i as int] == edge);
                }
                self.edges.remove(i);
                proof {
                    assert(forall|j: int| 0 <= j < i ==> self.edges@[j] == olds[j]);
                    assert(forall|j: int|
                        i <= j < self.edges@.len() ==> self.edges@[j] == olds[j + 1]);
                    assert(self.edges@.no_duplicates());
                    assert(self.edges_view() =~= old(self).edges_view().remove(edge)) by {
                        assert forall|x: Edge| self.edges@.contains(x) implies old(
                            self,
                        ).edges_view().remove(edge).contains(x) by {
                            let j = choose|j: int|
                                0 <= j < self.edges@.len() && self.edges@[j] == x;
                            if j < i {
                                assert(olds[j] == x);
                                assert(x != edge);
                            } else {
                                assert(olds[j + 1] == x);
                                assert(x != edge);
                            }
                        }
                        assert forall|x: Edge| old(self).edges_view().remove(edge).contains(
                            x,
                        ) implies self.edges@.contains(x) by {
                            let j = choose|j: int| 0 <= j < olds.len() && olds[j] == x;
                            if j < i {
                                assert(self.edges@[j] == x);
                            } else {
                                assert(j != i);
                                assert(self.edges@[j - 1] == x);
                            }
                        }
                    }
                }
                return true;
            }
            i += 1;
        }
        proof {
            assert(!self.edges@.contains(edge));
            assert(self.edges_view() =~= old(self).edges_view().remove(edge));
        }
        false
    }

    /// Marks a node id as static (excluded from sampling).
    pub fn add_static_node(&mut self, id: u32)
        requires
            old(self).wf(),
        ensures
            final(self).wf(),
            final(self).nodes_view() == old(self).nodes_view(),
            final(self).node_pairs() == old(self).node_pairs(),
            final(self).edges_seq() == old(self).edges_seq(),
            final(self).static_view() == old(self).static_view().insert(id),
    {
        self.static_nodes.insert(id);
    }

    /// Whether a node id is static.
    pub fn is_static(&self, id: u32) -> (r: bool)
        requires
            self.wf(),
        ensures
            r == self.static_view().contains(id),
    {
        self.static_nodes.contains(id)
    }

    /// Derives the adjacency index: one entry per edge endpoint,
    /// holding exactly the sources of its incoming edges and the
    /// targets of its outgoing edges, in edge-storage order.
    #[verifier::loop_isolation(false)]
    pub fn links_map(&self) -> (lm: LinkMap)
        requires
            self.wf(),
        ensures
            lm.wf(),
            forall|k: u32| lm@.dom().contains(k) <==> is_endpoint(self.edges_seq(), k),
            forall|k: u32|
                lm@.dom().contains(k) ==> (#[trigger] lm@[k]).0 == preds_seq(self.edges_seq(), k)
                    && lm@[k].1 == succs_seq(self.edges_seq(), k),
            lm_closed(lm@),
    {
        let ne = self.edges.len();
        let mut ids = IdSet::new();
        let mut i: usize = 0;
        while i < ne
            invariant
                self.wf(),
                ne == self.edges@.len(),
                i <= ne,
                ids.wf(),
                forall|k: u32|
                    ids@.contains(k) <==> exists|j: int|
                        0 <= j < i && ((#[trigger] self.edges@[j]).from == k || self.edges@[j].to
                            == k),
            decreases ne - i,
        {
            let ghost prev = ids@;
            ids.insert(self.edges[i].from);
            ids.insert(self.edges[i].to);
            proof {
                assert forall|k: u32| ids@.contains(k) implies exists|j: int|
                    0 <= j < i + 1 && ((#[trigger] self.edges@[j]).from == k || self.edges@[j].to
                        == k) by {
                    if prev.contains(k) {
                        let j = choose|j: int|
                            0 <= j < i && ((#[trigger] self.edges@[j]).from == k
                                || self.edges@[j].to == k);
                        assert(self.edges@[j].from == k || self.edges@[j].to == k);
                    } else {
                        assert(self.edges@[i as int].from == k || self.edges@[i as int].to == k);
                    }
                }
            }
            i += 1;
        }
        let m = ids.len();
        let mut entries: Vec<LinkEntry> = Vec::new();
        let mut t: usize = 0;
        while t < m
            invariant
                self.wf(),
                ne == self.edges@.len(),
                ids.wf(),
                m == ids.id_seq().len(),
                t <= m,
                entries@.len() == t,
                forall|j: int|
                    0 <= j < t ==> (#[trigger] entries@[j]).id == ids.id_seq()[j]
                        && entries@[j].preds@ == preds_seq(self.edges@, ids.id_seq()[j])
                        && entries@[j].succs@ == succs_seq(self.edges@, ids.id_seq()[j]),
            decreases m - t,
        {
            let id = ids.idx(t);
            let mut preds: Vec<u32> = Vec::new();
            let mut succs: Vec<u32> = Vec::new();
            let mut e: usize = 0;
            while e < ne
                invariant
                    self.wf(),
                    ne == self.edges@.len(),
                    e <= ne,
                    preds@ == preds_seq(self.edges@.take(e as int), id),
                    succs@ == succs_seq(self.edges@.take(e as int), id),
                decreases ne - e,
            {
                proof {
                    assert(self.edges@.take(e + 1).drop_last() =~= self.edges@.take(e as int));
                    assert(self.edges@.take(e + 1).last() == self.edges@[e as int]);
                }
                let edge = self.edges[e];
                if edge.to == id {
                    preds.push(edge.from);
                }
                if edge.from == id {
                    succs.push(edge.to);
                }
                e += 1;
            }
            proof {
                assert(self.edges@.take(ne as int) =~= self.edges@);
            }
            entries.push(LinkEntry { id, preds, succs });
            t += 1;
        }
        let lm = LinkMap { entries };
        proof {
            ids.lemma_ids();
            let pairs = link_pairs_of(entries@);
            assert(forall|j: int| 0 <= j < m ==> (#[trigger] pairs[j]).0 == ids.id_seq()[j]);
            assert(distinct_keys(pairs)) by {
                assert forall|p: int, q: int| 0 <= p < q < pairs.len() implies (#[trigger] pairs[p]).0
                    != (#[trigger] pairs[q]).0 by {
                    assert(ids.id_seq()[p] != ids.id_seq()[q]);
                }
            }
            lemma_map_of_char(pairs);
            assert forall|k: u32| lm@.dom().contains(k) implies is_endpoint(
                self.edges_seq(),
                k,
            ) by {
                let j = choose|j: int| 0 <= j < pairs.len() && (#[trigger] pairs[j]).0 == k;
                assert(ids.id_seq()[j] == k);
                assert(ids.id_seq().contains(k));
                assert(ids@.contains(k));
            }
            assert forall|k: u32| is_endpoint(self.edges_seq(), k) implies lm@.dom().contains(
                k,
            ) by {
                assert(ids@.contains(k));
                assert(ids.id_seq().contains(k));
                let j = choose|j: int| 0 <= j < ids.id_seq().len() && ids.id_seq()[j] == k;
                assert(pairs[j].0 == k);
            }
            assert forall|k: u32| lm@.dom().contains(k) implies (#[trigger] lm@[k]).0 == preds_seq(
                self.edges_seq(),
                k,
            ) && lm@[k].1 == succs_seq(self.edges_seq(), k) by {
                let j = choose|j: int| 0 <= j < pairs.len() && (#[trigger] pairs[j]).0 == k;
                assert(lm@[k] == pairs[j].1);
                assert(entries@[j].id == k);
            }
            assert forall|a: u32, j: int|
                #![trigger lm@[a].1[j]]
                lm@.dom().contains(a) && 0 <= j < lm@[a].1.len() implies lm@.dom().contains(
                lm@[a].1[j],
            ) by {
                let x = lm@[a].1[j];
                assert(lm@[a].1 == succs_seq(self.edges_seq(), a));
                assert(succs_seq(self.edges_seq(), a)[j] == x);
                assert(succs_seq(self.edges_seq(), a).contains(x));
                lemma_succs_seq_membership(self.edges_seq(), a);
                assert(self.edges_seq().contains(Edge { from: a, to: x }));
                let e = choose|e: int|
                    0 <= e < self.edges_seq().len() && self.edges_seq()[e] == (Edge {
                        from: a,
                        to: x,
                    });
                assert(self.edges_seq()[e].to == x);
                assert(is_endpoint(self.edges_seq(), x));
            }
        }
        lm
    }

    /// An independent copy holding the same nodes and edges; static
    /// node ids are not carried over.
    #[verifier::loop_isolation(false)]
    pub fn deep_clone(&self) -> (c: Graph)
        requires
            self.wf(),
        ensures
            c.wf(),
            c.nodes_view() == self.nodes_view(),
            c.edges_seq() == self.edges_seq(),
            c.edges_view() == self.edges_view(),
            c.static_view() == Set::<u32>::empty(),
    {
        let mut clone = Graph::new();
        let nn = self.nodes.len();
        let mut i: usize = 0;
        proof {
            lemma_map_of_char(node_pairs_of(self.nodes@));
        }
        while i < nn
            invariant
                self.wf(),
                nn == self.nodes@.len(),
                i <= nn,
                clone.wf(),
                clone.node_pairs() == self.node_pairs().take(i as int),
                clone.edges_seq() == Seq::<Edge>::empty(),
                clone.static_view() == Set::<u32>::empty(),
            decreases nn - i,
        {
            proof {
                lemma_map_of_char(node_pairs_of(self.nodes@));
                lemma_map_of_char(clone.node_pairs());
                assert(forall|j: int|
                    0 <= j < i ==> (#[trigger] clone.node_pairs()[j]).0 == self.node_pairs()[j].0);
                assert forall|j: int| 0 <= j < i implies (#[trigger] clone.node_pairs()[j]).0
                    != self.nodes@[i as int].id by {
                    assert(self.node_pairs()[j].0 != self.node_pairs()[i as int].0);
                }
                assert(!clone.nodes_view().dom().contains(self.nodes@[i as int].id));
            }
            let node = &self.nodes[i];
            clone.add_node(node.name.clone(), node.id);
            proof {
                assert(clone.node_pairs() =~= self.node_pairs().take(i + 1));
            }
            i += 1;
        }
        proof {
            assert(self.node_pairs().take(nn as int) =~= self.node_pairs());
            lemma_map_of_char(node_pairs_of(self.nodes@));
            lemma_map_of_char(clone.node_pairs());
        }
        let ne = self.edges.len();
        let mut e: usize = 0;
        while e < ne
            invariant
                self.wf(),
                ne == self.edges@.len(),
                e <= ne,
                clone.wf(),
                clone.nodes_view() == self.nodes_view(),
                clone.edges_seq() == self.edges_seq().take(e as int),
                clone.static_view() == Set::<u32>::empty(),
            decreases ne - e,
        {
            proof {
                assert forall|j: int| 0 <= j < e implies (#[trigger] clone.edges_seq()[j])
                    != self.edges@[e as int] by {
                    assert(self.edges@[j] != self.edges@[e as int]);
                }
                assert(!clone.edges_seq().contains(self.edges@[e as int])) by {
                    if clone.edges_seq().contains(self.edges@[e as int]) {
                        let j = choose|j: int|
                            0 <= j < clone.edges_seq().len() && clone.edges_seq()[j]
                                == self.edges@[e as int];
                        assert(false);
                    }
                }
                assert(!clone.edges_view().contains(self.edges@[e as int]));
            }
            let edge = self.edges[e];
            clone.add_edge(edge.from, edge.to);
            proof {
                assert(clone.edges_seq() =~= self.edges_seq().take(e + 1));
            }
            e += 1;
        }
        proof {
            assert(self.edges_seq().take(ne as int) =~= self.edges_seq());
        }
        clone
    }

    /// Propagates operability values along `graph_path`: each node's
    /// value is computed by the roll-up rule from its predecessors'
    /// already-computed values and the visibility sample, and written
    /// into the progressively built state.  Every value stays within
    /// `[0, MAX_OPERABILITY]`.
    #[verifier::loop_isolation(false)]
    pub fn roll_up_state<R: RollUp>(
        &self,
        graph_path: &Vec<u32>,
        l_map: &LinkMap,
        roll_up_rule: &R,
        visibilities: &NodeValueMap<u8>,
    ) -> (state: NodeValueMap<u64>)
        requires
            l_map.wf(),
            visibilities.wf(),
            forall|i: int|
                0 <= i < graph_path@.len() ==> l_map@.dom().contains(#[trigger] graph_path@[i]),
        ensures
            state.wf(),
            state@ == roll_up_spec(roll_up_rule, graph_path@, l_map@, visibilities@),
            forall|k: u32| #[trigger] state@.dom().contains(k) <==> graph_path@.contains(k),
            forall|k: u32| #[trigger] state@.dom().contains(k) ==> state@[k] <= MAX_OPERABILITY,
    {
        let mut new_state = NodeValueMap::<u64>::new();
        let n = graph_path.len();
        let mut i: usize = 0;
        while i < n
            invariant
                i <= n,
                new_state.wf(),
                new_state@ == roll_up_spec(
                    roll_up_rule,
                    graph_path@.take(i as int),
                    l_map@,
                    visibilities@,
                ),
                forall|k: u32|
                    #[trigger] new_state@.dom().contains(k) <==> graph_path@.take(
                        i as int,
                    ).contains(k),
                forall|k: u32|
                    #[trigger] new_state@.dom().contains(k) ==> new_state@[k] <= MAX_OPERABILITY,
            decreases n - i,
        {
            let node = graph_path[i];
            let entry = l_map.get(node).unwrap();
            let val = roll_up_rule.get_value(node, &entry.preds, visibilities, &new_state);
            proof {
                roll_up_rule.lemma_combine_bounded(node, entry.preds@, new_state@);
            }
            let ghost prev = new_state@;
            new_state.insert(node, val);
            proof {
                let t1 = graph_path@.take(i + 1);
                let t0 = graph_path@.take(i as int);
                assert(t1.drop_last() =~= t0);
                assert(t1.last() == graph_path@[i as int]);
                assert(val == crate::roll_up::get_value_spec(
                    roll_up_rule,
                    node,
                    l_map@[node].0,
                    visibilities@,
                    prev,
                ));
                assert(new_state@ == roll_up_spec(roll_up_rule, t1, l_map@, visibilities@));
                assert forall|k: u32| #[trigger] new_state@.dom().contains(k) implies t1.contains(
                    k,
                ) by {
                    if k == node {
                        assert(t1[i as int] == k);
                    } else {
                        let j = choose|j: int| 0 <= j < t0.len() && t0[j] == k;
                        assert(t1[j] == k);
                    }
                }
                assert forall|k: u32| t1.contains(k) implies new_state@.dom().contains(k) by {
                    let j = choose|j: int| 0 <= j < t1.len() && t1[j] == k;
                    if j < i {
                        assert(t0[j] == k);
                    }
                }
            }
            i += 1;
        }
        proof {
            assert(graph_path@.take(n as int) =~= graph_path@);
        }
        new_state
    }

    /// The unique node id with no predecessors, or the full candidate
    /// list (empty, or holding several ids) as a failure.
    #[verifier::loop_isolation(false)]
    pub fn get_start_id(map: &LinkMap) -> (r: Result<u32, StartNodeError>)
        requires
            map.wf(),
        ensures
            match r {
                Ok(id) => map@.dom().contains(id) && map@[id].0.len() == 0 && forall|k: u32|
                    map@.dom().contains(k) && (#[trigger] map@[k]).0.len() == 0 ==> k == id,
                Err(e) => e.starts@.no_duplicates() && e.starts@.len() != 1 && forall|k: u32|
                    #[trigger] e.starts@.contains(k) <==> (map@.dom().contains(k)
                        && map@[k].0.len() == 0),
            },
    {
        proof {
            map.lemma_entries();
        }
        let mut starts: Vec<u32> = Vec::new();
        let n = map.entry_count();
        let mut i: usize = 0;
        while i < n
            invariant
                i <= n,
                starts@.no_duplicates(),
                forall|k: u32|
                    #[trigger] starts@.contains(k) <==> exists|j: int|
                        0 <= j < i && (#[trigger] map.eseq()[j]).id == k
                            && map.eseq()[j].preds@.len() == 0,
            decreases n - i,
        {
            if map.entries[i].preds.len() == 0 {
                let ghost prev = starts@;
                let id = map.entries[i].id;
                starts.push(id);
                proof {
                    assert(!prev.contains(id)) by {
                        if prev.contains(id) {
                            let j = choose|j: int|
                                0 <= j < i && (#[trigger] map.eseq()[j]).id == id
                                    && map.eseq()[j].preds@.len() == 0;
                            assert(map.eseq()[j].id == map.eseq()[i as int].id);
                            assert(false);
                        }
                    }
                    assert(forall|l: int| 0 <= l < prev.len() ==> starts@[l] == prev[l]);
                    assert(starts@[prev.len() as int] == id);
                    assert forall|k: u32| #[trigger] starts@.contains(k) implies exists|j: int|
                        0 <= j < i + 1 && (#[trigger] map.eseq()[j]).id == k
                            && map.eseq()[j].preds@.len() == 0 by {
                        let l = choose|l: int| 0 <= l < starts@.len() && starts@[l] == k;
                        if l < prev.len() {
                            assert(prev.contains(k));
                        } else {
                            assert(map.eseq()[i as int].id == k);
                        }
                    }
                    assert forall|k: u32|
                        (exists|j: int|
                            0 <= j < i + 1 && (#[trigger] map.eseq()[j]).id == k
                                && map.eseq()[j].preds@.len() == 0) implies starts@.contains(k) by {
                        let j = choose|j: int|
                            0 <= j < i + 1 && (#[trigger] map.eseq()[j]).id == k
                                && map.eseq()[j].preds@.len() == 0;
                        if j < i {
                            assert(prev.contains(k));
                            let l = choose|l: int| 0 <= l < prev.len() && prev[l] == k;
                            assert(starts@[l] == k);
                        } else {
                            assert(starts@[prev.len() as int] == k);
                        }
                    }
                }
            }
            i += 1;
        }
        proof {
            assert forall|k: u32| #[trigger] starts@.contains(k) implies (map@.dom().contains(k)
                && map@[k].0.len() == 0) by {
                let j = choose|j: int|
                    0 <= j < n && (#[trigger] map.eseq()[j]).id == k && map.eseq()[j].preds@.len()
                        == 0;
                assert(map@[k].0 == map.eseq()[j].preds@);
            }
            assert forall|k: u32| map@.dom().contains(k) && (#[trigger] map@[k]).0.len()
                == 0 implies starts@.contains(k) by {
                let j = choose|j: int| 0 <= j < map.eseq().len() && (#[trigger] map.eseq()[j]).id == k;
                assert(map@[k].0 == map.eseq()[j].preds@);
            }
        }
        if starts.len() == 1 {
            let id = starts[0];
            proof {
                assert(starts@[0] == id);
                assert(starts@.contains(id));
                assert forall|k: u32| map@.dom().contains(k) && (#[trigger] map@[k]).0.len()
                    == 0 implies k == id by {
                    assert(starts@.contains(k));
                    let l = choose|l: int| 0 <= l < starts@.len() && starts@[l] == k;
                    assert(l == 0);
                }
            }
            return Ok(id);
        }
        Err(StartNodeError { starts })
    }

    /// The unique node id with no successors, or the full candidate
    /// list (empty, or holding several ids) as a failure.
    #[verifier::loop_isolation(false)]
    pub fn get_end_id(map: &LinkMap) -> (r: Result<u32, EndNodeError>)
        requires
            map.wf(),
        ensures
            match r {
                Ok(id) => map@.dom().contains(id) && map@[id].1.len() == 0 && forall|k: u32|
                    map@.dom().contains(k) && (#[trigger] map@[k]).1.len() == 0 ==> k == id,
                Err(e) => e.ends@.no_duplicates() && e.ends@.len() != 1 && forall|k: u32|
                    #[trigger] e.ends@.contains(k) <==> (map@.dom().contains(k) && map@[k].1.len()
                        == 0),
            },
    {
        proof {
            map.lemma_entries();
        }
        let mut ends: Vec<u32> = Vec::new();
        let n = map.entry_count();
        let mut i: usize = 0;
        while i < n
            invariant
                i <= n,
                ends@.no_duplicates(),
                forall|k: u32|
                    #[trigger] ends@.contains(k) <==> exists|j: int|
                        0 <= j < i && (#[trigger] map.eseq()[j]).id == k
                            && map.eseq()[j].succs@.len() == 0,
            decreases n - i,
        {
            if map.entries[i].succs.len() == 0 {
                let ghost prev = ends@;
                let id = map.entries[i].id;
                ends.push(id);
                proof {
                    assert(!prev.contains(id)) by {
                        if prev.contains(id) {
                            let j = choose|j: int|
                                0 <= j < i && (#[trigger] map.eseq()[j]).id == id
                                    && map.eseq()[j].succs@.len() == 0;
                            assert(map.eseq()[j].id == map.eseq()[i as int].id);
                            assert(false);
                        }
                    }
                    assert(forall|l: int| 0 <= l < prev.len() ==> ends@[l] == prev[l]);
                    assert(ends@[prev.len() as int] == id);
                    assert forall|k: u32| #[trigger] ends@.contains(k) implies exists|j: int|
                        0 <= j < i + 1 && (#[trigger] map.eseq()[j]).id == k
                            && map.eseq()[j].succs@.len() == 0 by {
                        let l = choose|l: int| 0 <= l < ends@.len() && ends@[l] == k;
                        if l < prev.len() {
                            assert(prev.contains(k));
                        } else {
                            assert(map.eseq()[i as int].id == k);
                        }
                    }
                    assert forall|k: u32|
                        (exists|j: int|
                            0 <= j < i + 1 && (#[trigger] map.eseq()[j]).id == k
                                && map.eseq()[j].succs@.len() == 0) implies ends@.contains(k) by {
                        let j = choose|j: int|
                            0 <= j < i + 1 && (#[trigger] map.eseq()[j]).id == k
                                && map.eseq()[j].succs@.len() == 0;
                        if j < i {
                            assert(prev.contains(k));
                            let l = choose|l: int| 0 <= l < prev.len() && prev[l] == k;
                            assert(ends@[l] == k);
                        } else {
                            assert(ends@[prev.len() as int] == k);
                        }
                    }
                }
            }
            i += 1;
        }
        proof {
            assert forall|k: u32| #[trigger] ends@.contains(k) implies (map@.dom().contains(k)
                && map@[k].1.len() == 0) by {
                let j = choose|j: int|
                    0 <= j < n && (#[trigger] map.eseq()[j]).id == k && map.eseq()[j].succs@.len()
                        == 0;
                assert(map@[k].1 == map.eseq()[j].succs@);
            }
            assert forall|k: u32| map@.dom().contains(k) && (#[trigger] map@[k]).1.len()
                == 0 implies ends@.contains(k) by {
                let j = choose|j: int| 0 <= j < map.eseq().len() && (#[trigger] map.eseq()[j]).id == k;
                assert(map@[k].1 == map.eseq()[j].succs@);
            }
        }
        if ends.len() == 1 {
            let id = ends[0];
            proof {
                assert(ends@[0] == id);
                assert(ends@.contains(id));
                assert forall|k: u32| map@.dom().contains(k) && (#[trigger] map@[k]).1.len()
                    == 0 implies k == id by {
                    assert(ends@.contains(k));
                    let l = choose|l: int| 0 <= l < ends@.len() && ends@[l] == k;
                    assert(l == 0);
                }
            }
            return Ok(id);
        }
        Err(EndNodeError { ends })
    }

    /// Breadth-first traversal from `start_id` along successor links:
    /// visits each id once, in breadth-first order, and returns the
    /// visitation order; it holds exactly the ids reachable from
    /// `start_id`.
    #[verifier::loop_isolation(false)]
    pub fn get_bfs_path(map: &LinkMap, start_id: u32) -> (path: Vec<u32>)
        requires
            map.wf(),
        ensures
            path@.no_duplicates(),
            path@.len() >= 1,
            path@[0] == start_id,
            forall|x: u32| #[trigger] path@.contains(x) <==> reachable(map@, start_id, x),
            forall|j: int|
                1 <= j < path@.len() ==> exists|i: int|
                    0 <= i < j && succs_of(map@, path@[i]).contains(#[trigger] path@[j]),
    {
        proof {
            map.lemma_entries();
            lemma_succ_members(map.eseq());
        }
        let ghost big: Set<u32> = succ_members(map.eseq()).insert(start_id);
        let mut queue: Vec<u32> = Vec::new();
        queue.push(start_id);
        let mut visited = IdSet::new();
        visited.insert(start_id);
        let mut head: usize = 0;
        proof {
            assert(queue@[0] == start_id);
            assert(reaches(map@, start_id, start_id, 0));
            assert(queue@.to_set().subset_of(big)) by {
                assert forall|x: u32| queue@.to_set().contains(x) implies big.contains(x) by {
                    let l = choose|l: int| 0 <= l < queue@.len() && queue@[l] == x;
                    assert(x == start_id);
                }
            }
            queue@.unique_seq_to_set();
            vstd::set_lib::lemma_len_subset(queue@.to_set(), big);
        }
        while head < queue.len()
            invariant
                head <= queue@.len(),
                1 <= queue@.len(),
                queue@[0] == start_id,
                queue@.no_duplicates(),
                visited.wf(),
                forall|x: u32| #[trigger] visited@.contains(x) <==> queue@.contains(x),
                forall|i: int|
                    0 <= i < queue@.len() ==> reachable(map@, start_id, #[trigger] queue@[i]),
                forall|i: int, j: int|
                    #![trigger succs_of(map@, queue@[i])[j]]
                    0 <= i < head && 0 <= j < succs_of(map@, queue@[i]).len() ==> queue@.contains(
                        succs_of(map@, queue@[i])[j],
                    ),
                forall|j: int|
                    1 <= j < queue@.len() ==> exists|i: int|
                        0 <= i < j && succs_of(map@, queue@[i]).contains(#[trigger] queue@[j]),
                queue@.to_set().subset_of(big),
                queue@.len() <= big.len(),
            decreases big.len() - queue@.len(), queue@.len() - head,
        {
            let current = queue[head];
            head += 1;
            let ghost q0 = queue@;
            match map.get(current) {
                None => {
                    proof {
                        assert(succs_of(map@, current).len() == 0);
                    }
                },
                Some(entry) => {
                    let ns = entry.succs.len();
                    let mut j: usize = 0;
                    while j < ns
                        invariant
                            j <= ns,
                            ns == succs_of(map@, current).len(),
                            entry.succs@ == succs_of(map@, current),
                            q0.len() <= queue@.len(),
                            1 <= head <= queue@.len(),
                            current == queue@[head - 1],
                            queue@[0] == start_id,
                            queue@.no_duplicates(),
                            visited.wf(),
                            forall|x: u32| #[trigger] visited@.contains(x) <==> queue@.contains(x),
                            forall|i: int|
                                0 <= i < queue@.len() ==> reachable(
                                    map@,
                                    start_id,
                                    #[trigger] queue@[i],
                                ),
                            forall|i: int, l: int|
                                #![trigger succs_of(map@, queue@[i])[l]]
                                0 <= i < head - 1 && 0 <= l < succs_of(map@, queue@[i]).len()
                                    ==> queue@.contains(succs_of(map@, queue@[i])[l]),
                            forall|l: int|
                                0 <= l < j ==> queue@.contains(
                                    #[trigger] succs_of(map@, current)[l],
                                ),
                            forall|l: int|
                                1 <= l < queue@.len() ==> exists|i: int|
                                    0 <= i < l && succs_of(map@, queue@[i]).contains(
                                        #[trigger] queue@[l],
                                    ),
                            queue@.to_set().subset_of(big),
                            queue@.len() <= big.len(),
                        decreases ns - j,
                    {
                        let s = entry.succs[j];
                        if !visited.contains(s) {
                            let ghost prevq = queue@;
                            visited.insert(s);
                            queue.push(s);
                            proof {
                                assert(forall|l: int|
                                    0 <= l < prevq.len() ==> queue@[l] == prevq[l]);
                                assert(queue@[prevq.len() as int] == s);
                                assert(forall|x: u32|
                                    prevq.contains(x) ==> #[trigger] queue@.contains(x)) by {
                                    assert forall|x: u32|
                                        prevq.contains(x) implies #[trigger] queue@.contains(x) by {
                                        let l = choose|l: int|
                                            0 <= l < prevq.len() && prevq[l] == x;
                                        assert(queue@[l] == x);
                                    }
                                }
                                assert(!prevq.contains(s));
                                assert(queue@.no_duplicates());
                                assert forall|x: u32| #[trigger] queue@.contains(x) implies
                                    prevq.contains(x) || x == s by {
                                    let l = choose|l: int| 0 <= l < queue@.len() && queue@[l] == x;
                                    if l < prevq.len() {
                                        assert(prevq[l] == x);
                                    }
                                }
                                assert(reachable(map@, start_id, s)) by {
                                    assert(succs_of(map@, current)[j as int] == s);
                                    assert(succs_of(map@, current).contains(s));
                                    lemma_reachable_step(map@, start_id, current, s);
                                }
                                assert forall|l: int| 1 <= l < queue@.len() implies exists|i: int|
                                    0 <= i < l && succs_of(map@, queue@[i]).contains(
                                        #[trigger] queue@[l],
                                    ) by {
                                    if l < prevq.len() {
                                        let i = choose|i: int|
                                            0 <= i < l && succs_of(map@, prevq[i]).contains(
                                                #[trigger] prevq[l],
                                            );
                                        assert(succs_of(map@, queue@[i]).contains(queue@[l]));
                                    } else {
                                        assert(queue@[head - 1] == current);
                                        assert(succs_of(map@, current).contains(s));
                                        assert(succs_of(map@, queue@[head - 1]).contains(
                                            queue@[l],
                                        ));
                                    }
                                }
                                assert(big.contains(s)) by {
                                    let t = choose|t: int|
                                        0 <= t < map.eseq().len() && (#[trigger] map.eseq()[t]).id
                                            == current;
                                    assert(map.eseq()[t].succs@ == succs_of(map@, current));
                                    assert(map.eseq()[t].succs@[j as int] == s);
                                    assert(succ_members(map.eseq()).contains(s));
                                }
                                assert(queue@.to_set().subset_of(big)) by {
                                    assert forall|x: u32| queue@.to_set().contains(x) implies
                                        big.contains(x) by {
                                        if prevq.contains(x) {
                                            assert(prevq.to_set().contains(x));
                                        } else {
                                            assert(x == s);
                                        }
                                    }
                                }
                                queue@.unique_seq_to_set();
                                vstd::set_lib::lemma_len_subset(queue@.to_set(), big);
                            }
                        }
                        j += 1;
                    }
                    proof {
                        assert forall|i: int, l: int|
                            #![trigger succs_of(map@, queue@[i])[l]]
                            0 <= i < head && 0 <= l < succs_of(map@, queue@[i]).len() implies
                            queue@.contains(succs_of(map@, queue@[i])[l]) by {
                            if i == head - 1 {
                                assert(queue@[i] == current);
                            }
                        }
                    }
                },
            }
        }
        proof {
            assert forall|x: u32| #[trigger] queue@.contains(x) implies reachable(
                map@,
                start_id,
                x,
            ) by {
                let l = choose|l: int| 0 <= l < queue@.len() && queue@[l] == x;
                assert(reachable(map@, start_id, queue@[l]));
            }
            assert forall|x: u32| reachable(map@, start_id, x) implies queue@.contains(x) by {
                assert forall|a: u32, s: u32|
                    #![trigger queue@.contains(a), succs_of(map@, a).contains(s)]
                    queue@.contains(a) && succs_of(map@, a).contains(s) implies queue@.contains(
                    s,
                ) by {
                    let i = choose|i: int| 0 <= i < queue@.len() && queue@[i] == a;
                    let l = choose|l: int|
                        0 <= l < succs_of(map@, a).len() && succs_of(map@, a)[l] == s;
                    assert(queue@.contains(succs_of(map@, queue@[i])[l]));
                }
                let n = choose|n: nat| reaches(map@, start_id, x, n);
                lemma_reaches_closed(map@, start_id, queue@, x, n);
            }
        }
        queue
    }

    /// Succeeds exactly when `end_id` equals `start_id` or lies in the
    /// breadth-first traversal from `start_id`, handing back that
    /// traversal; fails otherwise.
    pub fn validate_end_connection(map: &LinkMap, start_id: u32, end_id: u32) -> (r: Result<
        Vec<u32>,
        NoEndConnectionError,
    >)
        requires
            map.wf(),
        ensures
            r is Ok <==> (start_id == end_id || reachable(map@, start_id, end_id)),
            match r {
                Ok(p) => p@.len() >= 1 && p@[0] == start_id && p@.contains(end_id) && (start_id
                    == end_id ==> p@ == seq![start_id]) && (start_id != end_id ==> forall|x: u32|
                    #[trigger] p@.contains(x) <==> reachable(map@, start_id, x)),
                Err(e) => e.start_id == start_id && e.end_id == end_id && start_id != end_id
                    && !reachable(map@, start_id, end_id),
            },
    {
        if start_id == end_id {
            let p = vec![start_id];
            proof {
                assert(p@ =~= seq![start_id]);
                assert(p@[0] == end_id);
            }
            return Ok(p);
        }
        let path = Graph::get_bfs_path(map, start_id);
        if contains_id(&path, end_id) {
            return Ok(path);
        }
        Err(NoEndConnectionError { start_id, end_id })
    }
}

/// Whether the sequence holds `x`.
#[verifier::loop_isolation(false)]
fn contains_id(v: &Vec<u32>, x: u32) -> (r: bool)
    ensures
        r == v@.contains(x),
{
    let n = v.len();
    let mut i: usize = 0;
    while i < n
        invariant
            i <= n,
            forall|j: int| 0 <= j < i ==> v@[j] != x,
        decreases n - i,
    {
        if v[i] == x {
            return true;
        }
        i += 1;
    }
    false
}

} // verus!
