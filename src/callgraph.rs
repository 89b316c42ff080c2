//! The call graph: one node per function instance, one edge per
//! caller/callee pair, weighted by the call sites of that pair.

use vstd::prelude::*;
use petgraph::graph::{EdgeIndex, Graph, NodeIndex};
use petgraph::Direction;
use crate::mir::Location;

verus! {

#[verifier::external_type_specification]
#[verifier::external_body]
#[verifier::reject_recursive_types(N)]
#[verifier::reject_recursive_types(E)]
#[verifier::reject_recursive_types(Ty)]
#[verifier::reject_recursive_types(Ix)]
pub struct ExGraph<N, E, Ty, Ix>(Graph<N, E, Ty, Ix>);

#[verifier::external_type_specification]
#[verifier::external_body]
pub struct ExDirected(petgraph::Directed);

/// Index of a function instance in the call graph.
pub type InstanceId = usize;

/// A call site as stored on an edge: the `(block, statement_index)` of the
/// call, or `None` for a site without a location in the caller's body.
pub type RawSite = Option<(usize, usize)>;

/// The edges of a petgraph graph in insertion order: `(source, target, weight)`.
pub uninterp spec fn graph_edges(g: Graph<(), Vec<RawSite>>) -> Seq<(usize, usize, Seq<RawSite>)>;

/// The number of nodes of a petgraph graph.
pub uninterp spec fn graph_node_count(g: Graph<(), Vec<RawSite>>) -> nat;

/// Relies on `Graph::new`: a directed graph with no node and no edge.
#[verifier::external_body]
fn graph_new() -> (g: Graph<(), Vec<RawSite>>)
    ensures
        graph_edges(g) == Seq::<(usize, usize, Seq<RawSite>)>::empty(),
        graph_node_count(g) == 0,
{
    Graph::new()
}

/// Relies on `Graph::add_node`: the new node's index is the former node
/// count, and the edges stay. It panics once the `u32` index space is full.
#[verifier::external_body]
fn graph_add_node(g: &mut Graph<(), Vec<RawSite>>) -> (r: usize)
    requires
        graph_node_count(*old(g)) < u32::MAX,
    ensures
        r == graph_node_count(*old(g)),
        graph_node_count(*final(g)) == graph_node_count(*old(g)) + 1,
        graph_edges(*final(g)) == graph_edges(*old(g)),
{
    g.add_node(()).index()
}

/// Relies on `Graph::add_edge`: appends the edge `a -> b` with weight `w`.
/// It panics where a node does not exist or the `u32` index space is full.
#[verifier::external_body]
fn graph_add_edge(g: &mut Graph<(), Vec<RawSite>>, a: usize, b: usize, w: Vec<RawSite>)
    requires
        a < graph_node_count(*old(g)),
        b < graph_node_count(*old(g)),
        graph_edges(*old(g)).len() < u32::MAX,
    ensures
        graph_node_count(*final(g)) == graph_node_count(*old(g)),
        graph_edges(*final(g)) == graph_edges(*old(g)).push((a, b, w@)),
{
    g.add_edge(NodeIndex::new(a), NodeIndex::new(b), w);
}

/// Relies on `Graph::neighbors_directed` with `Outgoing`: the targets of the
/// edges that leave `a`.
#[verifier::external_body]
fn graph_out_neighbors(g: &Graph<(), Vec<RawSite>>, a: usize) -> (r: Vec<usize>)
    requires
        a < graph_node_count(*g),
    ensures
        forall|i: int|
            0 <= i < r@.len() ==> exists|j: int|
                0 <= j < graph_edges(*g).len() && (#[trigger] graph_edges(*g)[j]).0 == a
                    && graph_edges(*g)[j].1 == #[trigger] r@[i],
        forall|j: int|
            0 <= j < graph_edges(*g).len() && (#[trigger] graph_edges(*g)[j]).0 == a
                ==> r@.contains(graph_edges(*g)[j].1),
{
    g.neighbors_directed(NodeIndex::new(a), Direction::Outgoing).map(|n| n.index()).collect()
}

/// Relies on `Graph::find_edge`: the index of an edge `a -> b`, or `None`
/// where there is none.
#[verifier::external_body]
fn graph_find_edge(g: &Graph<(), Vec<RawSite>>, a: usize, b: usize) -> (r: Option<usize>)
    requires
        a < graph_node_count(*g),
        b < graph_node_count(*g),
    ensures
        match r {
            Some(e) => e < graph_edges(*g).len() && graph_edges(*g)[e as int].0 == a
                && graph_edges(*g)[e as int].1 == b,
            None => forall|j: int|
                0 <= j < graph_edges(*g).len() ==> !((#[trigger] graph_edges(*g)[j]).0 == a
                    && graph_edges(*g)[j].1 == b),
        },
{
    g.find_edge(NodeIndex::new(a), NodeIndex::new(b)).map(|e| e.index())
}

/// Relies on `Index<EdgeIndex>` for `Graph`: the weight of edge `e`.
#[verifier::external_body]
fn graph_edge_weight(g: &Graph<(), Vec<RawSite>>, e: usize) -> (r: Vec<RawSite>)
    requires
        e < graph_edges(*g).len(),
    ensures
        r@ == graph_edges(*g)[e as int].2,
{
    g[EdgeIndex::new(e)].clone()
}

/// Relies on `IndexMut<EdgeIndex>` for `Graph`: appends `site` to the weight
/// of edge `e`.
#[verifier::external_body]
fn graph_push_site(g: &mut Graph<(), Vec<RawSite>>, e: usize, site: RawSite)
    requires
        e < graph_edges(*old(g)).len(),
    ensures
        graph_node_count(*final(g)) == graph_node_count(*old(g)),
        graph_edges(*final(g)) == graph_edges(*old(g)).update(
            e as int,
            (
                graph_edges(*old(g))[e as int].0,
                graph_edges(*old(g))[e as int].1,
                graph_edges(*old(g))[e as int].2.push(site),
            ),
        ),
{
    g[EdgeIndex::new(e)].push(site);
}

/// Some edge goes from `a` to `b`.
pub open spec fn has_pair(es: Seq<(usize, usize, Seq<RawSite>)>, a: usize, b: usize) -> bool {
    exists|j: int| 0 <= j < es.len() && (#[trigger] es[j]).0 == a && es[j].1 == b
}

/// The index of an edge from `a` to `b`, where there is one.
pub open spec fn pair_index(es: Seq<(usize, usize, Seq<RawSite>)>, a: usize, b: usize) -> int {
    choose|j: int| 0 <= j < es.len() && (#[trigger] es[j]).0 == a && es[j].1 == b
}

/// The sites that have a location, in order.
pub open spec fn located(w: Seq<RawSite>) -> Seq<Location>
    decreases w.len(),
{
    if w.len() == 0 {
        Seq::empty()
    } else {
        let rest = located(w.drop_last());
        match w.last() {
            Some((b, s)) => rest.push(Location { block: b, statement_index: s }),
            None => rest,
        }
    }
}

pub open spec fn raw_site(site: Option<Location>) -> RawSite {
    match site {
        Some(l) => Some((l.block, l.statement_index)),
        None => None,
    }
}

pub struct CallGraph {
    graph: Graph<(), Vec<RawSite>>,
}

impl CallGraph {
    /// The edges in insertion order: `(caller, callee, call sites)`.
    pub closed spec fn edges(&self) -> Seq<(usize, usize, Seq<RawSite>)> {
        graph_edges(self.graph)
    }

    pub closed spec fn instance_count(&self) -> nat {
        graph_node_count(self.graph)
    }

    /// Node and edge indices fit petgraph's `u32` indices, every edge joins
    /// two instances, and no two edges join the same pair.
    pub open spec fn wf(&self) -> bool {
        &&& self.instance_count() <= u32::MAX
        &&& self.edges().len() <= u32::MAX
        &&& forall|j: int|
            0 <= j < self.edges().len() ==> (#[trigger] self.edges()[j]).0 < self.instance_count()
                && self.edges()[j].1 < self.instance_count()
        &&& forall|j: int, k: int|
            0 <= j < self.edges().len() && 0 <= k < self.edges().len() && (#[trigger] self.edges()[j]).0
                == (#[trigger] self.edges()[k]).0 && self.edges()[j].1 == self.edges()[k].1 ==> j == k
    }

    /// The callees of `inst`: every target of an edge leaving it.
    pub fn callees(&self, inst: InstanceId) -> (r: Vec<InstanceId>)
        requires
            self.wf(),
            inst < self.instance_count(),
        ensures
            forall|i: int|
                0 <= i < r@.len() ==> has_pair(self.edges(), inst, #[trigger] r@[i]) && r@[i]
                    < self.instance_count(),
            forall|j: int|
                0 <= j < self.edges().len() && (#[trigger] self.edges()[j]).0 == inst
                    ==> r@.contains(self.edges()[j].1),
    {
        let r = graph_out_neighbors(&self.graph, inst);
        assert forall|i: int| 0 <= i < r@.len() implies has_pair(self.edges(), inst, #[trigger] r@[i])
            && r@[i] < self.instance_count() by {
            let j = choose|j: int|
                0 <= j < graph_edges(self.graph).len() && (#[trigger] graph_edges(self.graph)[j]).0
                    == inst && graph_edges(self.graph)[j].1 == r@[i];
            assert(self.edges()[j].1 == r@[i]);
        }
        r
    }

    /// Of two edges, at most one joins a given pair.
    pub proof fn lemma_pair_index(&self, j: int)
        requires
            self.wf(),
            0 <= j < self.edges().len(),
        ensures
            has_pair(self.edges(), self.edges()[j].0, self.edges()[j].1),
            pair_index(self.edges(), self.edges()[j].0, self.edges()[j].1) == j,
    {
        assert(has_pair(self.edges(), self.edges()[j].0, self.edges()[j].1));
    }

    pub fn new() -> (r: CallGraph)
        ensures
            r.wf(),
            r.instance_count() == 0,
            r.edges().len() == 0,
    {
        CallGraph { graph: graph_new() }
    }

    /// Adds a function instance; its id is the former instance count.
    pub fn add_instance(&mut self) -> (r: InstanceId)
        requires
            old(self).wf(),
            old(self).instance_count() < u32::MAX,
        ensures
            final(self).wf(),
            r == old(self).instance_count(),
            final(self).instance_count() == old(self).instance_count() + 1,
            final(self).edges() == old(self).edges(),
    {
        graph_add_node(&mut self.graph)
    }

    /// Records a call site of `callee` in `caller`: appended to the edge of
    /// that pair, or on a new edge where the pair has none yet.
    pub fn add_callsite(&mut self, caller: InstanceId, callee: InstanceId, site: Option<Location>)
        requires
            old(self).wf(),
            caller < old(self).instance_count(),
            callee < old(self).instance_count(),
            old(self).edges().len() < u32::MAX,
        ensures
            final(self).wf(),
            final(self).instance_count() == old(self).instance_count(),
            has_pair(old(self).edges(), caller, callee) ==> final(self).edges()
                == old(self).edges().update(
                pair_index(old(self).edges(), caller, callee),
                (
                    caller,
                    callee,
                    old(self).edges()[pair_index(old(self).edges(), caller, callee)].2.push(
                        raw_site(site),
                    ),
                ),
            ),
            !has_pair(old(self).edges(), caller, callee) ==> final(self).edges()
                == old(self).edges().push((caller, callee, seq![raw_site(site)])),
    {
        let raw: RawSite = match site {
            Some(l) => Some((l.block, l.statement_index)),
            None => None,
        };
        match graph_find_edge(&self.graph, caller, callee) {
            Some(e) => {
                proof {
                    let j = pair_index(old(self).edges(), caller, callee);
                    assert(has_pair(old(self).edges(), caller, callee));
                    assert(j == e);
                }
                graph_push_site(&mut self.graph, e, raw);
            },
            None => {
                let mut w: Vec<RawSite> = Vec::new();
                w.push(raw);
                graph_add_edge(&mut self.graph, caller, callee, w);
                assert(w@ =~= seq![raw]);
                assert(!has_pair(old(self).edges(), caller, callee));
            },
        }
    }
}

/// Some edge that leaves `inst` has no located call site.
pub open spec fn missing_sites(es: Seq<(usize, usize, Seq<RawSite>)>, inst: usize) -> bool {
    exists|j: int| 0 <= j < es.len() && (#[trigger] es[j]).0 == inst && located(es[j].2).len() == 0
}

/// The located call sites on the edge `source -> target`, or `None` where
/// the call graph has no such edge.
pub fn callsite_locations(callgraph: &CallGraph, source: InstanceId, target: InstanceId) -> (r:
    Option<Vec<Location>>)
    requires
        callgraph.wf(),
        source < callgraph.instance_count(),
        target < callgraph.instance_count(),
    ensures
        r.is_none() <==> !has_pair(callgraph.edges(), source, target),
        r matches Some(v) ==> v@ == located(
            callgraph.edges()[pair_index(callgraph.edges(), source, target)].2,
        ),
{
    let e = graph_find_edge(&callgraph.graph, source, target)?;
    proof {
        assert(has_pair(callgraph.edges(), source, target));
        assert(pair_index(callgraph.edges(), source, target) == e);
    }
    let sites = graph_edge_weight(&callgraph.graph, e);
    let mut r: Vec<Location> = Vec::new();
    let mut i: usize = 0;
    while i < sites.len()
        invariant
            i <= sites@.len(),
            r@ == located(sites@.subrange(0, i as int)),
        decreases sites@.len() - i,
    {
        assert(sites@.subrange(0, i + 1).drop_last() =~= sites@.subrange(0, i as int));
        match sites[i] {
            Some((block, statement_index)) => {
                r.push(Location { block, statement_index });
            },
            None => {},
        }
        i = i + 1;
    }
    assert(sites@.subrange(0, sites@.len() as int) =~= sites@);
    Some(r)
}

} // verus!
