//! The directed weighted transaction graph.
//!
//! A graph is a list of nodes in insertion order; each node carries its
//! outgoing edges, one per destination, each weighted by a [`Transaction`].
//! Nodes exist for every identifier that appeared as a source; an identifier
//! that only ever appears as a destination is reachable through edges but has
//! no node entry of its own, exactly as in the adjacency mapping the metrics
//! are defined over. Inserting an edge that already exists (same source and
//! destination) overwrites the stored transaction: last write wins.

use vstd::prelude::*;

use crate::transaction_type::{Transaction, TransactionModel};

verus! {

/// The mathematical image of one outgoing edge.
#[verifier::ext_equal]
pub struct EdgeModel {
    pub to: Seq<char>,
    pub tx: TransactionModel,
}

/// The mathematical image of one node: its identifier and its outgoing
/// edges in insertion order.
#[verifier::ext_equal]
pub struct NodeModel {
    pub id: Seq<char>,
    pub edges: Seq<EdgeModel>,
}

/// One outgoing edge: destination identifier and the transaction on it.
pub struct Neighbor {
    pub to: String,
    pub tx: Transaction,
}

impl View for Neighbor {
    type V = EdgeModel;

    open spec fn view(&self) -> EdgeModel {
        EdgeModel { to: self.to@, tx: self.tx@ }
    }
}

impl Clone for Neighbor {
    fn clone(&self) -> (r: Self)
        ensures
            r@ == self@,
    {
        Neighbor { to: self.to.clone(), tx: self.tx.clone() }
    }
}

/// One node of the graph: its identifier and its outgoing edges.
pub struct NodeEntry {
    pub id: String,
    pub edges: Vec<Neighbor>,
}

impl View for NodeEntry {
    type V = NodeModel;

    open spec fn view(&self) -> NodeModel {
        NodeModel { id: self.id@, edges: self.edges@.map_values(|e: Neighbor| e@) }
    }
}

impl Clone for NodeEntry {
    fn clone(&self) -> (r: Self)
        ensures
            r@ == self@,
    {
        let mut edges: Vec<Neighbor> = Vec::new();
        let n = self.edges.len();
        let mut i: usize = 0;
        while i < n
            invariant
                n == self.edges.len(),
                i <= n,
                edges@.len() == i,
                forall|j: int| 0 <= j < i ==> edges@[j]@ == self@.edges[j],
            decreases n - i,
        {
            edges.push(self.edges[i].clone());
            i += 1;
        }
        let r = NodeEntry { id: self.id.clone(), edges };
        proof {
            assert(r@.edges =~= self@.edges);
        }
        r
    }
}

/// A directed weighted graph: the node list, in insertion order.
pub struct Graph {
    pub nodes: Vec<NodeEntry>,
}

impl View for Graph {
    type V = Seq<NodeModel>;

    open spec fn view(&self) -> Seq<NodeModel> {
        self.nodes@.map_values(|n: NodeEntry| n@)
    }
}

/// No two edges of one node lead to the same destination.
pub open spec fn distinct_targets(es: Seq<EdgeModel>) -> bool {
    forall|i: int, j: int|
        0 <= i < j < es.len() ==> (#[trigger] es[i]).to != (#[trigger] es[j]).to
}

/// The graph invariant: node identifiers are distinct, and so are the
/// destinations of each node's outgoing edges.
pub open spec fn wf_graph(g: Seq<NodeModel>) -> bool {
    &&& forall|i: int, j: int|
        0 <= i < j < g.len() ==> (#[trigger] g[i]).id != (#[trigger] g[j]).id
    &&& forall|i: int| 0 <= i < g.len() ==> distinct_targets((#[trigger] g[i]).edges)
}

/// Does the graph have a node entry for identifier `k`?
pub open spec fn graph_contains_node(g: Seq<NodeModel>, k: Seq<char>) -> bool {
    exists|i: int| 0 <= i < g.len() && (#[trigger] g[i]).id == k
}

/// Index of the node entry for `k`, meaningful when the graph has one; with
/// distinct identifiers it is the only such index.
pub open spec fn node_index(g: Seq<NodeModel>, k: Seq<char>) -> int {
    choose|i: int| 0 <= i < g.len() && (#[trigger] g[i]).id == k
}

/// The outgoing edges of node `k`; a node the graph has no entry for has
/// none.
pub open spec fn node_edges(g: Seq<NodeModel>, k: Seq<char>) -> Seq<EdgeModel> {
    if graph_contains_node(g, k) {
        g[node_index(g, k)].edges
    } else {
        Seq::empty()
    }
}

/// Does the edge list `es` lead to destination `t`?
pub open spec fn edges_contain(es: Seq<EdgeModel>, t: Seq<char>) -> bool {
    exists|j: int| 0 <= j < es.len() && (#[trigger] es[j]).to == t
}

/// Index of the edge to `t` in `es`, meaningful when there is one.
pub open spec fn edge_index(es: Seq<EdgeModel>, t: Seq<char>) -> int {
    choose|j: int| 0 <= j < es.len() && (#[trigger] es[j]).to == t
}

/// Does the graph have the directed edge `a -> b`?
pub open spec fn has_edge(g: Seq<NodeModel>, a: Seq<char>, b: Seq<char>) -> bool {
    edges_contain(node_edges(g, a), b)
}

/// The transaction on edge `a -> b`, meaningful when `has_edge(g, a, b)`.
pub open spec fn edge_tx(g: Seq<NodeModel>, a: Seq<char>, b: Seq<char>) -> TransactionModel {
    node_edges(g, a)[edge_index(node_edges(g, a), b)].tx
}

/// The weight of edge `a -> b`: the transaction value.
pub open spec fn edge_weight(g: Seq<NodeModel>, a: Seq<char>, b: Seq<char>) -> int {
    edge_tx(g, a, b).value as int
}

/// The out-degree of `k`: how many outgoing edges its node entry has.
pub open spec fn out_degree(g: Seq<NodeModel>, k: Seq<char>) -> int {
    node_edges(g, k).len() as int
}

/// Total number of stored edges: the sum of all out-degrees.
pub open spec fn total_edges(g: Seq<NodeModel>) -> int
    decreases g.len(),
{
    if g.len() == 0 {
        0
    } else {
        total_edges(g.drop_last()) + g.last().edges.len()
    }
}

/// A sum of list lengths is never negative.
pub proof fn lemma_total_edges_nonneg(g: Seq<NodeModel>)
    ensures
        total_edges(g) >= 0,
    decreases g.len(),
{
    if g.len() > 0 {
        lemma_total_edges_nonneg(g.drop_last());
    }
}

/// The graph after making sure a node entry for `k` exists: unchanged if one
/// does, a fresh node with no edges appended otherwise.
pub open spec fn spec_add_node(g: Seq<NodeModel>, k: Seq<char>) -> Seq<NodeModel> {
    if graph_contains_node(g, k) {
        g
    } else {
        g.push(NodeModel { id: k, edges: Seq::empty() })
    }
}

/// The edge list after storing the edge to `t` weighted by `tx`: an edge to
/// `t` is overwritten in place, a new destination is appended.
pub open spec fn edges_set(es: Seq<EdgeModel>, t: Seq<char>, tx: TransactionModel) -> Seq<
    EdgeModel,
> {
    if edges_contain(es, t) {
        es.update(edge_index(es, t), EdgeModel { to: t, tx })
    } else {
        es.push(EdgeModel { to: t, tx })
    }
}

/// The graph after inserting the directed edge `from -> to` weighted by
/// `tx`: the source node is created if missing, and the edge is stored
/// last-write-wins.
pub open spec fn spec_insert_edge(
    g: Seq<NodeModel>,
    from: Seq<char>,
    to: Seq<char>,
    tx: TransactionModel,
) -> Seq<NodeModel> {
    let g1 = spec_add_node(g, from);
    let i = node_index(g1, from);
    g1.update(i, NodeModel { id: from, edges: edges_set(g1[i].edges, to, tx) })
}

/// With distinct identifiers, a node entry holding `k` at position `i` is
/// the entry `node_index` points at.
pub proof fn lemma_node_index_unique(g: Seq<NodeModel>, k: Seq<char>, i: int)
    requires
        wf_graph(g),
        0 <= i < g.len(),
        g[i].id == k,
    ensures
        graph_contains_node(g, k),
        node_index(g, k) == i,
{
    assert(graph_contains_node(g, k));
    let j = node_index(g, k);
    assert(0 <= j < g.len() && g[j].id == k);
    if i != j {
        assert(g[i].id != g[j].id);
    }
}

/// With distinct destinations, an edge to `t` at position `j` is the edge
/// `edge_index` points at.
pub proof fn lemma_edge_index_unique(es: Seq<EdgeModel>, t: Seq<char>, j: int)
    requires
        distinct_targets(es),
        0 <= j < es.len(),
        es[j].to == t,
    ensures
        edges_contain(es, t),
        edge_index(es, t) == j,
{
    assert(edges_contain(es, t));
    let j2 = edge_index(es, t);
    assert(0 <= j2 < es.len() && es[j2].to == t);
    if j != j2 {
        assert(es[j].to != es[j2].to);
    }
}

impl Graph {
    /// The graph invariant; every graph the library builds satisfies it.
    pub open spec fn wf(self) -> bool {
        wf_graph(self@)
    }

    /// The empty graph.
    pub fn new() -> (r: Graph)
        ensures
            r@ == Seq::<NodeModel>::empty(),
            r.wf(),
    {
        Graph { nodes: Vec::new() }
    }

    /// How many nodes have an entry.
    pub fn node_count(&self) -> (r: usize)
        ensures
            r == self@.len(),
    {
        self.nodes.len()
    }

    /// Position of the node entry for `id`, if there is one.
    pub fn find_node(&self, id: &String) -> (r: Option<usize>)
        requires
            self.wf(),
        ensures
            match r {
                Some(i) => i < self@.len() && self@[i as int].id == id@ && node_index(self@, id@)
                    == i as int,
                None => !graph_contains_node(self@, id@),
            },
    {
        let n = self.nodes.len();
        let mut i: usize = 0;
        while i < n
            invariant
                self.wf(),
                n == self@.len(),
                i <= n,
                forall|j: int| 0 <= j < i ==> (#[trigger] self@[j]).id != id@,
            decreases n - i,
        {
            if self.nodes[i].id == *id {
                proof {
                    lemma_node_index_unique(self@, id@, i as int);
                }
                return Some(i);
            }
            i += 1;
        }
        None
    }

    /// Makes sure a node entry for `id` exists and returns its position.
    pub fn add_node(&mut self, id: &String) -> (i: usize)
        requires
            old(self).wf(),
        ensures
            final(self).wf(),
            final(self)@ == spec_add_node(old(self)@, id@),
            i < final(self)@.len(),
            final(self)@[i as int].id == id@,
            node_index(final(self)@, id@) == i as int,
    {
        match self.find_node(id) {
            Some(i) => i,
            None => {
                let i = self.nodes.len();
                self.nodes.push(NodeEntry { id: id.clone(), edges: Vec::new() });
                proof {
                    assert(final(self)@ =~~= old(self)@.push(
                        NodeModel { id: id@, edges: Seq::empty() },
                    ));
                    assert forall|p: int, q: int|
                        0 <= p < q < final(self)@.len() implies (#[trigger] final(self)@[p]).id != (
                    #[trigger] final(self)@[q]).id by {
                        if q == final(self)@.len() - 1 {
                            assert(!graph_contains_node(old(self)@, id@));
                            assert(final(self)@[p] == old(self)@[p]);
                        }
                    }
                    lemma_node_index_unique(final(self)@, id@, i as int);
                }
                i
            },
        }
    }

    /// Inserts the directed edge `from -> to` carrying `tx`, creating the
    /// source node if needed and overwriting any edge already stored for the
    /// same ordered pair.
    pub fn insert_edge(&mut self, from: &String, to: &String, tx: Transaction)
        requires
            old(self).wf(),
        ensures
            final(self).wf(),
            final(self)@ == spec_insert_edge(old(self)@, from@, to@, tx@),
    {
        let i = self.add_node(from);
        let ghost g1 = self@;
        let mut entry = self.nodes[i].clone();
        let m = entry.edges.len();
        let mut j: usize = 0;
        let mut found: Option<usize> = None;
        while j < m
            invariant
                m == entry.edges.len(),
                j <= m,
                entry@ == g1[i as int],
                distinct_targets(entry@.edges),
                match found {
                    Some(p) => p < m && entry@.edges[p as int].to == to@ && edge_index(
                        entry@.edges,
                        to@,
                    ) == p as int,
                    None => forall|q: int| 0 <= q < j ==> (#[trigger] entry@.edges[q]).to != to@,
                },
                found is Some ==> j == m,
            decreases m - j,
        {
            if entry.edges[j].to == *to {
                proof {
                    lemma_edge_index_unique(entry@.edges, to@, j as int);
                }
                found = Some(j);
                j = m;
            } else {
                j += 1;
            }
        }
        let nb = Neighbor { to: to.clone(), tx };
        match found {
            Some(p) => {
                entry.edges[p] = nb;
                proof {
                    assert(entry@.edges =~= edges_set(g1[i as int].edges, to@, tx@));
                }
            },
            None => {
                entry.edges.push(nb);
                proof {
                    assert(!edges_contain(g1[i as int].edges, to@));
                    assert(entry@.edges =~= edges_set(g1[i as int].edges, to@, tx@));
                }
            },
        }
        let ghost new_edges = entry@.edges;
        self.nodes[i] = entry;
        proof {
            assert(final(self)@ =~= g1.update(
                i as int,
                NodeModel { id: from@, edges: new_edges },
            ));
            assert forall|p: int, q: int|
                0 <= p < q < final(self)@.len() implies (#[trigger] final(self)@[p]).id != (
            #[trigger] final(self)@[q]).id by {
                assert(g1[p].id == final(self)@[p].id);
                assert(g1[q].id == final(self)@[q].id);
            }
            assert forall|p: int|
                0 <= p < final(self)@.len() implies distinct_targets(
                (#[trigger] final(self)@[p]).edges,
            ) by {
                if p != i as int {
                    assert(final(self)@[p] == g1[p]);
                } else {
                    let es = g1[i as int].edges;
                    if edges_contain(es, to@) {
                        let jj = edge_index(es, to@);
                        assert(new_edges =~= es.update(jj, EdgeModel { to: to@, tx: tx@ }));
                        assert forall|a: int, b: int|
                            0 <= a < b < new_edges.len() implies (#[trigger] new_edges[a]).to != (
                        #[trigger] new_edges[b]).to by {
                            assert(es[a].to != es[b].to);
                        }
                    } else {
                        assert forall|a: int, b: int|
                            0 <= a < b < new_edges.len() implies (#[trigger] new_edges[a]).to != (
                        #[trigger] new_edges[b]).to by {
                            if b == new_edges.len() - 1 {
                                assert(new_edges[a] == es[a]);
                            } else {
                                assert(es[a].to != es[b].to);
                            }
                        }
                    }
                }
            }
        }
    }

    /// The out-degree of the node entry at position `i`.
    pub fn out_degree_at(&self, i: usize) -> (r: usize)
        requires
            i < self@.len(),
        ensures
            r == self@[i as int].edges.len(),
    {
        self.nodes[i].edges.len()
    }
}

} // verus!
