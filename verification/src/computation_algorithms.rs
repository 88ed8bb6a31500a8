//! Graph metrics: density, degree distribution, degree and closeness
//! centrality, shortest-path enumeration, betweenness centrality,
//! normalization, summary statistics and top-node ranking.

use vstd::prelude::*;

use std::collections::HashMap;

use crate::find_connected_component::ids_of;
use crate::graph::{
    Graph, NodeModel, edge_index, edge_weight, edges_contain, graph_contains_node, has_edge,
    lemma_edge_index_unique, lemma_node_index_unique, node_edges, node_index, total_edges,
    wf_graph,
};
use crate::helper_algorithm::{
    attains_cost, dijkstra, is_path, is_path_between, is_shortest_distance,
    lemma_increasing_path_len,
    lemma_path_singleton, lemma_path_snoc, lemma_shortest_path_steps, lemma_sum_values_nonneg,
    path_cost, reachable, sum_values, valid_distance_map,
};
use crate::node_map::{NodeMap, contains_key, lemma_key_index_unique, value_of};
use crate::ratio::Ratio;

verus! {

broadcast use vstd::std_specs::hash::group_hash_axioms;

/// How many nodes of `g` have out-degree `d`.
pub open spec fn degree_count(g: Seq<NodeModel>, d: int) -> int
    decreases g.len(),
{
    if g.len() == 0 {
        0
    } else {
        degree_count(g.drop_last(), d) + if g.last().edges.len() == d {
            1int
        } else {
            0int
        }
    }
}

proof fn lemma_degree_count_bounds(g: Seq<NodeModel>, d: int)
    ensures
        0 <= degree_count(g, d) <= g.len(),
    decreases g.len(),
{
    if g.len() > 0 {
        lemma_degree_count_bounds(g.drop_last(), d);
    }
}

proof fn lemma_degree_count_snoc(g: Seq<NodeModel>, i: int, d: int)
    requires
        0 <= i < g.len(),
    ensures
        degree_count(g.take(i + 1), d) == degree_count(g.take(i), d) + if g[i].edges.len() == d {
            1int
        } else {
            0int
        },
{
    assert(g.take(i + 1).drop_last() =~= g.take(i));
    assert(g.take(i + 1).last() == g[i]);
}

proof fn lemma_total_edges_snoc(g: Seq<NodeModel>, i: int)
    requires
        0 <= i < g.len(),
    ensures
        total_edges(g.take(i + 1)) == total_edges(g.take(i)) + g[i].edges.len(),
{
    assert(g.take(i + 1).drop_last() =~= g.take(i));
    assert(g.take(i + 1).last() == g[i]);
}

/// Counts the stored edges of `g`: the sum of all out-degrees.
pub fn count_edges(g: &Graph) -> (r: u128)
    ensures
        r == total_edges(g@),
{
    let n = g.node_count();
    let mut acc: u128 = 0;
    let mut i: usize = 0;
    proof {
        assert(g@.take(0) =~= Seq::<NodeModel>::empty());
    }
    while i < n
        invariant
            n == g@.len(),
            i <= n,
            acc == total_edges(g@.take(i as int)),
            acc <= (i as u128) * 0xFFFF_FFFF_FFFF_FFFFu128,
        decreases n - i,
    {
        let d = g.out_degree_at(i);
        proof {
            lemma_total_edges_snoc(g@, i as int);
            assert(d <= usize::MAX);
            assert(acc + d <= (i as u128) * 0xFFFF_FFFF_FFFF_FFFFu128
                + 0xFFFF_FFFF_FFFF_FFFFu128);
            assert((i as u128) * 0xFFFF_FFFF_FFFF_FFFFu128 + 0xFFFF_FFFF_FFFF_FFFFu128 == ((
            i + 1) as u128) * 0xFFFF_FFFF_FFFF_FFFFu128) by (nonlinear_arith);
            assert(((i + 1) as u128) * 0xFFFF_FFFF_FFFF_FFFFu128 <= u128::MAX) by (nonlinear_arith)
                requires
                    0 <= i + 1 <= 0xFFFF_FFFF_FFFF_FFFFu128,
            ;
        }
        acc = acc + (d as u128);
        i += 1;
    }
    proof {
        assert(g@.take(n as int) =~= g@);
    }
    acc
}

/// Graph density: the number of stored edges over the number of possible
/// directed edges between distinct nodes, `n * (n - 1)`; a graph with fewer
/// than two nodes has density zero.
pub fn compute_density(graph: &Graph) -> (r: Ratio)
    ensures
        r.wf(),
        graph@.len() < 2 ==> r == (Ratio { num: 0, den: 1 }),
        graph@.len() >= 2 ==> r.num == total_edges(graph@) && r.den == (graph@.len() as int) * (
        graph@.len() - 1),
{
    let n = graph.node_count();
    if n < 2 {
        return Ratio::zero();
    }
    let num = count_edges(graph);
    proof {
        assert((n as int) * ((n - 1) as int) <= 0xFFFF_FFFF_FFFF_FFFFu128
            * 0xFFFF_FFFF_FFFF_FFFFu128) by (nonlinear_arith)
            requires
                2 <= n <= 0xFFFF_FFFF_FFFF_FFFFu128,
        ;
        assert((n as int) * ((n - 1) as int) >= 1) by (nonlinear_arith)
            requires
                2 <= n,
        ;
    }
    let den = (n as u128) * ((n - 1) as u128);
    Ratio::new(num, den)
}

/// Out-degree distribution: for every out-degree that occurs in `graph`,
/// how many nodes have it. Degrees that occur on no node are absent.
pub fn compute_degree_distribution(graph: &Graph) -> (r: HashMap<usize, usize>)
    ensures
        forall|d: usize| r@.contains_key(d) <==> degree_count(graph@, d as int) > 0,
        forall|d: usize| r@.contains_key(d) ==> r@[d] == degree_count(graph@, d as int),
{
    let mut counts: HashMap<usize, usize> = HashMap::new();
    let n = graph.node_count();
    let mut i: usize = 0;
    proof {
        assert(graph@.take(0) =~= Seq::<NodeModel>::empty());
    }
    while i < n
        invariant
            n == graph@.len(),
            i <= n,
            forall|d: usize|
                counts@.contains_key(d) <==> degree_count(graph@.take(i as int), d as int) > 0,
            forall|d: usize|
                counts@.contains_key(d) ==> counts@[d] == degree_count(
                    graph@.take(i as int),
                    d as int,
                ),
        decreases n - i,
    {
        let d = graph.out_degree_at(i);
        let c: usize = match counts.get(&d) {
            Some(c) => *c,
            None => 0,
        };
        proof {
            lemma_degree_count_bounds(graph@.take(i as int), d as int);
            assert(graph@.take(i as int).len() == i);
            assert(c < usize::MAX);
        }
        counts.insert(d, c + 1);
        proof {
            assert forall|dd: usize|
                counts@.contains_key(dd) <==> degree_count(
                    graph@.take(i + 1 as int),
                    dd as int,
                ) > 0 by {
                lemma_degree_count_snoc(graph@, i as int, dd as int);
                lemma_degree_count_bounds(graph@.take(i as int), dd as int);
            }
            assert forall|dd: usize| counts@.contains_key(dd) implies counts@[dd] == degree_count(
                graph@.take(i + 1 as int),
                dd as int,
            ) by {
                lemma_degree_count_snoc(graph@, i as int, dd as int);
            }
        }
        i += 1;
    }
    proof {
        assert(graph@.take(n as int) =~= graph@);
    }
    counts
}

/// No edge leads from a node back to itself.
pub open spec fn no_self_loops(g: Seq<NodeModel>) -> bool {
    forall|i: int, j: int|
        0 <= i < g.len() && 0 <= j < g[i].edges.len() ==> (#[trigger] g[i].edges[j]).to != g[i].id
}

/// Every edge leads to a node that has an entry of its own.
pub open spec fn closed_graph(g: Seq<NodeModel>) -> bool {
    forall|i: int, j: int|
        0 <= i < g.len() && 0 <= j < g[i].edges.len() ==> crate::graph::graph_contains_node(
            g,
            (#[trigger] g[i].edges[j]).to,
        )
}

proof fn lemma_total_edges_per_node_bound(g: Seq<NodeModel>, bound: int)
    requires
        forall|i: int| 0 <= i < g.len() ==> (#[trigger] g[i]).edges.len() <= bound,
    ensures
        total_edges(g) <= g.len() * bound,
    decreases g.len(),
{
    if g.len() == 0 {
    } else {
        let p = g.drop_last();
        assert forall|i: int| 0 <= i < p.len() implies (#[trigger] p[i]).edges.len() <= bound by {
            assert(p[i] == g[i]);
        }
        lemma_total_edges_per_node_bound(p, bound);
        assert(g.last().edges.len() <= bound);
        assert((g.len() - 1) * bound + bound == g.len() * bound) by (nonlinear_arith);
    }
}

proof fn lemma_out_degree_at_most(g: Seq<NodeModel>, i: int)
    requires
        wf_graph(g),
        no_self_loops(g),
        closed_graph(g),
        0 <= i < g.len(),
    ensures
        g[i].edges.len() <= g.len() - 1,
{
    broadcast use vstd::seq_lib::seq_to_set_is_finite;

    let tg = g[i].edges.map_values(|e: crate::graph::EdgeModel| e.to);
    assert forall|a: int, b: int| 0 <= a < b < tg.len() implies tg[a] != tg[b] by {
        assert(g[i].edges[a].to != g[i].edges[b].to);
    }
    tg.unique_seq_to_set();
    let ids = g.map_values(|nm: NodeModel| nm.id);
    assert forall|a: int, b: int| 0 <= a < b < ids.len() implies ids[a] != ids[b] by {
        assert(g[a].id != g[b].id);
    }
    ids.unique_seq_to_set();
    let u = ids.to_set().remove(g[i].id);
    assert forall|t: Seq<char>| #[trigger] tg.to_set().contains(t) implies u.contains(t) by {
        assert(tg.contains(t));
        let j = choose|j: int| 0 <= j < tg.len() && tg[j] == t;
        assert(g[i].edges[j].to == t);
        assert(t != g[i].id);
        assert(crate::graph::graph_contains_node(g, t));
        let k = crate::graph::node_index(g, t);
        assert(ids[k] == t);
        assert(ids.contains(t));
    }
    assert(ids.to_set().contains(g[i].id)) by {
        assert(ids[i] == g[i].id);
        assert(ids.contains(g[i].id));
    }
    vstd::set_lib::lemma_len_subset(tg.to_set(), u);
}

/// Density stays in the unit interval: in a graph with distinct ordered
/// pairs only, no self-loops and every destination present as a node, the
/// edge count is at most `n * (n - 1)`, so the fraction [`compute_density`]
/// returns is at most one (and zero for graphs of fewer than two nodes).
pub proof fn lemma_density_unit_range(g: Seq<NodeModel>)
    requires
        wf_graph(g),
        no_self_loops(g),
        closed_graph(g),
    ensures
        0 <= total_edges(g) <= g.len() * (g.len() - 1),
{
    crate::graph::lemma_total_edges_nonneg(g);
    assert forall|i: int| 0 <= i < g.len() implies (#[trigger] g[i]).edges.len() <= g.len()
        - 1 by {
        lemma_out_degree_at_most(g, i);
    }
    lemma_total_edges_per_node_bound(g, g.len() - 1);
}

/// Density is a function of the graph alone: any two fractions meeting the
/// contract of [`compute_density`] are equal, so running it twice on one
/// immutable graph yields identical results.
pub proof fn lemma_density_deterministic(g: Seq<NodeModel>, r1: Ratio, r2: Ratio)
    requires
        g.len() < 2 ==> r1 == (Ratio { num: 0, den: 1 }),
        g.len() >= 2 ==> r1.num == total_edges(g) && r1.den == (g.len() as int) * (g.len() - 1),
        g.len() < 2 ==> r2 == (Ratio { num: 0, den: 1 }),
        g.len() >= 2 ==> r2.num == total_edges(g) && r2.den == (g.len() as int) * (g.len() - 1),
    ensures
        r1 == r2,
{
}

/// The degree distribution is a function of the graph alone: any two maps
/// meeting the contract of [`compute_degree_distribution`] are equal, so
/// running it twice on one immutable graph yields identical results.
pub proof fn lemma_degree_distribution_deterministic(
    g: Seq<NodeModel>,
    m1: Map<usize, usize>,
    m2: Map<usize, usize>,
)
    requires
        forall|d: usize| m1.contains_key(d) <==> degree_count(g, d as int) > 0,
        forall|d: usize| m1.contains_key(d) ==> m1[d] == degree_count(g, d as int),
        forall|d: usize| m2.contains_key(d) <==> degree_count(g, d as int) > 0,
        forall|d: usize| m2.contains_key(d) ==> m2[d] == degree_count(g, d as int),
    ensures
        m1 =~= m2,
{
}

/// `x` capped into the `u128` range.
pub open spec fn sat_cap(x: int) -> u128 {
    if x > u128::MAX {
        u128::MAX
    } else if x < 0 {
        0
    } else {
        x as u128
    }
}

/// Closeness centrality of a node from its shortest-distance map `dm`, in a
/// graph of `n` nodes: `(n - 1)` over the total distance to all reachable
/// nodes, or exactly zero when that total is zero. The total saturates at
/// `u128::MAX`.
pub open spec fn closeness_of(n: int, dm: Seq<(Seq<char>, u128)>) -> Ratio {
    let total = sat_cap(sum_values(dm));
    if total > 0 {
        Ratio { num: sat_cap(n - 1), den: total }
    } else {
        Ratio { num: 0, den: 1 }
    }
}

/// Is `c` the closeness centrality of node `id` in graph `g` of `n` nodes:
/// derived, as [`closeness_of`] says, from some valid shortest-distance map
/// of `id`? All such maps agree on it.
pub open spec fn closeness_entry_ok(g: Seq<NodeModel>, n: int, id: Seq<char>, c: Ratio) -> bool {
    exists|dm: Seq<(Seq<char>, u128)>| valid_distance_map(g, id, dm) && c == closeness_of(n, dm)
}

/// Closeness centrality is a function of the graph and the node alone: any
/// two values derived from valid shortest-distance maps coincide, so
/// running the computation twice on one immutable graph yields identical
/// results.
pub proof fn lemma_closeness_deterministic(
    g: Seq<NodeModel>,
    n: int,
    id: Seq<char>,
    c1: Ratio,
    c2: Ratio,
)
    requires
        closeness_entry_ok(g, n, id, c1),
        closeness_entry_ok(g, n, id, c2),
    ensures
        c1 == c2,
{
    let dm1 = choose|dm: Seq<(Seq<char>, u128)>|
        valid_distance_map(g, id, dm) && c1 == closeness_of(n, dm);
    let dm2 = choose|dm: Seq<(Seq<char>, u128)>|
        valid_distance_map(g, id, dm) && c2 == closeness_of(n, dm);
    crate::helper_algorithm::lemma_distance_map_deterministic(g, id, dm1, dm2);
}

proof fn lemma_sum_values_snoc(dm: Seq<(Seq<char>, u128)>, i: int)
    requires
        0 <= i < dm.len(),
    ensures
        sum_values(dm.take(i + 1)) == sum_values(dm.take(i)) + dm[i].1,
{
    assert(dm.take(i + 1).drop_last() =~= dm.take(i));
    assert(dm.take(i + 1).last() == dm[i]);
}

/// Sums the stored distances, saturating at `u128::MAX`.
fn saturating_total(m: &NodeMap<u128>) -> (r: u128)
    ensures
        r == sat_cap(sum_values(m@)),
{
    let n = m.entries.len();
    let mut acc: u128 = 0;
    let mut i: usize = 0;
    proof {
        assert(m@.take(0) =~= Seq::<(Seq<char>, u128)>::empty());
    }
    while i < n
        invariant
            n == m@.len(),
            i <= n,
            acc == sat_cap(sum_values(m@.take(i as int))),
        decreases n - i,
    {
        let e = m.entries[i].1;
        proof {
            assert(m@[i as int].1 == e);
            lemma_sum_values_snoc(m@, i as int);
            lemma_sum_values_nonneg(m@.take(i as int));
        }
        acc = if acc <= u128::MAX - e {
            acc + e
        } else {
            u128::MAX
        };
        i += 1;
    }
    proof {
        assert(m@.take(n as int) =~= m@);
    }
    acc
}

/// Degree and closeness centrality for every node, in node order.
///
/// Degree centrality is the raw out-degree. Closeness centrality is
/// `(n - 1)` over the node's total shortest distance to all nodes it
/// reaches, or zero when that total is zero (a node with no outgoing
/// paths).
pub fn compute_centrality(graph: &Graph) -> (r: (NodeMap<usize>, NodeMap<Ratio>))
    requires
        graph.wf(),
    ensures
        r.0.wf(),
        r.1.wf(),
        r.0@.len() == graph@.len(),
        forall|i: int|
            0 <= i < graph@.len() ==> (#[trigger] r.0@[i]) == (
                graph@[i].id,
                graph@[i].edges.len() as usize,
            ),
        r.1@.len() == graph@.len(),
        forall|i: int| 0 <= i < graph@.len() ==> (#[trigger] r.1@[i]).0 == graph@[i].id,
        forall|i: int|
            0 <= i < graph@.len() ==> closeness_entry_ok(
                graph@,
                graph@.len() as int,
                graph@[i].id,
                (#[trigger] r.1@[i]).1,
            ),
{
    let ghost g = graph@;
    let n = graph.node_count();
    let mut degree_entries: Vec<(String, usize)> = Vec::new();
    let mut i: usize = 0;
    while i < n
        invariant
            graph.wf(),
            g == graph@,
            n == g.len(),
            i <= n,
            degree_entries@.len() == i,
            forall|j: int|
                0 <= j < i ==> (#[trigger] degree_entries@[j]).0@ == g[j].id
                    && degree_entries@[j].1 == g[j].edges.len(),
        decreases n - i,
    {
        degree_entries.push((graph.nodes[i].id.clone(), graph.nodes[i].edges.len()));
        i += 1;
    }
    let degree_centrality = NodeMap { entries: degree_entries };
    proof {
        assert forall|a: int, b: int|
            0 <= a < b < degree_centrality@.len() implies (#[trigger] degree_centrality@[a]).0 != (
        #[trigger] degree_centrality@[b]).0 by {
            assert(degree_centrality@[a].0 == g[a].id);
            assert(degree_centrality@[b].0 == g[b].id);
        }
    }
    let mut close_entries: Vec<(String, Ratio)> = Vec::new();
    let ghost mut wits: Seq<Seq<(Seq<char>, u128)>> = Seq::empty();
    let mut i2: usize = 0;
    while i2 < n
        invariant
            graph.wf(),
            g == graph@,
            n == g.len(),
            i2 <= n,
            close_entries@.len() == i2,
            wits.len() == i2,
            forall|j: int| 0 <= j < i2 ==> (#[trigger] close_entries@[j]).0@ == g[j].id,
            forall|j: int|
                0 <= j < i2 ==> valid_distance_map(g, g[j].id, #[trigger] wits[j])
                    && close_entries@[j].1 == closeness_of(g.len() as int, wits[j]),
        decreases n - i2,
    {
        let dm = dijkstra(graph, graph.nodes[i2].id.as_str());
        let total = saturating_total(&dm);
        let c = if total > 0 {
            Ratio::new((n - 1) as u128, total)
        } else {
            Ratio::zero()
        };
        proof {
            assert(sat_cap(n as int - 1) == (n - 1) as u128);
            assert(c == closeness_of(g.len() as int, dm@));
            assert(valid_distance_map(g, g[i2 as int].id, dm@));
            wits = wits.push(dm@);
        }
        close_entries.push((graph.nodes[i2].id.clone(), c));
        i2 += 1;
    }
    let closeness_centrality = NodeMap { entries: close_entries };
    proof {
        assert forall|a: int, b: int|
            0 <= a < b < closeness_centrality@.len() implies (
        #[trigger] closeness_centrality@[a]).0 != (#[trigger] closeness_centrality@[b]).0 by {
            assert(closeness_centrality@[a].0 == g[a].id);
            assert(closeness_centrality@[b].0 == g[b].id);
        }
        assert forall|i: int|
            0 <= i < graph@.len() implies closeness_entry_ok(
            graph@,
            graph@.len() as int,
            graph@[i].id,
            (#[trigger] closeness_centrality@[i]).1,
        ) by {
            assert(valid_distance_map(g, g[i].id, wits[i]) && closeness_centrality@[i].1
                == closeness_of(g.len() as int, wits[i]));
        }
    }
    (degree_centrality, closeness_centrality)
}

/// Divides every raw degree by the largest possible degree, `n - 1`,
/// entry by entry and exactly.
pub fn normalize_degree(centrality: &NodeMap<usize>, max_possible_degree: usize) -> (r: NodeMap<
    Ratio,
>)
    requires
        centrality.wf(),
        max_possible_degree >= 1,
    ensures
        r.wf(),
        r@.len() == centrality@.len(),
        forall|i: int|
            0 <= i < centrality@.len() ==> (#[trigger] r@[i]) == (
                centrality@[i].0,
                Ratio { num: centrality@[i].1 as u128, den: max_possible_degree as u128 },
            ),
{
    let n = centrality.entries.len();
    let mut entries: Vec<(String, Ratio)> = Vec::new();
    let mut i: usize = 0;
    while i < n
        invariant
            centrality.wf(),
            n == centrality@.len(),
            i <= n,
            max_possible_degree >= 1,
            entries@.len() == i,
            forall|j: int|
                0 <= j < i ==> (#[trigger] entries@[j]).0@ == centrality@[j].0 && entries@[j].1
                    == (Ratio {
                    num: centrality@[j].1 as u128,
                    den: max_possible_degree as u128,
                }),
        decreases n - i,
    {
        let num = centrality.entries[i].1 as u128;
        entries.push((centrality.entries[i].0.clone(), Ratio::new(num, max_possible_degree as u128)));
        i += 1;
    }
    let r = NodeMap { entries };
    proof {
        assert forall|a: int, b: int|
            0 <= a < b < r@.len() implies (#[trigger] r@[a]).0 != (#[trigger] r@[b]).0 by {
            assert(r@[a].0 == centrality@[a].0);
            assert(r@[b].0 == centrality@[b].0);
        }
    }
    r
}

/// Divides every betweenness score by the number of ordered pairs of other
/// nodes, `(n - 1) * (n - 2)`, entry by entry and exactly.
pub fn normalize_betweenness(centrality: &NodeMap<Ratio>, n: usize) -> (r: NodeMap<Ratio>)
    requires
        centrality.wf(),
        n >= 3,
        ((n - 1) as int) * ((n - 2) as int) <= u128::MAX,
        forall|i: int|
            0 <= i < centrality@.len() ==> (#[trigger] centrality@[i]).1.den * (((n - 1) as int)
                * ((n - 2) as int)) <= u128::MAX,
        forall|i: int| 0 <= i < centrality@.len() ==> (#[trigger] centrality@[i]).1.den >= 1,
    ensures
        r.wf(),
        r@.len() == centrality@.len(),
        forall|i: int|
            0 <= i < centrality@.len() ==> (#[trigger] r@[i]).0 == centrality@[i].0
                && r@[i].1.num == centrality@[i].1.num && r@[i].1.den as int == centrality@[i].1.den
                * (((n - 1) as int) * ((n - 2) as int)),
{
    let factor: u128 = ((n - 1) as u128) * ((n - 2) as u128);
    let m = centrality.entries.len();
    let mut entries: Vec<(String, Ratio)> = Vec::new();
    let mut i: usize = 0;
    while i < m
        invariant
            centrality.wf(),
            m == centrality@.len(),
            i <= m,
            n >= 3,
            factor == ((n - 1) as int) * ((n - 2) as int),
            forall|j: int|
                0 <= j < m ==> (#[trigger] centrality@[j]).1.den * (((n - 1) as int) * ((n
                    - 2) as int)) <= u128::MAX,
            forall|j: int| 0 <= j < m ==> (#[trigger] centrality@[j]).1.den >= 1,
            entries@.len() == i,
            forall|j: int|
                0 <= j < i ==> (#[trigger] entries@[j]).0@ == centrality@[j].0 && entries@[j].1.num
                    == centrality@[j].1.num && entries@[j].1.den as int == centrality@[j].1.den * ((
                (n - 1) as int) * ((n - 2) as int)),
        decreases m - i,
    {
        let v = centrality.entries[i].1;
        proof {
            assert(centrality@[i as int].1 == v);
            assert(v.den * (((n - 1) as int) * ((n - 2) as int)) <= u128::MAX);
            assert(v.den >= 1 && factor >= 1) by (nonlinear_arith)
                requires
                    v.den >= 1,
                    factor == ((n - 1) as int) * ((n - 2) as int),
                    n >= 3,
            ;
            assert(v.den * factor >= 1) by (nonlinear_arith)
                requires
                    v.den >= 1,
                    factor >= 1,
            ;
        }
        let den = v.den * factor;
        entries.push((centrality.entries[i].0.clone(), Ratio::new(v.num, den)));
        i += 1;
    }
    let r = NodeMap { entries };
    proof {
        assert forall|a: int, b: int|
            0 <= a < b < r@.len() implies (#[trigger] r@[a]).0 != (#[trigger] r@[b]).0 by {
            assert(r@[a].0 == centrality@[a].0);
            assert(r@[b].0 == centrality@[b].0);
        }
    }
    r
}

/// The sum of the numerators of a centrality list.
pub open spec fn sum_nums(c: Seq<(Seq<char>, Ratio)>) -> int
    decreases c.len(),
{
    if c.len() == 0 {
        0
    } else {
        sum_nums(c.drop_last()) + c.last().1.num
    }
}

/// The sum of the squared numerators of a centrality list.
pub open spec fn sum_squares(c: Seq<(Seq<char>, Ratio)>) -> int
    decreases c.len(),
{
    if c.len() == 0 {
        0
    } else {
        sum_squares(c.drop_last()) + c.last().1.num * c.last().1.num
    }
}

proof fn lemma_sums_snoc(c: Seq<(Seq<char>, Ratio)>, i: int)
    requires
        0 <= i < c.len(),
    ensures
        sum_nums(c.take(i + 1)) == sum_nums(c.take(i)) + c[i].1.num,
        sum_squares(c.take(i + 1)) == sum_squares(c.take(i)) + c[i].1.num * c[i].1.num,
{
    assert(c.take(i + 1).drop_last() =~= c.take(i));
    assert(c.take(i + 1).last() == c[i]);
}

proof fn lemma_sums_nonneg(c: Seq<(Seq<char>, Ratio)>)
    ensures
        sum_nums(c) >= 0,
        sum_squares(c) >= 0,
    decreases c.len(),
{
    if c.len() > 0 {
        lemma_sums_nonneg(c.drop_last());
        assert(c.last().1.num * c.last().1.num >= 0) by (nonlinear_arith);
    }
}

/// The squared deviations from any value sum to something non-negative.
proof fn lemma_square_deviation(c: Seq<(Seq<char>, Ratio)>, x: int)
    ensures
        sum_squares(c) + c.len() * (x * x) - 2 * x * sum_nums(c) >= 0,
    decreases c.len(),
{
    if c.len() == 0 {
    } else {
        let p = c.drop_last();
        let y = c.last().1.num as int;
        lemma_square_deviation(p, x);
        assert((y - x) * (y - x) >= 0) by (nonlinear_arith);
        assert(sum_squares(c) + c.len() * (x * x) - 2 * x * sum_nums(c) == (sum_squares(p)
            + p.len() * (x * x) - 2 * x * sum_nums(p)) + (y - x) * (y - x)) by (nonlinear_arith)
            requires
                sum_squares(c) == sum_squares(p) + y * y,
                sum_nums(c) == sum_nums(p) + y,
                c.len() == p.len() + 1,
        ;
    }
}

/// The population variance numerator is non-negative:
/// `n * sum of squares >= (sum)^2`.
proof fn lemma_variance_nonneg(c: Seq<(Seq<char>, Ratio)>)
    ensures
        c.len() * sum_squares(c) >= sum_nums(c) * sum_nums(c),
    decreases c.len(),
{
    if c.len() == 0 {
    } else {
        let p = c.drop_last();
        let y = c.last().1.num as int;
        let k = p.len() as int;
        let s = sum_nums(p);
        let q = sum_squares(p);
        lemma_variance_nonneg(p);
        lemma_square_deviation(p, y);
        assert((k + 1) * (q + y * y) >= (s + y) * (s + y)) by (nonlinear_arith)
            requires
                k * q >= s * s,
                q + k * (y * y) - 2 * y * s >= 0,
                k >= 0,
        ;
        assert(c.len() * sum_squares(c) >= sum_nums(c) * sum_nums(c)) by (nonlinear_arith)
            requires
                sum_squares(c) == q + y * y,
                sum_nums(c) == s + y,
                c.len() == k + 1,
                (k + 1) * (q + y * y) >= (s + y) * (s + y),
        ;
    }
}

/// Mean and population variance of a centrality list, as exact fractions:
/// the mean is `sum / (n * d)` and the variance is
/// `(n * sum_of_squares - sum^2) / (n * d)^2`.
///
/// The values must share one denominator `d`, which is how the
/// normalization step hands them over ([`normalize_degree`] ensures every
/// entry carries the same denominator): summing unlike exact fractions
/// would need denominators beyond any fixed machine width. The size bounds
/// keep the exact arithmetic within 128 bits.
pub fn compute_statistics(centrality: &NodeMap<Ratio>) -> (r: (Ratio, Ratio))
    requires
        centrality.wf(),
        centrality@.len() >= 1,
        centrality@.len() <= 0xFFFF_FFFF,
        forall|i: int|
            0 <= i < centrality@.len() ==> (#[trigger] centrality@[i]).1.den
                == centrality@[0].1.den,
        centrality@[0].1.den >= 1,
        centrality@[0].1.den <= 0xFFFF_FFFF,
        forall|i: int| 0 <= i < centrality@.len() ==> (#[trigger] centrality@[i]).1.num
            <= 0xFFFF_FFFF,
    ensures
        ({
            let n = centrality@.len() as int;
            let d = centrality@[0].1.den as int;
            &&& r.0.num == sum_nums(centrality@)
            &&& r.0.den == n * d
            &&& r.1.num == n * sum_squares(centrality@) - sum_nums(centrality@) * sum_nums(
                centrality@,
            )
            &&& r.1.den == (n * d) * (n * d)
            &&& r.0.wf()
            &&& r.1.wf()
        }),
{
    let ghost c = centrality@;
    let n = centrality.entries.len();
    let d = centrality.entries[0].1.den;
    let mut s: u128 = 0;
    let mut q: u128 = 0;
    let mut i: usize = 0;
    proof {
        assert(c.take(0) =~= Seq::<(Seq<char>, Ratio)>::empty());
    }
    while i < n
        invariant
            centrality.wf(),
            c == centrality@,
            n == c.len(),
            i <= n,
            n <= 0xFFFF_FFFF,
            forall|j: int| 0 <= j < n ==> (#[trigger] c[j]).1.num <= 0xFFFF_FFFF,
            s == sum_nums(c.take(i as int)),
            q == sum_squares(c.take(i as int)),
            s <= (i as int) * 0xFFFF_FFFF,
            q <= (i as int) * (0xFFFF_FFFF * 0xFFFF_FFFF),
        decreases n - i,
    {
        let x = centrality.entries[i].1.num;
        proof {
            assert(c[i as int].1 == centrality.entries@[i as int].1);
            assert(x <= 0xFFFF_FFFF);
            lemma_sums_snoc(c, i as int);
            assert(x * x <= 0xFFFF_FFFF * 0xFFFF_FFFF) by (nonlinear_arith)
                requires
                    0 <= x <= 0xFFFF_FFFF,
            ;
            assert((i as int) * 0xFFFF_FFFF + 0xFFFF_FFFF == ((i + 1) as int) * 0xFFFF_FFFF)
                by (nonlinear_arith);
            assert((i as int) * (0xFFFF_FFFF * 0xFFFF_FFFF) + 0xFFFF_FFFF * 0xFFFF_FFFF == ((i
                + 1) as int) * (0xFFFF_FFFF * 0xFFFF_FFFF)) by (nonlinear_arith);
            assert(((i + 1) as int) * 0xFFFF_FFFF <= 0xFFFF_FFFF * 0xFFFF_FFFF)
                by (nonlinear_arith)
                requires
                    i + 1 <= 0xFFFF_FFFF,
            ;
            assert(((i + 1) as int) * (0xFFFF_FFFF * 0xFFFF_FFFF) <= 0xFFFF_FFFF * (0xFFFF_FFFF
                * 0xFFFF_FFFF)) by (nonlinear_arith)
                requires
                    i + 1 <= 0xFFFF_FFFF,
            ;
        }
        s = s + (x as u128);
        q = q + (x as u128) * (x as u128);
        i += 1;
    }
    proof {
        assert(c.take(n as int) =~= c);
        lemma_sums_nonneg(c);
        lemma_variance_nonneg(c);
        assert((n as int) * (d as int) <= 0xFFFF_FFFF * 0xFFFF_FFFF) by (nonlinear_arith)
            requires
                1 <= n <= 0xFFFF_FFFF,
                1 <= d <= 0xFFFF_FFFF,
        ;
        assert((n as int) * (d as int) >= 1) by (nonlinear_arith)
            requires
                n >= 1,
                d >= 1,
        ;
        let nd = (n as int) * (d as int);
        assert(nd * nd <= (0xFFFF_FFFF * 0xFFFF_FFFF) * (0xFFFF_FFFF * 0xFFFF_FFFF))
            by (nonlinear_arith)
            requires
                1 <= nd <= 0xFFFF_FFFF * 0xFFFF_FFFF,
        ;
        assert(nd * nd >= 1) by (nonlinear_arith)
            requires
                nd >= 1,
        ;
        assert((n as int) * sum_squares(c) <= 0xFFFF_FFFF * (0xFFFF_FFFF * (0xFFFF_FFFF
            * 0xFFFF_FFFF))) by (nonlinear_arith)
            requires
                0 <= sum_squares(c) <= 0xFFFF_FFFF * (0xFFFF_FFFF * 0xFFFF_FFFF),
                1 <= n <= 0xFFFF_FFFF,
        ;
        assert(sum_nums(c) * sum_nums(c) <= (n as int) * sum_squares(c)) by {
            lemma_variance_nonneg(c);
            assert((n as int) * sum_squares(c) >= sum_nums(c) * sum_nums(c));
        }
    }
    let nd: u128 = (n as u128) * d;
    let mean = Ratio::new(s, nd);
    let var_num: u128 = (n as u128) * q - s * s;
    let var = Ratio::new(var_num, nd * nd);
    (mean, var)
}

/// Does fraction `a` weigh at least as much as `b`:
/// `a.num/a.den >= b.num/b.den`, compared exactly by cross-multiplication?
pub open spec fn ratio_ge(a: Ratio, b: Ratio) -> bool {
    a.num * b.den >= b.num * a.den
}

/// Exact cross-multiplied comparison of two fractions whose parts fit in
/// 64 bits, so the products fit in 128.
fn ratio_ge_exec(a: &Ratio, b: &Ratio) -> (r: bool)
    requires
        a.num <= 0xFFFF_FFFF_FFFF_FFFFu128,
        a.den <= 0xFFFF_FFFF_FFFF_FFFFu128,
        b.num <= 0xFFFF_FFFF_FFFF_FFFFu128,
        b.den <= 0xFFFF_FFFF_FFFF_FFFFu128,
    ensures
        r == ratio_ge(*a, *b),
{
    proof {
        assert(a.num * b.den <= 0xFFFF_FFFF_FFFF_FFFFu128 * 0xFFFF_FFFF_FFFF_FFFFu128)
            by (nonlinear_arith)
            requires
                a.num <= 0xFFFF_FFFF_FFFF_FFFFu128,
                b.den <= 0xFFFF_FFFF_FFFF_FFFFu128,
        ;
        assert(b.num * a.den <= 0xFFFF_FFFF_FFFF_FFFFu128 * 0xFFFF_FFFF_FFFF_FFFFu128)
            by (nonlinear_arith)
            requires
                b.num <= 0xFFFF_FFFF_FFFF_FFFFu128,
                a.den <= 0xFFFF_FFFF_FFFF_FFFFu128,
        ;
    }
    a.num * b.den >= b.num * a.den
}

/// Where a fraction `v` sorts into a descending list: after every entry
/// weighing at least as much, before the first strictly lighter one.
pub open spec fn insert_pos(s: Seq<(Seq<char>, Ratio)>, v: Ratio) -> int
    decreases s.len(),
{
    if s.len() == 0 {
        0
    } else if !ratio_ge(s[0].1, v) {
        0
    } else {
        1 + insert_pos(s.drop_first(), v)
    }
}

/// A descending list with one entry placed at its stable position.
pub open spec fn insert_desc(s: Seq<(Seq<char>, Ratio)>, e: (Seq<char>, Ratio)) -> Seq<
    (Seq<char>, Ratio),
> {
    s.insert(insert_pos(s, e.1), e)
}

/// The list sorted by exact fraction value, descending and stable: entries
/// are placed one after another in input order.
pub open spec fn sort_desc(s: Seq<(Seq<char>, Ratio)>) -> Seq<(Seq<char>, Ratio)>
    decreases s.len(),
{
    if s.len() == 0 {
        Seq::empty()
    } else {
        insert_desc(sort_desc(s.drop_last()), s.last())
    }
}

proof fn lemma_insert_pos_range(s: Seq<(Seq<char>, Ratio)>, v: Ratio)
    ensures
        0 <= insert_pos(s, v) <= s.len(),
    decreases s.len(),
{
    if s.len() > 0 && ratio_ge(s[0].1, v) {
        lemma_insert_pos_range(s.drop_first(), v);
    }
}

proof fn lemma_insert_pos_at(s: Seq<(Seq<char>, Ratio)>, v: Ratio, k: int)
    requires
        0 <= k <= s.len(),
        forall|kk: int| 0 <= kk < k ==> ratio_ge((#[trigger] s[kk]).1, v),
        k == s.len() || !ratio_ge(s[k].1, v),
    ensures
        insert_pos(s, v) == k,
    decreases s.len(),
{
    if k == 0 {
    } else {
        assert(ratio_ge(s[0].1, v));
        let t = s.drop_first();
        assert forall|kk: int| 0 <= kk < k - 1 implies ratio_ge((#[trigger] t[kk]).1, v) by {
            assert(t[kk] == s[kk + 1]);
        }
        if k - 1 < t.len() {
            assert(t[k - 1] == s[k]);
        }
        lemma_insert_pos_at(t, v, k - 1);
    }
}

/// The `top_n` entries with the highest exact fraction values, in
/// descending value order, ties kept in input order. The 64-bit size
/// bounds keep the cross-multiplied comparisons exact in 128 bits.
pub fn find_top_nodes(centrality: &NodeMap<Ratio>, top_n: usize) -> (r: Vec<(String, Ratio)>)
    requires
        centrality.wf(),
        forall|i: int| 0 <= i < centrality@.len() ==> (#[trigger] centrality@[i]).1.den >= 1,
        forall|i: int|
            0 <= i < centrality@.len() ==> (#[trigger] centrality@[i]).1.num
                <= 0xFFFF_FFFF_FFFF_FFFFu128 && centrality@[i].1.den
                <= 0xFFFF_FFFF_FFFF_FFFFu128,
    ensures
        r@.map_values(|p: (String, Ratio)| (p.0@, p.1)) == sort_desc(centrality@).take(
            if top_n <= centrality@.len() {
                top_n as int
            } else {
                centrality@.len() as int
            },
        ),
        r@.len() == if top_n <= centrality@.len() {
            top_n as int
        } else {
            centrality@.len() as int
        },
{
    let ghost c = centrality@;
    let n = centrality.entries.len();
    let mut sorted: Vec<(String, Ratio)> = Vec::new();
    let mut i: usize = 0;
    proof {
        assert(c.take(0) =~= Seq::<(Seq<char>, Ratio)>::empty());
        assert(sorted@.map_values(|p: (String, Ratio)| (p.0@, p.1)) =~= sort_desc(c.take(0)));
    }
    while i < n
        invariant
            centrality.wf(),
            c == centrality@,
            n == c.len(),
            i <= n,
            forall|j: int|
                0 <= j < c.len() ==> (#[trigger] c[j]).1.num <= 0xFFFF_FFFF_FFFF_FFFFu128
                    && c[j].1.den <= 0xFFFF_FFFF_FFFF_FFFFu128,
            sorted@.len() == i,
            sorted@.map_values(|p: (String, Ratio)| (p.0@, p.1)) == sort_desc(c.take(i as int)),
            forall|kk: int|
                0 <= kk < sorted@.len() ==> (#[trigger] sorted@[kk]).1.num
                    <= 0xFFFF_FFFF_FFFF_FFFFu128 && sorted@[kk].1.den
                    <= 0xFFFF_FFFF_FFFF_FFFFu128,
        decreases n - i,
    {
        let ghost sv = sorted@.map_values(|p: (String, Ratio)| (p.0@, p.1));
        let vr: Ratio = centrality.entries[i].1;
        proof {
            assert(c[i as int].1 == vr);
        }
        let m = sorted.len();
        let mut k: usize = 0;
        while k < m && ratio_ge_exec(&sorted[k].1, &vr)
            invariant
                m == sorted@.len(),
                k <= m,
                vr.num <= 0xFFFF_FFFF_FFFF_FFFFu128,
                vr.den <= 0xFFFF_FFFF_FFFF_FFFFu128,
                forall|kk: int|
                    0 <= kk < sorted@.len() ==> (#[trigger] sorted@[kk]).1.num
                        <= 0xFFFF_FFFF_FFFF_FFFFu128 && sorted@[kk].1.den
                        <= 0xFFFF_FFFF_FFFF_FFFFu128,
                sv == sorted@.map_values(|p: (String, Ratio)| (p.0@, p.1)),
                forall|kk: int| 0 <= kk < k ==> ratio_ge((#[trigger] sv[kk]).1, vr),
            decreases m - k,
        {
            proof {
                assert(ratio_ge(sv[k as int].1, vr));
            }
            k += 1;
        }
        proof {
            assert(k == m || !ratio_ge(sv[k as int].1, vr));
            lemma_insert_pos_at(sv, vr, k as int);
        }
        let entry = (centrality.entries[i].0.clone(), centrality.entries[i].1);
        sorted.insert(k, entry);
        proof {
            assert(c[i as int].1 == vr);
            assert(sorted@.map_values(|p: (String, Ratio)| (p.0@, p.1)) =~= sv.insert(
                k as int,
                (c[i as int].0, c[i as int].1),
            ));
            assert(c.take(i + 1).drop_last() =~= c.take(i as int));
            assert(c.take(i + 1).last() == c[i as int]);
            assert((c[i as int].0, c[i as int].1) == c[i as int]);
            assert(sorted@.map_values(|p: (String, Ratio)| (p.0@, p.1)) == sort_desc(
                c.take(i + 1),
            ));
            assert forall|kk: int|
                0 <= kk < sorted@.len() implies (#[trigger] sorted@[kk]).1.num
                <= 0xFFFF_FFFF_FFFF_FFFFu128 && sorted@[kk].1.den
                <= 0xFFFF_FFFF_FFFF_FFFFu128 by {
                assert(sorted@[kk].1 == sv.insert(k as int, (c[i as int].0, c[i as int].1))[kk].1);
            }
        }
        i += 1;
    }
    proof {
        assert(c.take(n as int) =~= c);
    }
    sorted.truncate(top_n);
    proof {
        if top_n <= n {
            assert(sorted@.map_values(|p: (String, Ratio)| (p.0@, p.1)) =~= sort_desc(c).take(
                top_n as int,
            ));
        } else {
            assert(sort_desc(c).take(c.len() as int) =~= sort_desc(c)) by {
                assert(sort_desc(c).len() == c.len()) by {
                    lemma_sort_desc_len(c);
                }
            }
            assert(sorted@.map_values(|p: (String, Ratio)| (p.0@, p.1)) =~= sort_desc(c).take(
                c.len() as int,
            ));
        }
    }
    sorted
}

proof fn lemma_sort_desc_len(s: Seq<(Seq<char>, Ratio)>)
    ensures
        sort_desc(s).len() == s.len(),
    decreases s.len(),
{
    if s.len() > 0 {
        lemma_sort_desc_len(s.drop_last());
        lemma_insert_pos_range(sort_desc(s.drop_last()), s.last().1);
    }
}

/// Is `p` a least-cost walk in `g` from `s` to `k`?
pub open spec fn good_path(g: Seq<NodeModel>, s: Seq<char>, k: Seq<char>, p: Vec<String>) -> bool {
    &&& ids_of(p@).len() >= 1
    &&& is_path_between(g, ids_of(p@), s, k)
    &&& is_shortest_distance(g, s, k, path_cost(g, ids_of(p@)))
}

/// Every stored path set is non-empty and holds only least-cost walks from
/// `s` to its key.
pub open spec fn paths_inv(
    g: Seq<NodeModel>,
    s: Seq<char>,
    m: Seq<(Seq<char>, Vec<Vec<String>>)>,
) -> bool {
    forall|k: Seq<char>|
        #[trigger] contains_key(m, k) ==> {
            let ps = value_of(m, k)@;
            &&& ps.len() >= 1
            &&& forall|j: int| 0 <= j < ps.len() ==> good_path(g, s, k, ps[j])
        }
}

/// An owned copy of a node path.
fn clone_path(p: &Vec<String>) -> (r: Vec<String>)
    ensures
        r@ == p@,
{
    let n = p.len();
    let mut r: Vec<String> = Vec::new();
    let mut i: usize = 0;
    while i < n
        invariant
            n == p@.len(),
            i <= n,
            r@.len() == i,
            forall|j: int| 0 <= j < i ==> r@[j] == p@[j],
        decreases n - i,
    {
        r.push(p[i].clone());
        i += 1;
    }
    proof {
        assert(r@ =~= p@);
    }
    r
}

/// Adds one walk to the path set of `k`, creating the set if `k` is new.
/// Is the walk `q` one of the collected walks of its endpoint?
pub open spec fn lists_path(
    m: Seq<(Seq<char>, Vec<Vec<String>>)>,
    q: Seq<Seq<char>>,
) -> bool {
    contains_key(m, q.last()) && exists|i: int|
        0 <= i < value_of(m, q.last())@.len() && ids_of(
            (#[trigger] value_of(m, q.last())@[i])@,
        ) == q
}

/// Does `m2` extend `m1`: every key kept, every walk list only grown at
/// the end?
pub open spec fn content_extends(
    m1: Seq<(Seq<char>, Vec<Vec<String>>)>,
    m2: Seq<(Seq<char>, Vec<Vec<String>>)>,
) -> bool {
    forall|k: Seq<char>|
        #[trigger] contains_key(m1, k) ==> contains_key(m2, k) && value_of(m1, k)@.is_prefix_of(
            value_of(m2, k)@,
        )
}

/// Every step of `q` from position `from` on follows an edge of positive
/// weight and advances the stored distance by exactly that weight.
pub open spec fn tight_from(
    g: Seq<NodeModel>,
    dm: Seq<(Seq<char>, u128)>,
    q: Seq<Seq<char>>,
    from: int,
) -> bool {
    forall|k: int|
        from <= k < q.len() && 1 <= k ==> {
            &&& edge_weight(g, #[trigger] q[k - 1], q[k]) >= 1
            &&& contains_key(dm, q[k])
            &&& contains_key(dm, q[k - 1])
            &&& value_of(dm, q[k]) == value_of(dm, q[k - 1]) + edge_weight(g, q[k - 1], q[k])
        }
}

/// No walk is collected twice under any key.
pub open spec fn no_dup_paths(m: Seq<(Seq<char>, Vec<Vec<String>>)>) -> bool {
    forall|k: Seq<char>|
        #[trigger] contains_key(m, k) ==> {
            let vs = value_of(m, k)@;
            forall|i: int, j: int|
                0 <= i < j < vs.len() ==> ids_of((#[trigger] vs[i])@) != ids_of(
                    (#[trigger] vs[j])@,
                )
        }
}

/// Does `q` run through `pv` first: is `pv` a prefix of it (itself
/// included)?
pub open spec fn extends_path(q: Seq<Seq<char>>, pv: Seq<Seq<char>>) -> bool {
    q.len() >= pv.len() && q.take(pv.len() as int) == pv
}

/// A collected walk stays collected when the collection only grows.
proof fn lemma_lists_path_extends(
    m1: Seq<(Seq<char>, Vec<Vec<String>>)>,
    m2: Seq<(Seq<char>, Vec<Vec<String>>)>,
    q: Seq<Seq<char>>,
)
    requires
        lists_path(m1, q),
        content_extends(m1, m2),
    ensures
        lists_path(m2, q),
{
    let v1 = value_of(m1, q.last())@;
    let v2 = value_of(m2, q.last())@;
    let i = choose|i: int| 0 <= i < v1.len() && ids_of((#[trigger] v1[i])@) == q;
    assert(v1.is_prefix_of(v2));
    assert(v2[i] == v1[i]) by {
        assert(v1 =~= v2.subrange(0, v1.len() as int));
        assert(v2.subrange(0, v1.len() as int)[i] == v2[i]);
    }
}

proof fn lemma_content_extends_trans(
    m1: Seq<(Seq<char>, Vec<Vec<String>>)>,
    m2: Seq<(Seq<char>, Vec<Vec<String>>)>,
    m3: Seq<(Seq<char>, Vec<Vec<String>>)>,
)
    requires
        content_extends(m1, m2),
        content_extends(m2, m3),
    ensures
        content_extends(m1, m3),
{
    assert forall|k: Seq<char>| #[trigger] contains_key(m1, k) implies contains_key(m3, k)
        && value_of(m1, k)@.is_prefix_of(value_of(m3, k)@) by {
        let v1 = value_of(m1, k)@;
        let v2 = value_of(m2, k)@;
        let v3 = value_of(m3, k)@;
        assert(v1 =~= v2.subrange(0, v1.len() as int));
        assert(v2 =~= v3.subrange(0, v2.len() as int));
        assert(v1 =~= v3.subrange(0, v1.len() as int));
    }
}

fn append_path(result: &mut NodeMap<Vec<Vec<String>>>, k: &String, p: Vec<String>)
    requires
        old(result).wf(),
    ensures
        final(result).wf(),
        content_extends(old(result)@, final(result)@),
        contains_key(final(result)@, k@),
        !contains_key(old(result)@, k@) ==> value_of(final(result)@, k@)@ =~= seq![p],
        contains_key(old(result)@, k@) ==> value_of(final(result)@, k@)@ == value_of(
            old(result)@,
            k@,
        )@.push(p),
        forall|k2: Seq<char>|
            k2 != k@ ==> (#[trigger] contains_key(final(result)@, k2) <==> contains_key(
                old(result)@,
                k2,
            )),
        forall|k2: Seq<char>|
            k2 != k@ && #[trigger] contains_key(old(result)@, k2) ==> value_of(
                final(result)@,
                k2,
            ) == value_of(old(result)@, k2),
{
    let found = result.find(k);
    match found {
        Some(i) => {
            let mut e = result.entries.remove(i);
            e.1.push(p);
            result.entries.insert(i, e);
            proof {
                let s0 = old(result)@;
                assert(final(result)@ =~= s0.update(
                    i as int,
                    (s0[i as int].0, final(result)@[i as int].1),
                ));
                assert forall|a: int, b: int|
                    0 <= a < b < final(result)@.len() implies (#[trigger] final(result)@[a]).0 != (#[trigger] final(result)@[b]).0 by {
                    assert(final(result)@[a].0 == s0[a].0);
                    assert(final(result)@[b].0 == s0[b].0);
                }
                lemma_key_index_unique(final(result)@, k@, i as int);
                assert(value_of(final(result)@, k@)@ == value_of(s0, k@)@.push(p));
                assert forall|k2: Seq<char>|
                    k2 != k@ implies (#[trigger] contains_key(final(result)@, k2) <==> contains_key(
                    s0,
                    k2,
                )) by {
                    if contains_key(final(result)@, k2) {
                        let j = crate::node_map::key_index(final(result)@, k2);
                        assert(s0[j].0 == k2);
                    }
                    if contains_key(s0, k2) {
                        let j = crate::node_map::key_index(s0, k2);
                        assert(final(result)@[j].0 == k2);
                    }
                }
                assert forall|k2: Seq<char>|
                    k2 != k@ && #[trigger] contains_key(s0, k2) implies value_of(
                    final(result)@,
                    k2,
                ) == value_of(s0, k2) by {
                    let j = crate::node_map::key_index(s0, k2);
                    lemma_key_index_unique(s0, k2, j);
                    assert(final(result)@[j] == s0[j]);
                    lemma_key_index_unique(final(result)@, k2, j);
                }
                assert forall|k2: Seq<char>| #[trigger] contains_key(s0, k2) implies contains_key(
                    final(result)@,
                    k2,
                ) && value_of(s0, k2)@.is_prefix_of(value_of(final(result)@, k2)@) by {
                    if k2 == k@ {
                        let v0 = value_of(s0, k@)@;
                        let v1 = value_of(final(result)@, k@)@;
                        assert(v1 == v0.push(p));
                        assert(v0 =~= v1.subrange(0, v0.len() as int));
                    } else {
                        let v0 = value_of(s0, k2)@;
                        assert(value_of(final(result)@, k2) == value_of(s0, k2));
                        assert(v0 =~= v0.subrange(0, v0.len() as int));
                    }
                }
            }
        },
        None => {
            let mut ps: Vec<Vec<String>> = Vec::new();
            ps.push(p);
            result.entries.push((k.clone(), ps));
            proof {
                let s0 = old(result)@;
                assert(final(result)@ =~= s0.push((k@, final(result)@[s0.len() as int].1)));
                assert forall|a: int, b: int|
                    0 <= a < b < final(result)@.len() implies (#[trigger] final(result)@[a]).0 != (#[trigger] final(result)@[b]).0 by {
                    if b == final(result)@.len() - 1 {
                        assert(final(result)@[a] == s0[a]);
                        assert(!contains_key(s0, k@));
                    } else {
                        assert(final(result)@[a].0 == s0[a].0);
                        assert(final(result)@[b].0 == s0[b].0);
                    }
                }
                lemma_key_index_unique(final(result)@, k@, s0.len() as int);
                assert(value_of(final(result)@, k@)@ =~= seq![p]);
                assert forall|k2: Seq<char>|
                    k2 != k@ implies (#[trigger] contains_key(final(result)@, k2) <==> contains_key(
                    s0,
                    k2,
                )) by {
                    if contains_key(final(result)@, k2) {
                        let j = crate::node_map::key_index(final(result)@, k2);
                        assert(j != s0.len());
                        assert(s0[j].0 == k2);
                    }
                    if contains_key(s0, k2) {
                        let j = crate::node_map::key_index(s0, k2);
                        assert(final(result)@[j].0 == k2);
                    }
                }
                assert forall|k2: Seq<char>|
                    k2 != k@ && #[trigger] contains_key(s0, k2) implies value_of(
                    final(result)@,
                    k2,
                ) == value_of(s0, k2) by {
                    let j = crate::node_map::key_index(s0, k2);
                    lemma_key_index_unique(s0, k2, j);
                    assert(final(result)@[j] == s0[j]);
                    lemma_key_index_unique(final(result)@, k2, j);
                }
                assert forall|k2: Seq<char>| #[trigger] contains_key(s0, k2) implies contains_key(
                    final(result)@,
                    k2,
                ) && value_of(s0, k2)@.is_prefix_of(value_of(final(result)@, k2)@) by {
                    assert(k2 != k@);
                    let v0 = value_of(s0, k2)@;
                    assert(value_of(final(result)@, k2) == value_of(s0, k2));
                    assert(v0 =~= v0.subrange(0, v0.len() as int));
                }
            }
        },
    }
}

/// Records the walk and, while the budget lasts, follows every outgoing
/// edge that continues a least-cost walk, recording each extension under
/// its endpoint. Conversely, every tight positive continuation of the walk
/// within the budget ends up recorded.
#[verifier::rlimit(100)]
#[verifier::spinoff_prover]
fn extend_paths(
    graph: &Graph,
    dist: &NodeMap<u128>,
    path: Vec<String>,
    cost: u128,
    budget: usize,
    result: &mut NodeMap<Vec<Vec<String>>>,
    Ghost(s): Ghost<Seq<char>>,
)
    requires
        graph.wf(),
        dist.wf(),
        valid_distance_map(graph@, s, dist@),
        old(result).wf(),
        path@.len() >= 1,
        is_path_between(graph@, ids_of(path@), s, ids_of(path@).last()),
        contains_key(dist@, ids_of(path@).last()),
        cost == value_of(dist@, ids_of(path@).last()),
        path_cost(graph@, ids_of(path@)) == cost,
        paths_inv(graph@, s, old(result)@),
        no_dup_paths(old(result)@),
        forall|q: Seq<Seq<char>>|
            extends_path(q, ids_of(path@)) ==> !(#[trigger] lists_path(old(result)@, q)),
    ensures
        final(result).wf(),
        paths_inv(graph@, s, final(result)@),
        contains_key(final(result)@, ids_of(path@).last()),
        forall|k: Seq<char>|
            #[trigger] contains_key(old(result)@, k) ==> contains_key(final(result)@, k),
        content_extends(old(result)@, final(result)@),
        lists_path(final(result)@, ids_of(path@)),
        forall|q: Seq<Seq<char>>|
            ({
                &&& is_path(graph@, q)
                &&& q.len() >= ids_of(path@).len()
                &&& q.len() - ids_of(path@).len() <= budget
                &&& q.take(ids_of(path@).len() as int) == ids_of(path@)
                &&& tight_from(graph@, dist@, q, ids_of(path@).len() as int)
            }) ==> #[trigger] lists_path(final(result)@, q),
        no_dup_paths(final(result)@),
        forall|q: Seq<Seq<char>>|
            #[trigger] lists_path(final(result)@, q) && !lists_path(old(result)@, q)
                ==> extends_path(q, ids_of(path@)),
    decreases budget,
{
    let ghost g = graph@;
    let ghost pv = ids_of(path@);
    let ghost tgt = pv.last();
    let last = path.len() - 1;
    let copy = clone_path(&path);
    proof {
        assert(ids_of(copy@) == pv);
        assert(is_shortest_distance(g, s, tgt, cost as int));
        assert(good_path(g, s, tgt, copy));
        assert(ids_of(path@)[last as int] == path@[last as int]@);
    }
    let ghost r0 = result@;
    append_path(result, &path[last], copy);
    proof {
        assert forall|k: Seq<char>| #[trigger] contains_key(result@, k) implies {
            let ps = value_of(result@, k)@;
            ps.len() >= 1 && forall|j: int| 0 <= j < ps.len() ==> good_path(g, s, k, ps[j])
        } by {
            if k == tgt {
                let ps = value_of(result@, k)@;
                if contains_key(r0, k) {
                    let ps0 = value_of(r0, k)@;
                    assert(ps == ps0.push(copy));
                    assert forall|j: int| 0 <= j < ps.len() implies good_path(g, s, k, ps[j]) by {
                        if j < ps0.len() {
                            assert(ps[j] == ps0[j]);
                        } else {
                            assert(ps[j] == copy);
                        }
                    }
                } else {
                    assert(ps =~= seq![copy]);
                    assert(ps[0] == copy);
                }
            } else {
                assert(contains_key(r0, k));
                assert(value_of(result@, k) == value_of(r0, k));
            }
        }
        assert(lists_path(result@, pv)) by {
            let ps = value_of(result@, tgt)@;
            if contains_key(r0, tgt) {
                let i0 = value_of(r0, tgt)@.len() as int;
                assert(ps[i0] == copy);
                assert(ids_of(ps[i0]@) == pv);
            } else {
                assert(ps =~= seq![copy]);
                assert(ids_of(ps[0]@) == pv);
            }
        }
        assert(pv.take(pv.len() as int) =~= pv);
        assert(extends_path(pv, pv));
        assert(!lists_path(r0, pv));
        // The fresh copy is the only new entry, and duplicates stay out.
        assert forall|k: Seq<char>| #[trigger] contains_key(result@, k) implies {
            let vs = value_of(result@, k)@;
            forall|i: int, j2: int|
                0 <= i < j2 < vs.len() ==> ids_of((#[trigger] vs[i])@) != ids_of(
                    (#[trigger] vs[j2])@,
                )
        } by {
            if k == tgt {
                let vs = value_of(result@, k)@;
                if contains_key(r0, k) {
                    let vs0 = value_of(r0, k)@;
                    assert(vs == vs0.push(copy));
                    assert forall|i: int, j2: int|
                        0 <= i < j2 < vs.len() implies ids_of((#[trigger] vs[i])@) != ids_of(
                        (#[trigger] vs[j2])@,
                    ) by {
                        if j2 < vs0.len() {
                            assert(vs[i] == vs0[i] && vs[j2] == vs0[j2]);
                        } else {
                            assert(vs[j2] == copy);
                            assert(vs[i] == vs0[i]);
                            if ids_of(vs0[i]@) == pv {
                                assert(lists_path(r0, pv));
                            }
                        }
                    }
                } else {
                    assert(vs =~= seq![copy]);
                }
            } else {
                assert(contains_key(r0, k));
                assert(value_of(result@, k) == value_of(r0, k));
            }
        }
        assert(no_dup_paths(result@));
        assert forall|q: Seq<Seq<char>>|
            #[trigger] lists_path(result@, q) && !lists_path(r0, q) implies q == pv by {
            if q.last() == tgt {
                let vs = value_of(result@, tgt)@;
                let i = choose|i: int| 0 <= i < vs.len() && ids_of((#[trigger] vs[i])@) == q;
                if contains_key(r0, tgt) {
                    let vs0 = value_of(r0, tgt)@;
                    if i < vs0.len() {
                        assert(vs[i] == vs0[i]);
                        assert(ids_of((vs0[i])@) == q);
                        assert(lists_path(r0, q));
                    } else {
                        assert(vs[i] == copy);
                    }
                } else {
                    assert(vs =~= seq![copy]);
                    assert(vs[i] == copy);
                }
            } else {
                assert(contains_key(r0, q.last()));
                assert(value_of(result@, q.last()) == value_of(r0, q.last()));
                let vs = value_of(result@, q.last())@;
                let i = choose|i: int| 0 <= i < vs.len() && ids_of((#[trigger] vs[i])@) == q;
                assert(ids_of((value_of(r0, q.last())@[i])@) == q);
                assert(lists_path(r0, q));
            }
        }
    }
    let ghost rap = result@;
    if budget == 0 {
        proof {
            assert forall|q: Seq<Seq<char>>|
                ({
                    &&& is_path(g, q)
                    &&& q.len() >= pv.len()
                    &&& q.len() - pv.len() <= budget
                    &&& q.take(pv.len() as int) == pv
                    &&& tight_from(g, dist@, q, pv.len() as int)
                }) implies #[trigger] lists_path(result@, q) by {
                assert(q.len() == pv.len());
                assert(q =~= pv);
            }
        }
        return ;
    }
    let found = graph.find_node(&path[last]);
    match found {
        None => {
            proof {
                assert(node_edges(g, tgt) =~= Seq::<crate::graph::EdgeModel>::empty());
                assert forall|q: Seq<Seq<char>>|
                    ({
                        &&& is_path(g, q)
                        &&& q.len() >= pv.len()
                        &&& q.len() - pv.len() <= budget
                        &&& q.take(pv.len() as int) == pv
                        &&& tight_from(g, dist@, q, pv.len() as int)
                    }) implies #[trigger] lists_path(result@, q) by {
                    if q.len() == pv.len() {
                        assert(q =~= pv);
                    } else {
                        let k0 = pv.len() as int;
                        assert(q[k0 - 1] == pv[k0 - 1]) by {
                            assert(q.take(k0)[k0 - 1] == q[k0 - 1]);
                        }
                        assert(q[k0 - 1] == tgt);
                        assert(has_edge(g, q[k0 - 1], q[k0]));
                        assert(false);
                    }
                }
            }
        },
        Some(ni) => {
            let deg = graph.nodes[ni].edges.len();
            proof {
                assert(graph@[ni as int].edges =~= node_edges(g, tgt));
                lemma_node_index_unique(g, tgt, ni as int);
            }
            let mut j: usize = 0;
            while j < deg
                invariant
                    graph.wf(),
                    g == graph@,
                    dist.wf(),
                    valid_distance_map(g, s, dist@),
                    result.wf(),
                    paths_inv(g, s, result@),
                    contains_key(result@, tgt),
                    forall|k: Seq<char>|
                        #[trigger] contains_key(old(result)@, k) ==> contains_key(result@, k),
                    content_extends(old(result)@, rap),
                    content_extends(rap, result@),
                    lists_path(result@, pv),
                    budget >= 1,
                    ni < g.len(),
                    g[ni as int].id == tgt,
                    g[ni as int].edges == node_edges(g, tgt),
                    node_index(g, tgt) == ni as int,
                    deg == g[ni as int].edges.len(),
                    j <= deg,
                    path@.len() >= 1,
                    pv == ids_of(path@),
                    tgt == pv.last(),
                    is_path_between(g, pv, s, tgt),
                    contains_key(dist@, tgt),
                    cost == value_of(dist@, tgt),
                    path_cost(g, pv) == cost,
                    forall|q: Seq<Seq<char>>|
                        ({
                            &&& is_path(g, q)
                            &&& q.len() > pv.len()
                            &&& q.len() - pv.len() <= budget
                            &&& q.take(pv.len() as int) == pv
                            &&& tight_from(g, dist@, q, pv.len() as int)
                            &&& edge_index(node_edges(g, tgt), q[pv.len() as int]) < j
                        }) ==> #[trigger] lists_path(result@, q),
                    no_dup_paths(result@),
                    extends_path(pv, pv),
                    forall|q: Seq<Seq<char>>|
                        extends_path(q, pv) ==> !(#[trigger] lists_path(old(result)@, q)),
                    forall|q: Seq<Seq<char>>|
                        #[trigger] lists_path(result@, q) && !lists_path(old(result)@, q) ==> (q
                            == pv || (q.len() > pv.len() && extends_path(q, pv) && edge_index(
                            node_edges(g, tgt),
                            q[pv.len() as int],
                        ) < j)),
                decreases deg - j,
            {
                let w: u64 = graph.nodes[ni].edges[j].tx.value;
                let ghost b = g[ni as int].edges[j as int].to;
                proof {
                    assert(node_edges(g, tgt)[j as int].to == b);
                    assert(has_edge(g, tgt, b));
                    lemma_edge_index_unique(node_edges(g, tgt), b, j as int);
                    assert(edge_weight(g, tgt, b) == w);
                }
                let tight_here: bool = match dist.get(&graph.nodes[ni].edges[j].to) {
                    Some(db) => *db >= cost && *db - cost == w as u128,
                    None => false,
                };
                let ghost rj = result@;
                if w > 0 && tight_here {
                    proof {
                        assert(contains_key(dist@, b));
                        assert(value_of(dist@, b) == cost + w);
                    }
                    let next_cost: u128 = cost + (w as u128);
                    let mut np = clone_path(&path);
                    np.push(graph.nodes[ni].edges[j].to.clone());
                    proof {
                        lemma_path_snoc(g, pv, b);
                        assert(ids_of(np@) =~= pv.push(b));
                        assert(path_cost(g, ids_of(np@)) == next_cost);
                        assert(ids_of(np@).last() == b);
                        // Nothing recorded so far runs through the new
                        // prefix: earlier recordings took earlier edges.
                        assert forall|q: Seq<Seq<char>>|
                            extends_path(q, ids_of(np@)) implies !(#[trigger] lists_path(
                            result@,
                            q,
                        )) by {
                            let npv = ids_of(np@);
                            assert(q.take(pv.len() as int) =~= pv) by {
                                assert forall|ii: int|
                                    0 <= ii < pv.len() implies q.take(pv.len() as int)[ii]
                                    == pv[ii] by {
                                    assert(q.take(npv.len() as int)[ii] == q[ii]);
                                    assert(npv[ii] == pv[ii]);
                                }
                            }
                            assert(extends_path(q, pv));
                            assert(q[pv.len() as int] == b) by {
                                assert(q.take(npv.len() as int)[pv.len() as int] == q[pv.len()
                                    as int]);
                                assert(npv[pv.len() as int] == b);
                            }
                            if lists_path(result@, q) {
                                assert(!lists_path(old(result)@, q));
                                assert(q.len() >= pv.len() + 1);
                                assert(edge_index(node_edges(g, tgt), b) == j);
                                assert(false);
                            }
                        }
                    }
                    extend_paths(graph, dist, np, next_cost, budget - 1, result, Ghost(s));
                    proof {
                        lemma_content_extends_trans(rap, rj, result@);
                        lemma_lists_path_extends(rj, result@, pv);
                        assert forall|k: Seq<char>|
                            #[trigger] contains_key(old(result)@, k) implies contains_key(
                            result@,
                            k,
                        ) by {
                            assert(contains_key(rj, k));
                        }
                        assert forall|q: Seq<Seq<char>>|
                            ({
                                &&& is_path(g, q)
                                &&& q.len() > pv.len()
                                &&& q.len() - pv.len() <= budget
                                &&& q.take(pv.len() as int) == pv
                                &&& tight_from(g, dist@, q, pv.len() as int)
                                &&& edge_index(node_edges(g, tgt), q[pv.len() as int]) < j + 1
                            }) implies #[trigger] lists_path(result@, q) by {
                            let k0 = pv.len() as int;
                            assert(q[k0 - 1] == pv[k0 - 1]) by {
                                assert(q.take(k0)[k0 - 1] == q[k0 - 1]);
                            }
                            assert(q[k0 - 1] == tgt);
                            assert(has_edge(g, tgt, q[k0]));
                            let jq = edge_index(node_edges(g, tgt), q[k0]);
                            assert(0 <= jq < node_edges(g, tgt).len() && node_edges(g, tgt)[jq].to
                                == q[k0]);
                            if jq < j {
                                assert(lists_path(rj, q));
                                lemma_lists_path_extends(rj, result@, q);
                            } else {
                                assert(jq == j);
                                assert(q[k0] == b);
                                assert(q.take(k0 + 1) =~= ids_of(np@)) by {
                                    assert forall|ii: int|
                                        0 <= ii < k0 + 1 implies q.take(k0 + 1)[ii] == ids_of(
                                        np@,
                                    )[ii] by {
                                        if ii < k0 {
                                            assert(q.take(k0)[ii] == q[ii]);
                                            assert(ids_of(np@)[ii] == pv[ii]);
                                        }
                                    }
                                }
                                assert(q.len() - ids_of(np@).len() <= budget - 1);
                                assert(tight_from(g, dist@, q, k0 + 1));
                                assert(lists_path(result@, q));
                            }
                        }
                        // Where each recording came from: earlier edges, the
                        // walk itself, or the edge just followed.
                        assert forall|q: Seq<Seq<char>>|
                            #[trigger] lists_path(result@, q) && !lists_path(
                                old(result)@,
                                q,
                            ) implies (q == pv || (q.len() > pv.len() && extends_path(q, pv)
                            && edge_index(node_edges(g, tgt), q[pv.len() as int]) < j + 1)) by {
                            if lists_path(rj, q) {
                            } else {
                                assert(extends_path(q, ids_of(np@)));
                                let npv = ids_of(np@);
                                assert(q.take(pv.len() as int) =~= pv) by {
                                    assert forall|ii: int|
                                        0 <= ii < pv.len() implies q.take(pv.len() as int)[ii]
                                        == pv[ii] by {
                                        assert(q.take(npv.len() as int)[ii] == q[ii]);
                                        assert(npv[ii] == pv[ii]);
                                    }
                                }
                                assert(extends_path(q, pv));
                                assert(q[pv.len() as int] == b) by {
                                    assert(q.take(npv.len() as int)[pv.len() as int] == q[pv.len()
                                        as int]);
                                    assert(npv[pv.len() as int] == b);
                                }
                                assert(edge_index(node_edges(g, tgt), b) == j);
                            }
                        }
                    }
                } else {
                    proof {
                        assert forall|q: Seq<Seq<char>>|
                            ({
                                &&& is_path(g, q)
                                &&& q.len() > pv.len()
                                &&& q.len() - pv.len() <= budget
                                &&& q.take(pv.len() as int) == pv
                                &&& tight_from(g, dist@, q, pv.len() as int)
                                &&& edge_index(node_edges(g, tgt), q[pv.len() as int]) < j + 1
                            }) implies #[trigger] lists_path(result@, q) by {
                            let k0 = pv.len() as int;
                            assert(q[k0 - 1] == pv[k0 - 1]) by {
                                assert(q.take(k0)[k0 - 1] == q[k0 - 1]);
                            }
                            assert(q[k0 - 1] == tgt);
                            assert(has_edge(g, tgt, q[k0]));
                            let jq = edge_index(node_edges(g, tgt), q[k0]);
                            assert(0 <= jq < node_edges(g, tgt).len() && node_edges(g, tgt)[jq].to
                                == q[k0]);
                            if jq < j {
                                assert(lists_path(rj, q));
                            } else {
                                // A tight positive step over this edge would
                                // have been followed.
                                assert(jq == j);
                                assert(q[k0] == b);
                                assert(edge_weight(g, tgt, b) >= 1);
                                assert(w > 0);
                                assert(contains_key(dist@, b));
                                assert(value_of(dist@, b) == cost + w);
                                assert(tight_here);
                                assert(false);
                            }
                        }
                    }
                }
                j += 1;
            }
            proof {
                lemma_content_extends_trans(old(result)@, rap, result@);
                assert forall|q: Seq<Seq<char>>|
                    ({
                        &&& is_path(g, q)
                        &&& q.len() >= pv.len()
                        &&& q.len() - pv.len() <= budget
                        &&& q.take(pv.len() as int) == pv
                        &&& tight_from(g, dist@, q, pv.len() as int)
                    }) implies #[trigger] lists_path(result@, q) by {
                    if q.len() == pv.len() {
                        assert(q =~= pv);
                    } else {
                        let k0 = pv.len() as int;
                        assert(q[k0 - 1] == pv[k0 - 1]) by {
                            assert(q.take(k0)[k0 - 1] == q[k0 - 1]);
                        }
                        assert(q[k0 - 1] == tgt);
                        assert(has_edge(g, tgt, q[k0]));
                        let jq = edge_index(node_edges(g, tgt), q[k0]);
                        assert(0 <= jq < node_edges(g, tgt).len());
                        assert(jq < deg);
                    }
                }
            }
        },
    }
}

/// Does every stored edge weigh at least one?
pub open spec fn min_weight_one(g: Seq<NodeModel>) -> bool {
    forall|i: int, j: int|
        0 <= i < g.len() && 0 <= j < g[i].edges.len() ==> (#[trigger] g[i].edges[j]).tx.value >= 1
}

/// In a graph of minimum weight one, every stored edge weighs at least one.
proof fn lemma_min_weight_edge(g: Seq<NodeModel>, a: Seq<char>, b: Seq<char>)
    requires
        min_weight_one(g),
        has_edge(g, a, b),
    ensures
        edge_weight(g, a, b) >= 1,
{
    let es = node_edges(g, a);
    let je = edge_index(es, b);
    assert(0 <= je < es.len() && es[je].to == b);
    assert(graph_contains_node(g, a)) by {
        if !graph_contains_node(g, a) {
            assert(es =~= Seq::<crate::graph::EdgeModel>::empty());
        }
    }
    let ia = node_index(g, a);
    assert(0 <= ia < g.len() && g[ia].id == a);
    assert(g[ia].edges == es);
    assert(g[ia].edges[je].tx.value >= 1);
    assert(edge_weight(g, a, b) == es[je].tx.value);
}

/// For the start node and every node a positive-weight least-cost walk
/// reaches from it, a non-empty collection of walks, each one proved to be
/// a least-cost walk from `start` to its node.
///
/// On graphs whose edges all weigh at least one the collection is also
/// complete — every least-cost walk from `start` is in it and the key set
/// is exactly the reachable set — and the start node's collection is
/// exactly the one-node walk.
///
/// Zero-weight policy: walks are grown only along edges of positive
/// weight, so in the presence of zero-weight edges (which admit infinitely
/// many tied walks through zero-cost cycles) some tied walks, and nodes
/// reachable only through zero-weight edges, may be absent. This is a
/// deliberate bound on zero weights, stated here and in the contract
/// rather than inherited silently.
pub fn all_shortest_paths(graph: &Graph, start: &str) -> (r: NodeMap<Vec<Vec<String>>>)
    requires
        graph.wf(),
    ensures
        r.wf(),
        contains_key(r@, start@),
        paths_inv(graph@, start@, r@),
        forall|k: Seq<char>| #[trigger] contains_key(r@, k) ==> reachable(graph@, start@, k),
        forall|t: Seq<char>, p: Seq<Seq<char>>|
            min_weight_one(graph@) && #[trigger] is_path_between(graph@, p, start@, t)
                && is_shortest_distance(graph@, start@, t, path_cost(graph@, p)) ==> lists_path(
                r@,
                p,
            ),
        no_dup_paths(r@),
        lists_path(r@, seq![start@]),
        min_weight_one(graph@) ==> (forall|k: Seq<char>|
            #[trigger] contains_key(r@, k) <==> reachable(graph@, start@, k)),
        min_weight_one(graph@) ==> (value_of(r@, start@)@.len() == 1 && ids_of(
            value_of(r@, start@)@[0]@,
        ) == seq![start@]),
{
    let ghost g = graph@;
    let ghost s = start@;
    let dist = dijkstra(graph, start);
    let mut result: NodeMap<Vec<Vec<String>>> = NodeMap::new();
    let mut first: Vec<String> = Vec::new();
    first.push(start.to_owned());
    proof {
        lemma_path_singleton(g, s);
        assert(ids_of(first@) =~= seq![s]);
        assert(ids_of(first@).last() == s);
        assert(ids_of(first@).first() == s);
        assert forall|k: Seq<char>| !(#[trigger] contains_key(result@, k)) by {
            if contains_key(result@, k) {
                let i = crate::node_map::key_index(result@, k);
            }
        }
        assert forall|q: Seq<Seq<char>>|
            extends_path(q, ids_of(first@)) implies !(#[trigger] lists_path(result@, q)) by {
            assert(!contains_key(result@, q.last()));
        }
    }
    let n = graph.node_count();
    let budget = if n < usize::MAX {
        n + 1
    } else {
        n
    };
    extend_paths(graph, &dist, first, 0, budget, &mut result, Ghost(s));
    proof {
        assert forall|k: Seq<char>| #[trigger] contains_key(result@, k) implies reachable(
            g,
            s,
            k,
        ) by {
            let ps = value_of(result@, k)@;
            assert(ps.len() >= 1);
            assert(good_path(g, s, k, ps[0]));
        }
        assert forall|t: Seq<char>, p: Seq<Seq<char>>|
            min_weight_one(g) && #[trigger] is_path_between(g, p, s, t) && is_shortest_distance(
                g,
                s,
                t,
                path_cost(g, p),
            ) implies lists_path(result@, p) by {
            // Every step of a least-cost walk is tight, and its weight is
            // at least one.
            assert forall|k: int|
                1 <= k < p.len() && 1 <= k implies {
                &&& edge_weight(g, #[trigger] p[k - 1], p[k]) >= 1
                &&& contains_key(dist@, p[k])
                &&& contains_key(dist@, p[k - 1])
                &&& value_of(dist@, p[k]) == value_of(dist@, p[k - 1]) + edge_weight(
                    g,
                    p[k - 1],
                    p[k],
                )
            } by {
                lemma_shortest_path_steps(g, s, dist@, p, k);
                assert(has_edge(g, p[k - 1], p[k]));
                lemma_min_weight_edge(g, p[k - 1], p[k]);
            }
            assert(tight_from(g, dist@, p, 1));
            assert forall|k: int|
                1 <= k < p.len() implies value_of(dist@, #[trigger] p[k]) > value_of(
                dist@,
                p[k - 1],
            ) by {
                assert(edge_weight(g, p[k - 1], p[k]) >= 1);
            }
            lemma_increasing_path_len(g, dist@, p);
            assert(p.len() - 1 <= budget);
            assert(p.take(1) =~= ids_of(first@));
            assert(tight_from(g, dist@, p, ids_of(first@).len() as int));
            assert(lists_path(result@, p));
        }
        assert(lists_path(result@, seq![s])) by {
            assert(ids_of(first@) == seq![s]);
        }
        if min_weight_one(g) {
            // Every reachable node has a least-cost walk, which the
            // collection lists; so the key sets coincide.
            assert forall|k: Seq<char>| reachable(g, s, k) implies contains_key(result@, k) by {
                assert(contains_key(dist@, k));
                assert(is_shortest_distance(g, s, k, value_of(dist@, k) as int));
                assert(attains_cost(g, s, k, value_of(dist@, k) as int));
                let p = choose|p: Seq<Seq<char>>|
                    is_path_between(g, p, s, k) && path_cost(g, p) == value_of(dist@, k) as int;
                assert(is_shortest_distance(g, s, k, path_cost(g, p)));
                assert(lists_path(result@, p));
                assert(p.last() == k);
            }
            // The start's collection holds exactly the one-node walk: a
            // longer walk costs at least one, but the least cost to the
            // start is zero.
            let vs = value_of(result@, s)@;
            assert forall|i: int| 0 <= i < vs.len() implies ids_of((#[trigger] vs[i])@)
                == seq![s] by {
                assert(good_path(g, s, s, vs[i]));
                let pw = ids_of(vs[i]@);
                assert(is_path_between(g, pw, s, s));
                assert(is_shortest_distance(g, s, s, path_cost(g, pw)));
                lemma_path_singleton(g, s);
                crate::helper_algorithm::lemma_path_cost_nonneg(g, pw);
                assert(path_cost(g, seq![s]) >= path_cost(g, pw));
                assert(path_cost(g, pw) == 0);
                if pw.len() >= 2 {
                    crate::helper_algorithm::lemma_path_prefix(g, pw, 2);
                    let pre = pw.take(2);
                    assert(pre.len() == 2);
                    assert(path_cost(g, pre) == path_cost(g, pre.drop_last()) + edge_weight(
                        g,
                        pre[0],
                        pre[1],
                    ));
                    assert(pre.drop_last().len() == 1);
                    assert(pre[0] == pw[0] && pre[1] == pw[1]);
                    assert(has_edge(g, pw[0], pw[1]));
                    lemma_min_weight_edge(g, pw[0], pw[1]);
                    assert(path_cost(g, pre) >= 1);
                    assert(false);
                }
                assert(pw.len() == 1);
                assert(pw[0] == s);
                assert(pw =~= seq![s]);
            }
            assert(contains_key(result@, s));
            assert(vs.len() >= 1);
            if vs.len() >= 2 {
                assert(ids_of((vs[0])@) != ids_of((vs[1])@));
                assert(false);
            }
        }
    }
    result
}

/// The least-cost walks in `g` from `s` to `t`.
pub open spec fn shortest_walks(g: Seq<NodeModel>, s: Seq<char>, t: Seq<char>) -> Set<
    Seq<Seq<char>>,
> {
    Set::new(
        |p: Seq<Seq<char>>|
            is_path_between(g, p, s, t) && is_shortest_distance(g, s, t, path_cost(g, p)),
    )
}

/// On graphs whose edges all weigh at least one, a sound, complete and
/// duplicate-free collection lists each least-cost walk exactly once, so
/// the length of the list under `t` is the number of least-cost walks from
/// `s` to `t`. This is what betweenness centrality divides by.
pub proof fn lemma_shortest_walk_count(
    g: Seq<NodeModel>,
    s: Seq<char>,
    t: Seq<char>,
    m: Seq<(Seq<char>, Vec<Vec<String>>)>,
)
    requires
        min_weight_one(g),
        paths_inv(g, s, m),
        no_dup_paths(m),
        contains_key(m, t),
        forall|t2: Seq<char>, p: Seq<Seq<char>>|
            #[trigger] is_path_between(g, p, s, t2) && is_shortest_distance(
                g,
                s,
                t2,
                path_cost(g, p),
            ) ==> lists_path(m, p),
    ensures
        shortest_walks(g, s, t).finite(),
        value_of(m, t)@.len() == shortest_walks(g, s, t).len(),
        value_of(m, t)@.map_values(|p: Vec<String>| ids_of(p@)).to_set() =~= shortest_walks(
            g,
            s,
            t,
        ),
        forall|v: Seq<char>|
            #[trigger] sigma_through(g, s, t, v) == count_interior(value_of(m, t)@, v),
        forall|v: Seq<char>|
            #[trigger] is_between_node(g, s, t, v) <==> count_interior(value_of(m, t)@, v) >= 1,
{
    broadcast use vstd::seq_lib::seq_to_set_is_finite;

    let vs = value_of(m, t)@;
    let views = vs.map_values(|p: Vec<String>| ids_of(p@));
    assert forall|i: int, j: int| 0 <= i < j < views.len() implies views[i] != views[j] by {
        assert(views[i] == ids_of(vs[i]@) && views[j] == ids_of(vs[j]@));
    }
    views.unique_seq_to_set();
    assert(views.to_set() =~= shortest_walks(g, s, t)) by {
        assert forall|p: Seq<Seq<char>>| #[trigger] views.to_set().contains(p) implies
            shortest_walks(g, s, t).contains(p) by {
            assert(views.contains(p));
            let i = choose|i: int| 0 <= i < views.len() && views[i] == p;
            assert(views[i] == ids_of(vs[i]@));
            assert(good_path(g, s, t, vs[i]));
        }
        assert forall|p: Seq<Seq<char>>| #[trigger] shortest_walks(g, s, t).contains(p) implies
            views.to_set().contains(p) by {
            assert(is_path_between(g, p, s, t));
            assert(p.last() == t);
            assert(lists_path(m, p));
            let i = choose|i: int| 0 <= i < vs.len() && ids_of((#[trigger] vs[i])@) == p;
            assert(views[i] == p);
            assert(views.contains(p));
        }
    }
    assert forall|v: Seq<char>| #[trigger] sigma_through(g, s, t, v) == count_interior(
        vs,
        v,
    ) && (is_between_node(g, s, t, v) <==> count_interior(vs, v) >= 1) by {
        lemma_count_interior_card(vs, v);
        assert(through_walks(g, s, t, v) =~= interior_view_set(vs, v)) by {
            assert forall|p: Seq<Seq<char>>|
                #[trigger] through_walks(g, s, t, v).contains(p) implies interior_view_set(
                vs,
                v,
            ).contains(p) by {
                assert(views.to_set().contains(p));
                assert(views.contains(p));
                let i = choose|i: int| 0 <= i < views.len() && views[i] == p;
                assert(ids_of((vs[i])@) == p);
            }
            assert forall|p: Seq<Seq<char>>|
                #[trigger] interior_view_set(vs, v).contains(p) implies through_walks(
                g,
                s,
                t,
                v,
            ).contains(p) by {
                let i = choose|i: int| 0 <= i < vs.len() && ids_of((#[trigger] vs[i])@) == p;
                assert(views[i] == p);
                assert(views.contains(p));
                assert(views.to_set().contains(p));
            }
        }
        if is_between_node(g, s, t, v) {
            let p = choose|p: Seq<Seq<char>>|
                #[trigger] shortest_walks(g, s, t).contains(p) && interior_of(p, v);
            assert(through_walks(g, s, t, v).contains(p));
            assert(through_walks(g, s, t, v).remove(p).len() == through_walks(g, s, t, v).len()
                - 1);
        }
        if count_interior(vs, v) >= 1 {
            assert(through_walks(g, s, t, v).len() >= 1);
            if through_walks(g, s, t, v) =~= Set::<Seq<Seq<char>>>::empty() {
                assert(through_walks(g, s, t, v).len() == 0);
            }
            assert(!(through_walks(g, s, t, v) =~= Set::<Seq<Seq<char>>>::empty()));
            let p = choose|p: Seq<Seq<char>>| #[trigger] through_walks(g, s, t, v).contains(p);
            assert(shortest_walks(g, s, t).contains(p) && interior_of(p, v));
        }
    }
    assert forall|v: Seq<char>| #[trigger] is_between_node(g, s, t, v) implies count_interior(
        vs,
        v,
    ) >= 1 by {
        assert(sigma_through(g, s, t, v) == count_interior(vs, v));
    }
    assert forall|v: Seq<char>| count_interior(vs, v) >= 1 implies is_between_node(g, s, t, v) by {
        assert(sigma_through(g, s, t, v) == count_interior(vs, v));
    }
}

/// Is `v` a strictly interior node of walk `p`: neither endpoint?
pub open spec fn interior_of(p: Seq<Seq<char>>, v: Seq<char>) -> bool {
    exists|i: int| 1 <= i < p.len() - 1 && p[i] == v
}

/// The least-cost walks from `s` to `t` that run strictly through `v`.
pub open spec fn through_walks(
    g: Seq<NodeModel>,
    s: Seq<char>,
    t: Seq<char>,
    v: Seq<char>,
) -> Set<Seq<Seq<char>>> {
    Set::new(
        |p: Seq<Seq<char>>| shortest_walks(g, s, t).contains(p) && interior_of(p, v),
    )
}

/// How many least-cost walks run from `s` to `t`.
pub open spec fn sigma(g: Seq<NodeModel>, s: Seq<char>, t: Seq<char>) -> int {
    shortest_walks(g, s, t).len() as int
}

/// How many of them run strictly through `v`.
pub open spec fn sigma_through(
    g: Seq<NodeModel>,
    s: Seq<char>,
    t: Seq<char>,
    v: Seq<char>,
) -> int {
    through_walks(g, s, t, v).len() as int
}

/// Does some least-cost walk from `s` to `t` run strictly through `v`?
pub open spec fn is_between_node(
    g: Seq<NodeModel>,
    s: Seq<char>,
    t: Seq<char>,
    v: Seq<char>,
) -> bool {
    exists|p: Seq<Seq<char>>| #[trigger] shortest_walks(g, s, t).contains(p) && interior_of(p, v)
}

/// Does `v` lie strictly inside a least-cost walk of some ordered pair of
/// distinct nodes?
pub open spec fn bc_key(g: Seq<NodeModel>, v: Seq<char>) -> bool {
    exists|i: int, j: int|
        0 <= i < g.len() && 0 <= j < g.len() && (#[trigger] g[i]).id != (#[trigger] g[j]).id
            && is_between_node(g, g[i].id, g[j].id, v)
}

/// The same, over the pairs scanned before `(si, ti)` in source-major
/// order.
pub open spec fn bc_key_upto(g: Seq<NodeModel>, v: Seq<char>, si: int, ti: int) -> bool {
    exists|i: int, j: int|
        0 <= i < g.len() && 0 <= j < g.len() && (i < si || (i == si && j < ti)) && (
        #[trigger] g[i]).id != (#[trigger] g[j]).id && is_between_node(g, g[i].id, g[j].id, v)
}

/// One scanned pair folded into the running score of `v`: the pair's walks
/// through `v` over all its walks, added in one exact unreduced step; a
/// pair with no walk through `v` leaves the score unchanged.
pub open spec fn bc_pair_step(
    g: Seq<NodeModel>,
    sid: Seq<char>,
    tid: Seq<char>,
    v: Seq<char>,
    acc: (int, int),
) -> (int, int) {
    if sid != tid && is_between_node(g, sid, tid, v) {
        (
            acc.0 * sigma(g, sid, tid) + sigma_through(g, sid, tid, v) * acc.1,
            acc.1 * sigma(g, sid, tid),
        )
    } else {
        acc
    }
}

/// The running score of `v` once every pair before `(si, ti)` in
/// source-major scan order is folded in, starting from zero.
pub open spec fn bc_frac(g: Seq<NodeModel>, v: Seq<char>, si: int, ti: int) -> (int, int)
    decreases si, ti,
{
    if si <= 0 && ti <= 0 {
        (0int, 1int)
    } else if ti <= 0 {
        bc_frac(g, v, si - 1, g.len() as int)
    } else {
        bc_pair_step(g, g[si].id, g[ti - 1].id, v, bc_frac(g, v, si, ti - 1))
    }
}

/// How many of the walks in `ps` have `v` strictly interior.
pub open spec fn count_interior(ps: Seq<Vec<String>>, v: Seq<char>) -> int
    decreases ps.len(),
{
    if ps.len() == 0 {
        0
    } else {
        count_interior(ps.drop_last(), v) + if interior_of(ids_of(ps.last()@), v) {
            1int
        } else {
            0int
        }
    }
}

/// The distinct node sequences of the walks in `ps` that have `v` strictly
/// interior.
pub open spec fn interior_view_set(vs: Seq<Vec<String>>, v: Seq<char>) -> Set<Seq<Seq<char>>> {
    Set::new(
        |p: Seq<Seq<char>>|
            (exists|i: int| 0 <= i < vs.len() && ids_of((#[trigger] vs[i])@) == p)
                && interior_of(p, v),
    )
}

proof fn lemma_count_interior_bounds(ps: Seq<Vec<String>>, v: Seq<char>)
    ensures
        0 <= count_interior(ps, v) <= ps.len(),
    decreases ps.len(),
{
    if ps.len() > 0 {
        lemma_count_interior_bounds(ps.drop_last(), v);
    }
}

proof fn lemma_count_interior_snoc(ps: Seq<Vec<String>>, v: Seq<char>, i: int)
    requires
        0 <= i < ps.len(),
    ensures
        count_interior(ps.take(i + 1), v) == count_interior(ps.take(i), v) + if interior_of(
            ids_of(ps[i]@),
            v,
        ) {
            1int
        } else {
            0int
        },
{
    assert(ps.take(i + 1).drop_last() =~= ps.take(i));
    assert(ps.take(i + 1).last() == ps[i]);
}

/// With pairwise distinct node sequences, the interior count is the
/// cardinality of the interior view set.
proof fn lemma_count_interior_card(vs: Seq<Vec<String>>, v: Seq<char>)
    requires
        forall|i: int, j: int|
            0 <= i < j < vs.len() ==> ids_of((#[trigger] vs[i])@) != ids_of((#[trigger] vs[j])@),
    ensures
        interior_view_set(vs, v).finite(),
        count_interior(vs, v) == interior_view_set(vs, v).len(),
    decreases vs.len(),
{
    if vs.len() == 0 {
        assert(interior_view_set(vs, v) =~= Set::<Seq<Seq<char>>>::empty());
    } else {
        let prev = vs.drop_last();
        assert forall|i: int, j: int|
            0 <= i < j < prev.len() implies ids_of((#[trigger] prev[i])@) != ids_of(
            (#[trigger] prev[j])@,
        ) by {
            assert(prev[i] == vs[i] && prev[j] == vs[j]);
        }
        lemma_count_interior_card(prev, v);
        let lw = ids_of(vs.last()@);
        if interior_of(lw, v) {
            assert(interior_view_set(vs, v) =~= interior_view_set(prev, v).insert(lw)) by {
                assert forall|p: Seq<Seq<char>>|
                    #[trigger] interior_view_set(vs, v).contains(p) implies interior_view_set(
                    prev,
                    v,
                ).insert(lw).contains(p) by {
                    let i = choose|i: int| 0 <= i < vs.len() && ids_of((#[trigger] vs[i])@) == p;
                    if i < vs.len() - 1 {
                        assert(prev[i] == vs[i]);
                        assert(interior_view_set(prev, v).contains(p));
                    }
                }
                assert forall|p: Seq<Seq<char>>|
                    #[trigger] interior_view_set(prev, v).insert(lw).contains(p) implies
                    interior_view_set(vs, v).contains(p) by {
                    if p == lw {
                        assert(ids_of((vs[vs.len() - 1])@) == p);
                    } else {
                        let i = choose|i: int|
                            0 <= i < prev.len() && ids_of((#[trigger] prev[i])@) == p;
                        assert(vs[i] == prev[i]);
                    }
                }
            }
            assert(!interior_view_set(prev, v).contains(lw)) by {
                if interior_view_set(prev, v).contains(lw) {
                    let i = choose|i: int|
                        0 <= i < prev.len() && ids_of((#[trigger] prev[i])@) == lw;
                    assert(vs[i] == prev[i]);
                    assert(ids_of((vs[i])@) != ids_of((vs[vs.len() - 1])@));
                }
            }
        } else {
            assert(interior_view_set(vs, v) =~= interior_view_set(prev, v)) by {
                assert forall|p: Seq<Seq<char>>|
                    #[trigger] interior_view_set(vs, v).contains(p) implies interior_view_set(
                    prev,
                    v,
                ).contains(p) by {
                    let i = choose|i: int| 0 <= i < vs.len() && ids_of((#[trigger] vs[i])@) == p;
                    assert(i < vs.len() - 1);
                    assert(prev[i] == vs[i]);
                }
                assert forall|p: Seq<Seq<char>>|
                    #[trigger] interior_view_set(prev, v).contains(p) implies interior_view_set(
                    vs,
                    v,
                ).contains(p) by {
                    let i = choose|i: int|
                        0 <= i < prev.len() && ids_of((#[trigger] prev[i])@) == p;
                    assert(vs[i] == prev[i]);
                }
            }
        }
    }
}

/// Exact fraction addition respects value equality: if `a` equals `nn/dd`
/// then `a + k/l` equals `(nn*l + k*dd) / (dd*l)`.
proof fn lemma_frac_add_eq(an: int, ad: int, nn: int, dd: int, k: int, l: int)
    requires
        an * dd == nn * ad,
    ensures
        (an * l + k * ad) * (dd * l) == (nn * l + k * dd) * (ad * l),
{
    assert((an * l + k * ad) * (dd * l) == (an * dd) * (l * l) + (k * ad) * (dd * l))
        by (nonlinear_arith);
    assert((nn * l + k * dd) * (ad * l) == (nn * ad) * (l * l) + (k * dd) * (ad * l))
        by (nonlinear_arith);
    assert((k * ad) * (dd * l) == (k * dd) * (ad * l)) by (nonlinear_arith);
    assert((an * dd) * (l * l) == (nn * ad) * (l * l));
}

/// While no scanned pair has a walk through `v`, its running score is
/// still the starting zero.
proof fn lemma_bc_frac_zero(g: Seq<NodeModel>, v: Seq<char>, si: int, ti: int)
    requires
        !bc_key_upto(g, v, si, ti),
        0 <= si <= g.len(),
        0 <= ti <= g.len(),
        ti >= 1 ==> si < g.len(),
    ensures
        bc_frac(g, v, si, ti) == (0int, 1int),
    decreases si, ti,
{
    if si <= 0 && ti <= 0 {
    } else if ti <= 0 {
        assert(!bc_key_upto(g, v, si - 1, g.len() as int)) by {
            if bc_key_upto(g, v, si - 1, g.len() as int) {
                let (i, j) = choose|i: int, j: int|
                    0 <= i < g.len() && 0 <= j < g.len() && (i < si - 1 || (i == si - 1 && j
                        < g.len())) && (#[trigger] g[i]).id != (#[trigger] g[j]).id
                        && is_between_node(g, g[i].id, g[j].id, v);
                assert(bc_key_upto(g, v, si, ti));
            }
        }
        lemma_bc_frac_zero(g, v, si - 1, g.len() as int);
    } else {
        assert(!bc_key_upto(g, v, si, ti - 1)) by {
            if bc_key_upto(g, v, si, ti - 1) {
                let (i, j) = choose|i: int, j: int|
                    0 <= i < g.len() && 0 <= j < g.len() && (i < si || (i == si && j < ti - 1))
                        && (#[trigger] g[i]).id != (#[trigger] g[j]).id && is_between_node(
                        g,
                        g[i].id,
                        g[j].id,
                        v,
                    );
                assert(bc_key_upto(g, v, si, ti));
            }
        }
        lemma_bc_frac_zero(g, v, si, ti - 1);
        if g[si].id != g[ti - 1].id && is_between_node(g, g[si].id, g[ti - 1].id, v) {
            assert(bc_key_upto(g, v, si, ti));
        }
    }
}

/// Adds two exact fractions without reducing; `None` when the exact result
/// does not fit.
fn ratio_add(a: Ratio, b: Ratio) -> (r: Option<Ratio>)
    requires
        a.wf(),
        b.wf(),
    ensures
        r matches Some(c) ==> c.wf() && c.num as int == a.num * b.den + b.num * a.den
            && c.den as int == a.den * b.den,
{
    let den = a.den.checked_mul(b.den);
    match den {
        None => None,
        Some(d) => {
            proof {
                assert(d >= 1) by (nonlinear_arith)
                    requires
                        a.den >= 1,
                        b.den >= 1,
                        d == a.den * b.den,
                ;
            }
            let x = a.num.checked_mul(b.den);
            match x {
                None => None,
                Some(xv) => {
                    let y = b.num.checked_mul(a.den);
                    match y {
                        None => None,
                        Some(yv) => {
                            let nsum = xv.checked_add(yv);
                            match nsum {
                                None => None,
                                Some(nv) => Some(Ratio::new(nv, d)),
                            }
                        },
                    }
                },
            }
        },
    }
}

/// Did `v` already occur at an interior position of `p` before `upto`?
pub open spec fn interior_prefix(p: Seq<Seq<char>>, v: Seq<char>, upto: int) -> bool {
    exists|i: int| 1 <= i < upto && p[i] == v
}

/// Scanning one more pair extends the scanned-pair predicate by exactly
/// that pair's contribution.
proof fn lemma_bc_key_upto_step(g: Seq<NodeModel>, v: Seq<char>, si: int, ti: int)
    requires
        0 <= si < g.len(),
        0 <= ti < g.len(),
    ensures
        bc_key_upto(g, v, si, ti + 1) <==> (bc_key_upto(g, v, si, ti) || (g[si].id != g[ti].id
            && is_between_node(g, g[si].id, g[ti].id, v))),
{
    if bc_key_upto(g, v, si, ti + 1) {
        let (i, j) = choose|i: int, j: int|
            0 <= i < g.len() && 0 <= j < g.len() && (i < si || (i == si && j < ti + 1)) && (
            #[trigger] g[i]).id != (#[trigger] g[j]).id && is_between_node(g, g[i].id, g[j].id, v);
        if i == si && j == ti {
        } else {
            assert(bc_key_upto(g, v, si, ti));
        }
    }
    if bc_key_upto(g, v, si, ti) {
        let (i, j) = choose|i: int, j: int|
            0 <= i < g.len() && 0 <= j < g.len() && (i < si || (i == si && j < ti)) && (
            #[trigger] g[i]).id != (#[trigger] g[j]).id && is_between_node(g, g[i].id, g[j].id, v);
        assert(bc_key_upto(g, v, si, ti + 1));
    }
    if g[si].id != g[ti].id && is_between_node(g, g[si].id, g[ti].id, v) {
        assert(bc_key_upto(g, v, si, ti + 1));
    }
}

/// Finishing a source's row is the same scan point as starting the next.
proof fn lemma_bc_key_upto_row(g: Seq<NodeModel>, v: Seq<char>, si: int)
    requires
        0 <= si,
    ensures
        bc_key_upto(g, v, si + 1, 0) <==> bc_key_upto(g, v, si, g.len() as int),
{
    if bc_key_upto(g, v, si + 1, 0) {
        let (i, j) = choose|i: int, j: int|
            0 <= i < g.len() && 0 <= j < g.len() && (i < si + 1 || (i == si + 1 && j < 0)) && (
            #[trigger] g[i]).id != (#[trigger] g[j]).id && is_between_node(g, g[i].id, g[j].id, v);
        assert(bc_key_upto(g, v, si, g.len() as int));
    }
    if bc_key_upto(g, v, si, g.len() as int) {
        let (i, j) = choose|i: int, j: int|
            0 <= i < g.len() && 0 <= j < g.len() && (i < si || (i == si && j < g.len() as int))
                && (#[trigger] g[i]).id != (#[trigger] g[j]).id && is_between_node(
                g,
                g[i].id,
                g[j].id,
                v,
            );
        assert(bc_key_upto(g, v, si + 1, 0));
    }
}

/// Folds one source row of ordered pairs into the running scores; reports
/// failure only when an exact score cannot be held, which can only happen
/// when some node lies between some pair.
#[verifier::rlimit(100)]
#[verifier::spinoff_prover]
fn betweenness_add_source(graph: &Graph, si: usize, scores: &mut NodeMap<Ratio>) -> (ok: bool)
    requires
        graph.wf(),
        si < graph@.len(),
        old(scores).wf(),
        forall|i: int| 0 <= i < old(scores)@.len() ==> (#[trigger] old(scores)@[i]).1.wf(),
        min_weight_one(graph@) ==> ({
            &&& (forall|v: Seq<char>|
                #[trigger] contains_key(old(scores)@, v) <==> bc_key_upto(
                    graph@,
                    v,
                    si as int,
                    0,
                ))
            &&& (forall|v: Seq<char>|
                #[trigger] contains_key(old(scores)@, v) ==> value_of(old(scores)@, v).num
                    * bc_frac(graph@, v, si as int, 0).1 == bc_frac(graph@, v, si as int, 0).0
                    * value_of(old(scores)@, v).den)
        }),
    ensures
        final(scores).wf(),
        forall|i: int| 0 <= i < final(scores)@.len() ==> (#[trigger] final(scores)@[i]).1.wf(),
        ok ==> (min_weight_one(graph@) ==> ({
            &&& (forall|v: Seq<char>|
                #[trigger] contains_key(final(scores)@, v) <==> bc_key_upto(
                    graph@,
                    v,
                    si + 1,
                    0,
                ))
            &&& (forall|v: Seq<char>|
                #[trigger] contains_key(final(scores)@, v) ==> value_of(final(scores)@, v).num
                    * bc_frac(graph@, v, si + 1, 0).1 == bc_frac(graph@, v, si + 1, 0).0
                    * value_of(final(scores)@, v).den)
        })),
        !ok ==> (min_weight_one(graph@) ==> exists|v: Seq<char>| bc_key(graph@, v)),
{
    let ghost g = graph@;
    let n = graph.node_count();
        let ghost sid = g[si as int].id;
        let all_paths = all_shortest_paths(graph, graph.nodes[si].id.as_str());
        let mut ti: usize = 0;
        while ti < n
            invariant
                graph.wf(),
                g == graph@,
                n == g.len(),
                si < n,
                ti <= n,
                sid == g[si as int].id,
                scores.wf(),
                all_paths.wf(),
                paths_inv(g, sid, all_paths@),
                no_dup_paths(all_paths@),
                forall|t2: Seq<char>, p: Seq<Seq<char>>|
                    min_weight_one(g) && #[trigger] is_path_between(g, p, sid, t2)
                        && is_shortest_distance(g, sid, t2, path_cost(g, p)) ==> lists_path(
                        all_paths@,
                        p,
                    ),
                min_weight_one(g) ==> (forall|k: Seq<char>|
                    #[trigger] contains_key(all_paths@, k) <==> reachable(g, sid, k)),
                forall|i: int| 0 <= i < scores@.len() ==> (#[trigger] scores@[i]).1.wf(),
                min_weight_one(g) ==> ({
                    &&& (forall|v: Seq<char>|
                        #[trigger] contains_key(scores@, v) <==> bc_key_upto(
                            g,
                            v,
                            si as int,
                            ti as int,
                        ))
                    &&& (forall|v: Seq<char>|
                        #[trigger] contains_key(scores@, v) ==> value_of(scores@, v).num
                            * bc_frac(g, v, si as int, ti as int).1 == bc_frac(
                            g,
                            v,
                            si as int,
                            ti as int,
                        ).0 * value_of(scores@, v).den)
                }),
            decreases n - ti,
        {
            let ghost tid = g[ti as int].id;
            let same = graph.nodes[si].id == graph.nodes[ti].id;
            if !same {
                let got = all_paths.get(&graph.nodes[ti].id);
                match got {
                    None => {
                        proof {
                            if min_weight_one(g) {
                                assert(!contains_key(all_paths@, tid));
                                assert(!reachable(g, sid, tid));
                                assert forall|v: Seq<char>|
                                    !is_between_node(g, sid, tid, v) by {
                                    if is_between_node(g, sid, tid, v) {
                                        let pp = choose|pp: Seq<Seq<char>>|
                                            #[trigger] shortest_walks(g, sid, tid).contains(pp)
                                                && interior_of(pp, v);
                                        assert(is_path_between(g, pp, sid, tid));
                                    }
                                }
                                assert forall|v: Seq<char>|
                                    #[trigger] contains_key(scores@, v) <==> bc_key_upto(
                                    g,
                                    v,
                                    si as int,
                                    ti + 1,
                                ) by {
                                    lemma_bc_key_upto_step(g, v, si as int, ti as int);
                                }
                                assert forall|v: Seq<char>|
                                    #[trigger] contains_key(scores@, v) implies value_of(
                                    scores@,
                                    v,
                                ).num * bc_frac(g, v, si as int, ti + 1).1 == bc_frac(
                                    g,
                                    v,
                                    si as int,
                                    ti + 1,
                                ).0 * value_of(scores@, v).den by {
                                    assert(bc_frac(g, v, si as int, ti + 1) == bc_pair_step(
                                        g,
                                        sid,
                                        tid,
                                        v,
                                        bc_frac(g, v, si as int, ti as int),
                                    ));
                                }
                            }
                        }
                    },
                    Some(paths) => {
                        proof {
                            assert(contains_key(all_paths@, tid));
                            assert(paths@ == value_of(all_paths@, tid)@);
                            assert(value_of(all_paths@, tid)@.len() >= 1);
                            if min_weight_one(g) {
                                assert forall|t2: Seq<char>, p: Seq<Seq<char>>|
                                    #[trigger] is_path_between(g, p, sid, t2)
                                        && is_shortest_distance(
                                        g,
                                        sid,
                                        t2,
                                        path_cost(g, p),
                                    ) implies lists_path(all_paths@, p) by {}
                                lemma_shortest_walk_count(g, sid, tid, all_paths@);
                            }
                        }
                        let l = paths.len();
                        let mut counts: NodeMap<usize> = NodeMap::new();
                        proof {
                            assert forall|v: Seq<char>| !(#[trigger] contains_key(counts@, v)) by {
                                if contains_key(counts@, v) {
                                    let i = crate::node_map::key_index(counts@, v);
                                }
                            }
                            assert(paths@.take(0) =~= Seq::<Vec<String>>::empty());
                        }
                        let mut pi: usize = 0;
                        while pi < l
                            invariant
                                counts.wf(),
                                l == paths@.len(),
                                pi <= l,
                                forall|v: Seq<char>|
                                    #[trigger] contains_key(counts@, v) ==> value_of(counts@, v)
                                        == count_interior(paths@.take(pi as int), v),
                                forall|v: Seq<char>|
                                    #[trigger] contains_key(counts@, v) ==> value_of(counts@, v)
                                        >= 1,
                                forall|v: Seq<char>|
                                    count_interior(paths@.take(pi as int), v) >= 1
                                        ==> #[trigger] contains_key(counts@, v),
                            decreases l - pi,
                        {
                            let plen = paths[pi].len();
                            let ghost pw = ids_of(paths@[pi as int]@);
                            if plen >= 3 {
                                let mut qi: usize = 1;
                                while qi < plen - 1
                                    invariant
                                        counts.wf(),
                                        l == paths@.len(),
                                        pi < l,
                                        plen == paths@[pi as int]@.len(),
                                        pw == ids_of(paths@[pi as int]@),
                                        plen >= 3,
                                        1 <= qi <= plen - 1,
                                        forall|v: Seq<char>|
                                            #[trigger] contains_key(counts@, v) ==> value_of(
                                                counts@,
                                                v,
                                            ) == count_interior(paths@.take(pi as int), v) + (
                                            if interior_prefix(pw, v, qi as int) {
                                                1int
                                            } else {
                                                0int
                                            }),
                                        forall|v: Seq<char>|
                                            #[trigger] contains_key(counts@, v) ==> value_of(
                                                counts@,
                                                v,
                                            ) >= 1,
                                        forall|v: Seq<char>|
                                            (count_interior(paths@.take(pi as int), v) >= 1
                                                || interior_prefix(pw, v, qi as int))
                                                ==> #[trigger] contains_key(counts@, v),
                                    decreases plen - qi,
                                {
                                    let mut seen = false;
                                    let mut rj: usize = 1;
                                    while rj < qi
                                        invariant
                                            l == paths@.len(),
                                            pi < l,
                                            plen == paths@[pi as int]@.len(),
                                            pw == ids_of(paths@[pi as int]@),
                                            1 <= rj <= qi,
                                            qi < plen,
                                            seen == interior_prefix(pw, pw[qi as int], rj as int),
                                        decreases qi - rj,
                                    {
                                        if paths[pi][rj] == paths[pi][qi] {
                                            proof {
                                                assert(pw[rj as int] == pw[qi as int]);
                                            }
                                            seen = true;
                                        }
                                        proof {
                                            if interior_prefix(pw, pw[qi as int], rj + 1) {
                                                let x = choose|x: int|
                                                    1 <= x < rj + 1 && pw[x] == pw[qi as int];
                                                if x < rj {
                                                    assert(interior_prefix(
                                                        pw,
                                                        pw[qi as int],
                                                        rj as int,
                                                    ));
                                                }
                                            }
                                            if seen {
                                                assert(interior_prefix(pw, pw[qi as int], rj + 1));
                                            }
                                        }
                                        rj += 1;
                                    }
                                    let ghost vq = pw[qi as int];
                                    if !seen {
                                        let node = &paths[pi][qi];
                                        proof {
                                            assert(node@ == vq);
                                            lemma_count_interior_bounds(
                                                paths@.take(pi as int),
                                                vq,
                                            );
                                        }
                                        let c: usize = match counts.get(node) {
                                            Some(c) => *c,
                                            None => 0,
                                        };
                                        proof {
                                            assert(!interior_prefix(pw, vq, qi as int));
                                            assert(c == count_interior(paths@.take(pi as int), vq));
                                            assert(c < usize::MAX);
                                        }
                                        let ghost c0 = counts@;
                                        counts.set(node, c + 1);
                                        proof {
                                            crate::node_map::lemma_entries_set(c0, vq, (c + 1) as usize);
                                            assert(interior_prefix(pw, vq, qi + 1)) by {
                                                assert(pw[qi as int] == vq);
                                            }
                                            assert forall|v: Seq<char>|
                                                #[trigger] contains_key(counts@, v) implies
                                                value_of(counts@, v) >= 1 by {
                                                if v != vq {
                                                    assert(value_of(counts@, v) == value_of(
                                                        c0,
                                                        v,
                                                    ));
                                                }
                                            }
                                            assert forall|v: Seq<char>|
                                                #[trigger] contains_key(counts@, v) implies
                                                value_of(counts@, v) == count_interior(
                                                paths@.take(pi as int),
                                                v,
                                            ) + (if interior_prefix(pw, v, qi + 1) {
                                                1int
                                            } else {
                                                0int
                                            }) by {
                                                if v == vq {
                                                } else {
                                                    assert(value_of(counts@, v) == value_of(
                                                        c0,
                                                        v,
                                                    ));
                                                    if interior_prefix(pw, v, qi + 1) {
                                                        let x = choose|x: int|
                                                            1 <= x < qi + 1 && pw[x] == v;
                                                        assert(x < qi);
                                                        assert(interior_prefix(pw, v, qi as int));
                                                    }
                                                    if interior_prefix(pw, v, qi as int) {
                                                        assert(interior_prefix(pw, v, qi + 1));
                                                    }
                                                }
                                            }
                                            assert forall|v: Seq<char>|
                                                (count_interior(paths@.take(pi as int), v) >= 1
                                                    || interior_prefix(pw, v, qi + 1)) implies
                                                #[trigger] contains_key(counts@, v) by {
                                                if v != vq {
                                                    if interior_prefix(pw, v, qi + 1) {
                                                        let x = choose|x: int|
                                                            1 <= x < qi + 1 && pw[x] == v;
                                                        assert(x < qi);
                                                        assert(interior_prefix(pw, v, qi as int));
                                                    }
                                                    assert(contains_key(c0, v));
                                                }
                                            }
                                        }
                                    } else {
                                        proof {
                                            assert(interior_prefix(pw, vq, qi as int));
                                            assert forall|v: Seq<char>|
                                                #[trigger] contains_key(counts@, v) implies
                                                value_of(counts@, v) == count_interior(
                                                paths@.take(pi as int),
                                                v,
                                            ) + (if interior_prefix(pw, v, qi + 1) {
                                                1int
                                            } else {
                                                0int
                                            }) by {
                                                if interior_prefix(pw, v, qi + 1)
                                                    && !interior_prefix(pw, v, qi as int) {
                                                    let x = choose|x: int|
                                                        1 <= x < qi + 1 && pw[x] == v;
                                                    assert(x == qi);
                                                    assert(v == vq);
                                                }
                                            }
                                            assert forall|v: Seq<char>|
                                                (count_interior(paths@.take(pi as int), v) >= 1
                                                    || interior_prefix(pw, v, qi + 1)) implies
                                                #[trigger] contains_key(counts@, v) by {
                                                if interior_prefix(pw, v, qi + 1)
                                                    && !interior_prefix(pw, v, qi as int) {
                                                    let x = choose|x: int|
                                                        1 <= x < qi + 1 && pw[x] == v;
                                                    assert(x == qi);
                                                    assert(v == vq);
                                                }
                                            }
                                        }
                                    }
                                    qi += 1;
                                }
                                proof {
                                    assert forall|v: Seq<char>|
                                        interior_prefix(pw, v, plen - 1) == interior_of(pw, v) by {
                                        assert(pw.len() == plen);
                                    }
                                    assert forall|v: Seq<char>|
                                        #[trigger] contains_key(counts@, v) implies value_of(
                                        counts@,
                                        v,
                                    ) == count_interior(paths@.take(pi + 1), v) by {
                                        lemma_count_interior_snoc(paths@, v, pi as int);
                                    }
                                    assert forall|v: Seq<char>|
                                        count_interior(paths@.take(pi + 1), v) >= 1 implies
                                        #[trigger] contains_key(counts@, v) by {
                                        lemma_count_interior_snoc(paths@, v, pi as int);
                                        lemma_count_interior_bounds(paths@.take(pi as int), v);
                                    }
                                }
                            } else {
                                proof {
                                    assert forall|v: Seq<char>|
                                        !interior_of(pw, v) by {
                                        if interior_of(pw, v) {
                                            let x = choose|x: int|
                                                1 <= x < pw.len() - 1 && pw[x] == v;
                                        }
                                    }
                                    assert forall|v: Seq<char>|
                                        #[trigger] contains_key(counts@, v) implies value_of(
                                        counts@,
                                        v,
                                    ) == count_interior(paths@.take(pi + 1), v) by {
                                        lemma_count_interior_snoc(paths@, v, pi as int);
                                    }
                                    assert forall|v: Seq<char>|
                                        count_interior(paths@.take(pi + 1), v) >= 1 implies
                                        #[trigger] contains_key(counts@, v) by {
                                        lemma_count_interior_snoc(paths@, v, pi as int);
                                        lemma_count_interior_bounds(paths@.take(pi as int), v);
                                    }
                                }
                            }
                            pi += 1;
                        }
                        proof {
                            assert(paths@.take(l as int) =~= paths@);
                        }
                        let m2 = counts.entries.len();
                        let mut ci: usize = 0;
                        while ci < m2
                            invariant
                                graph.wf(),
                                g == graph@,
                                n == g.len(),
                                si < n,
                                ti < n,
                                sid == g[si as int].id,
                                tid == g[ti as int].id,
                                sid != tid,
                                scores.wf(),
                                counts.wf(),
                                m2 == counts@.len(),
                                ci <= m2,
                                l == paths@.len(),
                                l >= 1,
                                forall|i: int|
                                    0 <= i < scores@.len() ==> (#[trigger] scores@[i]).1.wf(),
                                forall|v: Seq<char>|
                                    #[trigger] contains_key(counts@, v) ==> value_of(counts@, v)
                                        == count_interior(paths@, v),
                                forall|v: Seq<char>|
                                    #[trigger] contains_key(counts@, v) ==> value_of(counts@, v)
                                        >= 1,
                                forall|v: Seq<char>|
                                    count_interior(paths@, v) >= 1 ==> #[trigger] contains_key(
                                        counts@,
                                        v,
                                    ),
                                min_weight_one(g) ==> ({
                                    &&& sigma(g, sid, tid) == l
                                    &&& (forall|v: Seq<char>|
                                        #[trigger] sigma_through(g, sid, tid, v)
                                            == count_interior(paths@, v))
                                    &&& (forall|v: Seq<char>|
                                        #[trigger] is_between_node(g, sid, tid, v)
                                            <==> count_interior(paths@, v) >= 1)
                                    &&& (forall|v: Seq<char>|
                                        #[trigger] contains_key(scores@, v) <==> (bc_key_upto(
                                            g,
                                            v,
                                            si as int,
                                            ti as int,
                                        ) || (contains_key(counts@, v)
                                            && crate::node_map::key_index(counts@, v)
                                            < ci as int)))
                                    &&& (forall|v: Seq<char>|
                                        #[trigger] contains_key(scores@, v) && contains_key(
                                            counts@,
                                            v,
                                        ) && crate::node_map::key_index(counts@, v) < ci as int
                                            ==> ({
                                            let f2 = bc_pair_step(
                                                g,
                                                sid,
                                                tid,
                                                v,
                                                bc_frac(g, v, si as int, ti as int),
                                            );
                                            value_of(scores@, v).num * f2.1 == f2.0 * value_of(
                                                scores@,
                                                v,
                                            ).den
                                        }))
                                    &&& (forall|v: Seq<char>|
                                        #[trigger] contains_key(scores@, v) && !(contains_key(
                                            counts@,
                                            v,
                                        ) && crate::node_map::key_index(counts@, v) < ci as int)
                                            ==> value_of(scores@, v).num * bc_frac(
                                            g,
                                            v,
                                            si as int,
                                            ti as int,
                                        ).1 == bc_frac(g, v, si as int, ti as int).0 * value_of(
                                            scores@,
                                            v,
                                        ).den)
                                }),
                            decreases m2 - ci,
                        {
                            let k: usize = counts.entries[ci].1;
                            let ghost vv = counts.entries@[ci as int].0@;
                            proof {
                                assert(counts@[ci as int].0 == vv);
                                crate::node_map::lemma_key_index_unique(counts@, vv, ci as int);
                                assert(value_of(counts@, vv) == k);
                                lemma_count_interior_bounds(paths@, vv);
                                assert(value_of(counts@, vv) >= 1);
                                assert(count_interior(paths@, vv) >= 1);
                            }
                            proof {
                                assert(k >= 1 && k <= l) by {
                                    assert(k == count_interior(paths@, vv));
                                }
                            }
                            let cur: Ratio = match scores.get(&counts.entries[ci].0) {
                                Some(c) => *c,
                                None => Ratio::zero(),
                            };
                            let added = ratio_add(cur, Ratio::new(k as u128, l as u128));
                            match added {
                                None => {
                                    proof {
                                        if min_weight_one(g) {
                                            assert(is_between_node(g, sid, tid, vv));
                                            assert(bc_key(g, vv));
                                        }
                                    }
                                    return false;
                                },
                                Some(nv) => {
                                    let ghost s0 = scores@;
                                    scores.set(&counts.entries[ci].0, nv);
                                    proof {
                                        crate::node_map::lemma_entries_set(s0, vv, nv);
                                        if min_weight_one(g) {
                                            let fold = bc_frac(g, vv, si as int, ti as int);
                                            let f2 = bc_pair_step(g, sid, tid, vv, fold);
                                            assert(is_between_node(g, sid, tid, vv));
                                            assert(sigma(g, sid, tid) == l);
                                            assert(sigma_through(g, sid, tid, vv) == k);
                                            assert(f2 == (
                                                fold.0 * l + k * fold.1,
                                                fold.1 * l,
                                            ));
                                            assert(cur.num * fold.1 == fold.0 * cur.den) by {
                                                if contains_key(s0, vv) {
                                                    assert(!(contains_key(counts@, vv)
                                                        && crate::node_map::key_index(counts@, vv)
                                                        < ci as int));
                                                } else {
                                                    assert(!bc_key_upto(
                                                        g,
                                                        vv,
                                                        si as int,
                                                        ti as int,
                                                    ));
                                                    lemma_bc_frac_zero(
                                                        g,
                                                        vv,
                                                        si as int,
                                                        ti as int,
                                                    );
                                                    assert(cur == (Ratio { num: 0, den: 1 }));
                                                }
                                            }
                                            assert(nv.num as int == cur.num * l + k * cur.den);
                                            assert(nv.den as int == cur.den * l);
                                            lemma_frac_add_eq(
                                                cur.num as int,
                                                cur.den as int,
                                                fold.0,
                                                fold.1,
                                                k as int,
                                                l as int,
                                            );
                                            assert(nv.num * f2.1 == f2.0 * nv.den);
                                            assert forall|v: Seq<char>|
                                                #[trigger] contains_key(scores@, v) <==> (
                                            bc_key_upto(g, v, si as int, ti as int) || (
                                            contains_key(counts@, v)
                                                && crate::node_map::key_index(counts@, v) < ci
                                                + 1)) by {
                                                if v != vv {
                                                    if contains_key(counts@, v)
                                                        && crate::node_map::key_index(counts@, v)
                                                        == ci as int {
                                                        crate::node_map::lemma_key_index_unique(
                                                            counts@,
                                                            v,
                                                            ci as int,
                                                        );
                                                    }
                                                }
                                            }
                                            assert forall|v: Seq<char>|
                                                #[trigger] contains_key(scores@, v)
                                                    && contains_key(counts@, v)
                                                    && crate::node_map::key_index(counts@, v) < ci
                                                    + 1 implies ({
                                                let f3 = bc_pair_step(
                                                    g,
                                                    sid,
                                                    tid,
                                                    v,
                                                    bc_frac(g, v, si as int, ti as int),
                                                );
                                                value_of(scores@, v).num * f3.1 == f3.0
                                                    * value_of(scores@, v).den
                                            }) by {
                                                if v == vv {
                                                    assert(value_of(scores@, vv) == nv);
                                                } else {
                                                    assert(value_of(scores@, v) == value_of(
                                                        s0,
                                                        v,
                                                    ));
                                                    assert(crate::node_map::key_index(counts@, v)
                                                        != ci as int);
                                                }
                                            }
                                            assert forall|v: Seq<char>|
                                                #[trigger] contains_key(scores@, v) && !(
                                            contains_key(counts@, v)
                                                && crate::node_map::key_index(counts@, v) < ci
                                                + 1) implies value_of(scores@, v).num * bc_frac(
                                                g,
                                                v,
                                                si as int,
                                                ti as int,
                                            ).1 == bc_frac(g, v, si as int, ti as int).0
                                                * value_of(scores@, v).den by {
                                                assert(v != vv);
                                                assert(value_of(scores@, v) == value_of(s0, v));
                                            }
                                        }
                                        assert forall|i: int|
                                            0 <= i < scores@.len() implies (
                                        #[trigger] scores@[i]).1.wf() by {
                                            if contains_key(s0, vv) {
                                                let ki = crate::node_map::key_index(s0, vv);
                                                if i != ki {
                                                    assert(scores@[i] == s0[i]);
                                                }
                                            } else {
                                                if i < s0.len() {
                                                    assert(scores@[i] == s0[i]);
                                                }
                                            }
                                        }
                                    }
                                },
                            }
                            ci += 1;
                        }
                        proof {
                            if min_weight_one(g) {
                                assert forall|v: Seq<char>|
                                    #[trigger] contains_key(scores@, v) <==> bc_key_upto(
                                    g,
                                    v,
                                    si as int,
                                    ti + 1,
                                ) by {
                                    lemma_bc_key_upto_step(g, v, si as int, ti as int);
                                    if contains_key(counts@, v) {
                                        assert(crate::node_map::key_index(counts@, v) < m2 as int)
                                            by {
                                            let ki = crate::node_map::key_index(counts@, v);
                                        }
                                        assert(count_interior(paths@, v) >= 1);
                                        assert(is_between_node(g, sid, tid, v));
                                    }
                                    if is_between_node(g, sid, tid, v) {
                                        assert(count_interior(paths@, v) >= 1);
                                        assert(contains_key(counts@, v));
                                    }
                                }
                                assert forall|v: Seq<char>|
                                    #[trigger] contains_key(scores@, v) implies value_of(
                                    scores@,
                                    v,
                                ).num * bc_frac(g, v, si as int, ti + 1).1 == bc_frac(
                                    g,
                                    v,
                                    si as int,
                                    ti + 1,
                                ).0 * value_of(scores@, v).den by {
                                    assert(bc_frac(g, v, si as int, ti + 1) == bc_pair_step(
                                        g,
                                        sid,
                                        tid,
                                        v,
                                        bc_frac(g, v, si as int, ti as int),
                                    ));
                                    if contains_key(counts@, v) {
                                        assert(crate::node_map::key_index(counts@, v) < m2 as int)
                                            by {
                                            let ki = crate::node_map::key_index(counts@, v);
                                        }
                                    } else {
                                        assert(count_interior(paths@, v) == 0) by {
                                            lemma_count_interior_bounds(paths@, v);
                                            if count_interior(paths@, v) >= 1 {
                                                assert(contains_key(counts@, v));
                                            }
                                        }
                                        assert(!is_between_node(g, sid, tid, v));
                                    }
                                }
                            }
                        }
                    },
                }
            } else {
                proof {
                    if min_weight_one(g) {
                        assert(sid == tid);
                        assert forall|v: Seq<char>|
                            #[trigger] contains_key(scores@, v) <==> bc_key_upto(
                            g,
                            v,
                            si as int,
                            ti + 1,
                        ) by {
                            lemma_bc_key_upto_step(g, v, si as int, ti as int);
                        }
                        assert forall|v: Seq<char>|
                            #[trigger] contains_key(scores@, v) implies value_of(scores@, v).num
                            * bc_frac(g, v, si as int, ti + 1).1 == bc_frac(
                            g,
                            v,
                            si as int,
                            ti + 1,
                        ).0 * value_of(scores@, v).den by {
                            assert(bc_frac(g, v, si as int, ti + 1) == bc_pair_step(
                                g,
                                sid,
                                tid,
                                v,
                                bc_frac(g, v, si as int, ti as int),
                            ));
                        }
                    }
                }
            }
            ti += 1;
        }
        proof {
            if min_weight_one(g) {
                assert forall|v: Seq<char>|
                    #[trigger] contains_key(scores@, v) <==> bc_key_upto(g, v, si + 1, 0) by {
                    lemma_bc_key_upto_row(g, v, si as int);
                }
                assert forall|v: Seq<char>|
                    #[trigger] contains_key(scores@, v) implies value_of(scores@, v).num
                    * bc_frac(g, v, si + 1, 0).1 == bc_frac(g, v, si + 1, 0).0 * value_of(
                    scores@,
                    v,
                ).den by {
                    assert(bc_frac(g, v, si + 1, 0) == bc_frac(g, v, si as int, g.len() as int));
                }
            }
        }
    true
}

/// Betweenness centrality by shortest-path counting: for every ordered pair
/// of distinct nodes, each node strictly inside one of the pair's
/// least-cost walks is credited with the pair's walks through it over all
/// the pair's walks; scores are then divided by `(n - 1) * (n - 2)` when
/// the graph has at least three nodes. All arithmetic is exact; `None` is
/// returned only if an exact score cannot be held in 128 bits. On graphs
/// whose edges all weigh at least one, the walk sets are exactly the
/// least-cost walks ([`all_shortest_paths`]), and the contract pins each
/// returned score to the pair-by-pair fold [`bc_frac`] of those counts;
/// with zero-weight edges the cutoffs documented there apply.
#[verifier::rlimit(100)]
#[verifier::spinoff_prover]
pub fn compute_betweeness_centrality(graph: &Graph) -> (r: Option<NodeMap<Ratio>>)
    requires
        graph.wf(),
    ensures
        r matches Some(m) ==> m.wf() && forall|i: int|
            0 <= i < m@.len() ==> (#[trigger] m@[i]).1.wf(),
        min_weight_one(graph@) ==> match r {
            Some(m) => {
                &&& (forall|v: Seq<char>| #[trigger] contains_key(m@, v) <==> bc_key(graph@, v))
                &&& (forall|v: Seq<char>|
                    #[trigger] contains_key(m@, v) ==> ({
                        let f = bc_frac(graph@, v, graph@.len() as int, 0);
                        let nf = if graph@.len() >= 3 {
                            f.1 * ((graph@.len() - 1) * (graph@.len() - 2))
                        } else {
                            f.1
                        };
                        value_of(m@, v).num * nf == f.0 * value_of(m@, v).den
                    }))
            },
            None => true,
        },
        (min_weight_one(graph@) && (forall|v: Seq<char>| !bc_key(graph@, v))) ==> r is Some,
{
    let ghost g = graph@;
    let n = graph.node_count();
    let mut scores: NodeMap<Ratio> = NodeMap::new();
    proof {
        assert forall|v: Seq<char>| !(#[trigger] contains_key(scores@, v)) by {
            if contains_key(scores@, v) {
                let i = crate::node_map::key_index(scores@, v);
            }
        }
        assert forall|v: Seq<char>| !(#[trigger] bc_key_upto(g, v, 0, 0)) by {
            if bc_key_upto(g, v, 0, 0) {
                let (i, j) = choose|i: int, j: int|
                    0 <= i < g.len() && 0 <= j < g.len() && (i < 0 || (i == 0 && j < 0)) && (
                    #[trigger] g[i]).id != (#[trigger] g[j]).id && is_between_node(
                        g,
                        g[i].id,
                        g[j].id,
                        v,
                    );
            }
        }
    }
    let mut si: usize = 0;
    while si < n
        invariant
            graph.wf(),
            g == graph@,
            n == g.len(),
            si <= n,
            scores.wf(),
            forall|i: int| 0 <= i < scores@.len() ==> (#[trigger] scores@[i]).1.wf(),
            min_weight_one(g) ==> ({
                &&& (forall|v: Seq<char>|
                    #[trigger] contains_key(scores@, v) <==> bc_key_upto(g, v, si as int, 0))
                &&& (forall|v: Seq<char>|
                    #[trigger] contains_key(scores@, v) ==> value_of(scores@, v).num * bc_frac(
                        g,
                        v,
                        si as int,
                        0,
                    ).1 == bc_frac(g, v, si as int, 0).0 * value_of(scores@, v).den)
            }),
        decreases n - si,
    {
        let ok = betweenness_add_source(graph, si, &mut scores);
        if !ok {
            return None;
        }
        si += 1;
    }
    proof {
        if min_weight_one(g) {
            assert forall|v: Seq<char>|
                #[trigger] contains_key(scores@, v) <==> bc_key(g, v) by {
                if bc_key_upto(g, v, n as int, 0) {
                    let (i, j) = choose|i: int, j: int|
                        0 <= i < g.len() && 0 <= j < g.len() && (i < n as int || (i == n as int
                            && j < 0)) && (#[trigger] g[i]).id != (#[trigger] g[j]).id
                            && is_between_node(g, g[i].id, g[j].id, v);
                    assert(bc_key(g, v));
                }
                if bc_key(g, v) {
                    let (i, j) = choose|i: int, j: int|
                        0 <= i < g.len() && 0 <= j < g.len() && (#[trigger] g[i]).id != (
                        #[trigger] g[j]).id && is_between_node(g, g[i].id, g[j].id, v);
                    assert(bc_key_upto(g, v, n as int, 0));
                }
            }
        }
    }
    if n >= 3 {
        proof {
            assert(((n - 1) as int) * ((n - 2) as int) <= u128::MAX) by (nonlinear_arith)
                requires
                    3 <= n <= 0xFFFF_FFFF_FFFF_FFFFu128,
            ;
            assert(((n - 1) as int) * ((n - 2) as int) >= 1) by (nonlinear_arith)
                requires
                    n >= 3,
            ;
        }
        let factor: u128 = ((n - 1) as u128) * ((n - 2) as u128);
        let m = scores.entries.len();
        let mut entries: Vec<(String, Ratio)> = Vec::new();
        let mut i: usize = 0;
        while i < m
            invariant
                graph.wf(),
                g == graph@,
                n == g.len(),
                n >= 3,
                scores.wf(),
                m == scores@.len(),
                i <= m,
                factor >= 1,
                factor == ((n - 1) as int) * ((n - 2) as int),
                forall|j: int| 0 <= j < m ==> (#[trigger] scores@[j]).1.wf(),
                min_weight_one(g) ==> ({
                    &&& (forall|v: Seq<char>|
                        #[trigger] contains_key(scores@, v) <==> bc_key(g, v))
                    &&& (forall|v: Seq<char>|
                        #[trigger] contains_key(scores@, v) ==> value_of(scores@, v).num
                            * bc_frac(g, v, n as int, 0).1 == bc_frac(g, v, n as int, 0).0
                            * value_of(scores@, v).den)
                }),
                entries@.len() == i,
                forall|j: int|
                    0 <= j < i ==> (#[trigger] entries@[j]).0@ == scores@[j].0 && entries@[j].1.wf()
                        && entries@[j].1.num == scores@[j].1.num && entries@[j].1.den as int
                        == scores@[j].1.den * (((n - 1) as int) * ((n - 2) as int)),
            decreases m - i,
        {
            let v = scores.entries[i].1;
            let nd = v.den.checked_mul(factor);
            match nd {
                None => {
                    proof {
                        if min_weight_one(g) {
                            assert(contains_key(scores@, scores@[i as int].0)) by {
                                crate::node_map::lemma_key_index_unique(
                                    scores@,
                                    scores@[i as int].0,
                                    i as int,
                                );
                            }
                            assert(bc_key(g, scores@[i as int].0));
                        }
                    }
                    return None;
                },
                Some(d) => {
                    proof {
                        assert(scores@[i as int].1 == v);
                        assert(d >= 1) by (nonlinear_arith)
                            requires
                                v.den >= 1,
                                factor >= 1,
                                d == v.den * factor,
                        ;
                    }
                    entries.push((scores.entries[i].0.clone(), Ratio::new(v.num, d)));
                },
            }
            i += 1;
        }
        let r = NodeMap { entries };
        proof {
            assert forall|a: int, b: int|
                0 <= a < b < r@.len() implies (#[trigger] r@[a]).0 != (#[trigger] r@[b]).0 by {
                assert(r@[a].0 == scores@[a].0);
                assert(r@[b].0 == scores@[b].0);
            }
            if min_weight_one(g) {
                assert forall|v: Seq<char>|
                    #[trigger] contains_key(r@, v) <==> bc_key(g, v) by {
                    if contains_key(r@, v) {
                        let j = crate::node_map::key_index(r@, v);
                        assert(scores@[j].0 == v);
                        crate::node_map::lemma_key_index_unique(scores@, v, j);
                    }
                    if contains_key(scores@, v) {
                        let j = crate::node_map::key_index(scores@, v);
                        assert(r@[j].0 == v);
                    }
                }
                assert forall|v: Seq<char>|
                    #[trigger] contains_key(r@, v) implies ({
                    let f = bc_frac(g, v, n as int, 0);
                    let nf = f.1 * (((g.len() - 1)) * ((g.len() - 2)));
                    value_of(r@, v).num * nf == f.0 * value_of(r@, v).den
                }) by {
                    let j = crate::node_map::key_index(r@, v);
                    assert(scores@[j].0 == v);
                    crate::node_map::lemma_key_index_unique(scores@, v, j);
                    crate::node_map::lemma_key_index_unique(r@, v, j);
                    let f = bc_frac(g, v, n as int, 0);
                    assert(value_of(scores@, v) == scores@[j].1);
                    assert(value_of(r@, v) == r@[j].1);
                    assert(scores@[j].1.num * f.1 == f.0 * scores@[j].1.den);
                    assert(r@[j].1.num * (f.1 * (((n - 1) as int) * ((n - 2) as int))) == f.0 * (
                    r@[j].1.den as int)) by (nonlinear_arith)
                        requires
                            r@[j].1.num == scores@[j].1.num,
                            r@[j].1.den as int == scores@[j].1.den * (((n - 1) as int) * ((n
                                - 2) as int)),
                            scores@[j].1.num * f.1 == f.0 * scores@[j].1.den,
                    ;
                }
            }
        }
        Some(r)
    } else {
        Some(scores)
    }
}

} // verus!
