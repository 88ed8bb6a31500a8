//! Single-source shortest distances over non-negative edge weights.
//!
//! The specification side defines paths and their costs; the executable side
//! is Dijkstra's algorithm over a min-priority queue, proved to return, for
//! every reachable node, exactly the least cost of any path from the start.

use vstd::prelude::*;

use crate::graph::{
    Graph, NodeModel, edge_index, edge_weight, graph_contains_node, has_edge,
    lemma_edge_index_unique, lemma_node_index_unique, lemma_total_edges_nonneg, node_edges,
    node_index, total_edges, wf_graph,
};
use crate::node_map::{
    NodeMap, NodeSet, contains_key, distinct_keys, entries_set, lemma_entries_set, value_of,
};

verus! {

/// Is `p` a walk in `g`: at least one node, with an edge between every pair
/// of consecutive nodes?
pub open spec fn is_path(g: Seq<NodeModel>, p: Seq<Seq<char>>) -> bool {
    &&& p.len() >= 1
    &&& forall|i: int| 0 <= i < p.len() - 1 ==> has_edge(g, #[trigger] p[i], p[i + 1])
}

/// The cost of walk `p`: the sum of the weights of its edges.
pub open spec fn path_cost(g: Seq<NodeModel>, p: Seq<Seq<char>>) -> int
    decreases p.len(),
{
    if p.len() <= 1 {
        0
    } else {
        path_cost(g, p.drop_last()) + edge_weight(g, p[p.len() - 2], p[p.len() - 1])
    }
}

/// Is `p` a walk in `g` from `s` to `t`?
pub open spec fn is_path_between(
    g: Seq<NodeModel>,
    p: Seq<Seq<char>>,
    s: Seq<char>,
    t: Seq<char>,
) -> bool {
    is_path(g, p) && p.first() == s && p.last() == t
}

/// Can `t` be reached from `s` along stored edges? Every node reaches
/// itself by the one-node walk.
pub open spec fn reachable(g: Seq<NodeModel>, s: Seq<char>, t: Seq<char>) -> bool {
    exists|p: Seq<Seq<char>>| is_path_between(g, p, s, t)
}

/// Walk costs are sums of unsigned weights, hence non-negative.
pub proof fn lemma_path_cost_nonneg(g: Seq<NodeModel>, p: Seq<Seq<char>>)
    ensures
        path_cost(g, p) >= 0,
    decreases p.len(),
{
    if p.len() > 1 {
        lemma_path_cost_nonneg(g, p.drop_last());
    }
}

/// A prefix of a walk is a walk and costs no more.
pub proof fn lemma_path_prefix(g: Seq<NodeModel>, p: Seq<Seq<char>>, k: int)
    requires
        is_path(g, p),
        1 <= k <= p.len(),
    ensures
        is_path(g, p.take(k)),
        path_cost(g, p.take(k)) <= path_cost(g, p),
    decreases p.len() - k,
{
    if k == p.len() {
        assert(p.take(k) =~= p);
    } else {
        lemma_path_prefix(g, p, k + 1);
        assert(p.take(k + 1).drop_last() =~= p.take(k));
        lemma_path_cost_nonneg(g, p.take(k));
        if k >= 1 {
            assert(path_cost(g, p.take(k + 1)) == path_cost(g, p.take(k)) + if k + 1 > 1 {
                edge_weight(g, p.take(k + 1)[k - 1], p.take(k + 1)[k])
            } else {
                0int
            });
            assert(edge_weight(g, p[k - 1], p[k]) >= 0);
        }
    }
}

/// Extending a walk by one stored edge extends its cost by that edge's
/// weight.
pub proof fn lemma_path_snoc(g: Seq<NodeModel>, p: Seq<Seq<char>>, b: Seq<char>)
    requires
        is_path(g, p),
        has_edge(g, p.last(), b),
    ensures
        is_path(g, p.push(b)),
        p.push(b).first() == p.first(),
        p.push(b).last() == b,
        path_cost(g, p.push(b)) == path_cost(g, p) + edge_weight(g, p.last(), b),
{
    let q = p.push(b);
    assert(q.drop_last() =~= p);
    assert forall|i: int| 0 <= i < q.len() - 1 implies has_edge(g, #[trigger] q[i], q[i + 1]) by {
        if i < p.len() - 1 {
            assert(q[i] == p[i] && q[i + 1] == p[i + 1]);
        } else {
            assert(q[i] == p.last() && q[i + 1] == b);
        }
    }
}

/// A walk of at least two nodes costs its first edge plus the rest.
pub proof fn lemma_path_cost_cons(g: Seq<NodeModel>, q: Seq<Seq<char>>)
    requires
        q.len() >= 2,
    ensures
        path_cost(g, q) == edge_weight(g, q[0], q[1]) + path_cost(g, q.drop_first()),
    decreases q.len(),
{
    if q.len() == 2 {
        assert(q.drop_first().len() == 1);
        assert(path_cost(g, q.drop_first()) == 0);
        assert(q.drop_last().len() == 1);
        assert(path_cost(g, q.drop_last()) == 0);
        assert(path_cost(g, q) == path_cost(g, q.drop_last()) + edge_weight(g, q[0], q[1]));
    } else {
        let n = q.len() as int;
        let ql = q.drop_last();
        let qd = q.drop_first();
        lemma_path_cost_cons(g, ql);
        assert(ql[0] == q[0] && ql[1] == q[1]);
        assert(qd.drop_last() =~= ql.drop_first());
        assert(qd[n - 3] == q[n - 2] && qd[n - 2] == q[n - 1]);
        assert(path_cost(g, qd) == path_cost(g, qd.drop_last()) + edge_weight(
            g,
            qd[n - 3],
            qd[n - 2],
        ));
        assert(path_cost(g, q) == path_cost(g, ql) + edge_weight(g, q[n - 2], q[n - 1]));
    }
}

/// Splitting a walk at its `k`-th node: the closing part starts where the
/// opening part ends, and the costs add up.
pub proof fn lemma_path_cost_split(g: Seq<NodeModel>, p: Seq<Seq<char>>, k: int)
    requires
        is_path(g, p),
        1 <= k <= p.len(),
    ensures
        is_path(g, p.skip(k - 1)),
        p.skip(k - 1).first() == p[k - 1],
        p.skip(k - 1).last() == p.last(),
        path_cost(g, p) == path_cost(g, p.take(k)) + path_cost(g, p.skip(k - 1)),
    decreases p.len() - k,
{
    let suf = p.skip(k - 1);
    assert(suf.len() == p.len() - k + 1);
    assert forall|i: int| 0 <= i < suf.len() - 1 implies has_edge(g, #[trigger] suf[i], suf[i + 1]) by {
        assert(suf[i] == p[k - 1 + i] && suf[i + 1] == p[k + i]);
    }
    if k == p.len() {
        assert(p.take(k) =~= p);
        assert(suf.len() == 1);
    } else {
        lemma_path_cost_split(g, p, k + 1);
        lemma_path_cost_cons(g, suf);
        assert(suf.drop_first() =~= p.skip(k));
        assert(suf[0] == p[k - 1] && suf[1] == p[k]);
        assert(p.take(k + 1).drop_last() =~= p.take(k));
        assert(p.take(k + 1).last() == p[k]);
        assert(p.take(k + 1)[k - 1] == p[k - 1]);
        assert(path_cost(g, p.take(k + 1)) == path_cost(g, p.take(k)) + edge_weight(
            g,
            p[k - 1],
            p[k],
        ));
    }
}

/// Gluing two walks at a shared node: the result runs from the first
/// walk's start to the second walk's end, and the costs add up.
pub proof fn lemma_path_glue(g: Seq<NodeModel>, r: Seq<Seq<char>>, q: Seq<Seq<char>>)
    requires
        is_path(g, r),
        is_path(g, q),
        r.last() == q.first(),
    ensures
        is_path(g, r + q.drop_first()),
        (r + q.drop_first()).first() == r.first(),
        (r + q.drop_first()).last() == q.last(),
        path_cost(g, r + q.drop_first()) == path_cost(g, r) + path_cost(g, q),
    decreases q.len(),
{
    if q.len() == 1 {
        assert(r + q.drop_first() =~= r);
        assert(q.last() == q.first());
    } else {
        let ql = q.drop_last();
        assert(ql.len() >= 1);
        assert forall|i: int| 0 <= i < ql.len() - 1 implies has_edge(g, #[trigger] ql[i], ql[i + 1]) by {
            assert(ql[i] == q[i] && ql[i + 1] == q[i + 1]);
        }
        assert(ql.first() == q.first());
        lemma_path_glue(g, r, ql);
        let glued = r + ql.drop_first();
        assert(glued.last() == ql.last());
        assert(has_edge(g, q[q.len() - 2], q[q.len() - 1]));
        assert(ql.last() == q[q.len() - 2]);
        lemma_path_snoc(g, glued, q.last());
        assert(glued.push(q.last()) =~= r + q.drop_first());
        assert(path_cost(g, q) == path_cost(g, ql) + edge_weight(g, q[q.len() - 2], q[q.len()
            - 1]));
    }
}

/// The one-node walk sits at its node and costs nothing.
pub proof fn lemma_path_singleton(g: Seq<NodeModel>, s: Seq<char>)
    ensures
        is_path_between(g, seq![s], s, s),
        path_cost(g, seq![s]) == 0,
        reachable(g, s, s),
{
    let p = seq![s];
    assert(p.len() == 1);
    assert(p.first() == s && p.last() == s);
}

/// Index of the first node of `p` outside `vs`, counted from the front.
pub open spec fn first_out(p: Seq<Seq<char>>, vs: Seq<Seq<char>>) -> int
    decreases p.len(),
{
    if p.len() == 0 {
        0
    } else if !vs.contains(p.first()) {
        0
    } else {
        1 + first_out(p.drop_first(), vs)
    }
}

/// When some node of `p` lies outside `vs`, `first_out` points at the first
/// such node.
pub proof fn lemma_first_out(p: Seq<Seq<char>>, vs: Seq<Seq<char>>)
    requires
        exists|j: int| 0 <= j < p.len() && !vs.contains(#[trigger] p[j]),
    ensures
        0 <= first_out(p, vs) < p.len(),
        !vs.contains(p[first_out(p, vs)]),
        forall|j: int| 0 <= j < first_out(p, vs) ==> vs.contains(#[trigger] p[j]),
    decreases p.len(),
{
    if !vs.contains(p.first()) {
    } else {
        let q = p.drop_first();
        let jw = choose|j: int| 0 <= j < p.len() && !vs.contains(#[trigger] p[j]);
        assert(jw != 0);
        assert(q[jw - 1] == p[jw]);
        lemma_first_out(q, vs);
        assert forall|j: int| 0 <= j < first_out(p, vs) implies vs.contains(#[trigger] p[j]) by {
            if j > 0 {
                assert(q[j - 1] == p[j]);
                assert(vs.contains(q[j - 1]));
            }
        }
    }
}

/// All edge destinations of `g`, one occurrence per stored edge.
pub open spec fn target_seq(g: Seq<NodeModel>) -> Seq<Seq<char>>
    decreases g.len(),
{
    if g.len() == 0 {
        Seq::empty()
    } else {
        target_seq(g.drop_last()) + g.last().edges.map_values(
            |e: crate::graph::EdgeModel| e.to,
        )
    }
}

/// `target_seq` has one entry per stored edge.
pub proof fn lemma_target_seq_len(g: Seq<NodeModel>)
    ensures
        target_seq(g).len() == total_edges(g),
    decreases g.len(),
{
    if g.len() > 0 {
        lemma_target_seq_len(g.drop_last());
    }
}

proof fn lemma_target_seq_contains(g: Seq<NodeModel>, i: int, j: int)
    requires
        0 <= i < g.len(),
        0 <= j < g[i].edges.len(),
    ensures
        target_seq(g).contains(g[i].edges[j].to),
    decreases g.len(),
{
    let left = target_seq(g.drop_last());
    let right = g.last().edges.map_values(|e: crate::graph::EdgeModel| e.to);
    if i == g.len() - 1 {
        assert(right[j] == g[i].edges[j].to);
        assert(target_seq(g)[left.len() + j] == g[i].edges[j].to);
    } else {
        assert(g.drop_last()[i] == g[i]);
        lemma_target_seq_contains(g.drop_last(), i, j);
        let h = choose|h: int| 0 <= h < left.len() && left[h] == g[i].edges[j].to;
        assert(target_seq(g)[h] == g[i].edges[j].to);
    }
}

/// Every stored edge's destination occurs in `target_seq`.
pub proof fn lemma_has_edge_target(g: Seq<NodeModel>, a: Seq<char>, b: Seq<char>)
    requires
        has_edge(g, a, b),
    ensures
        target_seq(g).contains(b),
{
    let es = node_edges(g, a);
    let j = edge_index(es, b);
    assert(0 <= j < es.len() && es[j].to == b);
    assert(crate::graph::graph_contains_node(g, a));
    let i = crate::graph::node_index(g, a);
    assert(0 <= i < g.len() && g[i].id == a);
    assert(g[i].edges[j].to == b);
    lemma_target_seq_contains(g, i, j);
}

/// A duplicate-free sequence of nodes, each of which is the start node or
/// some edge's destination, has at most `1 + total_edges(g)` entries.
proof fn lemma_visited_card(g: Seq<NodeModel>, vs: Seq<Seq<char>>, s: Seq<char>)
    requires
        forall|i: int, j: int| 0 <= i < j < vs.len() ==> vs[i] != vs[j],
        forall|v: Seq<char>| #[trigger] vs.contains(v) ==> v == s || target_seq(g).contains(v),
    ensures
        vs.len() <= 1 + total_edges(g),
{
    broadcast use vstd::seq_lib::seq_to_set_is_finite;

    vs.unique_seq_to_set();
    lemma_target_seq_len(g);
    target_seq(g).lemma_cardinality_of_set();
    let u = target_seq(g).to_set().insert(s);
    assert(vs.to_set().subset_of(u));
    vstd::set_lib::lemma_len_subset(vs.to_set(), u);
}

/// When `u` lies outside the settled set and no queue key is below `d`,
/// every walk from the start to `u` costs at least `d`.
///
/// The hypotheses are the loop invariants of [`dijkstra`]: settled nodes
/// carry least distances and have all their edges relaxed, and every
/// discovered unsettled node is covered by a queue entry carrying its
/// tentative distance.
proof fn lemma_settle(
    g: Seq<NodeModel>,
    dm: Seq<(Seq<char>, u128)>,
    vs: Seq<Seq<char>>,
    hp: Seq<(Distance, String)>,
    d: u128,
    s: Seq<char>,
    u: Seq<char>,
    p: Seq<Seq<char>>,
)
    requires
        wf_graph(g),
        contains_key(dm, s) && value_of(dm, s) == 0,
        forall|v: Seq<char>| #[trigger] vs.contains(v) ==> contains_key(dm, v),
        forall|v: Seq<char>, q: Seq<Seq<char>>|
            vs.contains(v) && #[trigger] is_path_between(g, q, s, v) ==> path_cost(g, q)
                >= value_of(dm, v),
        forall|v: Seq<char>, j: int|
            vs.contains(v) && 0 <= j < node_edges(g, v).len() ==> contains_key(
                dm,
                (#[trigger] node_edges(g, v)[j]).to,
            ) && value_of(dm, node_edges(g, v)[j].to) <= value_of(dm, v) + node_edges(
                g,
                v,
            )[j].tx.value,
        forall|k: Seq<char>|
            #[trigger] contains_key(dm, k) && !vs.contains(k) ==> exists|h: int|
                0 <= h < hp.len() && (#[trigger] hp[h]).1@ == k && hp[h].0.0 == value_of(dm, k),
        forall|h: int| 0 <= h < hp.len() ==> d <= (#[trigger] hp[h]).0.0,
        !vs.contains(u),
        is_path_between(g, p, s, u),
    ensures
        path_cost(g, p) >= d,
{
    lemma_path_cost_nonneg(g, p);
    assert(p[p.len() - 1] == u);
    lemma_first_out(p, vs);
    let idx = first_out(p, vs);
    let z = p[idx];
    if idx == 0 {
        assert(z == s);
        assert(contains_key(dm, s) && !vs.contains(s));
        let h = choose|h: int|
            0 <= h < hp.len() && (#[trigger] hp[h]).1@ == s && hp[h].0.0 == value_of(dm, s);
        assert(d <= hp[h].0.0);
    } else {
        let y = p[idx - 1];
        assert(vs.contains(y));
        assert(has_edge(g, p[idx - 1], p[idx]));
        let es = node_edges(g, y);
        let j = edge_index(es, z);
        assert(0 <= j < es.len() && es[j].to == z);
        assert(contains_key(dm, z) && value_of(dm, z) <= value_of(dm, y) + es[j].tx.value);
        assert(edge_weight(g, y, z) == es[j].tx.value);
        lemma_path_prefix(g, p, idx);
        assert(p.take(idx).last() == y);
        assert(p.take(idx).first() == s);
        assert(is_path_between(g, p.take(idx), s, y));
        assert(path_cost(g, p.take(idx)) >= value_of(dm, y));
        lemma_path_prefix(g, p, idx + 1);
        assert(p.take(idx + 1) =~= p.take(idx).push(z));
        lemma_path_snoc(g, p.take(idx), z);
        assert(path_cost(g, p.take(idx + 1)) == path_cost(g, p.take(idx)) + edge_weight(g, y, z));
        assert(!vs.contains(z));
        let h = choose|h: int|
            0 <= h < hp.len() && (#[trigger] hp[h]).1@ == z && hp[h].0.0 == value_of(dm, z);
        assert(d <= value_of(dm, z));
    }
}

/// When every discovered node is settled and settled nodes have all their
/// edges relaxed, the discovered set is closed under walks from the start.
proof fn lemma_closure_reach(
    g: Seq<NodeModel>,
    dm: Seq<(Seq<char>, u128)>,
    vs: Seq<Seq<char>>,
    s: Seq<char>,
    p: Seq<Seq<char>>,
)
    requires
        wf_graph(g),
        contains_key(dm, s),
        forall|k: Seq<char>| #[trigger] contains_key(dm, k) ==> vs.contains(k),
        forall|v: Seq<char>, j: int|
            vs.contains(v) && 0 <= j < node_edges(g, v).len() ==> contains_key(
                dm,
                (#[trigger] node_edges(g, v)[j]).to,
            ) && value_of(dm, node_edges(g, v)[j].to) <= value_of(dm, v) + node_edges(
                g,
                v,
            )[j].tx.value,
        is_path(g, p),
        p.first() == s,
    ensures
        contains_key(dm, p.last()),
    decreases p.len(),
{
    if p.len() == 1 {
        assert(p.last() == s);
    } else {
        let q = p.drop_last();
        assert(q.len() >= 1);
        assert forall|i: int| 0 <= i < q.len() - 1 implies has_edge(g, #[trigger] q[i], q[i + 1]) by {
            assert(q[i] == p[i] && q[i + 1] == p[i + 1]);
        }
        assert(q.first() == p.first());
        lemma_closure_reach(g, dm, vs, s, q);
        let y = q.last();
        assert(y == p[p.len() - 2]);
        assert(vs.contains(y));
        assert(has_edge(g, p[p.len() - 2], p[p.len() - 1]));
        let es = node_edges(g, y);
        let b = p.last();
        let j = edge_index(es, b);
        assert(0 <= j < es.len() && es[j].to == b);
        assert(contains_key(dm, es[j].to));
    }
}

/// Cumulative path distance: the key the priority queue orders by.
pub struct Distance(pub u128);

/// Removes and returns an entry with the least distance key.
fn pop_min(heap: &mut Vec<(Distance, String)>) -> (r: (Distance, String))
    requires
        old(heap)@.len() > 0,
    ensures
        exists|i: int|
            0 <= i < old(heap)@.len() && r == old(heap)@[i] && final(heap)@ == old(heap)@.remove(
                i,
            ),
        forall|j: int| 0 <= j < old(heap)@.len() ==> r.0.0 <= (#[trigger] old(heap)@[j]).0.0,
{
    let n = heap.len();
    let mut best: usize = 0;
    let mut i: usize = 1;
    while i < n
        invariant
            n == heap@.len(),
            best < i <= n,
            forall|j: int| 0 <= j < i ==> heap@[best as int].0.0 <= (#[trigger] heap@[j]).0.0,
        decreases n - i,
    {
        if heap[i].0.0 < heap[best].0.0 {
            best = i;
        }
        i += 1;
    }
    let r = heap.remove(best);
    proof {
        assert(r == old(heap)@[best as int] && final(heap)@ == old(heap)@.remove(best as int));
    }
    r
}

/// Does some walk in `g` from `s` to `t` cost exactly `c`?
pub open spec fn attains_cost(g: Seq<NodeModel>, s: Seq<char>, t: Seq<char>, c: int) -> bool {
    exists|p: Seq<Seq<char>>| is_path_between(g, p, s, t) && path_cost(g, p) == c
}

/// Does every walk in `g` from `s` to `t` cost at least `c`?
pub open spec fn below_all_costs(g: Seq<NodeModel>, s: Seq<char>, t: Seq<char>, c: int) -> bool {
    forall|p: Seq<Seq<char>>| #[trigger] is_path_between(g, p, s, t) ==> path_cost(g, p) >= c
}

/// Is `c` the least cost of any walk in `g` from `s` to `t`?
pub open spec fn is_shortest_distance(
    g: Seq<NodeModel>,
    s: Seq<char>,
    t: Seq<char>,
    c: int,
) -> bool {
    attains_cost(g, s, t, c) && below_all_costs(g, s, t, c)
}

/// Is `dm` the single-source shortest-distance map of `g` from `s`: one
/// entry per reachable node, valued at the least cost of any walk there?
pub open spec fn valid_distance_map(
    g: Seq<NodeModel>,
    s: Seq<char>,
    dm: Seq<(Seq<char>, u128)>,
) -> bool {
    &&& distinct_keys(dm)
    &&& contains_key(dm, s)
    &&& value_of(dm, s) == 0
    &&& forall|t: Seq<char>| #[trigger] contains_key(dm, t) <==> reachable(g, s, t)
    &&& forall|t: Seq<char>|
        #[trigger] contains_key(dm, t) ==> is_shortest_distance(g, s, t, value_of(dm, t) as int)
}

/// Along a least-cost walk, every prefix is least-cost and every step is
/// tight: each node's distance is the previous node's distance plus the
/// edge weight between them.
pub proof fn lemma_shortest_path_steps(
    g: Seq<NodeModel>,
    s: Seq<char>,
    dm: Seq<(Seq<char>, u128)>,
    p: Seq<Seq<char>>,
    k: int,
)
    requires
        valid_distance_map(g, s, dm),
        is_path(g, p),
        p.first() == s,
        is_shortest_distance(g, s, p.last(), path_cost(g, p)),
        1 <= k < p.len(),
    ensures
        contains_key(dm, p[k]),
        contains_key(dm, p[k - 1]),
        value_of(dm, p[k]) == value_of(dm, p[k - 1]) + edge_weight(g, p[k - 1], p[k]),
{
    assert forall|m: int| 0 <= m < p.len() implies contains_key(dm, #[trigger] p[m]) && value_of(
        dm,
        p[m],
    ) == path_cost(g, p.take(m + 1)) by {
        lemma_path_prefix(g, p, m + 1);
        assert(p.take(m + 1).first() == s);
        assert(p.take(m + 1).last() == p[m]);
        assert(is_path_between(g, p.take(m + 1), s, p[m]));
        assert(reachable(g, s, p[m]));
        assert(contains_key(dm, p[m]));
        let c = value_of(dm, p[m]) as int;
        assert(is_shortest_distance(g, s, p[m], c));
        // The prefix cannot beat the distance.
        assert(path_cost(g, p.take(m + 1)) >= c);
        // And the distance cannot beat the prefix: a cheaper route to
        // `p[m]` glued to the closing part of `p` would beat `p` itself.
        if c < path_cost(g, p.take(m + 1)) {
            assert(attains_cost(g, s, p[m], c));
            let r = choose|r: Seq<Seq<char>>| is_path_between(g, r, s, p[m]) && path_cost(g, r)
                == c;
            lemma_path_cost_split(g, p, m + 1);
            let suf = p.skip(m);
            assert(r.last() == suf.first());
            lemma_path_glue(g, r, suf);
            let glued = r + suf.drop_first();
            assert(is_path_between(g, glued, s, p.last()));
            assert(path_cost(g, glued) == c + path_cost(g, suf));
            assert(path_cost(g, glued) < path_cost(g, p.take(m + 1)) + path_cost(g, suf));
            assert(path_cost(g, glued) < path_cost(g, p));
            assert(path_cost(g, glued) >= path_cost(g, p));
            assert(false);
        }
    }
    assert(p.take(k + 1).drop_last() =~= p.take(k));
    assert(p.take(k + 1).last() == p[k]);
    assert(p.take(k + 1)[k - 1] == p[k - 1]);
    assert(path_cost(g, p.take(k + 1)) == path_cost(g, p.take(k)) + edge_weight(
        g,
        p[k - 1],
        p[k],
    ));
}

proof fn lemma_value_chain(
    dm: Seq<(Seq<char>, u128)>,
    p: Seq<Seq<char>>,
    i: int,
    j: int,
)
    requires
        forall|k: int|
            1 <= k < p.len() ==> value_of(dm, #[trigger] p[k]) > value_of(dm, p[k - 1]),
        0 <= i < j < p.len(),
    ensures
        value_of(dm, p[i]) < value_of(dm, p[j]),
    decreases j - i,
{
    if j > i + 1 {
        lemma_value_chain(dm, p, i, j - 1);
    }
}

/// A walk whose nodes carry strictly increasing distances visits pairwise
/// distinct nodes; all but its last node have outgoing edges and so are
/// node entries, which bounds the walk by one more than the entry count.
pub proof fn lemma_increasing_path_len(
    g: Seq<NodeModel>,
    dm: Seq<(Seq<char>, u128)>,
    p: Seq<Seq<char>>,
)
    requires
        wf_graph(g),
        is_path(g, p),
        forall|k: int|
            1 <= k < p.len() ==> value_of(dm, #[trigger] p[k]) > value_of(dm, p[k - 1]),
    ensures
        p.len() <= g.len() + 1,
{
    broadcast use vstd::seq_lib::seq_to_set_is_finite;

    if p.len() <= 1 {
        return ;
    }
    let q = p.drop_last();
    assert forall|i: int, j: int| 0 <= i < j < q.len() implies q[i] != q[j] by {
        assert(q[i] == p[i] && q[j] == p[j]);
        lemma_value_chain(dm, p, i, j);
    }
    q.unique_seq_to_set();
    let ids = g.map_values(|nm: NodeModel| nm.id);
    assert forall|a: int, b: int| 0 <= a < b < ids.len() implies ids[a] != ids[b] by {
        assert(g[a].id != g[b].id);
    }
    ids.unique_seq_to_set();
    assert forall|t: Seq<char>| #[trigger] q.to_set().contains(t) implies ids.to_set().contains(
        t,
    ) by {
        assert(q.contains(t));
        let i = choose|i: int| 0 <= i < q.len() && q[i] == t;
        assert(has_edge(g, p[i], p[i + 1]));
        assert(graph_contains_node(g, p[i])) by {
            if !graph_contains_node(g, p[i]) {
                assert(node_edges(g, p[i]) =~= Seq::<crate::graph::EdgeModel>::empty());
            }
        }
        let x = node_index(g, p[i]);
        assert(ids[x] == t);
        assert(ids.contains(t));
    }
    vstd::set_lib::lemma_len_subset(q.to_set(), ids.to_set());
}

/// The sum of all stored distances.
pub open spec fn sum_values(dm: Seq<(Seq<char>, u128)>) -> int
    decreases dm.len(),
{
    if dm.len() == 0 {
        0
    } else {
        sum_values(dm.drop_last()) + dm.last().1
    }
}

pub proof fn lemma_sum_values_nonneg(dm: Seq<(Seq<char>, u128)>)
    ensures
        sum_values(dm) >= 0,
    decreases dm.len(),
{
    if dm.len() > 0 {
        lemma_sum_values_nonneg(dm.drop_last());
    }
}

proof fn lemma_sum_values_remove(dm: Seq<(Seq<char>, u128)>, i: int)
    requires
        0 <= i < dm.len(),
    ensures
        sum_values(dm.remove(i)) == sum_values(dm) - dm[i].1,
    decreases dm.len(),
{
    if i == dm.len() - 1 {
        assert(dm.remove(i) =~= dm.drop_last());
    } else {
        assert(dm.remove(i).drop_last() =~= dm.drop_last().remove(i));
        assert(dm.remove(i).last() == dm.last());
        lemma_sum_values_remove(dm.drop_last(), i);
    }
}

/// Two duplicate-free maps with the same keys and the same values have the
/// same distance sum, whatever order their entries sit in.
pub proof fn lemma_sum_values_agree(dm1: Seq<(Seq<char>, u128)>, dm2: Seq<(Seq<char>, u128)>)
    requires
        distinct_keys(dm1),
        distinct_keys(dm2),
        forall|k: Seq<char>| #[trigger] contains_key(dm1, k) <==> contains_key(dm2, k),
        forall|k: Seq<char>|
            #[trigger] contains_key(dm1, k) ==> value_of(dm1, k) == value_of(dm2, k),
    ensures
        sum_values(dm1) == sum_values(dm2),
    decreases dm1.len(),
{
    if dm1.len() == 0 {
        if dm2.len() > 0 {
            assert(contains_key(dm2, dm2[0].0));
            assert(contains_key(dm1, dm2[0].0));
            let j = crate::node_map::key_index(dm1, dm2[0].0);
            assert(false);
        }
    } else {
        let e = dm1.last();
        let k = e.0;
        crate::node_map::lemma_key_index_unique(dm1, k, dm1.len() - 1);
        assert(value_of(dm1, k) == e.1);
        assert(contains_key(dm2, k));
        let i2 = crate::node_map::key_index(dm2, k);
        assert(0 <= i2 < dm2.len() && dm2[i2].0 == k);
        assert(value_of(dm2, k) == dm2[i2].1);
        lemma_sum_values_remove(dm2, i2);
        let d1 = dm1.drop_last();
        let d2 = dm2.remove(i2);
        assert forall|a: int, b: int|
            0 <= a < b < d1.len() implies (#[trigger] d1[a]).0 != (#[trigger] d1[b]).0 by {
            assert(d1[a] == dm1[a] && d1[b] == dm1[b]);
        }
        assert forall|a: int, b: int|
            0 <= a < b < d2.len() implies (#[trigger] d2[a]).0 != (#[trigger] d2[b]).0 by {
            let a0: int = if a < i2 {
                a
            } else {
                a + 1
            };
            let b0: int = if b < i2 {
                b
            } else {
                b + 1
            };
            assert(d2[a] == dm2[a0] && d2[b] == dm2[b0]);
        }
        assert forall|k2: Seq<char>| #[trigger] contains_key(d1, k2) implies contains_key(
            d2,
            k2,
        ) && value_of(d1, k2) == value_of(d2, k2) by {
            let j = crate::node_map::key_index(d1, k2);
            assert(d1[j] == dm1[j]);
            crate::node_map::lemma_key_index_unique(dm1, k2, j);
            assert(k2 != k);
            assert(contains_key(dm2, k2));
            let j2 = crate::node_map::key_index(dm2, k2);
            assert(j2 != i2);
            let j2r: int = if j2 < i2 {
                j2
            } else {
                j2 - 1
            };
            assert(d2[j2r] == dm2[j2]);
            crate::node_map::lemma_key_index_unique(d2, k2, j2r);
            crate::node_map::lemma_key_index_unique(d1, k2, j);
            assert(value_of(d1, k2) == dm1[j].1);
            assert(value_of(dm1, k2) == dm1[j].1);
            assert(value_of(d2, k2) == dm2[j2].1);
            assert(value_of(dm2, k2) == dm2[j2].1);
        }
        assert forall|k2: Seq<char>| #[trigger] contains_key(d2, k2) implies contains_key(
            d1,
            k2,
        ) by {
            let j2 = crate::node_map::key_index(d2, k2);
            let j0: int = if j2 < i2 {
                j2
            } else {
                j2 + 1
            };
            assert(d2[j2] == dm2[j0]);
            crate::node_map::lemma_key_index_unique(dm2, k2, j0);
            assert(k2 != k);
            assert(contains_key(dm1, k2));
            let j = crate::node_map::key_index(dm1, k2);
            assert(j != dm1.len() - 1);
            assert(d1[j] == dm1[j]);
            crate::node_map::lemma_key_index_unique(d1, k2, j);
        }
        lemma_sum_values_agree(d1, d2);
    }
}

/// Shortest-distance maps are unique: any two valid ones for the same graph
/// and start hold the same keys and the same distances. Running the
/// computation twice on one immutable graph gives identical results.
pub proof fn lemma_distance_map_deterministic(
    g: Seq<NodeModel>,
    s: Seq<char>,
    dm1: Seq<(Seq<char>, u128)>,
    dm2: Seq<(Seq<char>, u128)>,
)
    requires
        valid_distance_map(g, s, dm1),
        valid_distance_map(g, s, dm2),
    ensures
        forall|k: Seq<char>| #[trigger] contains_key(dm1, k) <==> contains_key(dm2, k),
        forall|k: Seq<char>|
            #[trigger] contains_key(dm1, k) ==> value_of(dm1, k) == value_of(dm2, k),
        sum_values(dm1) == sum_values(dm2),
{
    assert forall|k: Seq<char>| #[trigger] contains_key(dm1, k) implies value_of(dm1, k)
        == value_of(dm2, k) by {
        let c1 = value_of(dm1, k) as int;
        let c2 = value_of(dm2, k) as int;
        assert(contains_key(dm2, k));
        assert(attains_cost(g, s, k, c1) && below_all_costs(g, s, k, c1));
        assert(attains_cost(g, s, k, c2) && below_all_costs(g, s, k, c2));
        let p1 = choose|p: Seq<Seq<char>>| is_path_between(g, p, s, k) && path_cost(g, p) == c1;
        let p2 = choose|p: Seq<Seq<char>>| is_path_between(g, p, s, k) && path_cost(g, p) == c2;
        assert(path_cost(g, p1) >= c2);
        assert(path_cost(g, p2) >= c1);
    }
    lemma_sum_values_agree(dm1, dm2);
}

/// The queue and map invariants of [`dijkstra`], named so that each loop
/// clause is one predicate application.
///
/// Every discovered node's tentative distance is the cost of some walk to
/// it.
pub open spec fn inv_attains(g: Seq<NodeModel>, s: Seq<char>, dm: Seq<(Seq<char>, u128)>) -> bool {
    forall|k: Seq<char>|
        #[trigger] contains_key(dm, k) ==> attains_cost(g, s, k, value_of(dm, k) as int)
}

/// Every settled node has been discovered.
pub open spec fn inv_settled_have_dist(vs: Seq<Seq<char>>, dm: Seq<(Seq<char>, u128)>) -> bool {
    forall|v: Seq<char>| #[trigger] vs.contains(v) ==> contains_key(dm, v)
}

/// Settled distances are least: no walk beats them.
pub open spec fn inv_settled_minimal(
    g: Seq<NodeModel>,
    s: Seq<char>,
    vs: Seq<Seq<char>>,
    dm: Seq<(Seq<char>, u128)>,
) -> bool {
    forall|v: Seq<char>, q: Seq<Seq<char>>|
        vs.contains(v) && #[trigger] is_path_between(g, q, s, v) ==> path_cost(g, q) >= value_of(
            dm,
            v,
        )
}

/// Every settled node's edges are relaxed.
pub open spec fn inv_settled_closed(
    g: Seq<NodeModel>,
    vs: Seq<Seq<char>>,
    dm: Seq<(Seq<char>, u128)>,
) -> bool {
    forall|v: Seq<char>, j: int|
        vs.contains(v) && 0 <= j < node_edges(g, v).len() ==> contains_key(
            dm,
            (#[trigger] node_edges(g, v)[j]).to,
        ) && value_of(dm, node_edges(g, v)[j].to) <= value_of(dm, v) + node_edges(g, v)[j].tx.value
}

/// Every discovered unsettled node is covered by a queue entry carrying its
/// tentative distance.
pub open spec fn inv_heap_cover(
    dm: Seq<(Seq<char>, u128)>,
    vs: Seq<Seq<char>>,
    hp: Seq<(Distance, String)>,
) -> bool {
    forall|k: Seq<char>|
        #[trigger] contains_key(dm, k) && !vs.contains(k) ==> exists|h: int|
            0 <= h < hp.len() && (#[trigger] hp[h]).1@ == k && hp[h].0.0 == value_of(dm, k)
}

/// Queue entries name discovered nodes and never undercut their tentative
/// distances.
pub open spec fn inv_heap_sound(dm: Seq<(Seq<char>, u128)>, hp: Seq<(Distance, String)>) -> bool {
    forall|h: int|
        0 <= h < hp.len() ==> contains_key(dm, (#[trigger] hp[h]).1@) && hp[h].0.0 >= value_of(
            dm,
            hp[h].1@,
        )
}

/// Tentative distances stay below the settled count times the largest edge
/// weight, which rules out overflow.
pub open spec fn inv_dist_bound(dm: Seq<(Seq<char>, u128)>, vs: Seq<Seq<char>>) -> bool {
    forall|k: Seq<char>|
        #[trigger] contains_key(dm, k) ==> value_of(dm, k) <= vs.len()
            * 0xFFFF_FFFF_FFFF_FFFFu128
}

/// Discovered nodes are the start node or edge destinations.
pub open spec fn inv_universe(g: Seq<NodeModel>, s: Seq<char>, dm: Seq<(Seq<char>, u128)>) -> bool {
    forall|k: Seq<char>|
        #[trigger] contains_key(dm, k) ==> k == s || target_seq(g).contains(k)
}

/// No node occurs twice.
pub open spec fn nodup(vs: Seq<Seq<char>>) -> bool {
    forall|i: int, j: int| 0 <= i < j < vs.len() ==> vs[i] != vs[j]
}

/// Removing one queue entry whose node is settled keeps the unsettled keys
/// covered.
proof fn lemma_cover_after_remove(
    dm: Seq<(Seq<char>, u128)>,
    vs: Seq<Seq<char>>,
    hp0: Seq<(Distance, String)>,
    pi: int,
)
    requires
        inv_heap_cover(dm, vs, hp0),
        0 <= pi < hp0.len(),
        vs.contains(hp0[pi].1@),
    ensures
        inv_heap_cover(dm, vs, hp0.remove(pi)),
{
    let hpr = hp0.remove(pi);
    assert forall|k: Seq<char>|
        #[trigger] contains_key(dm, k) && !vs.contains(k) implies exists|h: int|
        0 <= h < hpr.len() && (#[trigger] hpr[h]).1@ == k && hpr[h].0.0 == value_of(dm, k) by {
        assert(k != hp0[pi].1@);
        let h0 = choose|h: int|
            0 <= h < hp0.len() && (#[trigger] hp0[h]).1@ == k && hp0[h].0.0 == value_of(dm, k);
        let h1: int = if h0 < pi {
            h0
        } else {
            h0 - 1
        };
        assert(hpr[h1] == hp0[h0]);
    }
}

/// What one settlement establishes: the popped minimal entry's distance is
/// final, the grown settled set keeps every invariant that does not involve
/// the new node's edges, and it stays within the universe bound.
proof fn lemma_settle_step(
    g: Seq<NodeModel>,
    s: Seq<char>,
    dm: Seq<(Seq<char>, u128)>,
    vs0: Seq<Seq<char>>,
    vvs: Seq<Seq<char>>,
    hp0: Seq<(Distance, String)>,
    pe: (Distance, String),
    pi: int,
)
    requires
        wf_graph(g),
        contains_key(dm, s) && value_of(dm, s) == 0,
        inv_attains(g, s, dm),
        inv_settled_have_dist(vs0, dm),
        inv_settled_minimal(g, s, vs0, dm),
        inv_settled_closed(g, vs0, dm),
        inv_heap_cover(dm, vs0, hp0),
        inv_heap_sound(dm, hp0),
        inv_dist_bound(dm, vs0),
        inv_universe(g, s, dm),
        nodup(vs0),
        vvs == vs0.push(pe.1@),
        !vs0.contains(pe.1@),
        0 <= pi < hp0.len(),
        pe == hp0[pi],
        forall|j: int| 0 <= j < hp0.len() ==> pe.0.0 <= (#[trigger] hp0[j]).0.0,
    ensures
        contains_key(dm, pe.1@),
        pe.0.0 == value_of(dm, pe.1@),
        nodup(vvs),
        vvs.contains(pe.1@),
        forall|x: Seq<char>| #[trigger] vvs.contains(x) <==> vs0.contains(x) || x == pe.1@,
        inv_settled_have_dist(vvs, dm),
        inv_settled_minimal(g, s, vvs, dm),
        inv_heap_cover(dm, vvs, hp0.remove(pi)),
        inv_dist_bound(dm, vvs),
        vvs.len() <= 1 + total_edges(g),
{
    let cur = pe.1@;
    let d = pe.0.0;
    assert(contains_key(dm, cur));
    let hc = choose|h: int|
        0 <= h < hp0.len() && (#[trigger] hp0[h]).1@ == cur && hp0[h].0.0 == value_of(dm, cur);
    assert(d <= hp0[hc].0.0);
    assert(d == value_of(dm, cur));
    // Membership in the grown settled set.
    assert(vvs[vs0.len() as int] == cur);
    assert(vvs.contains(cur));
    assert forall|x: Seq<char>| vs0.contains(x) implies vvs.contains(x) by {
        let ix = choose|i: int| 0 <= i < vs0.len() && vs0[i] == x;
        assert(vvs[ix] == x);
    }
    assert forall|x: Seq<char>| #[trigger] vvs.contains(x) implies vs0.contains(x) || x == cur by {
        let ix = choose|i: int| 0 <= i < vvs.len() && vvs[i] == x;
        if ix < vs0.len() {
            assert(vs0[ix] == x);
        }
    }
    // The settled distance is least.
    assert forall|v: Seq<char>, q: Seq<Seq<char>>|
        vvs.contains(v) && #[trigger] is_path_between(g, q, s, v) implies path_cost(g, q)
        >= value_of(dm, v) by {
        if vs0.contains(v) {
        } else {
            lemma_settle(g, dm, vs0, hp0, d, s, cur, q);
        }
    }
    // Universe and cardinality bounds.
    assert forall|v: Seq<char>| #[trigger] vvs.contains(v) implies v == s || target_seq(
        g,
    ).contains(v) by {
        if v != cur {
            assert(vs0.contains(v));
        }
    }
    lemma_visited_card(g, vvs, s);
    // Tentative distances stay below the grown bound.
    assert forall|k: Seq<char>| #[trigger] contains_key(dm, k) implies value_of(dm, k)
        <= vvs.len() * 0xFFFF_FFFF_FFFF_FFFFu128 by {
        assert(value_of(dm, k) <= vs0.len() * 0xFFFF_FFFF_FFFF_FFFFu128);
        assert(vs0.len() * 0xFFFF_FFFF_FFFF_FFFFu128 <= vvs.len() * 0xFFFF_FFFF_FFFF_FFFFu128)
            by (nonlinear_arith)
            requires
                vs0.len() <= vvs.len(),
        ;
    }
    lemma_cover_after_remove(dm, vvs, hp0, pi);
}

/// What one strictly improving relaxation establishes: the touched node is
/// unsettled, its distance drops to the new walk's cost, and every other
/// invariant carries over to the updated map and queue.
proof fn lemma_relax_step(
    g: Seq<NodeModel>,
    s: Seq<char>,
    cur: Seq<char>,
    vs0: Seq<Seq<char>>,
    vvs: Seq<Seq<char>>,
    dm1: Seq<(Seq<char>, u128)>,
    dm2: Seq<(Seq<char>, u128)>,
    hp1: Seq<(Distance, String)>,
    hp2: Seq<(Distance, String)>,
    e: (Distance, String),
    b: Seq<char>,
    w: u64,
    nd: u128,
    dcur: u128,
)
    requires
        wf_graph(g),
        vvs == vs0.push(cur),
        distinct_keys(dm1),
        contains_key(dm1, s) && value_of(dm1, s) == 0,
        contains_key(dm1, cur) && value_of(dm1, cur) == dcur,
        inv_attains(g, s, dm1),
        inv_settled_have_dist(vvs, dm1),
        inv_settled_minimal(g, s, vvs, dm1),
        inv_settled_closed(g, vs0, dm1),
        inv_heap_cover(dm1, vvs, hp1),
        inv_heap_sound(dm1, hp1),
        inv_dist_bound(dm1, vvs),
        inv_universe(g, s, dm1),
        has_edge(g, cur, b),
        edge_weight(g, cur, b) == w,
        nd == dcur + w,
        contains_key(dm1, b) ==> nd < value_of(dm1, b),
        dm2 == entries_set(dm1, b, nd),
        hp2 == hp1.push(e),
        e.1@ == b,
        e.0.0 == nd,
        dcur <= vs0.len() * 0xFFFF_FFFF_FFFF_FFFFu128,
        target_seq(g).contains(b),
    ensures
        !vvs.contains(b),
        b != cur,
        b != s,
        distinct_keys(dm2),
        contains_key(dm2, s) && value_of(dm2, s) == 0,
        contains_key(dm2, cur) && value_of(dm2, cur) == dcur,
        contains_key(dm2, b) && value_of(dm2, b) == nd,
        forall|k: Seq<char>|
            #[trigger] contains_key(dm1, k) ==> contains_key(dm2, k) && value_of(dm2, k)
                <= value_of(dm1, k),
        inv_attains(g, s, dm2),
        inv_settled_have_dist(vvs, dm2),
        inv_settled_minimal(g, s, vvs, dm2),
        inv_settled_closed(g, vs0, dm2),
        inv_heap_cover(dm2, vvs, hp2),
        inv_heap_sound(dm2, hp2),
        inv_dist_bound(dm2, vvs),
        inv_universe(g, s, dm2),
{
    // A real walk to `b` of cost `nd` exists, so a settled `b` would
    // contradict the strict improvement.
    let pc = choose|p: Seq<Seq<char>>| is_path_between(g, p, s, cur) && path_cost(g, p) == dcur as int;
    lemma_path_snoc(g, pc, b);
    assert(is_path_between(g, pc.push(b), s, b));
    assert(path_cost(g, pc.push(b)) == nd as int);
    if vvs.contains(b) {
        assert(contains_key(dm1, b));
        assert(path_cost(g, pc.push(b)) >= value_of(dm1, b));
        assert(false);
    }
    assert(vvs[vs0.len() as int] == cur);
    assert(vvs.contains(cur));
    assert(b != cur);
    assert(b != s) by {
        if b == s {
            assert(contains_key(dm1, b));
            assert(nd < value_of(dm1, s));
        }
    }
    assert forall|x: Seq<char>| vs0.contains(x) implies vvs.contains(x) by {
        let ix = choose|i: int| 0 <= i < vs0.len() && vs0[i] == x;
        assert(vvs[ix] == x);
    }
    lemma_entries_set(dm1, b, nd);
    // Monotone summary: nothing but `b` changed, and `b` only dropped.
    assert forall|k: Seq<char>| #[trigger] contains_key(dm1, k) implies contains_key(dm2, k)
        && value_of(dm2, k) <= value_of(dm1, k) by {
        if k != b {
            assert(value_of(dm2, k) == value_of(dm1, k));
        }
    }
    assert forall|k: Seq<char>| #[trigger] contains_key(dm2, k) implies attains_cost(
        g,
        s,
        k,
        value_of(dm2, k) as int,
    ) by {
        if k == b {
            assert(is_path_between(g, pc.push(b), s, b));
        } else {
            assert(contains_key(dm1, k));
            assert(value_of(dm2, k) == value_of(dm1, k));
        }
    }
    assert forall|v: Seq<char>| #[trigger] vvs.contains(v) implies contains_key(dm2, v)
        && value_of(dm2, v) == value_of(dm1, v) by {
        assert(v != b);
    }
    assert forall|v: Seq<char>, q: Seq<Seq<char>>|
        vvs.contains(v) && #[trigger] is_path_between(g, q, s, v) implies path_cost(g, q)
        >= value_of(dm2, v) by {
        assert(value_of(dm2, v) == value_of(dm1, v));
    }
    assert forall|v: Seq<char>, j: int|
        vs0.contains(v) && 0 <= j < node_edges(g, v).len() implies contains_key(
        dm2,
        (#[trigger] node_edges(g, v)[j]).to,
    ) && value_of(dm2, node_edges(g, v)[j].to) <= value_of(dm2, v) + node_edges(
        g,
        v,
    )[j].tx.value by {
        let t = node_edges(g, v)[j].to;
        assert(contains_key(dm1, t) && value_of(dm1, t) <= value_of(dm1, v) + node_edges(
            g,
            v,
        )[j].tx.value);
        assert(vvs.contains(v));
        assert(value_of(dm2, v) == value_of(dm1, v));
    }
    assert forall|k: Seq<char>|
        #[trigger] contains_key(dm2, k) && !vvs.contains(k) implies exists|h: int|
        0 <= h < hp2.len() && (#[trigger] hp2[h]).1@ == k && hp2[h].0.0 == value_of(dm2, k) by {
        if k == b {
            assert(hp2[hp2.len() - 1].1@ == b);
            assert(hp2[hp2.len() - 1].0.0 == value_of(dm2, b));
        } else {
            assert(contains_key(dm1, k));
            let h0 = choose|h: int|
                0 <= h < hp1.len() && (#[trigger] hp1[h]).1@ == k && hp1[h].0.0 == value_of(
                    dm1,
                    k,
                );
            assert(hp2[h0] == hp1[h0]);
            assert(value_of(dm2, k) == value_of(dm1, k));
        }
    }
    assert forall|h: int|
        0 <= h < hp2.len() implies contains_key(dm2, (#[trigger] hp2[h]).1@) && hp2[h].0.0
        >= value_of(dm2, hp2[h].1@) by {
        if h < hp2.len() - 1 {
            assert(hp2[h] == hp1[h]);
            let k = hp2[h].1@;
            assert(contains_key(dm1, k));
            if k == b {
                assert(hp2[h].0.0 >= value_of(dm1, b));
            } else {
                assert(value_of(dm2, k) == value_of(dm1, k));
            }
        }
    }
    assert forall|k: Seq<char>| #[trigger] contains_key(dm2, k) implies value_of(dm2, k)
        <= vvs.len() * 0xFFFF_FFFF_FFFF_FFFFu128 by {
        if k == b {
            assert(nd <= vvs.len() * 0xFFFF_FFFF_FFFF_FFFFu128) by (nonlinear_arith)
                requires
                    nd == dcur + w,
                    dcur <= vs0.len() * 0xFFFF_FFFF_FFFF_FFFFu128,
                    w <= 0xFFFF_FFFF_FFFF_FFFFu128,
                    vvs.len() == vs0.len() + 1,
            ;
        } else {
            assert(contains_key(dm1, k));
            assert(value_of(dm2, k) == value_of(dm1, k));
        }
    }
    assert forall|k: Seq<char>| #[trigger] contains_key(dm2, k) implies k == s || target_seq(
        g,
    ).contains(k) by {
        if k != b {
            assert(contains_key(dm1, k));
        }
    }
}

/// Single-source shortest distances by Dijkstra's algorithm.
///
/// Returns a map holding every node reachable from `start` (the start node
/// itself included, at distance zero) and, for each, the least cost of any
/// walk from `start` to it; nothing else is in the map.
#[verifier::rlimit(100)]
#[verifier::spinoff_prover]
pub fn dijkstra(graph: &Graph, start: &str) -> (r: NodeMap<u128>)
    requires
        graph.wf(),
    ensures
        r.wf(),
        contains_key(r@, start@),
        value_of(r@, start@) == 0,
        forall|t: Seq<char>| #[trigger] contains_key(r@, t) <==> reachable(graph@, start@, t),
        forall|t: Seq<char>|
            #[trigger] contains_key(r@, t) ==> is_shortest_distance(
                graph@,
                start@,
                t,
                value_of(r@, t) as int,
            ),
        valid_distance_map(graph@, start@, r@),
{
    let ghost g = graph@;
    let ghost s = start@;
    let start_string: String = start.to_owned();
    let mut dist: NodeMap<u128> = NodeMap::new();
    let mut visited: NodeSet = NodeSet::new();
    let mut heap: Vec<(Distance, String)> = Vec::new();
    dist.set(&start_string, 0);
    heap.push((Distance(0u128), start_string));
    proof {
        lemma_path_singleton(g, s);
        lemma_total_edges_nonneg(g);
        assert(dist@ == Seq::<(Seq<char>, u128)>::empty().push((s, 0u128)));
        assert(dist@[0].0 == s);
        assert forall|k: Seq<char>| #[trigger] contains_key(dist@, k) implies k == s by {
            let i = crate::node_map::key_index(dist@, k);
            assert(0 <= i < 1);
        }
        assert(value_of(dist@, s) == 0);
        assert(heap@.len() == 1);
        assert(heap@[0].0.0 == 0 && heap@[0].1@ == s);
        assert forall|k: Seq<char>|
            #[trigger] contains_key(dist@, k) && !visited@.contains(k) implies exists|h: int|
            0 <= h < heap@.len() && (#[trigger] heap@[h]).1@ == k && heap@[h].0.0 == value_of(
                dist@,
                k,
            ) by {
            assert(k == s);
            assert(heap@[0].1@ == k && heap@[0].0.0 == value_of(dist@, k));
        }
        assert(inv_heap_cover(dist@, visited@, heap@));
        assert(inv_attains(g, s, dist@));
        assert(inv_settled_have_dist(visited@, dist@));
        assert(inv_settled_minimal(g, s, visited@, dist@));
        assert(inv_settled_closed(g, visited@, dist@));
        assert(inv_heap_sound(dist@, heap@));
        assert(inv_dist_bound(dist@, visited@));
        assert(inv_universe(g, s, dist@));
    }
    while heap.len() != 0
        invariant
            graph.wf(),
            g == graph@,
            s == start@,
            dist.wf(),
            visited.wf(),
            contains_key(dist@, s),
            value_of(dist@, s) == 0,
            inv_attains(g, s, dist@),
            inv_settled_have_dist(visited@, dist@),
            inv_settled_minimal(g, s, visited@, dist@),
            inv_settled_closed(g, visited@, dist@),
            inv_heap_cover(dist@, visited@, heap@),
            inv_heap_sound(dist@, heap@),
            inv_dist_bound(dist@, visited@),
            inv_universe(g, s, dist@),
            visited@.len() <= 1 + total_edges(g),
        decreases 1 + total_edges(g) - visited@.len(), heap@.len(),
    {
        let ghost hp0 = heap@;
        let ghost dm0 = dist@;
        let ghost vs0 = visited@;
        let popped = pop_min(&mut heap);
        let ghost pe = popped;
        let d: u128 = popped.0.0;
        let current: String = popped.1;
        let ghost cur = current@;
        proof {
            assert(d == pe.0.0 && cur == pe.1@);
        }
        let was_new = visited.insert(&current);
        if was_new {
            proof {
                let pi = choose|i: int|
                    0 <= i < hp0.len() && pe == hp0[i] && heap@ == hp0.remove(i);
                lemma_settle_step(g, s, dm0, vs0, visited@, hp0, pe, pi);
            }
            let ghost vvs = visited@;
            let ghost dcur = value_of(dist@, cur);
            proof {
                assert(dcur <= vs0.len() * 0xFFFF_FFFF_FFFF_FFFFu128);
            }
            let found = graph.find_node(&current);
            match found {
                Some(ni) => {
                    let deg = graph.nodes[ni].edges.len();
                    proof {
                        assert(graph@[ni as int].edges =~= node_edges(g, cur));
                    }
                    let mut j: usize = 0;
                    while j < deg
                        invariant
                            graph.wf(),
                            g == graph@,
                            s == start@,
                            dist.wf(),
                            visited.wf(),
                            visited@ == vvs,
                            vvs == vs0.push(cur),
                            ni < g.len(),
                            g[ni as int].id == cur,
                            g[ni as int].edges == node_edges(g, cur),
                            deg == node_edges(g, cur).len(),
                            j <= deg,
                            contains_key(dist@, s),
                            value_of(dist@, s) == 0,
                            contains_key(dist@, cur),
                            value_of(dist@, cur) == dcur,
                            d == dcur,
                            dcur <= vs0.len() * 0xFFFF_FFFF_FFFF_FFFFu128,
                            inv_attains(g, s, dist@),
                            inv_settled_have_dist(vvs, dist@),
                            inv_settled_minimal(g, s, vvs, dist@),
                            inv_settled_closed(g, vs0, dist@),
                            forall|jj: int|
                                0 <= jj < j ==> contains_key(
                                    dist@,
                                    (#[trigger] node_edges(g, cur)[jj]).to,
                                ) && value_of(dist@, node_edges(g, cur)[jj].to) <= dcur
                                    + node_edges(g, cur)[jj].tx.value,
                            inv_heap_cover(dist@, vvs, heap@),
                            inv_heap_sound(dist@, heap@),
                            inv_dist_bound(dist@, vvs),
                            inv_universe(g, s, dist@),
                            visited@.len() <= 1 + total_edges(g),
                        decreases deg - j,
                    {
                        let w: u64 = graph.nodes[ni].edges[j].tx.value;
                        let ghost b = g[ni as int].edges[j as int].to;
                        proof {
                            assert(g[ni as int].edges[j as int].tx.value == w);
                            assert(node_edges(g, cur)[j as int].to == b);
                            lemma_node_index_unique(g, cur, ni as int);
                            assert(has_edge(g, cur, b));
                            lemma_edge_index_unique(node_edges(g, cur), b, j as int);
                            assert(edge_weight(g, cur, b) == w);
                            lemma_has_edge_target(g, cur, b);
                        }
                        let vlen = visited.len();
                        proof {
                            assert(vlen == vs0.len() + 1);
                            assert(vlen <= 0xFFFF_FFFF_FFFF_FFFFu128);
                            assert(d + w <= (vlen as u128) * 0xFFFF_FFFF_FFFF_FFFFu128)
                                by (nonlinear_arith)
                                requires
                                    d <= (vlen - 1) as u128 * 0xFFFF_FFFF_FFFF_FFFFu128,
                                    w <= 0xFFFF_FFFF_FFFF_FFFFu128,
                                    vlen >= 1,
                            ;
                            assert((vlen as u128) * 0xFFFF_FFFF_FFFF_FFFFu128 <= u128::MAX)
                                by (nonlinear_arith)
                                requires
                                    vlen <= 0xFFFF_FFFF_FFFF_FFFFu128,
                            ;
                        }
                        let nd: u128 = d + (w as u128);
                        let better: bool = match dist.get(&graph.nodes[ni].edges[j].to) {
                            Some(cd) => nd < *cd,
                            None => true,
                        };
                        if better {
                            let ghost dm1 = dist@;
                            let ghost hp1 = heap@;
                            dist.set(&graph.nodes[ni].edges[j].to, nd);
                            heap.push((Distance(nd), graph.nodes[ni].edges[j].to.clone()));
                            proof {
                                assert(heap@ == hp1.push(heap@[heap@.len() - 1]));
                                assert(heap@[heap@.len() - 1].1@ == b);
                                assert(heap@[heap@.len() - 1].0.0 == nd);
                                lemma_relax_step(
                                    g,
                                    s,
                                    cur,
                                    vs0,
                                    vvs,
                                    dm1,
                                    dist@,
                                    hp1,
                                    heap@,
                                    heap@[heap@.len() - 1],
                                    b,
                                    w,
                                    nd,
                                    dcur,
                                );
                                assert forall|jj: int|
                                    0 <= jj < j + 1 implies contains_key(
                                    dist@,
                                    (#[trigger] node_edges(g, cur)[jj]).to,
                                ) && value_of(dist@, node_edges(g, cur)[jj].to) <= dcur
                                    + node_edges(g, cur)[jj].tx.value by {
                                    let t = node_edges(g, cur)[jj].to;
                                    if jj < j {
                                        assert(contains_key(dm1, t) && value_of(dm1, t) <= dcur
                                            + node_edges(g, cur)[jj].tx.value);
                                        assert(value_of(dist@, t) <= value_of(dm1, t));
                                    } else {
                                        assert(t == b);
                                        assert(value_of(dist@, b) == nd);
                                    }
                                }
                            }
                        } else {
                            proof {
                                assert forall|jj: int|
                                    0 <= jj < j + 1 implies contains_key(
                                    dist@,
                                    (#[trigger] node_edges(g, cur)[jj]).to,
                                ) && value_of(dist@, node_edges(g, cur)[jj].to) <= dcur
                                    + node_edges(g, cur)[jj].tx.value by {
                                    if jj == j {
                                        assert(contains_key(dist@, b));
                                        assert(value_of(dist@, b) <= nd);
                                    }
                                }
                            }
                        }
                        j += 1;
                    }
                    proof {
                        // All of the settled node's edges are now relaxed.
                        assert forall|v: Seq<char>, jj: int|
                            visited@.contains(v) && 0 <= jj < node_edges(g, v).len()
                                implies contains_key(
                            dist@,
                            (#[trigger] node_edges(g, v)[jj]).to,
                        ) && value_of(dist@, node_edges(g, v)[jj].to) <= value_of(dist@, v)
                            + node_edges(g, v)[jj].tx.value by {
                            if v == cur {
                            } else {
                                assert(vs0.contains(v));
                            }
                        }
                        assert(inv_settled_closed(g, visited@, dist@));
                    }
                },
                None => {
                    proof {
                        assert(node_edges(g, cur) =~= Seq::<crate::graph::EdgeModel>::empty());
                        assert forall|v: Seq<char>, jj: int|
                            visited@.contains(v) && 0 <= jj < node_edges(g, v).len()
                                implies contains_key(
                            dist@,
                            (#[trigger] node_edges(g, v)[jj]).to,
                        ) && value_of(dist@, node_edges(g, v)[jj].to) <= value_of(dist@, v)
                            + node_edges(g, v)[jj].tx.value by {
                            if v == cur {
                                assert(node_edges(g, v).len() == 0);
                            } else {
                                assert(vs0.contains(v));
                            }
                        }
                        assert(inv_settled_closed(g, visited@, dist@));
                    }
                },
            }
        } else {
            proof {
                assert(vs0.contains(cur));
                let pi = choose|i: int|
                    0 <= i < hp0.len() && pe == hp0[i] && heap@ == hp0.remove(i);
                lemma_cover_after_remove(dm0, vs0, hp0, pi);
            }
        }
    }
    proof {
        // An empty queue leaves no unsettled key, so the settled facts carry
        // over to every key in the result.
        assert forall|k: Seq<char>| #[trigger] contains_key(dist@, k) implies visited@.contains(
            k,
        ) by {
            if !visited@.contains(k) {
                let h = choose|h: int|
                    0 <= h < heap@.len() && (#[trigger] heap@[h]).1@ == k && heap@[h].0.0
                        == value_of(dist@, k);
            }
        }
        assert forall|t: Seq<char>| #[trigger] contains_key(dist@, t) implies reachable(
            g,
            s,
            t,
        ) by {
            let c = value_of(dist@, t) as int;
            assert(attains_cost(g, s, t, c));
            let p = choose|p: Seq<Seq<char>>| is_path_between(g, p, s, t) && path_cost(g, p) == c;
            assert(is_path_between(g, p, s, t));
        }
        assert forall|t: Seq<char>| reachable(g, s, t) implies contains_key(dist@, t) by {
            let p = choose|p: Seq<Seq<char>>| is_path_between(g, p, s, t);
            lemma_closure_reach(g, dist@, visited@, s, p);
        }
        assert forall|t: Seq<char>| #[trigger] contains_key(dist@, t) implies is_shortest_distance(
            g,
            s,
            t,
            value_of(dist@, t) as int,
        ) by {
            assert(visited@.contains(t));
            assert forall|p: Seq<Seq<char>>| #[trigger] is_path_between(g, p, s, t) implies
                path_cost(g, p) >= value_of(dist@, t) by {}
        }
    }
    dist
}

} // verus!
