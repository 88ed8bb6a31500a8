//! Largest component size by forward-reachability traversal.
//!
//! The traversal follows stored (outgoing) edges only and shares one visited
//! set across all traversal starts, taken in node insertion order. What it
//! reports is therefore the size of the largest forward-reachability tree
//! claimed by an earlier start, not of an undirected connected component;
//! the specification below pins down exactly that quantity.

use vstd::prelude::*;

use crate::graph::{
    EdgeModel, Graph, NodeModel, edge_index, has_edge, lemma_node_index_unique,
    lemma_total_edges_nonneg, node_edges, total_edges, wf_graph,
};
use crate::helper_algorithm::{
    is_path, is_path_between, lemma_has_edge_target, target_seq,
};
use crate::node_map::NodeSet;

verus! {

/// Does walk `p` stay clear of every node in `avoid`?
pub open spec fn path_avoids(p: Seq<Seq<char>>, avoid: Set<Seq<char>>) -> bool {
    forall|i: int| 0 <= i < p.len() ==> !avoid.contains(#[trigger] p[i])
}

/// Can `t` be reached from `s` along stored edges without touching any node
/// in `avoid`?
pub open spec fn claims(
    g: Seq<NodeModel>,
    s: Seq<char>,
    avoid: Set<Seq<char>>,
    t: Seq<char>,
) -> bool {
    exists|p: Seq<Seq<char>>| is_path_between(g, p, s, t) && path_avoids(p, avoid)
}

/// All nodes a traversal starting at `s` claims when the nodes in `avoid`
/// were already taken by earlier traversals.
pub open spec fn claimed_set(g: Seq<NodeModel>, s: Seq<char>, avoid: Set<Seq<char>>) -> Set<
    Seq<char>,
> {
    Set::new(|t: Seq<char>| claims(g, s, avoid, t))
}

/// The answer of the traversal over nodes `i..` of `g`, with `visited`
/// already claimed and `best` the best size so far: each unvisited node in
/// order claims its avoiding-reachable set, and the largest claim wins.
pub open spec fn lcc_from(
    g: Seq<NodeModel>,
    i: int,
    visited: Set<Seq<char>>,
    best: int,
) -> int
    decreases g.len() - i,
{
    if i < 0 || i >= g.len() {
        best
    } else {
        let s = g[i].id;
        if visited.contains(s) {
            lcc_from(g, i + 1, visited, best)
        } else {
            let c = claimed_set(g, s, visited);
            lcc_from(g, i + 1, visited.union(c), vstd::math::max(best, c.len() as int))
        }
    }
}

/// The component size is a function of the graph alone: any two results
/// meeting the contract of [`largest_connected_component`] are equal, so
/// running it twice on one immutable graph yields identical results.
pub proof fn lemma_component_size_deterministic(g: Seq<NodeModel>, r1: usize, r2: usize)
    requires
        r1 == lcc_from(g, 0, Set::empty(), 0),
        r2 == lcc_from(g, 0, Set::empty(), 0),
    ensures
        r1 == r2,
{
}

/// A claimed node is the start or some edge's destination.
proof fn lemma_claims_universe(g: Seq<NodeModel>, s: Seq<char>, avoid: Set<Seq<char>>, t: Seq<char>)
    requires
        claims(g, s, avoid, t),
    ensures
        t == s || target_seq(g).contains(t),
{
    let p = choose|p: Seq<Seq<char>>| is_path_between(g, p, s, t) && path_avoids(p, avoid);
    if p.len() == 1 {
        assert(t == s);
    } else {
        assert(has_edge(g, p[p.len() - 2], p[p.len() - 1]));
        lemma_has_edge_target(g, p[p.len() - 2], t);
    }
}

/// A duplicate-free node sequence drawn from a base sequence, one start node
/// and the edge destinations is no longer than their combined count.
proof fn lemma_card_universe(
    g: Seq<NodeModel>,
    vs: Seq<Seq<char>>,
    base: Seq<Seq<char>>,
    s: Seq<char>,
)
    requires
        forall|i: int, j: int| 0 <= i < j < vs.len() ==> vs[i] != vs[j],
        forall|v: Seq<char>|
            #[trigger] vs.contains(v) ==> base.contains(v) || v == s || target_seq(g).contains(v),
    ensures
        vs.len() <= base.len() + 1 + total_edges(g),
{
    broadcast use vstd::seq_lib::seq_to_set_is_finite;

    vs.unique_seq_to_set();
    base.lemma_cardinality_of_set();
    crate::helper_algorithm::lemma_target_seq_len(g);
    target_seq(g).lemma_cardinality_of_set();
    let u = base.to_set().union(target_seq(g).to_set()).insert(s);
    assert(vs.to_set().subset_of(u));
    vstd::set_lib::lemma_len_union(base.to_set(), target_seq(g).to_set());
    vstd::set_lib::lemma_len_subset(vs.to_set(), u);
}

/// The node identifiers of a stack of owned strings.
pub open spec fn ids_of(st: Seq<String>) -> Seq<Seq<char>> {
    st.map_values(|x: String| x@)
}

/// With the stack drained, the newly claimed nodes are closed under stored
/// edges that avoid the previously visited set, so every avoiding walk from
/// the start stays inside the visited set.
proof fn lemma_dfs_complete(
    g: Seq<NodeModel>,
    avoid: Set<Seq<char>>,
    vis: Seq<Seq<char>>,
    s: Seq<char>,
    p: Seq<Seq<char>>,
)
    requires
        wf_graph(g),
        is_path(g, p),
        p.first() == s,
        path_avoids(p, avoid),
        vis.contains(s),
        forall|v: Seq<char>, j: int|
            vis.contains(v) && !avoid.contains(v) && 0 <= j < node_edges(g, v).len()
                ==> vis.contains((#[trigger] node_edges(g, v)[j]).to),
    ensures
        vis.contains(p.last()),
    decreases p.len(),
{
    if p.len() == 1 {
        assert(p.last() == s);
    } else {
        let q = p.drop_last();
        assert(q.len() >= 1);
        assert forall|i: int| 0 <= i < q.len() - 1 implies has_edge(g, #[trigger] q[i], q[i + 1]) by {
            assert(q[i] == p[i] && q[i + 1] == p[i + 1]);
        }
        assert(q.first() == p.first());
        assert forall|i: int| 0 <= i < q.len() implies !avoid.contains(#[trigger] q[i]) by {
            assert(q[i] == p[i]);
        }
        lemma_dfs_complete(g, avoid, vis, s, q);
        let y = q.last();
        assert(y == p[p.len() - 2]);
        assert(!avoid.contains(p[p.len() - 2]));
        assert(has_edge(g, p[p.len() - 2], p[p.len() - 1]));
        let es = node_edges(g, y);
        let b = p.last();
        let j = edge_index(es, b);
        assert(0 <= j < es.len() && es[j].to == b);
        assert(vis.contains(es[j].to));
    }
}

/// Iterative depth-first traversal from `start`, skipping nodes already in
/// `visited`. Adds every node it claims to `visited` and returns how many it
/// claimed: the size of the avoiding-reachable set of `start`.
pub fn dfs_component_size(graph: &Graph, start: &str, visited: &mut NodeSet) -> (r: usize)
    requires
        graph.wf(),
        old(visited).wf(),
    ensures
        final(visited).wf(),
        forall|t: Seq<char>|
            #[trigger] final(visited)@.contains(t) <==> old(visited)@.contains(t) || claims(
                graph@,
                start@,
                old(visited)@.to_set(),
                t,
            ),
        final(visited)@.len() == old(visited)@.len() + r,
        r == claimed_set(graph@, start@, old(visited)@.to_set()).len(),
{
    let ghost g = graph@;
    let ghost s = start@;
    let ghost vs_old = old(visited)@;
    let ghost avoid = vs_old.to_set();
    let mut stack: Vec<String> = Vec::new();
    stack.push(start.to_owned());
    let mut size: usize = 0;
    proof {
        lemma_total_edges_nonneg(g);
        assert(ids_of(stack@) =~= seq![s]);
        assert(ids_of(stack@)[0] == s);
        assert(ids_of(stack@).contains(s));
        if !avoid.contains(s) {
            let p = seq![s];
            assert(is_path_between(g, p, s, s));
            assert(path_avoids(p, avoid));
            assert(claims(g, s, avoid, s));
        }
    }
    while stack.len() != 0
        invariant
            graph.wf(),
            g == graph@,
            s == start@,
            vs_old == old(visited)@,
            avoid == vs_old.to_set(),
            visited.wf(),
            forall|t: Seq<char>| vs_old.contains(t) ==> visited@.contains(t),
            forall|t: Seq<char>|
                #[trigger] visited@.contains(t) ==> vs_old.contains(t) || claims(g, s, avoid, t),
            forall|v: Seq<char>, j: int|
                visited@.contains(v) && !vs_old.contains(v) && 0 <= j < node_edges(g, v).len()
                    ==> visited@.contains((#[trigger] node_edges(g, v)[j]).to) || ids_of(
                    stack@,
                ).contains(node_edges(g, v)[j].to),
            !avoid.contains(s) ==> visited@.contains(s) || ids_of(stack@).contains(s),
            forall|x: Seq<char>|
                #[trigger] ids_of(stack@).contains(x) ==> claims(g, s, avoid, x)
                    || visited@.contains(x),
            size == visited@.len() - vs_old.len(),
            visited@.len() >= vs_old.len(),
            visited@.len() <= vs_old.len() + 1 + total_edges(g),
        decreases vs_old.len() + 1 + total_edges(g) - visited@.len(), stack@.len(),
    {
        let ghost st0 = stack@;
        let node = match stack.pop() {
            Some(n) => n,
            None => {
                proof {
                    assert(false);
                }
                unreached()
            },
        };
        let ghost nid = node@;
        proof {
            assert(stack@ =~= st0.drop_last());
            assert(ids_of(st0)[st0.len() - 1] == nid);
            assert(ids_of(st0).contains(nid));
            assert(ids_of(stack@) =~= ids_of(st0).drop_last());
            assert forall|x: Seq<char>| #[trigger] ids_of(stack@).contains(x) implies ids_of(
                st0,
            ).contains(x) by {
                let ix = choose|i: int| 0 <= i < ids_of(stack@).len() && ids_of(stack@)[i] == x;
                assert(ids_of(st0)[ix] == x);
            }
        }
        let ghost vsb = visited@;
        let was_new = visited.insert(&node);
        if was_new {
            proof {
                assert(visited@ == vsb.push(nid));
                assert(visited@[vsb.len() as int] == nid);
                assert(visited@.contains(nid));
                assert forall|x: Seq<char>| vsb.contains(x) implies visited@.contains(x) by {
                    let ix = choose|i: int| 0 <= i < vsb.len() && vsb[i] == x;
                    assert(visited@[ix] == x);
                }
                assert forall|x: Seq<char>| #[trigger] visited@.contains(x) implies vsb.contains(x)
                    || x == nid by {
                    let ix = choose|i: int| 0 <= i < visited@.len() && visited@[i] == x;
                    if ix < vsb.len() {
                        assert(vsb[ix] == x);
                    }
                }
                // The popped node is newly claimed.
                assert(!vsb.contains(nid));
                assert(!vs_old.contains(nid));
                assert(claims(g, s, avoid, nid));
                // Universe bound for the grown visited sequence.
                assert forall|v: Seq<char>|
                    #[trigger] visited@.contains(v) implies vs_old.contains(v) || v == s
                        || target_seq(g).contains(v) by {
                    if !vs_old.contains(v) {
                        lemma_claims_universe(g, s, avoid, v);
                    }
                }
                lemma_card_universe(g, visited@, vs_old, s);
                // Old stack witnesses survive the pop: the popped entry's own
                // node is now visited.
                assert forall|v: Seq<char>, jj: int|
                    visited@.contains(v) && !vs_old.contains(v) && v != nid && 0 <= jj
                        < node_edges(g, v).len() implies visited@.contains(
                    (#[trigger] node_edges(g, v)[jj]).to,
                ) || ids_of(stack@).contains(node_edges(g, v)[jj].to) by {
                    let b = node_edges(g, v)[jj].to;
                    assert(vsb.contains(v));
                    if !visited@.contains(b) {
                        assert(!vsb.contains(b));
                        assert(ids_of(st0).contains(b));
                        let ix = choose|i: int| 0 <= i < ids_of(st0).len() && ids_of(st0)[i] == b;
                        if ix < st0.len() - 1 {
                            assert(ids_of(stack@)[ix] == b);
                        } else {
                            assert(b == nid);
                        }
                    }
                }
                assert(!avoid.contains(s) ==> visited@.contains(s) || ids_of(stack@).contains(
                    s,
                )) by {
                    if !avoid.contains(s) && !visited@.contains(s) {
                        assert(!vsb.contains(s));
                        assert(ids_of(st0).contains(s));
                        let ix = choose|i: int| 0 <= i < ids_of(st0).len() && ids_of(st0)[i] == s;
                        if ix < st0.len() - 1 {
                            assert(ids_of(stack@)[ix] == s);
                        } else {
                            assert(s == nid);
                        }
                    }
                }
            }
            let vl = visited.len();
            proof {
                assert(size < vl);
            }
            size += 1;
            let found = graph.find_node(&node);
            match found {
                Some(ni) => {
                    let deg = graph.nodes[ni].edges.len();
                    proof {
                        assert(graph@[ni as int].edges =~= node_edges(g, nid));
                    }
                    let ghost vvs = visited@;
                    let mut j: usize = 0;
                    while j < deg
                        invariant
                            graph.wf(),
                            g == graph@,
                            s == start@,
                            vs_old == old(visited)@,
                            avoid == vs_old.to_set(),
                            visited.wf(),
                            visited@ == vvs,
                            visited@.contains(nid),
                            !vs_old.contains(nid),
                            claims(g, s, avoid, nid),
                            ni < g.len(),
                            g[ni as int].id == nid,
                            g[ni as int].edges == node_edges(g, nid),
                            deg == node_edges(g, nid).len(),
                            j <= deg,
                            forall|t: Seq<char>| vs_old.contains(t) ==> visited@.contains(t),
                            forall|t: Seq<char>|
                                #[trigger] visited@.contains(t) ==> vs_old.contains(t) || claims(
                                    g,
                                    s,
                                    avoid,
                                    t,
                                ),
                            forall|v: Seq<char>, jj: int|
                                visited@.contains(v) && !vs_old.contains(v) && v != nid && 0 <= jj
                                    < node_edges(g, v).len() ==> visited@.contains(
                                    (#[trigger] node_edges(g, v)[jj]).to,
                                ) || ids_of(stack@).contains(node_edges(g, v)[jj].to),
                            forall|jj: int|
                                0 <= jj < j ==> visited@.contains(
                                    (#[trigger] node_edges(g, nid)[jj]).to,
                                ) || ids_of(stack@).contains(node_edges(g, nid)[jj].to),
                            !avoid.contains(s) ==> visited@.contains(s) || ids_of(
                                stack@,
                            ).contains(s),
                            forall|x: Seq<char>|
                                #[trigger] ids_of(stack@).contains(x) ==> claims(g, s, avoid, x)
                                    || visited@.contains(x),
                            size == visited@.len() - vs_old.len(),
                            visited@.len() >= vs_old.len(),
                            visited@.len() <= vs_old.len() + 1 + total_edges(g),
                        decreases deg - j,
                    {
                        let ghost b = g[ni as int].edges[j as int].to;
                        let in_vis = visited.contains(&graph.nodes[ni].edges[j].to);
                        if !in_vis {
                            let ghost st1 = stack@;
                            stack.push(graph.nodes[ni].edges[j].to.clone());
                            proof {
                                assert(ids_of(stack@) =~= ids_of(st1).push(b));
                                assert(ids_of(stack@)[st1.len() as int] == b);
                                assert(ids_of(stack@).contains(b));
                                assert forall|x: Seq<char>|
                                    #[trigger] ids_of(st1).contains(x) implies ids_of(
                                    stack@,
                                ).contains(x) by {
                                    let ix = choose|i: int|
                                        0 <= i < ids_of(st1).len() && ids_of(st1)[i] == x;
                                    assert(ids_of(stack@)[ix] == x);
                                }
                                // The pushed neighbor is claimed: extend a
                                // claiming walk to `nid` by this edge.
                                lemma_node_index_unique(g, nid, ni as int);
                                assert(node_edges(g, nid)[j as int].to == b);
                                assert(has_edge(g, nid, b));
                                assert(!vs_old.contains(b));
                                assert(!avoid.contains(b));
                                let pw = choose|p: Seq<Seq<char>>|
                                    is_path_between(g, p, s, nid) && path_avoids(p, avoid);
                                crate::helper_algorithm::lemma_path_snoc(g, pw, b);
                                assert(path_avoids(pw.push(b), avoid)) by {
                                    assert forall|i: int|
                                        0 <= i < pw.push(b).len() implies !avoid.contains(
                                        #[trigger] pw.push(b)[i],
                                    ) by {
                                        if i < pw.len() {
                                            assert(pw.push(b)[i] == pw[i]);
                                        }
                                    }
                                }
                                assert(claims(g, s, avoid, b));
                                assert forall|x: Seq<char>|
                                    #[trigger] ids_of(stack@).contains(x) implies claims(
                                    g,
                                    s,
                                    avoid,
                                    x,
                                ) || visited@.contains(x) by {
                                    let ix = choose|i: int|
                                        0 <= i < ids_of(stack@).len() && ids_of(stack@)[i] == x;
                                    if ix < st1.len() {
                                        assert(ids_of(st1)[ix] == x);
                                        assert(ids_of(st1).contains(x));
                                    } else {
                                        assert(x == b);
                                    }
                                }
                            }
                        }
                        j += 1;
                    }
                    proof {
                        assert forall|v: Seq<char>, jj: int|
                            visited@.contains(v) && !vs_old.contains(v) && 0 <= jj < node_edges(
                                g,
                                v,
                            ).len() implies visited@.contains(
                            (#[trigger] node_edges(g, v)[jj]).to,
                        ) || ids_of(stack@).contains(node_edges(g, v)[jj].to) by {
                            if v == nid {
                            }
                        }
                    }
                },
                None => {
                    proof {
                        assert(node_edges(g, nid) =~= Seq::<EdgeModel>::empty());
                        assert forall|v: Seq<char>, jj: int|
                            visited@.contains(v) && !vs_old.contains(v) && 0 <= jj < node_edges(
                                g,
                                v,
                            ).len() implies visited@.contains(
                            (#[trigger] node_edges(g, v)[jj]).to,
                        ) || ids_of(stack@).contains(node_edges(g, v)[jj].to) by {
                            if v == nid {
                                assert(node_edges(g, v).len() == 0);
                            }
                        }
                    }
                },
            }
        } else {
            proof {
                assert(visited@ == vsb);
                assert(visited@.contains(nid));
                assert forall|v: Seq<char>, jj: int|
                    visited@.contains(v) && !vs_old.contains(v) && 0 <= jj < node_edges(
                        g,
                        v,
                    ).len() implies visited@.contains(
                    (#[trigger] node_edges(g, v)[jj]).to,
                ) || ids_of(stack@).contains(node_edges(g, v)[jj].to) by {
                    let b = node_edges(g, v)[jj].to;
                    if !visited@.contains(b) {
                        assert(ids_of(st0).contains(b));
                        let ix = choose|i: int| 0 <= i < ids_of(st0).len() && ids_of(st0)[i] == b;
                        if ix < st0.len() - 1 {
                            assert(ids_of(stack@)[ix] == b);
                        } else {
                            assert(b == nid);
                        }
                    }
                }
                assert(!avoid.contains(s) ==> visited@.contains(s) || ids_of(stack@).contains(
                    s,
                )) by {
                    if !avoid.contains(s) && !visited@.contains(s) {
                        assert(ids_of(st0).contains(s));
                        let ix = choose|i: int| 0 <= i < ids_of(st0).len() && ids_of(st0)[i] == s;
                        if ix < st0.len() - 1 {
                            assert(ids_of(stack@)[ix] == s);
                        } else {
                            assert(s == nid);
                        }
                    }
                }
            }
        }
    }
    proof {
        broadcast use vstd::seq_lib::seq_to_set_is_finite;

        let claimed = claimed_set(g, s, avoid);
        assert forall|t: Seq<char>| claims(g, s, avoid, t) implies visited@.contains(t) by {
            let p = choose|p: Seq<Seq<char>>| is_path_between(g, p, s, t) && path_avoids(p, avoid);
            assert(!avoid.contains(p[0]));
            assert(visited@.contains(s));
            lemma_dfs_complete(g, avoid, visited@, s, p);
        }
        assert forall|t: Seq<char>| #[trigger] claimed.contains(t) implies !avoid.contains(t) by {
            let p = choose|p: Seq<Seq<char>>| is_path_between(g, p, s, t) && path_avoids(p, avoid);
            assert(p[p.len() - 1] == t);
        }
        assert(visited@.to_set() =~= avoid.union(claimed)) by {
            assert forall|t: Seq<char>| #[trigger] visited@.to_set().contains(t) implies
                avoid.union(claimed).contains(t) by {
                assert(visited@.contains(t));
            }
            assert forall|t: Seq<char>| #[trigger] avoid.union(claimed).contains(t) implies
                visited@.to_set().contains(t) by {
                if avoid.contains(t) {
                    assert(vs_old.contains(t));
                }
            }
        }
        visited@.unique_seq_to_set();
        vs_old.unique_seq_to_set();
        assert(avoid.disjoint(claimed));
        vstd::set_lib::lemma_len_subset(claimed, visited@.to_set());
        vstd::set_lib::lemma_set_disjoint_lens(avoid, claimed);
        assert(avoid.union(claimed) == avoid + claimed);
        assert(visited@.len() == vs_old.len() + claimed.len());
    }
    size
}

/// The size of the largest forward-reachability tree over all traversal
/// starts, taken in node insertion order with one shared visited set.
pub fn largest_connected_component(graph: &Graph) -> (r: usize)
    requires
        graph.wf(),
    ensures
        r == lcc_from(graph@, 0, Set::empty(), 0),
{
    let ghost g = graph@;
    let mut visited = NodeSet::new();
    let mut max_size: usize = 0;
    let n = graph.node_count();
    let mut i: usize = 0;
    proof {
        assert(visited@.to_set() =~= Set::<Seq<char>>::empty());
    }
    while i < n
        invariant
            graph.wf(),
            g == graph@,
            n == g.len(),
            i <= n,
            visited.wf(),
            lcc_from(g, 0, Set::empty(), 0) == lcc_from(g, i as int, visited@.to_set(), max_size as int),
        decreases n - i,
    {
        let ghost vset = visited@.to_set();
        let in_vis = visited.contains(&graph.nodes[i].id);
        proof {
            assert(g[i as int].id == graph.nodes@[i as int].id@);
            assert(in_vis == vset.contains(g[i as int].id));
        }
        if !in_vis {
            let c = dfs_component_size(graph, graph.nodes[i].id.as_str(), &mut visited);
            proof {
                let sid = g[i as int].id;
                let cl = claimed_set(g, sid, vset);
                assert(visited@.to_set() =~= vset.union(cl)) by {
                    assert forall|t: Seq<char>| #[trigger] visited@.to_set().contains(t) implies
                        vset.union(cl).contains(t) by {
                        assert(visited@.contains(t));
                    }
                    assert forall|t: Seq<char>| #[trigger] vset.union(cl).contains(t) implies
                        visited@.to_set().contains(t) by {
                        if vset.contains(t) {
                            assert(visited@.contains(t));
                        } else {
                            assert(visited@.contains(t));
                        }
                    }
                }
                assert(c as int == cl.len());
                assert(vstd::math::max(max_size as int, cl.len() as int) == if c > max_size {
                    c as int
                } else {
                    max_size as int
                });
            }
            if c > max_size {
                max_size = c;
            }
        }
        i += 1;
    }
    max_size
}

} // verus!
