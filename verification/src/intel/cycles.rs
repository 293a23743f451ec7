//! Dependency cycles: the strongly connected components of a graph.
//!
//! Nodes are referred to by position. An edge endpoint names the last node
//! with that id; edges with an unknown endpoint are ignored. Two nodes are
//! in one component when each reaches the other along edges.
use vstd::prelude::*;

use crate::entities::graph::{EdgeView, GraphView, NodeView};
use crate::entities::{Cycle, Graph, GraphNode};
use crate::order::{
    is_sorted, lemma_sort_contains, lemma_sort_sorted, lemma_strs_order, sort_by_key, sort_seq,
    strings_le, views, SortKey,
};
use crate::text::str_eq;

verus! {

// --- Paths ---------------------------------------------------------------

/// Whether `p` is a non-empty walk along `step`.
pub open spec fn is_path(step: spec_fn(int, int) -> bool, p: Seq<int>) -> bool
    decreases p.len(),
{
    if p.len() <= 1 {
        p.len() == 1
    } else {
        is_path(step, p.drop_last()) && step(p[p.len() - 2], p.last())
    }
}

/// Whether a walk along `step` leads from `a` to `b`.
pub open spec fn walk_reaches(step: spec_fn(int, int) -> bool, a: int, b: int) -> bool {
    exists|p: Seq<int>| is_path(step, p) && p[0] == a && p.last() == b
}

/// Every node reaches itself.
pub proof fn lemma_reach_self(step: spec_fn(int, int) -> bool, a: int)
    ensures
        walk_reaches(step, a, a),
{
    let p = seq![a];
    assert(is_path(step, p));
    assert(p[0] == a && p.last() == a);
}

/// A walk to `u` followed by a step to `w` is a walk to `w`.
pub proof fn lemma_reach_step(step: spec_fn(int, int) -> bool, a: int, u: int, w: int)
    requires
        walk_reaches(step, a, u),
        step(u, w),
    ensures
        walk_reaches(step, a, w),
{
    let p = choose|p: Seq<int>| is_path(step, p) && p[0] == a && p.last() == u;
    let q = p.push(w);
    assert(q.drop_last() == p);
    assert(is_path(step, q));
    assert(q[0] == a);
}

/// A walk that starts in a set closed under `step` stays in it.
proof fn lemma_closed_walk(step: spec_fn(int, int) -> bool, vis: Seq<bool>, p: Seq<int>)
    requires
        is_path(step, p),
        0 <= p[0] < vis.len(),
        vis[p[0]],
        forall|a: int, b: int| 0 <= a < vis.len() && vis[a] && #[trigger] step(a, b) ==> 0 <= b
            < vis.len() && vis[b],
    ensures
        0 <= p.last() < vis.len(),
        vis[p.last()],
    decreases p.len(),
{
    if p.len() > 1 {
        let q = p.drop_last();
        assert(q[0] == p[0]);
        lemma_closed_walk(step, vis, q);
        assert(q.last() == p[p.len() - 2]);
    }
}

/// A sequence of distinct indices below `n` has at most `n` elements.
proof fn lemma_distinct_bounded(s: Seq<usize>, n: usize)
    requires
        forall|t: int| 0 <= t < s.len() ==> s[t] < n,
        forall|t: int, u: int| 0 <= t < u < s.len() ==> s[t] != s[u],
    ensures
        s.len() <= n,
{
    let si = s.map_values(|x: usize| x as int);
    assert(si.no_duplicates()) by {
        assert forall|t: int, u: int| 0 <= t < si.len() && 0 <= u < si.len() && t != u implies si[t]
            != si[u] by {
            assert(si[t] == s[t] as int);
            assert(si[u] == s[u] as int);
            if t < u {
                assert(s[t] != s[u]);
            } else {
                assert(s[u] != s[t]);
            }
        }
    }
    si.unique_seq_to_set();
    vstd::set_lib::lemma_int_range(0, n as int);
    assert(si.to_set().subset_of(vstd::set_lib::set_int_range(0, n as int))) by {
        assert forall|x: int| si.to_set().contains(x) implies vstd::set_lib::set_int_range(
            0,
            n as int,
        ).contains(x) by {
            let t = choose|t: int| 0 <= t < si.len() && si[t] == x;
            assert(s[t] < n);
        }
    }
    vstd::set_lib::lemma_len_subset(si.to_set(), vstd::set_lib::set_int_range(0, n as int));
}

/// Whether `adj` lists exactly the steps of `step` among `n` nodes.
pub open spec fn lists_steps(adj: Seq<Vec<usize>>, step: spec_fn(int, int) -> bool) -> bool {
    &&& forall|a: int, t: int|
        0 <= a < adj.len() && 0 <= t < adj[a]@.len() ==> #[trigger] adj[a]@[t] < adj.len() && step(
            a,
            adj[a]@[t] as int,
        )
    &&& forall|a: int, b: int|
        #[trigger] step(a, b) ==> 0 <= a < adj.len() && 0 <= b < adj.len() && exists|t: int|
            0 <= t < adj[a]@.len() && adj[a]@[t] == b
}

/// The nodes that `s` reaches, by breadth-first search.
fn reachable_from(adj: &Vec<Vec<usize>>, s: usize, Ghost(step): Ghost<spec_fn(int, int) -> bool>) -> (visited: Vec<bool>)
    requires
        s < adj@.len(),
        lists_steps(adj@, step),
    ensures
        visited@.len() == adj@.len(),
        forall|j: int| 0 <= j < adj@.len() ==> (visited@[j] <==> walk_reaches(step, s as int, j)),
{
    let n = adj.len();
    let mut visited: Vec<bool> = Vec::new();
    let mut k: usize = 0;
    while k < n
        invariant
            k <= n,
            visited@.len() == k,
            forall|j: int| 0 <= j < k ==> !visited@[j],
        decreases n - k,
    {
        visited.push(false);
        k += 1;
    }
    visited.set(s, true);
    proof {
        lemma_reach_self(step, s as int);
    }
    let mut order: Vec<usize> = Vec::new();
    order.push(s);
    assert(order@[0] == s);
    assert forall|j: int| 0 <= j < n && visited@[j] implies exists|t: int|
        0 <= t < order@.len() && order@[t] == j by {
        assert(order@[0] == j);
    }
    let mut head: usize = 0;
    while head < order.len()
        invariant
            n == adj@.len(),
            lists_steps(adj@, step),
            s < n,
            visited@.len() == n,
            visited@[s as int],
            head <= order@.len(),
            order@.len() <= n,
            forall|t: int| 0 <= t < order@.len() ==> order@[t] < n && visited@[order@[t] as int],
            forall|t: int, u: int| 0 <= t < u < order@.len() ==> order@[t] != order@[u],
            forall|j: int|
                0 <= j < n && visited@[j] ==> exists|t: int| 0 <= t < order@.len() && order@[t] == j,
            forall|j: int| 0 <= j < n && visited@[j] ==> walk_reaches(step, s as int, j),
            forall|t: int, b: int|
                0 <= t < head && #[trigger] step(order@[t] as int, b) ==> 0 <= b < n && visited@[b],
        decreases n - head,
    {
        let u = order[head];
        let mut m: usize = 0;
        while m < adj[u].len()
            invariant
                n == adj@.len(),
                lists_steps(adj@, step),
                s < n,
                u < n,
                u == order@[head as int],
                visited@.len() == n,
                visited@[s as int],
                visited@[u as int],
                head < order@.len(),
                m <= adj@[u as int]@.len(),
                forall|t: int| 0 <= t < order@.len() ==> order@[t] < n && visited@[order@[t] as int],
                forall|t: int, v: int| 0 <= t < v < order@.len() ==> order@[t] != order@[v],
                forall|j: int|
                    0 <= j < n && visited@[j] ==> exists|t: int|
                        0 <= t < order@.len() && order@[t] == j,
                forall|j: int| 0 <= j < n && visited@[j] ==> walk_reaches(step, s as int, j),
                forall|t: int, b: int|
                    0 <= t < head && #[trigger] step(order@[t] as int, b) ==> 0 <= b < n
                        && visited@[b],
                forall|t: int| 0 <= t < m ==> visited@[adj@[u as int]@[t] as int],
            decreases adj@[u as int]@.len() - m,
        {
            let w = adj[u][m];
            assert(step(u as int, w as int));
            if !visited[w] {
                proof {
                    lemma_reach_step(step, s as int, u as int, w as int);
                    assert forall|t: int| 0 <= t < order@.len() implies order@[t] != w by {
                        assert(visited@[order@[t] as int]);
                    }
                }
                let ghost old_order = order@;
                let ghost old_vis = visited@;
                visited.set(w, true);
                order.push(w);
                proof {
                    assert forall|j: int| 0 <= j < n && visited@[j] implies exists|t: int|
                        0 <= t < order@.len() && order@[t] == j by {
                        if j == w as int {
                            assert(order@[order@.len() - 1] == w);
                        } else {
                            assert(old_vis[j]);
                            let t = choose|t: int| 0 <= t < old_order.len() && old_order[t] == j;
                            assert(order@[t] == j);
                        }
                    }
                }
            }
            assert(visited@[w as int]);
            assert forall|t: int| 0 <= t < m + 1 implies visited@[adj@[u as int]@[t] as int] by {
                if t < m {
                    assert(adj@[u as int]@[t] < n);
                }
            }
            m += 1;
        }
        proof {
            assert forall|t: int, b: int|
                0 <= t < head + 1 && #[trigger] step(order@[t] as int, b) implies 0 <= b < n
                && visited@[b] by {
                if t == head {
                    let tt = choose|tt: int| 0 <= tt < adj@[u as int]@.len() && adj@[u as int]@[tt] == b;
                    assert(visited@[adj@[u as int]@[tt] as int]);
                }
            }
            lemma_distinct_bounded(order@, n);
        }
        head += 1;
    }
    proof {
        assert forall|j: int| 0 <= j < n implies (visited@[j] <==> walk_reaches(step, s as int, j)) by {
            if walk_reaches(step, s as int, j) {
                let p = choose|p: Seq<int>| is_path(step, p) && p[0] == s as int && p.last() == j;
                assert forall|a: int, b: int|
                    0 <= a < visited@.len() && visited@[a] && #[trigger] step(a, b) implies 0 <= b
                    < visited@.len() && visited@[b] by {
                    let t = choose|t: int| 0 <= t < order@.len() && order@[t] == a;
                    assert(step(order@[t] as int, b));
                }
                lemma_closed_walk(step, visited@, p);
            }
        }
    }
    visited
}

// --- Graphs --------------------------------------------------------------

/// Position of the last node of `nodes` with id `id`.
pub open spec fn index_of(nodes: Seq<NodeView>, id: Seq<char>) -> Option<int>
    decreases nodes.len(),
{
    if nodes.len() == 0 {
        None
    } else if nodes.last().id == id {
        Some(nodes.len() - 1)
    } else {
        index_of(nodes.drop_last(), id)
    }
}

/// `index_of` names a node with that id.
pub proof fn lemma_index_of(nodes: Seq<NodeView>, id: Seq<char>)
    ensures
        index_of(nodes, id) matches Some(i) ==> 0 <= i < nodes.len() && nodes[i].id == id,
    decreases nodes.len(),
{
    if nodes.len() > 0 && nodes.last().id != id {
        lemma_index_of(nodes.drop_last(), id);
    }
}

/// Whether edge `e` leads from node `a` to node `b`.
pub open spec fn links(nodes: Seq<NodeView>, e: EdgeView, a: int, b: int) -> bool {
    index_of(nodes, e.from) == Some(a) && index_of(nodes, e.to) == Some(b)
}

/// The steps of a graph: from a node to a different node along an edge.
pub open spec fn graph_step(g: GraphView) -> spec_fn(int, int) -> bool {
    |a: int, b: int|
        a != b && exists|k: int| 0 <= k < g.edges.len() && #[trigger] links(g.nodes, g.edges[k], a, b)
}

/// Whether some edge of `g` leads from node `a` to itself.
pub open spec fn self_loop(g: GraphView, a: int) -> bool {
    exists|k: int| 0 <= k < g.edges.len() && #[trigger] links(g.nodes, g.edges[k], a, a)
}

/// Whether nodes `a` and `b` reach each other.
pub open spec fn mutual(g: GraphView, a: int, b: int) -> bool {
    walk_reaches(graph_step(g), a, b) && walk_reaches(graph_step(g), b, a)
}

/// Ids of the nodes below position `m` in the component of `a`, in order.
pub open spec fn component_ids(g: GraphView, a: int, m: int) -> Seq<Seq<char>>
    decreases m,
{
    if m <= 0 {
        Seq::empty()
    } else {
        component_ids(g, a, m - 1) + if mutual(g, a, m - 1) {
            seq![g.nodes[m - 1].id]
        } else {
            Seq::empty()
        }
    }
}

/// Whether `a` is the first node of its component.
pub open spec fn leads(g: GraphView, a: int) -> bool {
    forall|j: int| 0 <= j < a ==> !#[trigger] mutual(g, a, j)
}

/// Components of two or more nodes, each listed once at its first node,
/// among the nodes below position `m`.
pub open spec fn scc_cycles(g: GraphView, m: int) -> Seq<Seq<Seq<char>>>
    decreases m,
{
    if m <= 0 {
        Seq::empty()
    } else {
        scc_cycles(g, m - 1) + if leads(g, m - 1) && component_ids(
            g,
            m - 1,
            g.nodes.len() as int,
        ).len() >= 2 {
            seq![component_ids(g, m - 1, g.nodes.len() as int)]
        } else {
            Seq::empty()
        }
    }
}

/// One-node cycles: the nodes below position `m` with a self-loop.
pub open spec fn loop_cycles(g: GraphView, m: int) -> Seq<Seq<Seq<char>>>
    decreases m,
{
    if m <= 0 {
        Seq::empty()
    } else {
        loop_cycles(g, m - 1) + if self_loop(g, m - 1) {
            seq![seq![g.nodes[m - 1].id]]
        } else {
            Seq::empty()
        }
    }
}

/// The dependency cycles of a graph: its strongly connected components of
/// two or more nodes and its self-loops, each as the ids of its nodes in
/// node order, all sorted.
pub open spec fn cycles_spec(g: GraphView) -> Seq<Seq<Seq<char>>> {
    sort_seq(scc_cycles(g, g.nodes.len() as int) + loop_cycles(g, g.nodes.len() as int))
}

impl SortKey for Cycle {
    fn sort_le_exec(&self, other: &Self) -> (r: bool) {
        strings_le(self.nodes.as_slice(), other.nodes.as_slice())
    }
}

/// Position of the last node of `nodes` with id `id`.
fn index_in(nodes: &Vec<GraphNode>, id: &str) -> (r: Option<usize>)
    ensures
        match r {
            Some(i) => index_of(views(nodes@), id@) == Some(i as int),
            None => index_of(views(nodes@), id@) is None,
        },
{
    let ghost s = views(nodes@);
    let mut i: usize = nodes.len();
    assert(s.take(i as int) == s);
    while i > 0
        invariant
            i <= s.len(),
            s == views(nodes@),
            index_of(s, id@) == index_of(s.take(i as int), id@),
        decreases i,
    {
        assert(s.take(i as int).drop_last() == s.take(i - 1));
        assert(s.take(i as int).last() == s[i - 1]);
        if str_eq(&nodes[i - 1].id, id) {
            return Some(i - 1);
        }
        i -= 1;
    }
    None
}

/// The steps between distinct nodes, as position pairs, and whether each
/// node has a self-loop.
fn graph_arcs(graph: &Graph) -> (r: (Vec<(usize, usize)>, Vec<bool>))
    ensures
        r.1@.len() == graph.nodes@.len(),
        forall|a: int| 0 <= a < graph.nodes@.len() ==> r.1@[a] == self_loop(graph@, a),
        forall|t: int|
            0 <= t < r.0@.len() ==> r.0@[t].0 < graph.nodes@.len() && r.0@[t].1
                < graph.nodes@.len() && (graph_step(graph@))(r.0@[t].0 as int, r.0@[t].1 as int),
        forall|a: int, b: int|
            #[trigger] (graph_step(graph@))(a, b) ==> exists|t: int|
                0 <= t < r.0@.len() && r.0@[t].0 == a && r.0@[t].1 == b,
{
    let ghost g = graph@;
    let n = graph.nodes.len();
    let mut loops: Vec<bool> = Vec::new();
    let mut k: usize = 0;
    while k < n
        invariant
            k <= n,
            loops@.len() == k,
            forall|j: int| 0 <= j < k ==> !loops@[j],
        decreases n - k,
    {
        loops.push(false);
        k += 1;
    }
    let mut arcs: Vec<(usize, usize)> = Vec::new();
    let mut k: usize = 0;
    while k < graph.edges.len()
        invariant
            g == graph@,
            n == g.nodes.len(),
            k <= g.edges.len(),
            loops@.len() == n,
            forall|a: int|
                0 <= a < n ==> (loops@[a] <==> exists|kk: int|
                    0 <= kk < k && #[trigger] links(g.nodes, g.edges[kk], a, a)),
            forall|t: int|
                0 <= t < arcs@.len() ==> arcs@[t].0 < n && arcs@[t].1 < n && (graph_step(g))(
                    arcs@[t].0 as int,
                    arcs@[t].1 as int,
                ),
            forall|a: int, b: int, kk: int|
                0 <= kk < k && a != b && #[trigger] links(g.nodes, g.edges[kk], a, b) ==> exists|
                    t: int,
                | 0 <= t < arcs@.len() && arcs@[t].0 == a && arcs@[t].1 == b,
        decreases g.edges.len() - k,
    {
        let edge = &graph.edges[k];
        assert(g.edges[k as int] == edge@);
        let from = index_in(&graph.nodes, &edge.from);
        let to = index_in(&graph.nodes, &edge.to);
        proof {
            lemma_index_of(g.nodes, edge@.from);
            lemma_index_of(g.nodes, edge@.to);
        }
        let ghost old_loops = loops@;
        let ghost old_arcs = arcs@;
        match (from, to) {
            (Some(a), Some(b)) => {
                assert(links(g.nodes, g.edges[k as int], a as int, b as int));
                if a == b {
                    loops.set(a, true);
                } else {
                    assert((graph_step(g))(a as int, b as int));
                    arcs.push((a, b));
                    assert(arcs@[arcs@.len() - 1] == (a, b));
                }
            },
            _ => {},
        }
        proof {
            assert forall|x: int|
                0 <= x < n implies (loops@[x] <==> exists|kk: int|
                0 <= kk < k + 1 && #[trigger] links(g.nodes, g.edges[kk], x, x)) by {
                if loops@[x] && !old_loops[x] {
                    assert(links(g.nodes, g.edges[k as int], x, x));
                }
                if exists|kk: int| 0 <= kk < k + 1 && #[trigger] links(g.nodes, g.edges[kk], x, x) {
                    let kk = choose|kk: int|
                        0 <= kk < k + 1 && #[trigger] links(g.nodes, g.edges[kk], x, x);
                    if kk < k {
                        assert(old_loops[x]);
                    }
                }
            }
            assert forall|a: int, b: int, kk: int|
                0 <= kk < k + 1 && a != b && #[trigger] links(
                    g.nodes,
                    g.edges[kk],
                    a,
                    b,
                ) implies exists|t: int| 0 <= t < arcs@.len() && arcs@[t].0 == a && arcs@[t].1 == b by {
                if kk < k {
                    let t = choose|t: int|
                        0 <= t < old_arcs.len() && old_arcs[t].0 == a && old_arcs[t].1 == b;
                    assert(arcs@[t] == old_arcs[t]);
                } else {
                    assert(arcs@[arcs@.len() - 1].0 == a);
                }
            }
        }
        k += 1;
    }
    proof {
        assert forall|a: int, b: int|
            #[trigger] (graph_step(graph@))(a, b) implies exists|t: int|
            0 <= t < arcs@.len() && arcs@[t].0 == a && arcs@[t].1 == b by {
            let kk = choose|kk: int| 0 <= kk < g.edges.len() && #[trigger] links(g.nodes, g.edges[kk], a, b);
            assert(links(g.nodes, g.edges[kk], a, b));
            assert(a != b);
            assert(0 <= kk < k);
        }
        assert(g == graph@);
    }
    let ghost arcs_view = arcs@;
    let r = (arcs, loops);
    assert(r.0@ == arcs_view);
    r
}

/// Adjacency lists of `n` nodes from their steps.
fn adjacency(n: usize, arcs: &Vec<(usize, usize)>, Ghost(step): Ghost<spec_fn(int, int) -> bool>) -> (adj: Vec<Vec<usize>>)
    requires
        forall|t: int|
            0 <= t < arcs@.len() ==> arcs@[t].0 < n && arcs@[t].1 < n && step(
                arcs@[t].0 as int,
                arcs@[t].1 as int,
            ),
        forall|a: int, b: int|
            #[trigger] step(a, b) ==> exists|t: int|
                0 <= t < arcs@.len() && arcs@[t].0 == a && arcs@[t].1 == b,
    ensures
        adj@.len() == n,
        lists_steps(adj@, step),
{
    let mut adj: Vec<Vec<usize>> = Vec::new();
    let mut a: usize = 0;
    while a < n
        invariant
            a <= n,
            adj@.len() == a,
            forall|t: int|
                0 <= t < arcs@.len() ==> arcs@[t].0 < n && arcs@[t].1 < n && step(
                    arcs@[t].0 as int,
                    arcs@[t].1 as int,
                ),
            forall|x: int, tt: int|
                0 <= x < a && 0 <= tt < adj@[x]@.len() ==> #[trigger] adj@[x]@[tt] < n && step(
                    x,
                    adj@[x]@[tt] as int,
                ),
            forall|u: int|
                0 <= u < arcs@.len() && #[trigger] arcs@[u].0 < a ==> exists|tt: int|
                    0 <= tt < adj@[arcs@[u].0 as int]@.len() && adj@[arcs@[u].0 as int]@[tt]
                        == arcs@[u].1,
        decreases n - a,
    {
        let mut list: Vec<usize> = Vec::new();
        let mut t: usize = 0;
        while t < arcs.len()
            invariant
                t <= arcs@.len(),
                a < n,
                forall|u: int|
                    0 <= u < arcs@.len() ==> arcs@[u].0 < n && arcs@[u].1 < n && step(
                        arcs@[u].0 as int,
                        arcs@[u].1 as int,
                    ),
                forall|tt: int| 0 <= tt < list@.len() ==> #[trigger] list@[tt] < n && step(
                    a as int,
                    list@[tt] as int,
                ),
                forall|u: int|
                    0 <= u < t && arcs@[u].0 == a ==> exists|tt: int|
                        0 <= tt < list@.len() && list@[tt] == arcs@[u].1,
            decreases arcs@.len() - t,
        {
            let ghost old_list = list@;
            if arcs[t].0 == a {
                list.push(arcs[t].1);
                assert(list@[list@.len() - 1] == arcs@[t as int].1);
            }
            assert forall|u: int|
                0 <= u < t + 1 && arcs@[u].0 == a implies exists|tt: int|
                0 <= tt < list@.len() && list@[tt] == arcs@[u].1 by {
                if u < t {
                    let tt = choose|tt: int| 0 <= tt < old_list.len() && old_list[tt] == arcs@[u].1;
                    assert(list@[tt] == old_list[tt]);
                }
            }
            t += 1;
        }
        let ghost old_adj = adj@;
        adj.push(list);
        proof {
            assert forall|u: int|
                0 <= u < arcs@.len() && #[trigger] arcs@[u].0 < a + 1 implies exists|tt: int|
                0 <= tt < adj@[arcs@[u].0 as int]@.len() && adj@[arcs@[u].0 as int]@[tt]
                == arcs@[u].1 by {
                let x = arcs@[u].0 as int;
                if x < a {
                    assert(adj@[x] == old_adj[x]);
                } else {
                    assert(adj@[x] == list);
                }
            }
        }
        a += 1;
    }
    proof {
        assert forall|x: int, b: int| #[trigger] step(x, b) implies 0 <= x < adj@.len() && 0 <= b
            < adj@.len() && exists|tt: int| 0 <= tt < adj@[x]@.len() && adj@[x]@[tt] == b by {
            let u = choose|u: int| 0 <= u < arcs@.len() && arcs@[u].0 == x && arcs@[u].1 == b;
            assert(arcs@[u].0 < n);
        }
    }
    adj
}

/// Finds dependency cycles in a directed graph: its strongly connected
/// components of two or more nodes, plus any self-loops.
pub fn find_cycles(graph: &Graph) -> (r: Vec<Cycle>)
    ensures
        views(r@) == cycles_spec(graph@),
{
    let ghost g = graph@;
    let ghost step = graph_step(g);
    let n = graph.nodes.len();
    let (arcs, loops) = graph_arcs(graph);
    proof {
        assert forall|a: int, b: int| #[trigger] step(a, b) implies exists|t: int|
            0 <= t < arcs@.len() && arcs@[t].0 == a && arcs@[t].1 == b by {
            assert((graph_step(g))(a, b));
        }
    }
    let adj = adjacency(n, &arcs, Ghost(step));
    let mut reach: Vec<Vec<bool>> = Vec::new();
    let mut i: usize = 0;
    while i < n
        invariant
            i <= n,
            n == adj@.len(),
            lists_steps(adj@, step),
            reach@.len() == i,
            forall|x: int| 0 <= x < i ==> #[trigger] reach@[x]@.len() == n,
            forall|x: int, j: int|
                0 <= x < i && 0 <= j < n ==> (reach@[x]@[j] <==> walk_reaches(step, x, j)),
        decreases n - i,
    {
        let row = reachable_from(&adj, i, Ghost(step));
        reach.push(row);
        i += 1;
    }
    let mut cycles: Vec<Cycle> = Vec::new();
    let mut a: usize = 0;
    assert(views(cycles@) =~= scc_cycles(g, 0));
    while a < n
        invariant
            a <= n,
            g == graph@,
            step == graph_step(g),
            n == g.nodes.len(),
            reach@.len() == n,
            forall|x: int| 0 <= x < n ==> #[trigger] reach@[x]@.len() == n,
            forall|x: int, j: int|
                0 <= x < n && 0 <= j < n ==> (reach@[x]@[j] <==> walk_reaches(step, x, j)),
            views(cycles@) == scc_cycles(g, a as int),
        decreases n - a,
    {
        let mut lead = true;
        let mut j: usize = 0;
        while j < a
            invariant
                j <= a,
                a < n,
                step == graph_step(g),
                reach@.len() == n,
                forall|x: int| 0 <= x < n ==> #[trigger] reach@[x]@.len() == n,
                forall|x: int, y: int|
                    0 <= x < n && 0 <= y < n ==> (reach@[x]@[y] <==> walk_reaches(step, x, y)),
                lead == forall|jj: int| 0 <= jj < j ==> !#[trigger] mutual(g, a as int, jj),
            decreases a - j,
        {
            assert(reach@[a as int]@.len() == n && reach@[j as int]@.len() == n);
            assert(mutual(g, a as int, j as int) == (reach@[a as int]@[j as int]
                && reach@[j as int]@[a as int]));
            if reach[a][j] && reach[j][a] {
                lead = false;
            }
            j += 1;
        }
        if lead {
            let mut ids: Vec<String> = Vec::new();
            let mut j: usize = 0;
            assert(crate::entities::ast::strings_view(ids@) =~= component_ids(g, a as int, 0));
            while j < n
                invariant
                    j <= n,
                    a < n,
                    g == graph@,
                    n == g.nodes.len(),
                    step == graph_step(g),
                    reach@.len() == n,
                    forall|x: int| 0 <= x < n ==> #[trigger] reach@[x]@.len() == n,
                    forall|x: int, y: int|
                        0 <= x < n && 0 <= y < n ==> (reach@[x]@[y] <==> walk_reaches(step, x, y)),
                    crate::entities::ast::strings_view(ids@) == component_ids(g, a as int, j as int),
                decreases n - j,
            {
                assert(reach@[a as int]@.len() == n && reach@[j as int]@.len() == n);
                let ghost before = ids@;
                if reach[a][j] && reach[j][a] {
                    ids.push(graph.nodes[j].id.clone());
                    assert(g.nodes[j as int] == graph.nodes@[j as int]@);
                    assert(crate::entities::ast::strings_view(ids@) =~= crate::entities::ast::strings_view(
                        before,
                    ).push(g.nodes[j as int].id));
                } else {
                    assert(component_ids(g, a as int, j + 1) =~= component_ids(g, a as int, j as int));
                }
                j += 1;
            }
            if ids.len() >= 2 {
                let ghost before = cycles@;
                cycles.push(Cycle { nodes: ids });
                assert(views(cycles@) =~= views(before).push(cycles@.last()@));
            } else {
                assert(scc_cycles(g, a + 1) =~= scc_cycles(g, a as int));
            }
        } else {
            assert(scc_cycles(g, a + 1) =~= scc_cycles(g, a as int));
        }
        a += 1;
    }
    let ghost sccs = views(cycles@);
    let mut a: usize = 0;
    assert(views(cycles@) =~= sccs + loop_cycles(g, 0));
    while a < n
        invariant
            a <= n,
            g == graph@,
            n == g.nodes.len(),
            loops@.len() == n,
            forall|x: int| 0 <= x < n ==> loops@[x] == self_loop(g, x),
            views(cycles@) == sccs + loop_cycles(g, a as int),
        decreases n - a,
    {
        let ghost before = cycles@;
        if loops[a] {
            let mut ids: Vec<String> = Vec::new();
            ids.push(graph.nodes[a].id.clone());
            assert(g.nodes[a as int] == graph.nodes@[a as int]@);
            assert(crate::entities::ast::strings_view(ids@) =~= seq![g.nodes[a as int].id]);
            cycles.push(Cycle { nodes: ids });
            assert(views(cycles@) =~= views(before).push(cycles@.last()@));
            assert(views(cycles@) =~= sccs + loop_cycles(g, a + 1));
        } else {
            assert(loop_cycles(g, a + 1) =~= loop_cycles(g, a as int));
        }
        a += 1;
    }
    proof {
        lemma_strs_order();
    }
    sort_by_key(cycles)
}

// --- Laws -------------------------------------------------------------------------

/// Whether `id` names a node of `g` that reaches node `a` and is reached
/// from it.
pub open spec fn in_component(g: GraphView, a: int, id: Seq<char>) -> bool {
    exists|j: int| 0 <= j < g.nodes.len() && #[trigger] g.nodes[j].id == id && mutual(g, a, j)
}

/// Whether every id of `c` names a node in the component of node `a`.
pub open spec fn within_component(g: GraphView, a: int, c: Seq<Seq<char>>) -> bool {
    forall|i: int| 0 <= i < c.len() ==> #[trigger] in_component(g, a, c[i])
}

/// Whether `c` is a dependency cycle of `g`: two or more node ids, all in
/// the strongly connected component of one node, or the id of one node
/// with an edge to itself.
pub open spec fn is_cycle_of(g: GraphView, c: Seq<Seq<char>>) -> bool {
    ||| c.len() >= 2 && exists|a: int| 0 <= a < g.nodes.len() && #[trigger] within_component(g, a, c)
    ||| c.len() == 1 && exists|a: int| 0 <= a < g.nodes.len() && #[trigger] self_loop(g, a) && c[0] == g.nodes[a].id
}

/// The ids of a component are ids of nodes in it.
proof fn lemma_component_ids(g: GraphView, a: int, m: int)
    requires
        m <= g.nodes.len(),
    ensures
        forall|i: int| 0 <= i < component_ids(g, a, m).len() ==> #[trigger] in_component(g, a, component_ids(g, a, m)[i]),
    decreases m,
{
    if m > 0 {
        lemma_component_ids(g, a, m - 1);
        let p = component_ids(g, a, m - 1);
        let c = component_ids(g, a, m);
        assert forall|i: int| 0 <= i < c.len() implies #[trigger] in_component(g, a, c[i]) by {
            if i < p.len() {
                assert(c[i] == p[i]);
            } else {
                assert(c[i] == g.nodes[m - 1].id);
                assert(mutual(g, a, m - 1));
            }
        }
    }
}

/// Every listed component is a cycle.
proof fn lemma_scc_cycles(g: GraphView, m: int)
    requires
        m <= g.nodes.len(),
    ensures
        forall|k: int| 0 <= k < scc_cycles(g, m).len() ==> is_cycle_of(g, #[trigger] scc_cycles(g, m)[k]),
    decreases m,
{
    if m > 0 {
        lemma_scc_cycles(g, m - 1);
        let p = scc_cycles(g, m - 1);
        let s = scc_cycles(g, m);
        let n = g.nodes.len() as int;
        assert forall|k: int| 0 <= k < s.len() implies is_cycle_of(g, #[trigger] s[k]) by {
            if k < p.len() {
                assert(s[k] == p[k]);
            } else {
                let c = component_ids(g, m - 1, n);
                assert(s[k] == c);
                lemma_component_ids(g, m - 1, n);
                assert(within_component(g, m - 1, c));
            }
        }
    }
}

/// Every listed self-loop is a cycle.
proof fn lemma_loop_cycles(g: GraphView, m: int)
    requires
        m <= g.nodes.len(),
    ensures
        forall|k: int| 0 <= k < loop_cycles(g, m).len() ==> is_cycle_of(g, #[trigger] loop_cycles(g, m)[k]),
    decreases m,
{
    if m > 0 {
        lemma_loop_cycles(g, m - 1);
        let p = loop_cycles(g, m - 1);
        let s = loop_cycles(g, m);
        assert forall|k: int| 0 <= k < s.len() implies is_cycle_of(g, #[trigger] s[k]) by {
            if k < p.len() {
                assert(s[k] == p[k]);
            } else {
                assert(s[k] == seq![g.nodes[m - 1].id]);
                assert(self_loop(g, m - 1));
            }
        }
    }
}

/// Every reported cycle is a real one: two or more nodes of one strongly
/// connected component, or a node with an edge to itself. The cycles are
/// listed in ascending order.
pub proof fn law_cycles_are_components(g: GraphView)
    ensures
        is_sorted(cycles_spec(g)),
        forall|k: int| 0 <= k < cycles_spec(g).len() ==> is_cycle_of(g, #[trigger] cycles_spec(g)[k]),
{
    let n = g.nodes.len() as int;
    let all = scc_cycles(g, n) + loop_cycles(g, n);
    lemma_strs_order();
    lemma_sort_sorted(all);
    lemma_sort_contains(all);
    lemma_scc_cycles(g, n);
    lemma_loop_cycles(g, n);
    let r = cycles_spec(g);
    assert forall|k: int| 0 <= k < r.len() implies is_cycle_of(g, #[trigger] r[k]) by {
        assert(all.contains(r[k]));
        let m = choose|m: int| 0 <= m < all.len() && all[m] == r[k];
        if m < scc_cycles(g, n).len() {
            assert(all[m] == scc_cycles(g, n)[m]);
        } else {
            assert(all[m] == loop_cycles(g, n)[m - scc_cycles(g, n).len()]);
        }
    }
}

/// A walk to the start of a path extends along the path.
proof fn lemma_reach_path(step: spec_fn(int, int) -> bool, a: int, q: Seq<int>)
    requires
        is_path(step, q),
        walk_reaches(step, a, q[0]),
    ensures
        walk_reaches(step, a, q.last()),
    decreases q.len(),
{
    if q.len() > 1 {
        let r = q.drop_last();
        assert(r[0] == q[0]);
        lemma_reach_path(step, a, r);
        assert(r.last() == q[q.len() - 2]);
        lemma_reach_step(step, a, q[q.len() - 2], q.last());
    }
}

/// Reaching is transitive.
pub proof fn lemma_reach_trans(step: spec_fn(int, int) -> bool, a: int, b: int, c: int)
    requires
        walk_reaches(step, a, b),
        walk_reaches(step, b, c),
    ensures
        walk_reaches(step, a, c),
{
    let q = choose|q: Seq<int>| is_path(step, q) && q[0] == b && q.last() == c;
    lemma_reach_path(step, a, q);
}

/// Reaching each other is transitive.
proof fn lemma_mutual_trans(g: GraphView, a: int, b: int, c: int)
    requires
        mutual(g, a, b),
        mutual(g, b, c),
    ensures
        mutual(g, a, c),
{
    lemma_reach_trans(graph_step(g), a, b, c);
    lemma_reach_trans(graph_step(g), c, b, a);
}

/// The first node, at or below `t`, of the component of `a`.
proof fn lemma_first_mutual(g: GraphView, a: int, t: int) -> (m: int)
    requires
        0 <= t,
        mutual(g, a, t),
    ensures
        0 <= m <= t,
        mutual(g, a, m),
        forall|j: int| 0 <= j < m ==> !#[trigger] mutual(g, a, j),
    decreases t,
{
    if exists|j: int| 0 <= j < t && #[trigger] mutual(g, a, j) {
        let j = choose|j: int| 0 <= j < t && #[trigger] mutual(g, a, j);
        lemma_first_mutual(g, a, j)
    } else {
        t
    }
}

/// The component ids below `m` name every node below `m` in the component,
/// and two such nodes make two ids.
proof fn lemma_component_holds(g: GraphView, a: int, m: int)
    requires
        m <= g.nodes.len(),
    ensures
        forall|j: int| 0 <= j < m && #[trigger] mutual(g, a, j) ==> component_ids(g, a, m).contains(g.nodes[j].id),
        forall|j1: int, j2: int|
            0 <= j1 < j2 < m && #[trigger] mutual(g, a, j1) && #[trigger] mutual(g, a, j2) ==> component_ids(g, a, m).len() >= 2,
    decreases m,
{
    if m > 0 {
        lemma_component_holds(g, a, m - 1);
        let p = component_ids(g, a, m - 1);
        let c = component_ids(g, a, m);
        assert forall|j: int| 0 <= j < m && #[trigger] mutual(g, a, j) implies c.contains(g.nodes[j].id) by {
            if j < m - 1 {
                let i = choose|i: int| 0 <= i < p.len() && p[i] == g.nodes[j].id;
                assert(c[i] == p[i]);
            } else {
                assert(c[p.len() as int] == g.nodes[j].id);
            }
        }
        assert forall|j1: int, j2: int|
            0 <= j1 < j2 < m && #[trigger] mutual(g, a, j1) && #[trigger] mutual(g, a, j2) implies c.len() >= 2 by {
            if j2 == m - 1 {
                assert(p.contains(g.nodes[j1].id));
            }
        }
    }
}

/// A leading component of two or more nodes is listed.
proof fn lemma_scc_listed(g: GraphView, m: int, k: int)
    requires
        m <= g.nodes.len(),
        0 <= k < m,
        leads(g, k),
        component_ids(g, k, g.nodes.len() as int).len() >= 2,
    ensures
        scc_cycles(g, m).contains(component_ids(g, k, g.nodes.len() as int)),
    decreases m,
{
    let c = component_ids(g, k, g.nodes.len() as int);
    let p = scc_cycles(g, m - 1);
    if k < m - 1 {
        lemma_scc_listed(g, m - 1, k);
        let i = choose|i: int| 0 <= i < p.len() && p[i] == c;
        assert(scc_cycles(g, m)[i] == p[i]);
    } else {
        assert(scc_cycles(g, m)[p.len() as int] == c);
    }
}

/// Every strongly connected component of two or more nodes is reported:
/// some cycle lists the ids of all the nodes that reach node `a` and are
/// reached from it, whenever another node does so too.
pub proof fn law_components_reported(g: GraphView)
    ensures
        forall|a: int, b: int|
            0 <= a < g.nodes.len() && 0 <= b < g.nodes.len() && a != b && #[trigger] mutual(g, a, b) ==> exists|k: int|
                #![trigger cycles_spec(g)[k]]
                0 <= k < cycles_spec(g).len() && forall|j: int|
                    0 <= j < g.nodes.len() && #[trigger] mutual(g, a, j) ==> cycles_spec(g)[k].contains(g.nodes[j].id),
{
    let n = g.nodes.len() as int;
    assert forall|a: int, b: int|
        0 <= a < n && 0 <= b < n && a != b && #[trigger] mutual(g, a, b) implies exists|k: int|
        #![trigger cycles_spec(g)[k]]
        0 <= k < cycles_spec(g).len() && forall|j: int|
            0 <= j < n && #[trigger] mutual(g, a, j) ==> cycles_spec(g)[k].contains(g.nodes[j].id) by {
        lemma_reach_self(graph_step(g), a);
        assert(mutual(g, a, a));
        let m = lemma_first_mutual(g, a, a);
        assert(mutual(g, m, a));
        assert forall|j: int| 0 <= j < m implies !#[trigger] mutual(g, m, j) by {
            if mutual(g, m, j) {
                lemma_mutual_trans(g, a, m, j);
            }
        }
        assert(leads(g, m));
        let c = component_ids(g, m, n);
        lemma_component_holds(g, m, n);
        lemma_mutual_trans(g, m, a, b);
        assert(mutual(g, m, b));
        if a < b {
            assert(c.len() >= 2);
        } else {
            assert(c.len() >= 2);
        }
        lemma_scc_listed(g, n, m);
        let all = scc_cycles(g, n) + loop_cycles(g, n);
        let i = choose|i: int| 0 <= i < scc_cycles(g, n).len() && scc_cycles(g, n)[i] == c;
        assert(all[i] == c);
        lemma_sort_contains(all);
        assert(cycles_spec(g).contains(all[i]));
        let k = choose|k: int| 0 <= k < cycles_spec(g).len() && cycles_spec(g)[k] == c;
        assert forall|j: int| 0 <= j < n && #[trigger] mutual(g, a, j) implies cycles_spec(g)[k].contains(g.nodes[j].id) by {
            lemma_mutual_trans(g, m, a, j);
        }
    }
}

} // verus!
