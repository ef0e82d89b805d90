//! Dependency edges between passes and their topological order.
use vstd::prelude::*;
use std::collections::HashMap;
use std::collections::VecDeque;
use crate::render_graph::access::{AccessType, PassAccess, PassHandle, PassNode, is_writing};

verus! {

broadcast use vstd::seq_lib::group_seq_properties;

/// The graph has a cycle, so no pass order satisfies every dependency.
#[derive(Debug, Clone, Copy, PartialEq, Eq, Structural)]
pub enum GraphError {
    CycleDetected,
}

// ───────────────────────── adjacency model ─────────────────────────

/// `u -> v` is an edge of the adjacency lists.
pub open spec fn has_edge(adj: Seq<Vec<usize>>, u: int, v: int) -> bool {
    0 <= u < adj.len() && 0 <= v <= usize::MAX && adj[u]@.contains(v as usize)
}

/// Number of predecessors `u < m` of `v` that are not in `done`.
pub open spec fn pending_preds(adj: Seq<Vec<usize>>, m: int, v: int, done: Seq<usize>) -> nat
    decreases m,
{
    if m <= 0 {
        0
    } else {
        pending_preds(adj, m - 1, v, done) + if has_edge(adj, m - 1, v) && !done.contains(
            (m - 1) as usize,
        ) {
            1nat
        } else {
            0nat
        }
    }
}

/// Adjacency lists over `n` nodes with targets in range and without repeated
/// targets, and `in_degree[v]` equal to the number of predecessors of `v`.
pub open spec fn graph_wf(adj: Seq<Vec<usize>>, in_degree: Seq<usize>, n: int) -> bool {
    &&& adj.len() == n
    &&& in_degree.len() == n
    &&& forall|u: int, t: int| 0 <= u < n && 0 <= t < adj[u]@.len() ==> adj[u]@[t] < n
    &&& forall|u: int| 0 <= u < n ==> (#[trigger] adj[u]@).no_duplicates()
    &&& forall|u: int| 0 <= u < n ==> !has_edge(adj, u, u)
    &&& forall|v: int| 0 <= v < n ==> #[trigger] in_degree[v] == pending_preds(adj, n, v, seq![])
}

/// `order` lists every one of the `n` nodes once and never puts a node
/// before one of its predecessors.
pub open spec fn is_topological_order(adj: Seq<Vec<usize>>, n: int, order: Seq<usize>) -> bool {
    &&& order.len() == n
    &&& order.no_duplicates()
    &&& forall|i: int| 0 <= i < order.len() ==> #[trigger] order[i] < n
    &&& forall|i: int, j: int|
        0 <= i < j < order.len() ==> !has_edge(adj, #[trigger] order[j] as int, #[trigger] order[i] as int)
}

/// Some order of the nodes respects every edge, that is, the graph has no cycle.
pub open spec fn has_topological_order(adj: Seq<Vec<usize>>, n: int) -> bool {
    exists|order: Seq<usize>| is_topological_order(adj, n, order)
}

proof fn lemma_pending_bound(adj: Seq<Vec<usize>>, m: int, v: int, done: Seq<usize>, skip: int)
    requires
        0 <= skip < m,
        !has_edge(adj, skip, v),
    ensures
        pending_preds(adj, m, v, done) < m,
    decreases m,
{
    if m - 1 > skip {
        lemma_pending_bound(adj, m - 1, v, done, skip);
    } else {
        lemma_pending_le(adj, m - 1, v, done);
    }
}

proof fn lemma_pending_le(adj: Seq<Vec<usize>>, m: int, v: int, done: Seq<usize>)
    ensures
        m >= 0 ==> pending_preds(adj, m, v, done) <= m,
    decreases m,
{
    if m > 0 {
        lemma_pending_le(adj, m - 1, v, done);
    }
}

/// Counting after one more edge `f -> t` (not present before).
proof fn lemma_pending_add_edge(
    adj: Seq<Vec<usize>>,
    adj2: Seq<Vec<usize>>,
    m: int,
    v: int,
    done: Seq<usize>,
    f: int,
    t: int,
)
    requires
        adj2.len() == adj.len(),
        0 <= f < adj.len(),
        !has_edge(adj, f, t),
        forall|u: int, w: int| has_edge(adj2, u, w) <==> (has_edge(adj, u, w) || (u == f && w == t)),
    ensures
        pending_preds(adj2, m, v, done) == pending_preds(adj, m, v, done) + if v == t && f < m
            && !done.contains(f as usize) {
            1nat
        } else {
            0nat
        },
    decreases m,
{
    if m > 0 {
        lemma_pending_add_edge(adj, adj2, m - 1, v, done, f, t);
    }
}

/// Counting after one more node `x` joins `done`.
proof fn lemma_pending_done_push(adj: Seq<Vec<usize>>, m: int, v: int, done: Seq<usize>, x: usize)
    requires
        !done.contains(x),
        adj.len() <= usize::MAX,
    ensures
        pending_preds(adj, m, v, done.push(x)) + if has_edge(adj, x as int, v) && (x as int) < m {
            1nat
        } else {
            0nat
        } == pending_preds(adj, m, v, done),
    decreases m,
{
    if m > 0 {
        lemma_pending_done_push(adj, m - 1, v, done, x);
        if has_edge(adj, m - 1, v) {
            let y = (m - 1) as usize;
            assert(y as int == m - 1);
            assert(done.push(x).contains(y) <==> (done.contains(y) || x == y)) by {
                if done.push(x).contains(y) {
                    let i = choose|i: int| 0 <= i < done.push(x).len() && done.push(x)[i] == y;
                    if i < done.len() {
                        assert(done[i] == y);
                    }
                }
                if done.contains(y) {
                    let i = choose|i: int| 0 <= i < done.len() && done[i] == y;
                    assert(done.push(x)[i] == y);
                }
                if x == y {
                    assert(done.push(x)[done.len() as int] == y);
                }
            }
        }
    }
}

/// No pending predecessor means every predecessor is done.
proof fn lemma_pending_zero(adj: Seq<Vec<usize>>, m: int, v: int, done: Seq<usize>, u: int)
    requires
        pending_preds(adj, m, v, done) == 0,
        0 <= u < m,
        has_edge(adj, u, v),
    ensures
        done.contains(u as usize),
    decreases m,
{
    if u < m - 1 {
        lemma_pending_zero(adj, m - 1, v, done, u);
    }
}

/// A pending predecessor exists when the count is positive.
proof fn lemma_pending_positive(adj: Seq<Vec<usize>>, m: int, v: int, done: Seq<usize>) -> (u: int)
    requires
        pending_preds(adj, m, v, done) > 0,
    ensures
        0 <= u < m,
        has_edge(adj, u, v),
        !done.contains(u as usize),
    decreases m,
{
    if has_edge(adj, m - 1, v) && !done.contains((m - 1) as usize) {
        m - 1
    } else {
        lemma_pending_positive(adj, m - 1, v, done)
    }
}

/// Pending counts over the same `done` set agree when the sets contain the same nodes.
proof fn lemma_pending_same_done(adj: Seq<Vec<usize>>, m: int, v: int, d1: Seq<usize>, d2: Seq<usize>)
    requires
        forall|x: usize| d1.contains(x) <==> d2.contains(x),
    ensures
        pending_preds(adj, m, v, d1) == pending_preds(adj, m, v, d2),
    decreases m,
{
    if m > 0 {
        lemma_pending_same_done(adj, m - 1, v, d1, d2);
    }
}

/// A duplicate-free list of `n` nodes below `n` contains every node below `n`.
pub(crate) proof fn lemma_full_permutation(order: Seq<usize>, n: int, v: int)
    requires
        n <= usize::MAX,
        order.len() == n,
        order.no_duplicates(),
        forall|i: int| 0 <= i < order.len() ==> #[trigger] order[i] < n,
        0 <= v < n,
    ensures
        order.contains(v as usize),
{
    let ints = order.map_values(|x: usize| x as int);
    assert(ints.no_duplicates()) by {
        assert forall|i: int, j: int| 0 <= i < ints.len() && 0 <= j < ints.len() && i != j implies ints[i]
            != ints[j] by {
            assert(order[i] != order[j]);
        }
    }
    ints.unique_seq_to_set();
    let s = ints.to_set();
    let r = vstd::set_lib::set_int_range(0, n);
    vstd::set_lib::lemma_int_range(0, n);
    assert(s.subset_of(r)) by {
        assert forall|x: int| s.contains(x) implies r.contains(x) by {
            let i = choose|i: int| 0 <= i < ints.len() && ints[i] == x;
            assert(order[i] < n);
        }
    }
    vstd::set_lib::lemma_len_subset(s, r);
    vstd::set_lib::lemma_subset_equality(s, r);
    assert(r.contains(v));
    assert(s.contains(v));
    let i = choose|i: int| 0 <= i < ints.len() && ints[i] == v;
    assert(order[i] == v as usize);
}

/// A duplicate-free list of nodes below `n` has at most `n` entries.
proof fn lemma_nodup_len_bound(s: Seq<usize>, n: int)
    requires
        n <= usize::MAX,
        n >= 0,
        s.no_duplicates(),
        forall|i: int| 0 <= i < s.len() ==> #[trigger] s[i] < n,
    ensures
        s.len() <= n,
{
    let ints = s.map_values(|x: usize| x as int);
    assert(ints.no_duplicates()) by {
        assert forall|i: int, j: int| 0 <= i < ints.len() && 0 <= j < ints.len() && i != j implies ints[i]
            != ints[j] by {
            assert(s[i] != s[j]);
        }
    }
    ints.unique_seq_to_set();
    let st = ints.to_set();
    let r = vstd::set_lib::set_int_range(0, n);
    vstd::set_lib::lemma_int_range(0, n);
    assert(st.subset_of(r)) by {
        assert forall|x: int| st.contains(x) implies r.contains(x) by {
            let i = choose|i: int| 0 <= i < ints.len() && ints[i] == x;
            assert(s[i] < n);
        }
    }
    vstd::set_lib::lemma_len_subset(st, r);
}

/// A list that contains every node below `n` has at least `n` entries.
proof fn lemma_covering_len(s: Seq<usize>, n: int)
    requires
        n <= usize::MAX,
        n >= 0,
        forall|v: int| 0 <= v < n ==> #[trigger] s.contains(v as usize),
    ensures
        s.len() >= n,
{
    let ints = s.map_values(|x: usize| x as int);
    ints.lemma_cardinality_of_set();
    let st = ints.to_set();
    let r = vstd::set_lib::set_int_range(0, n);
    vstd::set_lib::lemma_int_range(0, n);
    assert(r.subset_of(st)) by {
        assert forall|x: int| r.contains(x) implies st.contains(x) by {
            assert(s.contains(x as usize));
            let i = choose|i: int| 0 <= i < s.len() && s[i] == x as usize;
            assert(ints[i] == x);
        }
    }
    vstd::seq_lib::seq_to_set_is_finite(ints);
    vstd::set_lib::lemma_len_subset(r, st);
}

/// If every node outside `order` has a predecessor outside `order`, and
/// `order` misses a node, then no topological order exists.
proof fn lemma_no_topological_order(adj: Seq<Vec<usize>>, n: int, order: Seq<usize>)
    requires
        n <= usize::MAX,
        n >= 0,
        order.len() < n,
        forall|u: int| 0 <= u < n ==> !has_edge(adj, u, u),
        forall|v: int|
            #![trigger order.contains(v as usize)]
            0 <= v < n && !order.contains(v as usize) ==> exists|u: int|
                0 <= u < n && #[trigger] has_edge(adj, u, v) && !order.contains(u as usize),
    ensures
        !has_topological_order(adj, n),
{
    if has_topological_order(adj, n) {
        let o = choose|o: Seq<usize>| is_topological_order(adj, n, o);
        // Every entry of `o` is in `order`, by induction along `o`.
        assert forall|i: int| 0 <= i < o.len() implies order.contains(#[trigger] o[i]) by {
            lemma_prefix_done(adj, n, order, o, i);
        }
        assert forall|v: int| 0 <= v < n implies #[trigger] order.contains(v as usize) by {
            lemma_full_permutation(o, n, v);
            let i = choose|i: int| 0 <= i < o.len() && o[i] == v as usize;
            assert(order.contains(o[i]));
        }
        lemma_covering_len(order, n);
    }
}

proof fn lemma_prefix_done(adj: Seq<Vec<usize>>, n: int, order: Seq<usize>, o: Seq<usize>, i: int)
    requires
        n <= usize::MAX,
        n >= 0,
        is_topological_order(adj, n, o),
        0 <= i < o.len(),
        forall|u: int| 0 <= u < n ==> !has_edge(adj, u, u),
        forall|v: int|
            #![trigger order.contains(v as usize)]
            0 <= v < n && !order.contains(v as usize) ==> exists|u: int|
                0 <= u < n && #[trigger] has_edge(adj, u, v) && !order.contains(u as usize),
    ensures
        order.contains(o[i]),
    decreases i,
{
    let v = o[i] as int;
    if !order.contains(o[i]) {
        assert(0 <= v < n);
        assert(!order.contains(v as usize));
        let u = choose|u: int| 0 <= u < n && #[trigger] has_edge(adj, u, v) && !order.contains(u as usize);
        lemma_full_permutation(o, n, u);
        let j = choose|j: int| 0 <= j < o.len() && o[j] == u as usize;
        if j < i {
            lemma_prefix_done(adj, n, order, o, j);
        } else if j > i {
            assert(!has_edge(adj, o[j] as int, o[i] as int));
        } else {
            assert(has_edge(adj, u, u));
        }
    }
}

// ───────────────────────── edge insertion ─────────────────────────

/// Whether `list` contains `x`.
fn list_contains(list: &Vec<usize>, x: usize) -> (found: bool)
    ensures
        found == list@.contains(x),
{
    let mut i: usize = 0;
    while i < list.len()
        invariant
            i <= list.len(),
            forall|j: int| 0 <= j < i ==> list@[j] != x,
        decreases list.len() - i,
    {
        if list[i] == x {
            return true;
        }
        i = i + 1;
    }
    false
}

/// The targets of node `u` once the edge `from -> to` is added: `to` goes to
/// the end of the list of `from` when the edge is new and not a loop.
pub open spec fn targets_after_add(adj: Seq<Vec<usize>>, from: Option<usize>, to: usize, u: int) -> Seq<
    usize,
> {
    match from {
        Some(f) => if u == f as int && f != to && !adj[u]@.contains(to) {
            adj[u]@.push(to)
        } else {
            adj[u]@
        },
        None => adj[u]@,
    }
}

/// Add the edge `from -> to` unless `from` is absent, equals `to`, or the
/// edge is already there; keeps `in_degree` counting predecessors.
pub fn add_edge(adj: &mut Vec<Vec<usize>>, in_degree: &mut Vec<usize>, from: Option<usize>, to: usize)
    requires
        graph_wf(old(adj)@, old(in_degree)@, old(adj)@.len() as int),
        to < old(adj)@.len(),
        from matches Some(f) ==> f < old(adj)@.len(),
    ensures
        final(adj)@.len() == old(adj)@.len(),
        graph_wf(final(adj)@, final(in_degree)@, final(adj)@.len() as int),
        forall|u: int, v: int|
            #![trigger has_edge(final(adj)@, u, v)]
            has_edge(final(adj)@, u, v) <==> (has_edge(old(adj)@, u, v) || (from matches Some(f)
                && u == f as int && v == to as int && u != v)),
        forall|u: int|
            0 <= u < old(adj)@.len() ==> #[trigger] final(adj)@[u]@ == targets_after_add(old(adj)@, from, to, u),
{
    let from = match from {
        Some(f) => f,
        None => {
            return ;
        },
    };
    if from != to && !list_contains(&adj[from], to) {
        let ghost old_adj = adj@;
        let ghost n = adj@.len() as int;
        proof {
            lemma_pending_bound(old_adj, n, to as int, seq![], from as int);
            assert(in_degree@[to as int] == pending_preds(old_adj, n, to as int, seq![]));
            assert(n == adj.len());
        }
        adj[from].push(to);
        let d = in_degree[to];
        in_degree.set(to, d + 1);
        proof {
            let new_adj = adj@;
            assert forall|u: int, w: int| has_edge(new_adj, u, w) <==> (has_edge(old_adj, u, w) || (
            u == from && w == to)) by {
                if u == from {
                    let s0 = old_adj[u]@;
                    assert(new_adj[u]@ == s0.push(to));
                    assert(s0.push(to).contains(w as usize) <==> (s0.contains(w as usize) || w
                        as usize == to)) by {
                        let y = w as usize;
                        if s0.push(to).contains(y) {
                            let i = choose|i: int| 0 <= i < s0.push(to).len() && s0.push(to)[i] == y;
                            if i < s0.len() {
                                assert(s0[i] == y);
                            }
                        }
                        if s0.contains(y) {
                            let i = choose|i: int| 0 <= i < s0.len() && s0[i] == y;
                            assert(s0.push(to)[i] == y);
                        }
                        if y == to {
                            assert(s0.push(to)[s0.len() as int] == y);
                        }
                    }
                } else if 0 <= u < n {
                    assert(new_adj[u] == old_adj[u]);
                }
            }
            assert forall|v: int| 0 <= v < n implies #[trigger] in_degree@[v] == pending_preds(
                new_adj,
                n,
                v,
                seq![],
            ) by {
                lemma_pending_add_edge(old_adj, new_adj, n, v, seq![], from as int, to as int);
            }
            assert forall|u: int| 0 <= u < n implies !has_edge(new_adj, u, u) by {
                assert(!has_edge(old_adj, u, u));
            }
            assert forall|u: int| 0 <= u < n implies (#[trigger] new_adj[u]@).no_duplicates() by {
                if u != from {
                    assert(new_adj[u] == old_adj[u]);
                }
            }
            assert forall|u: int, t: int| 0 <= u < n && 0 <= t < new_adj[u]@.len() implies new_adj[u]@[t]
                < n by {
                if u != from {
                    assert(new_adj[u] == old_adj[u]);
                } else if t < old_adj[u]@.len() {
                    assert(new_adj[u]@[t] == old_adj[u]@[t]);
                }
            }
        }
    }
}


/// Each list of `g1` is that of `g`, or that of `g` with `to` appended where
/// it was missing.
spec fn appends_target(g: Seq<Vec<usize>>, g1: Seq<Vec<usize>>, to: usize) -> bool {
    &&& g1.len() == g.len()
    &&& forall|u: int|
        0 <= u < g.len() ==> (#[trigger] g1[u])@ == g[u]@ || (g1[u]@ == g[u]@.push(to) && !g[u]@.contains(to))
}

/// Each list of `g` is the list of `g0` followed by targets below `bound`
/// in strictly ascending order.
spec fn grows_ascending(g0: Seq<Vec<usize>>, g: Seq<Vec<usize>>, bound: int) -> bool {
    &&& g.len() == g0.len()
    &&& forall|u: int| 0 <= u < g.len() ==> g0[u]@.len() <= (#[trigger] g[u])@.len()
    &&& forall|u: int, a: int| 0 <= u < g.len() && 0 <= a < g0[u]@.len() ==> #[trigger] g[u]@[a] == g0[u]@[a]
    &&& forall|u: int, a: int, b: int|
        0 <= u < g.len() && g0[u]@.len() <= a < b < g[u]@.len() ==> #[trigger] g[u]@[a] < #[trigger] g[u]@[b]
    &&& forall|u: int, a: int| 0 <= u < g.len() && g0[u]@.len() <= a < g[u]@.len() ==> #[trigger] g[u]@[a] < bound
}

proof fn lemma_appends_after_add(g: Seq<Vec<usize>>, g1: Seq<Vec<usize>>, from: Option<usize>, to: usize)
    requires
        g1.len() == g.len(),
        forall|u: int| 0 <= u < g.len() ==> #[trigger] g1[u]@ == targets_after_add(g, from, to, u),
    ensures
        appends_target(g, g1, to),
{
}

proof fn lemma_appends_trans(g: Seq<Vec<usize>>, g1: Seq<Vec<usize>>, g2: Seq<Vec<usize>>, to: usize)
    requires
        appends_target(g, g1, to),
        appends_target(g1, g2, to),
    ensures
        appends_target(g, g2, to),
{
    assert forall|u: int| 0 <= u < g.len() implies (#[trigger] g2[u])@ == g[u]@ || (g2[u]@ == g[u]@.push(to)
        && !g[u]@.contains(to)) by {
        if g1[u]@ != g[u]@ {
            assert(g1[u]@[g[u]@.len() as int] == to);
            assert(g1[u]@.contains(to));
        }
    }
}

proof fn lemma_grows_step(g0: Seq<Vec<usize>>, g: Seq<Vec<usize>>, g1: Seq<Vec<usize>>, to: usize)
    requires
        grows_ascending(g0, g, to + 1),
        appends_target(g, g1, to),
    ensures
        grows_ascending(g0, g1, to + 1),
{
    assert forall|u: int, a: int, b: int| 0 <= u < g1.len() && g0[u]@.len() <= a < b < g1[u]@.len() implies #[trigger] g1[u]@[a]
        < #[trigger] g1[u]@[b] by {
        if g1[u]@ != g[u]@ {
            assert(g1[u]@[a] == g[u]@[a]);
            if b < g[u]@.len() {
                assert(g1[u]@[b] == g[u]@[b]);
            } else {
                assert(g[u]@[a] != to) by {
                    assert(g[u]@.contains(g[u]@[a]));
                }
            }
        }
    }
    assert forall|u: int, a: int| 0 <= u < g1.len() && 0 <= a < g0[u]@.len() implies #[trigger] g1[u]@[a]
        == g0[u]@[a] by {
        if g1[u]@ != g[u]@ {
            assert(g1[u]@[a] == g[u]@[a]);
        }
    }
    assert forall|u: int, a: int| 0 <= u < g1.len() && g0[u]@.len() <= a < g1[u]@.len() implies #[trigger] g1[u]@[a]
        < to + 1 by {
        if g1[u]@ != g[u]@ && a < g[u]@.len() {
            assert(g1[u]@[a] == g[u]@[a]);
        }
    }
}

/// The facts Kahn's algorithm keeps about the nodes already ordered and the
/// nodes waiting in the queue.
spec fn kahn_state(g: Seq<Vec<usize>>, n: int, deg: Seq<usize>, order: Seq<usize>, queue: Seq<usize>) -> bool {
    &&& order.no_duplicates()
    &&& queue.no_duplicates()
    &&& forall|x: usize| order.contains(x) ==> !queue.contains(x)
    &&& forall|a: int| 0 <= a < order.len() ==> #[trigger] order[a] < n
    &&& forall|a: int| 0 <= a < queue.len() ==> #[trigger] queue[a] < n
    &&& forall|v: int| 0 <= v < n ==> #[trigger] deg[v] == pending_preds(g, n, v, order)
    &&& forall|v: int|
        #![trigger queue.contains(v as usize)]
        #![trigger order.contains(v as usize)]
        0 <= v < n && !order.contains(v as usize) && !queue.contains(v as usize) ==> deg[v] > 0
    &&& forall|a: int, u: int|
        0 <= a < order.len() && #[trigger] has_edge(g, u, order[a] as int) ==> order.contains(u as usize)
    &&& forall|a: int, u: int|
        0 <= a < queue.len() && #[trigger] has_edge(g, u, queue[a] as int) ==> order.contains(u as usize)
    &&& forall|a: int, b: int|
        0 <= a < b < order.len() ==> !has_edge(g, #[trigger] order[b] as int, #[trigger] order[a] as int)
}

/// The shape facts about the adjacency lists that the algorithm relies on.
spec fn adj_shape(g: Seq<Vec<usize>>, n: int) -> bool {
    &&& g.len() == n
    &&& forall|u: int, t: int| 0 <= u < n && 0 <= t < g[u]@.len() ==> g[u]@[t] < n
    &&& forall|u: int| 0 <= u < n ==> (#[trigger] g[u]@).no_duplicates()
    &&& forall|u: int| 0 <= u < n ==> !has_edge(g, u, u)
}

/// The facts kept while the successors of the node `idx`, just moved from the
/// queue to the order, are being released; `released` lists the successors
/// handled so far.
spec fn kahn_inner(
    g: Seq<Vec<usize>>,
    n: int,
    deg: Seq<usize>,
    ord: Seq<usize>,
    queue: Seq<usize>,
    idx: usize,
    old_order: Seq<usize>,
    full_queue: Seq<usize>,
    released: Seq<usize>,
) -> bool {
    &&& ord.no_duplicates()
    &&& forall|a: int| 0 <= a < ord.len() ==> #[trigger] ord[a] < n
    &&& forall|a: int, u: int|
        0 <= a < ord.len() && #[trigger] has_edge(g, u, ord[a] as int) ==> ord.contains(u as usize)
    &&& forall|a: int, b: int|
        0 <= a < b < ord.len() ==> !has_edge(g, #[trigger] ord[b] as int, #[trigger] ord[a] as int)
    &&& queue.no_duplicates()
    &&& forall|x: usize| ord.contains(x) ==> !queue.contains(x)
    &&& forall|a: int| 0 <= a < queue.len() ==> #[trigger] queue[a] < n
    &&& forall|a: int, u: int|
        0 <= a < queue.len() && #[trigger] has_edge(g, u, queue[a] as int) ==> ord.contains(u as usize)
    &&& forall|x: usize|
        #[trigger] queue.contains(x) ==> (full_queue.contains(x) && x != idx) || released.contains(x)
    &&& forall|v: int|
        0 <= v < n ==> #[trigger] deg[v] == pending_preds(g, n, v, ord) + if has_edge(g, idx as int, v)
            && !released.contains(v as usize) {
            1nat
        } else {
            0nat
        }
    &&& forall|v: int|
        #![trigger queue.contains(v as usize)]
        #![trigger ord.contains(v as usize)]
        0 <= v < n && !ord.contains(v as usize) && !queue.contains(v as usize) ==> deg[v] > 0
    &&& forall|a: int, u: int|
        0 <= a < full_queue.len() && #[trigger] has_edge(g, u, full_queue[a] as int)
            ==> old_order.contains(u as usize)
    &&& forall|a: int, u: int|
        0 <= a < old_order.len() && #[trigger] has_edge(g, u, old_order[a] as int)
            ==> old_order.contains(u as usize)
}

proof fn lemma_kahn_after_pop(
    g: Seq<Vec<usize>>,
    n: int,
    deg: Seq<usize>,
    old_order: Seq<usize>,
    full_queue: Seq<usize>,
    idx: usize,
)
    requires
        n <= usize::MAX,
        adj_shape(g, n),
        deg.len() == n,
        kahn_state(g, n, deg, old_order, full_queue),
        full_queue.len() > 0,
        full_queue[0] == idx,
    ensures
        idx < n,
        !old_order.contains(idx),
        kahn_inner(
            g,
            n,
            deg,
            old_order.push(idx),
            full_queue.subrange(1, full_queue.len() as int),
            idx,
            old_order,
            full_queue,
            seq![],
        ),
{
    let ord = old_order.push(idx);
    let tail = full_queue.subrange(1, full_queue.len() as int);
    assert(full_queue.contains(idx));
    assert(!old_order.contains(idx));
    assert forall|x: usize| #[trigger] ord.contains(x) <==> (old_order.contains(x) || x == idx) by {}
    assert forall|x: usize| #[trigger] tail.contains(x) <==> (full_queue.contains(x) && x != idx) by {
        if tail.contains(x) {
            let a = choose|a: int| 0 <= a < tail.len() && tail[a] == x;
            assert(full_queue[a + 1] == x);
        }
        if full_queue.contains(x) && x != idx {
            let a = choose|a: int| 0 <= a < full_queue.len() && full_queue[a] == x;
            assert(a != 0);
            assert(tail[a - 1] == x);
        }
    }
    assert forall|a: int, u: int|
        0 <= a < ord.len() && #[trigger] has_edge(g, u, ord[a] as int) implies ord.contains(u as usize) by {
        if a < old_order.len() {
            assert(ord[a] == old_order[a]);
        } else {
            assert(ord[a] == full_queue[0]);
        }
    }
    assert forall|a: int, b: int| 0 <= a < b < ord.len() implies !has_edge(
        g,
        #[trigger] ord[b] as int,
        #[trigger] ord[a] as int,
    ) by {
        if b < old_order.len() {
            assert(ord[a] == old_order[a] && ord[b] == old_order[b]);
        } else {
            assert(ord[b] == idx);
            assert(ord[a] == old_order[a]);
            if has_edge(g, idx as int, old_order[a] as int) {
                assert(old_order.contains(idx));
            }
        }
    }
    assert forall|a: int, u: int|
        0 <= a < tail.len() && #[trigger] has_edge(g, u, tail[a] as int) implies ord.contains(u as usize) by {
        assert(tail[a] == full_queue[a + 1]);
    }
    assert(tail.no_duplicates()) by {
        assert forall|a: int, b: int| 0 <= a < tail.len() && 0 <= b < tail.len() && a != b implies tail[a]
            != tail[b] by {
            assert(full_queue[a + 1] != full_queue[b + 1]);
        }
    }
    assert forall|v: int| 0 <= v < n implies #[trigger] deg[v] == pending_preds(g, n, v, ord) + if has_edge(
        g,
        idx as int,
        v,
    ) && !Seq::<usize>::empty().contains(v as usize) {
        1nat
    } else {
        0nat
    } by {
        lemma_pending_done_push(g, n, v, old_order, idx);
    }
    assert forall|v: int|
        #![trigger tail.contains(v as usize)]
        #![trigger ord.contains(v as usize)]
        0 <= v < n && !ord.contains(v as usize) && !tail.contains(v as usize) implies deg[v] > 0 by {
        assert(!old_order.contains(v as usize));
        assert(!full_queue.contains(v as usize));
    }
    assert forall|a: int, u: int|
        0 <= a < full_queue.len() && #[trigger] has_edge(g, u, full_queue[a] as int) implies old_order.contains(
        u as usize) by {}
}

proof fn lemma_kahn_inner_step(
    g: Seq<Vec<usize>>,
    n: int,
    deg: Seq<usize>,
    ord: Seq<usize>,
    queue: Seq<usize>,
    idx: usize,
    old_order: Seq<usize>,
    full_queue: Seq<usize>,
    succ: Seq<usize>,
    t: int,
)
    requires
        n <= usize::MAX,
        adj_shape(g, n),
        0 <= idx < n,
        succ == g[idx as int]@,
        0 <= t < succ.len(),
        ord == old_order.push(idx),
        !old_order.contains(idx),
        full_queue.len() > 0 && full_queue[0] == idx,
        deg.len() == n,
        kahn_inner(g, n, deg, ord, queue, idx, old_order, full_queue, succ.subrange(0, t)),
    ensures
        succ[t] < n,
        deg[succ[t] as int] >= 1,
        kahn_inner(
            g,
            n,
            deg.update(succ[t] as int, (deg[succ[t] as int] - 1) as usize),
            ord,
            if deg[succ[t] as int] - 1 == 0 {
                queue.push(succ[t])
            } else {
                queue
            },
            idx,
            old_order,
            full_queue,
            succ.subrange(0, t + 1),
        ),
{
    let dep = succ[t];
    let v = dep as int;
    let done = succ.subrange(0, t);
    let done2 = succ.subrange(0, t + 1);
    assert(done2 == done.push(dep));
    assert(has_edge(g, idx as int, v));
    assert(!done.contains(dep)) by {
        if done.contains(dep) {
            let a = choose|a: int| 0 <= a < done.len() && done[a] == dep;
            assert(succ[a] == succ[t]);
        }
    }
    assert(deg[v] == pending_preds(g, n, v, ord) + 1);
    // `dep` is neither ordered nor queued: each would make `idx` an ordered node.
    assert(!ord.contains(dep)) by {
        if old_order.contains(dep) {
            let a = choose|a: int| 0 <= a < old_order.len() && old_order[a] == dep;
            assert(has_edge(g, idx as int, old_order[a] as int));
        }
        if dep == idx {
            assert(has_edge(g, idx as int, idx as int));
        }
    }
    assert(!queue.contains(dep)) by {
        if queue.contains(dep) {
            if full_queue.contains(dep) && dep != idx {
                let a = choose|a: int| 0 <= a < full_queue.len() && full_queue[a] == dep;
                assert(has_edge(g, idx as int, full_queue[a] as int));
            }
        }
    }
    let deg2 = deg.update(v, (deg[v] - 1) as usize);
    let queue2 = if deg[v] - 1 == 0 {
        queue.push(dep)
    } else {
        queue
    };
    assert forall|x: usize| #[trigger] done2.contains(x) <==> (done.contains(x) || x == dep) by {}
    assert forall|x: usize| #[trigger] queue2.contains(x) <==> (queue.contains(x) || (x == dep && deg[v] - 1
        == 0)) by {}
    if deg[v] - 1 == 0 {
        assert(pending_preds(g, n, v, ord) == 0);
        assert forall|u: int| #[trigger] has_edge(g, u, v) implies ord.contains(u as usize) by {
            lemma_pending_zero(g, n, v, ord, u);
        }
        assert(queue2.no_duplicates()) by {
            assert forall|a: int, b: int|
                0 <= a < queue2.len() && 0 <= b < queue2.len() && a != b implies queue2[a] != queue2[b] by {
                if a < queue.len() && b < queue.len() {
                } else if a < queue.len() {
                    assert(queue2[b] == dep);
                    assert(queue.contains(queue2[a]));
                } else if b < queue.len() {
                    assert(queue2[a] == dep);
                    assert(queue.contains(queue2[b]));
                }
            }
        }
        assert forall|a: int, u: int|
            0 <= a < queue2.len() && #[trigger] has_edge(g, u, queue2[a] as int) implies ord.contains(
            u as usize) by {
            if a < queue.len() {
                assert(queue2[a] == queue[a]);
            } else {
                assert(queue2[a] == dep);
            }
        }
        assert forall|a: int| 0 <= a < queue2.len() implies #[trigger] queue2[a] < n by {
            if a < queue.len() {
                assert(queue2[a] == queue[a]);
            }
        }
    }
    assert forall|w: int| 0 <= w < n implies #[trigger] deg2[w] == pending_preds(g, n, w, ord) + if has_edge(
        g,
        idx as int,
        w,
    ) && !done2.contains(w as usize) {
        1nat
    } else {
        0nat
    } by {
        if w != v {
            assert(deg2[w] == deg[w]);
            assert(done2.contains(w as usize) <==> done.contains(w as usize));
        }
    }
    assert forall|w: int|
        #![trigger queue2.contains(w as usize)]
        #![trigger ord.contains(w as usize)]
        0 <= w < n && !ord.contains(w as usize) && !queue2.contains(w as usize) implies deg2[w] > 0 by {
        if w != v {
            assert(deg2[w] == deg[w]);
            assert(!queue.contains(w as usize));
        }
    }
}

proof fn lemma_kahn_inner_done(
    g: Seq<Vec<usize>>,
    n: int,
    deg: Seq<usize>,
    ord: Seq<usize>,
    queue: Seq<usize>,
    idx: usize,
    old_order: Seq<usize>,
    full_queue: Seq<usize>,
    succ: Seq<usize>,
)
    requires
        n <= usize::MAX,
        adj_shape(g, n),
        0 <= idx < n,
        succ == g[idx as int]@,
        deg.len() == n,
        kahn_inner(g, n, deg, ord, queue, idx, old_order, full_queue, succ.subrange(0, succ.len() as int)),
    ensures
        kahn_state(g, n, deg, ord, queue),
{
    assert(succ.subrange(0, succ.len() as int) == succ);
    assert forall|v: int| 0 <= v < n implies #[trigger] deg[v] == pending_preds(g, n, v, ord) by {
        if has_edge(g, idx as int, v) {
            assert(succ.contains(v as usize));
        }
    }
}

proof fn lemma_no_topological_order_from_state(g: Seq<Vec<usize>>, n: int, deg: Seq<usize>, order: Seq<usize>)
    requires
        n <= usize::MAX,
        adj_shape(g, n),
        deg.len() == n,
        kahn_state(g, n, deg, order, seq![]),
        order.len() != n,
    ensures
        !has_topological_order(g, n),
{
    lemma_nodup_len_bound(order, n);
    assert forall|v: int|
        #![trigger order.contains(v as usize)]
        0 <= v < n && !order.contains(v as usize) implies exists|u: int|
            0 <= u < n && #[trigger] has_edge(g, u, v) && !order.contains(u as usize) by {
        assert(!Seq::<usize>::empty().contains(v as usize));
        assert(deg[v] > 0);
        let u = lemma_pending_positive(g, n, v, order);
    }
    lemma_no_topological_order(g, n, order);
}

proof fn lemma_kahn_len_bound(g: Seq<Vec<usize>>, n: int, deg: Seq<usize>, order: Seq<usize>, queue: Seq<usize>)
    requires
        0 <= n <= usize::MAX,
        kahn_state(g, n, deg, order, queue),
    ensures
        order.len() + queue.len() <= n,
{
    assert forall|i: int, j: int| 0 <= i < order.len() && 0 <= j < queue.len() implies order[i] != queue[j] by {
        assert(order.contains(order[i]));
        assert(queue.contains(queue[j]));
    }
    vstd::seq_lib::lemma_no_dup_in_concat(order, queue);
    assert forall|a: int| 0 <= a < (order + queue).len() implies #[trigger] (order + queue)[a] < n by {
        if a < order.len() {
            assert((order + queue)[a] == order[a]);
        } else {
            assert((order + queue)[a] == queue[a - order.len()]);
        }
    }
    lemma_nodup_len_bound(order + queue, n);
}

/// The queue Kahn's algorithm starts from: the nodes below `i` that have no
/// predecessor, in ascending order.
pub open spec fn kahn_initial_queue(in_degree: Seq<usize>, i: int) -> Seq<usize>
    decreases i,
{
    if i <= 0 {
        seq![]
    } else if in_degree[i - 1] == 0 {
        kahn_initial_queue(in_degree, i - 1).push((i - 1) as usize)
    } else {
        kahn_initial_queue(in_degree, i - 1)
    }
}

/// The first `t` successors in `succ` of a node just ordered, released in
/// list order: each loses one pending predecessor and joins the back of the
/// queue when none is left. Gives the new counts and the new queue.
pub open spec fn kahn_release(deg: Seq<usize>, queue: Seq<usize>, succ: Seq<usize>, t: int) -> (Seq<
    usize,
>, Seq<usize>)
    decreases t,
{
    if t <= 0 {
        (deg, queue)
    } else {
        let prev = kahn_release(deg, queue, succ, t - 1);
        let v = succ[t - 1];
        let d = prev.0[v as int];
        (prev.0.update(v as int, (d - 1) as usize), if d == 1 {
            prev.1.push(v)
        } else {
            prev.1
        })
    }
}

/// The targets of each node, as plain sequences.
pub open spec fn lists_view(adj: Seq<Vec<usize>>) -> Seq<Seq<usize>> {
    adj.map_values(|l: Vec<usize>| l@)
}

/// Number of nodes `u < m` whose targets include `v`.
pub open spec fn pred_count(lists: Seq<Seq<usize>>, m: int, v: int) -> nat
    decreases m,
{
    if m <= 0 {
        0
    } else {
        pred_count(lists, m - 1, v) + if lists[m - 1].contains(v as usize) {
            1nat
        } else {
            0nat
        }
    }
}

/// The number of predecessors of each of the `n` nodes.
pub open spec fn list_in_degrees(lists: Seq<Seq<usize>>, n: int) -> Seq<usize> {
    Seq::new(n as nat, |v: int| pred_count(lists, n, v) as usize)
}

/// Kahn's algorithm from a given state, for at most `fuel` steps: each step
/// moves the node at the front of the queue to the end of the order and
/// releases its successors.
pub open spec fn kahn_run(
    lists: Seq<Seq<usize>>,
    deg: Seq<usize>,
    order: Seq<usize>,
    queue: Seq<usize>,
    fuel: nat,
) -> Seq<usize>
    decreases fuel,
{
    if fuel == 0 || queue.len() == 0 {
        order
    } else {
        let idx = queue[0];
        let succ = lists[idx as int];
        let next = kahn_release(deg, queue.subrange(1, queue.len() as int), succ, succ.len() as int);
        kahn_run(lists, next.0, order.push(idx), next.1, (fuel - 1) as nat)
    }
}

/// The order Kahn's algorithm gives on `n` nodes with the given target
/// lists: it starts from the nodes without predecessors in ascending order,
/// takes ready nodes first in, first out, and releases the successors of a
/// node in list order. It depends on the lists alone.
pub open spec fn kahn_order(lists: Seq<Seq<usize>>, n: int) -> Seq<usize> {
    let deg = list_in_degrees(lists, n);
    kahn_run(lists, deg, seq![], kahn_initial_queue(deg, n), n as nat)
}

proof fn lemma_pending_is_pred_count(adj: Seq<Vec<usize>>, m: int, v: int)
    requires
        0 <= m <= adj.len(),
        0 <= v <= usize::MAX,
    ensures
        pending_preds(adj, m, v, seq![]) == pred_count(lists_view(adj), m, v),
    decreases m,
{
    if m > 0 {
        lemma_pending_is_pred_count(adj, m - 1, v);
        assert(lists_view(adj)[m - 1] == adj[m - 1]@);
        assert(!Seq::<usize>::empty().contains((m - 1) as usize));
    }
}

/// Kahn's algorithm: repeatedly take a node with no remaining predecessors.
/// Returns an order of all `n` nodes that respects every edge, or
/// `CycleDetected` exactly when no such order exists. The order is the one
/// [`kahn_order`] gives, so equal graphs always get equal orders.
pub fn topological_sort(n: usize, adj: Vec<Vec<usize>>, in_degree: Vec<usize>) -> (r: Result<
    Vec<usize>,
    GraphError,
>)
    requires
        graph_wf(adj@, in_degree@, n as int),
    ensures
        r is Ok <==> has_topological_order(adj@, n as int),
        r is Ok <==> kahn_order(lists_view(adj@), n as int).len() == n,
        r matches Ok(order) ==> is_topological_order(adj@, n as int, order@),
        r matches Ok(order) ==> order@ == kahn_order(lists_view(adj@), n as int),
        r matches Err(e) ==> e == GraphError::CycleDetected,
{
    let ghost g = adj@;
    let ghost lists = lists_view(g);
    let ghost deg_init = in_degree@;
    proof {
        assert forall|v: int| 0 <= v < n implies #[trigger] deg_init[v] == list_in_degrees(lists, n as int)[v] by {
            lemma_pending_is_pred_count(g, n as int, v);
        }
        assert(deg_init == list_in_degrees(lists, n as int));
    }
    let mut in_degree = in_degree;
    let mut queue: VecDeque<usize> = VecDeque::new();
    let mut i: usize = 0;
    while i < n
        invariant
            graph_wf(g, in_degree@, n as int),
            adj@ == g,
            i <= n,
            in_degree@ == deg_init,
            queue@ == kahn_initial_queue(deg_init, i as int),
            forall|a: int, b: int| 0 <= a < b < queue@.len() ==> queue@[a] < queue@[b],
            forall|a: int| 0 <= a < queue@.len() ==> #[trigger] queue@[a] < i,
            forall|a: int| 0 <= a < queue@.len() ==> in_degree@[#[trigger] queue@[a] as int] == 0,
            forall|v: int|
                #![trigger queue@.contains(v as usize)]
                0 <= v < i && !queue@.contains(v as usize) ==> in_degree@[v] > 0,
        decreases n - i,
    {
        if in_degree[i] == 0 {
            queue.push_back(i);
        }
        proof {
            assert forall|v: int|
                #![trigger queue@.contains(v as usize)]
                0 <= v < i + 1 && !queue@.contains(v as usize) implies in_degree@[v] > 0 by {
                if v == i {
                    if in_degree@[v] == 0 {
                        assert(queue@[queue@.len() - 1] == i);
                    }
                }
            }
        }
        i = i + 1;
    }
    let mut order: Vec<usize> = Vec::with_capacity(n);
    proof {
        assert forall|a: int, b: int|
            0 <= a < queue@.len() && 0 <= b < queue@.len() && a != b implies queue@[a] != queue@[b] by {
            if a < b {
                assert(queue@[a] < queue@[b]);
            } else {
                assert(queue@[b] < queue@[a]);
            }
        }
        assert forall|a: int, u: int|
            0 <= a < queue@.len() && #[trigger] has_edge(g, u, queue@[a] as int) implies order@.contains(
            u as usize) by {
            let v = queue@[a] as int;
            assert(in_degree@[v] == 0);
            lemma_pending_zero(g, n as int, v, order@, u);
        }
        assert(kahn_state(g, n as int, in_degree@, order@, queue@));
    }
    loop
        invariant
            adj@ == g,
            adj_shape(g, n as int),
            in_degree@.len() == n,
            kahn_state(g, n as int, in_degree@, order@, queue@),
            lists == lists_view(g),
            deg_init == list_in_degrees(lists, n as int),
            kahn_run(lists, in_degree@, order@, queue@, (n - order@.len()) as nat) == kahn_order(lists, n as int),
        ensures
            queue@.len() == 0,
            order@ == kahn_order(lists, n as int),
        decreases 2 * n - 2 * order@.len() - queue@.len(),
    {
        proof {
            lemma_kahn_len_bound(g, n as int, in_degree@, order@, queue@);
        }
        let ghost old_order = order@;
        let ghost full_queue = queue@;
        match queue.pop_front() {
            None => {
                break;
            },
            Some(idx) => {
                let ghost tail = queue@;
                let ghost deg_start = in_degree@;
                order.push(idx);
                let ghost ord = order@;
                proof {
                    lemma_kahn_after_pop(g, n as int, in_degree@, old_order, full_queue, idx);
                }
                let succ = &adj[idx];
                let mut t: usize = 0;
                while t < succ.len()
                    invariant
                        adj@ == g,
                        adj_shape(g, n as int),
                        0 <= idx < n,
                        succ@ == g[idx as int]@,
                        t <= succ@.len(),
                        order@ == ord,
                        ord == old_order.push(idx),
                        !old_order.contains(idx),
                        full_queue.len() > 0 && full_queue[0] == idx,
                        queue@.len() + 1 >= full_queue.len(),
                        in_degree@.len() == n,
                        kahn_inner(g, n as int, in_degree@, ord, queue@, idx, old_order, full_queue, succ@.subrange(0, t as int)),
                        (in_degree@, queue@) == kahn_release(deg_start, tail, succ@, t as int),
                    decreases succ@.len() - t,
                {
                    let dep = succ[t];
                    let ghost deg0 = in_degree@;
                    let ghost queue0 = queue@;
                    proof {
                        lemma_kahn_inner_step(g, n as int, deg0, ord, queue0, idx, old_order, full_queue, succ@, t as int);
                    }
                    let d = in_degree[dep];
                    in_degree.set(dep, d - 1);
                    if d - 1 == 0 {
                        queue.push_back(dep);
                    }
                    proof {
                        assert(in_degree@ == deg0.update(dep as int, (deg0[dep as int] - 1) as usize));
                    }
                    t = t + 1;
                }
                proof {
                    lemma_kahn_inner_done(g, n as int, in_degree@, ord, queue@, idx, old_order, full_queue, succ@);
                    lemma_kahn_len_bound(g, n as int, in_degree@, order@, queue@);
                    assert(tail == full_queue.subrange(1, full_queue.len() as int));
                    assert((n - old_order.len()) as nat > 0);
                    assert(lists[idx as int] == succ@);
                    assert(kahn_run(lists, deg_start, old_order, full_queue, (n - old_order.len()) as nat) == kahn_run(
                        lists,
                        in_degree@,
                        order@,
                        queue@,
                        (n - order@.len()) as nat,
                    ));
                }
            },
        }
    }
    if order.len() != n {
        proof {
            lemma_no_topological_order_from_state(g, n as int, in_degree@, order@);
        }
        return Err(GraphError::CycleDetected);
    }
    proof {
        assert(is_topological_order(g, n as int, order@));
    }
    Ok(order)
}


// ───────────────────────── hazards between passes ─────────────────────────

/// Whether `(j, k)` names an access of the pass list.
pub open spec fn valid_pos(nodes: Seq<PassNode>, j: int, k: int) -> bool {
    0 <= j < nodes.len() && 0 <= k < nodes[j].accesses@.len()
}

/// The access at position `(j, k)`: access `k` of pass `j`.
pub open spec fn access_at(nodes: Seq<PassNode>, j: int, k: int) -> PassAccess {
    nodes[j].accesses@[k]
}

/// Positions are ordered by pass, then by access within the pass.
pub open spec fn pos_lt(j1: int, k1: int, j2: int, k2: int) -> bool {
    j1 < j2 || (j1 == j2 && k1 < k2)
}

/// Access `(j, k)` writes resource `h`.
pub open spec fn writes_at(nodes: Seq<PassNode>, j: int, k: int, h: u32) -> bool {
    valid_pos(nodes, j, k) && access_at(nodes, j, k).handle.0 == h && is_writing(
        access_at(nodes, j, k).access,
    )
}

/// Access `(j, k)` only reads resource `h`.
pub open spec fn reads_at(nodes: Seq<PassNode>, j: int, k: int, h: u32) -> bool {
    valid_pos(nodes, j, k) && access_at(nodes, j, k).handle.0 == h && access_at(nodes, j, k).access
        == AccessType::Read
}

/// No access strictly between positions `(j1, k1)` and `(j2, k2)` writes `h`.
pub open spec fn quiet_between(nodes: Seq<PassNode>, h: u32, j1: int, k1: int, j2: int, k2: int) -> bool {
    forall|j: int, k: int|
        #[trigger] writes_at(nodes, j, k, h) ==> !(pos_lt(j1, k1, j, k) && pos_lt(j, k, j2, k2))
}

/// `(j, k)` is the last write of `h` before position `(i, l)`.
pub open spec fn last_write_at(nodes: Seq<PassNode>, h: u32, j: int, k: int, i: int, l: int) -> bool {
    writes_at(nodes, j, k, h) && pos_lt(j, k, i, l) && quiet_between(nodes, h, j, k, i, l)
}

/// `(j, k)` reads `h` before position `(i, l)` with no write of `h` since.
pub open spec fn live_read_at(nodes: Seq<PassNode>, h: u32, j: int, k: int, i: int, l: int) -> bool {
    reads_at(nodes, j, k, h) && pos_lt(j, k, i, l) && quiet_between(nodes, h, j, k, i, l)
}

/// Access `(u, ku)` must happen before access `(v, kv)`: both touch the same
/// resource, at least one writes it, and no write of it lies in between.
pub open spec fn hazard_pair(nodes: Seq<PassNode>, u: int, ku: int, v: int, kv: int) -> bool {
    valid_pos(nodes, v, kv) && {
        let a = access_at(nodes, v, kv);
        last_write_at(nodes, a.handle.0, u, ku, v, kv) || (is_writing(a.access) && live_read_at(
            nodes,
            a.handle.0,
            u,
            ku,
            v,
            kv,
        ))
    }
}

/// Pass `u` must run before pass `v` because of an access of `v` before position `(i, l)`.
pub open spec fn hazard_edge_before(nodes: Seq<PassNode>, u: int, v: int, i: int, l: int) -> bool {
    u != v && exists|ku: int, kv: int| pos_lt(v, kv, i, l) && #[trigger] hazard_pair(nodes, u, ku, v, kv)
}

/// Pass `u` must run before pass `v` because they touch a common resource:
/// `u` writes it and `v` uses the written data, or `u` reads data that `v`
/// then overwrites.
pub open spec fn hazard_edge(nodes: Seq<PassNode>, u: int, v: int) -> bool {
    hazard_edge_before(nodes, u, v, nodes.len() as int, 0)
}

/// Pass `v` names `u` among the passes it must run after.
pub open spec fn explicit_edge(nodes: Seq<PassNode>, u: int, v: int) -> bool {
    u != v && 0 <= v < nodes.len() && exists|d: int|
        0 <= d < nodes[v].depends_on@.len() && #[trigger] nodes[v].depends_on@[d].0 as int == u
}

/// Pass `u` must run before pass `v`.
pub open spec fn dependency_edge(nodes: Seq<PassNode>, u: int, v: int) -> bool {
    hazard_edge(nodes, u, v) || explicit_edge(nodes, u, v)
}

/// Every explicit dependency names a pass of the list.
pub open spec fn dependencies_in_range(nodes: Seq<PassNode>) -> bool {
    forall|v: int, d: int|
        0 <= v < nodes.len() && 0 <= d < nodes[v].depends_on@.len() ==> (#[trigger] nodes[v].depends_on@[d]).0
            < nodes.len()
}

/// `order` runs every pass once and each pass after all passes it depends on.
pub open spec fn is_pass_order(nodes: Seq<PassNode>, order: Seq<usize>) -> bool {
    &&& order.len() == nodes.len()
    &&& order.no_duplicates()
    &&& forall|i: int| 0 <= i < order.len() ==> #[trigger] order[i] < nodes.len()
    &&& forall|i: int, j: int|
        0 <= i < j < order.len() ==> !dependency_edge(nodes, #[trigger] order[j] as int, #[trigger] order[i] as int)
}

/// Some pass order satisfies every dependency.
pub open spec fn has_pass_order(nodes: Seq<PassNode>) -> bool {
    exists|order: Seq<usize>| is_pass_order(nodes, order)
}

proof fn lemma_last_write_unique(
    nodes: Seq<PassNode>,
    h: u32,
    j1: int,
    k1: int,
    j2: int,
    k2: int,
    i: int,
    l: int,
)
    requires
        last_write_at(nodes, h, j1, k1, i, l),
        last_write_at(nodes, h, j2, k2, i, l),
    ensures
        j1 == j2 && k1 == k2,
{
    assert(writes_at(nodes, j1, k1, h));
    assert(writes_at(nodes, j2, k2, h));
}

/// Edges added by the readers of one resource.
pub open spec fn reader_edge(readers: Map<u32, Vec<usize>>, h: u32, u: int) -> bool {
    readers.dom().contains(h) && 0 <= u <= usize::MAX && readers[h]@.contains(u as usize)
}

/// Add an edge from every pass recorded as a reader of `handle` to `to`.
pub fn add_edges_from_readers(
    adj: &mut Vec<Vec<usize>>,
    in_degree: &mut Vec<usize>,
    last_readers: &HashMap<u32, Vec<usize>>,
    handle: u32,
    to: usize,
)
    requires
        graph_wf(old(adj)@, old(in_degree)@, old(adj)@.len() as int),
        to < old(adj)@.len(),
        last_readers@.dom().contains(handle) ==> forall|t: int|
            0 <= t < last_readers@[handle]@.len() ==> #[trigger] last_readers@[handle]@[t] < old(adj)@.len(),
    ensures
        final(adj)@.len() == old(adj)@.len(),
        graph_wf(final(adj)@, final(in_degree)@, final(adj)@.len() as int),
        forall|u: int, v: int|
            #![trigger has_edge(final(adj)@, u, v)]
            has_edge(final(adj)@, u, v) <==> (has_edge(old(adj)@, u, v) || (v == to as int && u != v
                && reader_edge(last_readers@, handle, u))),
        forall|u: int|
            0 <= u < old(adj)@.len() ==> #[trigger] final(adj)@[u]@ == if u != to as int && reader_edge(
                last_readers@,
                handle,
                u,
            ) && !old(adj)@[u]@.contains(to) {
                old(adj)@[u]@.push(to)
            } else {
                old(adj)@[u]@
            },
{
    broadcast use vstd::std_specs::hash::group_hash_axioms;

    let readers = match last_readers.get(&handle) {
        Some(r) => r,
        None => {
            return ;
        },
    };
    let ghost g0 = adj@;
    let mut t: usize = 0;
    while t < readers.len()
        invariant
            readers@ == last_readers@[handle]@,
            last_readers@.dom().contains(handle),
            t <= readers@.len(),
            forall|x: int| 0 <= x < readers@.len() ==> #[trigger] readers@[x] < g0.len(),
            to < g0.len(),
            adj@.len() == g0.len(),
            graph_wf(adj@, in_degree@, adj@.len() as int),
            forall|u: int, v: int|
                #![trigger has_edge(adj@, u, v)]
                has_edge(adj@, u, v) <==> (has_edge(g0, u, v) || (v == to as int && u != v && 0 <= u
                    <= usize::MAX && readers@.subrange(0, t as int).contains(u as usize))),
            forall|u: int|
                0 <= u < g0.len() ==> #[trigger] adj@[u]@ == if u != to as int && u <= usize::MAX
                    && readers@.subrange(0, t as int).contains(u as usize) && !g0[u]@.contains(to) {
                    g0[u]@.push(to)
                } else {
                    g0[u]@
                },
        decreases readers@.len() - t,
    {
        let reader = readers[t];
        let ghost before = adj@;
        add_edge(adj, in_degree, Some(reader), to);
        proof {
            let done = readers@.subrange(0, t as int);
            let done2 = readers@.subrange(0, t + 1);
            assert(done2 == done.push(reader));
            assert forall|x: usize| #[trigger] done2.contains(x) <==> (done.contains(x) || x == reader) by {}
            assert forall|u: int, v: int|
                #![trigger has_edge(adj@, u, v)]
                has_edge(adj@, u, v) <==> (has_edge(g0, u, v) || (v == to as int && u != v && 0 <= u
                    <= usize::MAX && done2.contains(u as usize))) by {
                assert(has_edge(adj@, u, v) <==> (has_edge(before, u, v) || (u == reader as int && v
                    == to as int && u != v)));
            }
            assert forall|u: int| 0 <= u < g0.len() implies #[trigger] adj@[u]@ == if u != to as int
                && u <= usize::MAX && done2.contains(u as usize) && !g0[u]@.contains(to) {
                g0[u]@.push(to)
            } else {
                g0[u]@
            } by {
                assert(adj@[u]@ == targets_after_add(before, Some(reader), to, u));
                assert(before[u]@ == if u != to as int && u <= usize::MAX && done.contains(u as usize)
                    && !g0[u]@.contains(to) {
                    g0[u]@.push(to)
                } else {
                    g0[u]@
                });
                assert(done2.contains(u as usize) <==> (done.contains(u as usize) || u as usize == reader));
                if u != reader as int {
                    assert(adj@[u]@ == before[u]@);
                } else if u == to as int {
                    assert(adj@[u]@ == before[u]@);
                } else if done.contains(u as usize) {
                    if !g0[u]@.contains(to) {
                        assert(before[u]@[g0[u]@.len() as int] == to);
                        assert(before[u]@.contains(to));
                    }
                    assert(adj@[u]@ == before[u]@);
                } else {
                    assert(before[u]@ == g0[u]@);
                }
            }
        }
        t = t + 1;
    }
    proof {
        assert(readers@.subrange(0, readers@.len() as int) == readers@);
    }
}


/// What the scan over accesses knows once it has passed every access before
/// position `(i, l)`: the last writer and the live readers of each resource,
/// and the hazard edges found so far on top of the edges `g0` it started from.
spec fn scan_state(
    nodes: Seq<PassNode>,
    i: int,
    l: int,
    g0: Seq<Vec<usize>>,
    g: Seq<Vec<usize>>,
    lw: Map<u32, usize>,
    lr: Map<u32, Vec<usize>>,
) -> bool {
    &&& forall|h: u32|
        #[trigger] lw.dom().contains(h) ==> lw[h] < nodes.len() && exists|kj: int|
            last_write_at(nodes, h, lw[h] as int, kj, i, l)
    &&& forall|h: u32, j: int, kj: int| #[trigger] last_write_at(nodes, h, j, kj, i, l) ==> lw.dom().contains(h)
    &&& forall|h: u32, t: int|
        lr.dom().contains(h) && 0 <= t < lr[h]@.len() ==> #[trigger] lr[h]@[t] < nodes.len() && exists|kj: int|
            live_read_at(nodes, h, lr[h]@[t] as int, kj, i, l)
    &&& forall|h: u32, j: int, kj: int|
        #[trigger] live_read_at(nodes, h, j, kj, i, l) ==> lr.dom().contains(h) && lr[h]@.contains(j as usize)
    &&& forall|u: int, v: int|
        #[trigger] has_edge(g, u, v) <==> (has_edge(g0, u, v) || hazard_edge_before(nodes, u, v, i, l))
}

proof fn lemma_quiet_step(nodes: Seq<PassNode>, h: u32, j: int, kj: int, i: int, l: int)
    requires
        valid_pos(nodes, i, l),
        pos_lt(j, kj, i, l),
    ensures
        quiet_between(nodes, h, j, kj, i, l + 1) <==> (quiet_between(nodes, h, j, kj, i, l)
            && !writes_at(nodes, i, l, h)),
{
    if quiet_between(nodes, h, j, kj, i, l) && !writes_at(nodes, i, l, h) {
        assert forall|jj: int, kk: int| #[trigger] writes_at(nodes, jj, kk, h) implies !(pos_lt(
            j,
            kj,
            jj,
            kk,
        ) && pos_lt(jj, kk, i, l + 1)) by {
            if pos_lt(j, kj, jj, kk) && pos_lt(jj, kk, i, l + 1) && !pos_lt(jj, kk, i, l) {
                assert(jj == i && kk == l);
            }
        }
    }
    if quiet_between(nodes, h, j, kj, i, l + 1) {
        if writes_at(nodes, i, l, h) {
            assert(!(pos_lt(j, kj, i, l) && pos_lt(i, l, i, l + 1)));
        }
        assert forall|jj: int, kk: int| #[trigger] writes_at(nodes, jj, kk, h) implies !(pos_lt(
            j,
            kj,
            jj,
            kk,
        ) && pos_lt(jj, kk, i, l)) by {
            assert(!(pos_lt(j, kj, jj, kk) && pos_lt(jj, kk, i, l + 1)));
        }
    }
}

proof fn lemma_quiet_adjacent(nodes: Seq<PassNode>, h: u32, i: int, l: int)
    ensures
        quiet_between(nodes, h, i, l, i, l + 1),
{
    assert forall|jj: int, kk: int| #[trigger] writes_at(nodes, jj, kk, h) implies !(pos_lt(i, l, jj, kk)
        && pos_lt(jj, kk, i, l + 1)) by {}
}

/// Hazard edges before `(i, l + 1)` are those before `(i, l)` plus the edges
/// into pass `i` caused by its access `l`.
proof fn lemma_hazard_extend(nodes: Seq<PassNode>, u: int, v: int, i: int, l: int)
    ensures
        hazard_edge_before(nodes, u, v, i, l + 1) <==> (hazard_edge_before(nodes, u, v, i, l) || (v == i
            && u != i && exists|ku: int| #[trigger] hazard_pair(nodes, u, ku, i, l))),
{
    if hazard_edge_before(nodes, u, v, i, l + 1) {
        let (ku, kv) = choose|ku: int, kv: int| pos_lt(v, kv, i, l + 1) && #[trigger] hazard_pair(nodes, u, ku, v, kv);
        if !pos_lt(v, kv, i, l) {
            assert(v == i && kv == l);
            assert(hazard_pair(nodes, u, ku, i, l));
        }
    }
    if hazard_edge_before(nodes, u, v, i, l) {
        let (ku, kv) = choose|ku: int, kv: int| pos_lt(v, kv, i, l) && #[trigger] hazard_pair(nodes, u, ku, v, kv);
        assert(pos_lt(v, kv, i, l + 1));
    }
    if v == i && u != i && exists|ku: int| #[trigger] hazard_pair(nodes, u, ku, i, l) {
        let ku = choose|ku: int| #[trigger] hazard_pair(nodes, u, ku, i, l);
        assert(pos_lt(v, l, i, l + 1));
    }
}

/// Copy of a list of pass indices.
fn copy_list(list: &Vec<usize>) -> (c: Vec<usize>)
    ensures
        c@ == list@,
{
    let mut c: Vec<usize> = Vec::new();
    let mut t: usize = 0;
    while t < list.len()
        invariant
            t <= list.len(),
            c@ == list@.subrange(0, t as int),
        decreases list.len() - t,
    {
        c.push(list[t]);
        t = t + 1;
    }
    c
}


proof fn lemma_last_write_step(nodes: Seq<PassNode>, h: u32, j: int, kj: int, i: int, l: int)
    requires
        valid_pos(nodes, i, l),
    ensures
        last_write_at(nodes, h, j, kj, i, l + 1) <==> ((last_write_at(nodes, h, j, kj, i, l) && !writes_at(
            nodes,
            i,
            l,
            h,
        )) || (j == i && kj == l && writes_at(nodes, i, l, h))),
{
    if pos_lt(j, kj, i, l) {
        lemma_quiet_step(nodes, h, j, kj, i, l);
    } else if j == i && kj == l {
        lemma_quiet_adjacent(nodes, h, i, l);
    }
}

proof fn lemma_live_read_step(nodes: Seq<PassNode>, h: u32, j: int, kj: int, i: int, l: int)
    requires
        valid_pos(nodes, i, l),
    ensures
        live_read_at(nodes, h, j, kj, i, l + 1) <==> ((live_read_at(nodes, h, j, kj, i, l) && !writes_at(
            nodes,
            i,
            l,
            h,
        )) || (j == i && kj == l && reads_at(nodes, i, l, h))),
{
    if pos_lt(j, kj, i, l) {
        lemma_quiet_step(nodes, h, j, kj, i, l);
    } else if j == i && kj == l {
        lemma_quiet_adjacent(nodes, h, i, l);
    }
}

/// The passes that must precede access `(i, l)` are the recorded last writer
/// of its resource and, for a write, the recorded live readers.
proof fn lemma_hazard_sources(
    nodes: Seq<PassNode>,
    i: int,
    l: int,
    g0: Seq<Vec<usize>>,
    g: Seq<Vec<usize>>,
    lw: Map<u32, usize>,
    lr: Map<u32, Vec<usize>>,
    u: int,
)
    requires
        scan_state(nodes, i, l, g0, g, lw, lr),
        valid_pos(nodes, i, l),
        nodes.len() <= usize::MAX,
    ensures
        (exists|ku: int| #[trigger] hazard_pair(nodes, u, ku, i, l)) <==> ({
            let a = access_at(nodes, i, l);
            (lw.dom().contains(a.handle.0) && u == lw[a.handle.0] as int) || (is_writing(a.access)
                && reader_edge(lr, a.handle.0, u))
        }),
{
    let a = access_at(nodes, i, l);
    let h = a.handle.0;
    if exists|ku: int| #[trigger] hazard_pair(nodes, u, ku, i, l) {
        let ku = choose|ku: int| #[trigger] hazard_pair(nodes, u, ku, i, l);
        if last_write_at(nodes, h, u, ku, i, l) {
            assert(lw.dom().contains(h));
            let kj = choose|kj: int| last_write_at(nodes, h, lw[h] as int, kj, i, l);
            lemma_last_write_unique(nodes, h, u, ku, lw[h] as int, kj, i, l);
        } else {
            assert(live_read_at(nodes, h, u, ku, i, l));
            assert(lr.dom().contains(h) && lr[h]@.contains(u as usize));
        }
    }
    if lw.dom().contains(h) && u == lw[h] as int {
        let kj = choose|kj: int| last_write_at(nodes, h, lw[h] as int, kj, i, l);
        assert(hazard_pair(nodes, u, kj, i, l));
    }
    if is_writing(a.access) && reader_edge(lr, h, u) {
        let t = choose|t: int| 0 <= t < lr[h]@.len() && lr[h]@[t] == u as usize;
        assert(lr[h]@[t] < nodes.len());
        let kj = choose|kj: int| live_read_at(nodes, h, lr[h]@[t] as int, kj, i, l);
        assert(hazard_pair(nodes, u, kj, i, l));
    }
}

proof fn lemma_scan_read(
    nodes: Seq<PassNode>,
    i: int,
    l: int,
    g0: Seq<Vec<usize>>,
    g: Seq<Vec<usize>>,
    g1: Seq<Vec<usize>>,
    lw: Map<u32, usize>,
    lr: Map<u32, Vec<usize>>,
    lr2: Map<u32, Vec<usize>>,
)
    requires
        scan_state(nodes, i, l, g0, g, lw, lr),
        valid_pos(nodes, i, l),
        nodes.len() <= usize::MAX,
        access_at(nodes, i, l).access == AccessType::Read,
        forall|u: int, v: int|
            #![trigger has_edge(g1, u, v)]
            has_edge(g1, u, v) <==> (has_edge(g, u, v) || (lw.dom().contains(access_at(nodes, i, l).handle.0)
                && u == lw[access_at(nodes, i, l).handle.0] as int && v == i && u != v)),
        lr2.dom() == lr.dom().insert(access_at(nodes, i, l).handle.0),
        forall|h2: u32| h2 != access_at(nodes, i, l).handle.0 && lr.dom().contains(h2) ==> #[trigger] lr2[h2] == lr[h2],
        lr2[access_at(nodes, i, l).handle.0]@ == (if lr.dom().contains(access_at(nodes, i, l).handle.0) {
            lr[access_at(nodes, i, l).handle.0]@
        } else {
            Seq::<usize>::empty()
        }).push(i as usize),
    ensures
        scan_state(nodes, i, l + 1, g0, g1, lw, lr2),
{
    let l1 = l + 1;
    let h = access_at(nodes, i, l).handle.0;
    assert(!writes_at(nodes, i, l, h));
    assert forall|h1: u32| #[trigger] lw.dom().contains(h1) implies lw[h1] < nodes.len() && exists|kj: int|
        last_write_at(nodes, h1, lw[h1] as int, kj, i, l1) by {
        let kj = choose|kj: int| last_write_at(nodes, h1, lw[h1] as int, kj, i, l);
        lemma_last_write_step(nodes, h1, lw[h1] as int, kj, i, l);
    }
    assert forall|h1: u32, j: int, kj: int| #[trigger] last_write_at(nodes, h1, j, kj, i, l1) implies lw.dom().contains(
        h1) by {
        lemma_last_write_step(nodes, h1, j, kj, i, l);
    }
    assert forall|h1: u32, t: int| lr2.dom().contains(h1) && 0 <= t < lr2[h1]@.len() implies #[trigger] lr2[h1]@[t]
        < nodes.len() && exists|kj: int| live_read_at(nodes, h1, lr2[h1]@[t] as int, kj, i, l1) by {
        if h1 == h && t == lr2[h1]@.len() - 1 {
            assert(lr2[h1]@[t] == i as usize);
            lemma_live_read_step(nodes, h1, i, l, i, l);
        } else {
            assert(lr.dom().contains(h1));
            assert(lr2[h1]@[t] == lr[h1]@[t]);
            let kj = choose|kj: int| live_read_at(nodes, h1, lr[h1]@[t] as int, kj, i, l);
            lemma_live_read_step(nodes, h1, lr[h1]@[t] as int, kj, i, l);
        }
    }
    assert forall|h1: u32, j: int, kj: int| #[trigger] live_read_at(nodes, h1, j, kj, i, l1) implies lr2.dom().contains(
        h1) && lr2[h1]@.contains(j as usize) by {
        lemma_live_read_step(nodes, h1, j, kj, i, l);
        if j == i && kj == l && reads_at(nodes, i, l, h1) {
            assert(h1 == h);
            assert(lr2[h1]@[lr2[h1]@.len() - 1] == i as usize);
        } else {
            assert(lr.dom().contains(h1) && lr[h1]@.contains(j as usize));
            let t = choose|t: int| 0 <= t < lr[h1]@.len() && lr[h1]@[t] == j as usize;
            if h1 == h {
                assert(lr2[h1]@[t] == j as usize);
            } else {
                assert(lr2[h1] == lr[h1]);
            }
        }
    }
    assert forall|u: int, v: int| #[trigger] has_edge(g1, u, v) <==> (has_edge(g0, u, v) || hazard_edge_before(
        nodes,
        u,
        v,
        i,
        l1,
    )) by {
        lemma_hazard_extend(nodes, u, v, i, l);
        lemma_hazard_sources(nodes, i, l, g0, g, lw, lr, u);
        assert(has_edge(g, u, v) <==> (has_edge(g0, u, v) || hazard_edge_before(nodes, u, v, i, l)));
    }
}

proof fn lemma_scan_write(
    nodes: Seq<PassNode>,
    i: int,
    l: int,
    g0: Seq<Vec<usize>>,
    g: Seq<Vec<usize>>,
    g2: Seq<Vec<usize>>,
    lw: Map<u32, usize>,
    lr: Map<u32, Vec<usize>>,
)
    requires
        scan_state(nodes, i, l, g0, g, lw, lr),
        valid_pos(nodes, i, l),
        0 <= i < nodes.len() <= usize::MAX,
        is_writing(access_at(nodes, i, l).access),
        forall|u: int, v: int|
            #![trigger has_edge(g2, u, v)]
            has_edge(g2, u, v) <==> (has_edge(g, u, v) || (v == i && u != v && ((lw.dom().contains(
                access_at(nodes, i, l).handle.0,
            ) && u == lw[access_at(nodes, i, l).handle.0] as int) || reader_edge(
                lr,
                access_at(nodes, i, l).handle.0,
                u,
            )))),
    ensures
        scan_state(
            nodes,
            i,
            l + 1,
            g0,
            g2,
            lw.insert(access_at(nodes, i, l).handle.0, i as usize),
            lr.remove(access_at(nodes, i, l).handle.0),
        ),
{
    let l1 = l + 1;
    let h = access_at(nodes, i, l).handle.0;
    let lw2 = lw.insert(h, i as usize);
    let lr2 = lr.remove(h);
    assert(writes_at(nodes, i, l, h));
    assert forall|h1: u32| #[trigger] lw2.dom().contains(h1) implies lw2[h1] < nodes.len() && exists|kj: int|
        last_write_at(nodes, h1, lw2[h1] as int, kj, i, l1) by {
        if h1 == h {
            lemma_last_write_step(nodes, h1, i, l, i, l);
        } else {
            let kj = choose|kj: int| last_write_at(nodes, h1, lw[h1] as int, kj, i, l);
            lemma_last_write_step(nodes, h1, lw[h1] as int, kj, i, l);
        }
    }
    assert forall|h1: u32, j: int, kj: int| #[trigger] last_write_at(nodes, h1, j, kj, i, l1) implies lw2.dom().contains(
        h1) by {
        lemma_last_write_step(nodes, h1, j, kj, i, l);
    }
    assert forall|h1: u32, t: int| lr2.dom().contains(h1) && 0 <= t < lr2[h1]@.len() implies #[trigger] lr2[h1]@[t]
        < nodes.len() && exists|kj: int| live_read_at(nodes, h1, lr2[h1]@[t] as int, kj, i, l1) by {
        assert(h1 != h);
        assert(lr2[h1] == lr[h1]);
        let kj = choose|kj: int| live_read_at(nodes, h1, lr[h1]@[t] as int, kj, i, l);
        lemma_live_read_step(nodes, h1, lr[h1]@[t] as int, kj, i, l);
    }
    assert forall|h1: u32, j: int, kj: int| #[trigger] live_read_at(nodes, h1, j, kj, i, l1) implies lr2.dom().contains(
        h1) && lr2[h1]@.contains(j as usize) by {
        lemma_live_read_step(nodes, h1, j, kj, i, l);
        assert(h1 != h);
        assert(lr2[h1] == lr[h1]);
    }
    assert forall|u: int, v: int| #[trigger] has_edge(g2, u, v) <==> (has_edge(g0, u, v) || hazard_edge_before(
        nodes,
        u,
        v,
        i,
        l1,
    )) by {
        lemma_hazard_extend(nodes, u, v, i, l);
        lemma_hazard_sources(nodes, i, l, g0, g, lw, lr, u);
        assert(has_edge(g, u, v) <==> (has_edge(g0, u, v) || hazard_edge_before(nodes, u, v, i, l)));
    }
}


proof fn lemma_quiet_next_node(nodes: Seq<PassNode>, h: u32, j: int, kj: int, i: int)
    requires
        0 <= i < nodes.len(),
    ensures
        quiet_between(nodes, h, j, kj, i, nodes[i].accesses@.len() as int) <==> quiet_between(
            nodes,
            h,
            j,
            kj,
            i + 1,
            0,
        ),
{
    let len = nodes[i].accesses@.len() as int;
    let i1 = i + 1;
    assert forall|jj: int, kk: int| #[trigger] writes_at(nodes, jj, kk, h) implies (pos_lt(jj, kk, i, len)
        <==> pos_lt(jj, kk, i1, 0)) by {}
}

proof fn lemma_scan_next_node(
    nodes: Seq<PassNode>,
    i: int,
    g0: Seq<Vec<usize>>,
    g: Seq<Vec<usize>>,
    lw: Map<u32, usize>,
    lr: Map<u32, Vec<usize>>,
)
    requires
        0 <= i < nodes.len(),
        scan_state(nodes, i, nodes[i].accesses@.len() as int, g0, g, lw, lr),
    ensures
        scan_state(nodes, i + 1, 0, g0, g, lw, lr),
{
    let len = nodes[i].accesses@.len() as int;
    let i1 = i + 1;
    assert forall|h: u32, j: int, kj: int| #![trigger last_write_at(nodes, h, j, kj, i1, 0)] #![trigger last_write_at(nodes, h, j, kj, i, len)]
        last_write_at(nodes, h, j, kj, i, len) <==> last_write_at(nodes, h, j, kj, i1, 0) by {
        lemma_quiet_next_node(nodes, h, j, kj, i);
    }
    assert forall|h: u32, j: int, kj: int| #![trigger live_read_at(nodes, h, j, kj, i1, 0)] #![trigger live_read_at(nodes, h, j, kj, i, len)]
        live_read_at(nodes, h, j, kj, i, len) <==> live_read_at(nodes, h, j, kj, i1, 0) by {
        lemma_quiet_next_node(nodes, h, j, kj, i);
    }
    assert forall|h: u32| #[trigger] lw.dom().contains(h) implies lw[h] < nodes.len() && exists|kj: int|
        last_write_at(nodes, h, lw[h] as int, kj, i1, 0) by {
        let kj = choose|kj: int| last_write_at(nodes, h, lw[h] as int, kj, i, len);
        assert(last_write_at(nodes, h, lw[h] as int, kj, i1, 0));
    }
    assert forall|h: u32, t: int| lr.dom().contains(h) && 0 <= t < lr[h]@.len() implies #[trigger] lr[h]@[t]
        < nodes.len() && exists|kj: int| live_read_at(nodes, h, lr[h]@[t] as int, kj, i1, 0) by {
        let kj = choose|kj: int| live_read_at(nodes, h, lr[h]@[t] as int, kj, i, len);
        assert(live_read_at(nodes, h, lr[h]@[t] as int, kj, i1, 0));
    }
    assert forall|u: int, v: int| #![auto] hazard_edge_before(nodes, u, v, i, len) <==> hazard_edge_before(
        nodes,
        u,
        v,
        i1,
        0,
    ) by {
        if hazard_edge_before(nodes, u, v, i, len) {
            let (ku, kv) = choose|ku: int, kv: int| pos_lt(v, kv, i, len) && #[trigger] hazard_pair(nodes, u, ku, v, kv);
            assert(pos_lt(v, kv, i1, 0));
        }
        if hazard_edge_before(nodes, u, v, i1, 0) {
            let (ku, kv) = choose|ku: int, kv: int| pos_lt(v, kv, i1, 0) && #[trigger] hazard_pair(nodes, u, ku, v, kv);
            assert(pos_lt(v, kv, i, len));
        }
    }
}

/// Add the hazard edges of the pass list: for each access, an edge from the
/// last writer of its resource, and for a write also an edge from every pass
/// that read the resource since that write.
fn build_resource_edges(nodes: &Vec<PassNode>, adj: &mut Vec<Vec<usize>>, in_degree: &mut Vec<usize>)
    requires
        graph_wf(old(adj)@, old(in_degree)@, old(adj)@.len() as int),
        old(adj)@.len() == nodes@.len(),
    ensures
        final(adj)@.len() == old(adj)@.len(),
        graph_wf(final(adj)@, final(in_degree)@, final(adj)@.len() as int),
        forall|u: int, v: int|
            #![trigger has_edge(final(adj)@, u, v)]
            has_edge(final(adj)@, u, v) <==> (has_edge(old(adj)@, u, v) || hazard_edge(nodes@, u, v)),
        grows_ascending(old(adj)@, final(adj)@, nodes@.len() as int),
{
    broadcast use vstd::std_specs::hash::group_hash_axioms;

    let ghost g0 = adj@;
    let ghost ns = nodes@;
    let mut last_writer: HashMap<u32, usize> = HashMap::new();
    let mut last_readers: HashMap<u32, Vec<usize>> = HashMap::new();
    let mut i: usize = 0;
    while i < nodes.len()
        invariant
            ns == nodes@,
            ns.len() == nodes.len(),
            i <= ns.len(),
            adj@.len() == ns.len(),
            graph_wf(adj@, in_degree@, adj@.len() as int),
            scan_state(ns, i as int, 0, g0, adj@, last_writer@, last_readers@),
            grows_ascending(g0, adj@, i as int),
        decreases ns.len() - i,
    {
        let node = &nodes[i];
        let mut k: usize = 0;
        while k < node.accesses.len()
            invariant
                ns == nodes@,
                ns.len() == nodes.len(),
                i < ns.len(),
                *node == ns[i as int],
                k <= node.accesses@.len(),
                adj@.len() == ns.len(),
                graph_wf(adj@, in_degree@, adj@.len() as int),
                scan_state(ns, i as int, k as int, g0, adj@, last_writer@, last_readers@),
                grows_ascending(g0, adj@, i + 1),
            decreases node.accesses@.len() - k,
        {
            let access = node.accesses[k];
            let h = access.handle.0;
            let ghost g = adj@;
            let ghost lw = last_writer@;
            let ghost lr = last_readers@;
            let lw_node = match last_writer.get(&h) {
                Some(w) => Some(*w),
                None => None,
            };
            add_edge(adj, in_degree, lw_node, i);
            let ghost g1 = adj@;
            proof {
                lemma_appends_after_add(g, g1, lw_node, i);
                lemma_grows_step(g0, g, g1, i);
            }
            match access.access {
                AccessType::Read => {
                    let mut readers = match last_readers.get(&h) {
                        Some(r) => copy_list(r),
                        None => Vec::new(),
                    };
                    readers.push(i);
                    last_readers.insert(h, readers);
                    proof {
                        lemma_scan_read(ns, i as int, k as int, g0, g, g1, lw, lr, last_readers@);
                    }
                },
                _ => {
                    add_edges_from_readers(adj, in_degree, &last_readers, h, i);
                    proof {
                        assert(appends_target(g1, adj@, i));
                        lemma_grows_step(g0, g1, adj@, i);
                    }
                    last_writer.insert(h, i);
                    last_readers.remove(&h);
                    proof {
                        lemma_scan_write(ns, i as int, k as int, g0, g, adj@, lw, lr);
                    }
                },
            }
            k = k + 1;
        }
        proof {
            lemma_scan_next_node(ns, i as int, g0, adj@, last_writer@, last_readers@);
        }
        i = i + 1;
    }
}


/// Explicit dependency `d` of pass `v` lies before position `(i, e)`.
spec fn explicit_edge_before(nodes: Seq<PassNode>, u: int, v: int, i: int, e: int) -> bool {
    u != v && 0 <= v < nodes.len() && exists|d: int|
        0 <= d < nodes[v].depends_on@.len() && pos_lt(v, d, i, e) && #[trigger] nodes[v].depends_on@[d].0 as int
            == u
}

/// Add an edge from every explicitly named dependency to its pass.
fn build_explicit_edges(nodes: &Vec<PassNode>, adj: &mut Vec<Vec<usize>>, in_degree: &mut Vec<usize>)
    requires
        graph_wf(old(adj)@, old(in_degree)@, old(adj)@.len() as int),
        old(adj)@.len() == nodes@.len(),
        dependencies_in_range(nodes@),
    ensures
        final(adj)@.len() == old(adj)@.len(),
        graph_wf(final(adj)@, final(in_degree)@, final(adj)@.len() as int),
        forall|u: int, v: int|
            #![trigger has_edge(final(adj)@, u, v)]
            has_edge(final(adj)@, u, v) <==> (has_edge(old(adj)@, u, v) || explicit_edge(nodes@, u, v)),
        grows_ascending(old(adj)@, final(adj)@, nodes@.len() as int),
{
    let ghost g0 = adj@;
    let ghost ns = nodes@;
    let mut i: usize = 0;
    while i < nodes.len()
        invariant
            ns == nodes@,
            ns.len() == nodes.len(),
            dependencies_in_range(ns),
            i <= ns.len(),
            adj@.len() == ns.len(),
            graph_wf(adj@, in_degree@, adj@.len() as int),
            forall|u: int, v: int|
                #![trigger has_edge(adj@, u, v)]
                has_edge(adj@, u, v) <==> (has_edge(g0, u, v) || explicit_edge_before(ns, u, v, i as int, 0)),
            grows_ascending(g0, adj@, i as int),
        decreases ns.len() - i,
    {
        let deps = &nodes[i].depends_on;
        let mut d: usize = 0;
        while d < deps.len()
            invariant
                ns == nodes@,
                ns.len() == nodes.len(),
                dependencies_in_range(ns),
                i < ns.len(),
                deps@ == ns[i as int].depends_on@,
                d <= deps@.len(),
                adj@.len() == ns.len(),
                graph_wf(adj@, in_degree@, adj@.len() as int),
                forall|u: int, v: int|
                    #![trigger has_edge(adj@, u, v)]
                    has_edge(adj@, u, v) <==> (has_edge(g0, u, v) || explicit_edge_before(
                        ns,
                        u,
                        v,
                        i as int,
                        d as int,
                    )),
                grows_ascending(g0, adj@, i + 1),
            decreases deps@.len() - d,
        {
            let dep = deps[d].0 as usize;
            let ghost before = adj@;
            proof {
                assert(ns[i as int].depends_on@[d as int].0 < ns.len());
            }
            add_edge(adj, in_degree, Some(dep), i);
            proof {
                lemma_appends_after_add(before, adj@, Some(dep), i);
                lemma_grows_step(g0, before, adj@, i);
                let d1 = d + 1;
                assert forall|u: int, v: int|
                    #![trigger has_edge(adj@, u, v)]
                    has_edge(adj@, u, v) <==> (has_edge(g0, u, v) || explicit_edge_before(ns, u, v, i as int, d1)) by {
                    assert(has_edge(adj@, u, v) <==> (has_edge(before, u, v) || (u == dep as int && v == i as int
                        && u != v)));
                    if explicit_edge_before(ns, u, v, i as int, d1) && !explicit_edge_before(ns, u, v, i as int, d as int) {
                        let dd = choose|dd: int|
                            0 <= dd < ns[v].depends_on@.len() && pos_lt(v, dd, i as int, d1) && #[trigger] ns[v].depends_on@[dd].0 as int
                                == u;
                        assert(v == i && dd == d);
                    }
                    if u == dep as int && v == i as int && u != v {
                        assert(ns[v].depends_on@[d as int].0 as int == u);
                    }
                    if explicit_edge_before(ns, u, v, i as int, d as int) {
                        let dd = choose|dd: int|
                            0 <= dd < ns[v].depends_on@.len() && pos_lt(v, dd, i as int, d as int) && #[trigger] ns[v].depends_on@[dd].0 as int
                                == u;
                        assert(pos_lt(v, dd, i as int, d1));
                    }
                }
            }
            d = d + 1;
        }
        proof {
            let i1 = i + 1;
            assert forall|u: int, v: int| #![auto] explicit_edge_before(ns, u, v, i as int, deps@.len() as int)
                <==> explicit_edge_before(ns, u, v, i1, 0) by {
                if explicit_edge_before(ns, u, v, i as int, deps@.len() as int) {
                    let dd = choose|dd: int|
                        0 <= dd < ns[v].depends_on@.len() && pos_lt(v, dd, i as int, deps@.len() as int) && #[trigger] ns[v].depends_on@[dd].0 as int
                            == u;
                    assert(pos_lt(v, dd, i1, 0));
                }
                if explicit_edge_before(ns, u, v, i1, 0) {
                    let dd = choose|dd: int|
                        0 <= dd < ns[v].depends_on@.len() && pos_lt(v, dd, i1, 0) && #[trigger] ns[v].depends_on@[dd].0 as int
                            == u;
                    assert(pos_lt(v, dd, i as int, deps@.len() as int));
                }
            }
        }
        i = i + 1;
    }
    proof {
        assert forall|u: int, v: int| #![auto] explicit_edge_before(ns, u, v, ns.len() as int, 0) <==> explicit_edge(
            ns,
            u,
            v,
        ) by {
            if explicit_edge(ns, u, v) {
                let dd = choose|dd: int| 0 <= dd < ns[v].depends_on@.len() && #[trigger] ns[v].depends_on@[dd].0 as int == u;
                assert(pos_lt(v, dd, ns.len() as int, 0));
            }
        }
    }
}

/// Pass `u` must run before pass `v` through the first kind of edge a
/// schedule builds: resource hazards, or, when `writers_only`, reads after
/// the last write.
pub open spec fn first_edge(nodes: Seq<PassNode>, writers_only: bool, u: int, v: int) -> bool {
    if writers_only {
        read_edge(nodes, u, v)
    } else {
        hazard_edge(nodes, u, v)
    }
}

/// `v` is a target of `u` added in the given phase of a schedule: first the
/// edges of the first kind, then the explicit edges not already there.
pub open spec fn phase_target(nodes: Seq<PassNode>, writers_only: bool, explicit_phase: bool, u: int, v: int) -> bool {
    if explicit_phase {
        explicit_edge(nodes, u, v) && !first_edge(nodes, writers_only, u, v)
    } else {
        first_edge(nodes, writers_only, u, v)
    }
}

/// The targets `v < m` of `u` added in one phase, in ascending order.
pub open spec fn phase_targets(nodes: Seq<PassNode>, writers_only: bool, explicit_phase: bool, u: int, m: int) -> Seq<
    usize,
>
    decreases m,
{
    if m <= 0 {
        seq![]
    } else if phase_target(nodes, writers_only, explicit_phase, u, m - 1) {
        phase_targets(nodes, writers_only, explicit_phase, u, m - 1).push((m - 1) as usize)
    } else {
        phase_targets(nodes, writers_only, explicit_phase, u, m - 1)
    }
}

/// The target lists a schedule of `nodes` builds: for each pass, its targets
/// of the first kind in ascending order, then its other explicit targets in
/// ascending order.
pub open spec fn schedule_lists(nodes: Seq<PassNode>, writers_only: bool) -> Seq<Seq<usize>> {
    Seq::new(
        nodes.len(),
        |u: int|
            phase_targets(nodes, writers_only, false, u, nodes.len() as int) + phase_targets(
                nodes,
                writers_only,
                true,
                u,
                nodes.len() as int,
            ),
    )
}

/// The pass order that hazard and explicit dependencies give: Kahn's
/// algorithm on the target lists that [`schedule_passes`] builds.
pub open spec fn pass_schedule(nodes: Seq<PassNode>) -> Seq<usize> {
    kahn_order(schedule_lists(nodes, false), nodes.len() as int)
}

/// The pass order that read-after-write and explicit dependencies give:
/// Kahn's algorithm on the target lists that [`schedule_passes_after_writers`] builds.
pub open spec fn writer_schedule(nodes: Seq<PassNode>) -> Seq<usize> {
    kahn_order(schedule_lists(nodes, true), nodes.len() as int)
}

spec fn strictly_ascending(s: Seq<usize>) -> bool {
    forall|a: int, b: int| 0 <= a < b < s.len() ==> #[trigger] s[a] < #[trigger] s[b]
}

proof fn lemma_phase_targets(nodes: Seq<PassNode>, writers_only: bool, explicit_phase: bool, u: int, m: int)
    requires
        m <= usize::MAX + 1,
    ensures
        strictly_ascending(phase_targets(nodes, writers_only, explicit_phase, u, m)),
        forall|x: usize|
            #[trigger] phase_targets(nodes, writers_only, explicit_phase, u, m).contains(x) <==> (x < m
                && phase_target(nodes, writers_only, explicit_phase, u, x as int)),
    decreases m,
{
    if m > 0 {
        lemma_phase_targets(nodes, writers_only, explicit_phase, u, m - 1);
        let prev = phase_targets(nodes, writers_only, explicit_phase, u, m - 1);
        if phase_target(nodes, writers_only, explicit_phase, u, m - 1) {
            let cur = prev.push((m - 1) as usize);
            assert forall|a: int| 0 <= a < prev.len() implies #[trigger] prev[a] < m - 1 by {
                assert(prev.contains(prev[a]));
            }
            assert forall|a: int, b: int| 0 <= a < b < cur.len() implies #[trigger] cur[a] < #[trigger] cur[b] by {
                if b < prev.len() {
                    assert(cur[a] == prev[a] && cur[b] == prev[b]);
                } else {
                    assert(cur[a] == prev[a]);
                }
            }
            assert forall|x: usize| #[trigger] cur.contains(x) <==> (prev.contains(x) || x == (m - 1) as usize) by {
                if cur.contains(x) {
                    let a = choose|a: int| 0 <= a < cur.len() && cur[a] == x;
                    if a < prev.len() {
                        assert(prev[a] == x);
                    }
                }
                if prev.contains(x) {
                    let a = choose|a: int| 0 <= a < prev.len() && prev[a] == x;
                    assert(cur[a] == x);
                }
                if x == (m - 1) as usize {
                    assert(cur[prev.len() as int] == x);
                }
            }
        }
    }
}

proof fn lemma_ascending_unique(s1: Seq<usize>, s2: Seq<usize>)
    requires
        strictly_ascending(s1),
        strictly_ascending(s2),
        forall|x: usize| s1.contains(x) <==> s2.contains(x),
    ensures
        s1 == s2,
    decreases s1.len() + s2.len(),
{
    if s1.len() == 0 {
        if s2.len() > 0 {
            assert(s2.contains(s2[0]));
        }
        assert(s1 =~= s2);
    } else if s2.len() == 0 {
        assert(s1.contains(s1[0]));
    } else {
        let l1 = s1.last();
        let l2 = s2.last();
        assert(s1.contains(l1));
        assert(s2.contains(l2));
        let a2 = choose|a: int| 0 <= a < s2.len() && s2[a] == l1;
        let a1 = choose|a: int| 0 <= a < s1.len() && s1[a] == l2;
        if a2 < s2.len() - 1 {
            assert(s2[a2] < s2[s2.len() - 1]);
        }
        if a1 < s1.len() - 1 {
            assert(s1[a1] < s1[s1.len() - 1]);
        }
        assert(l1 == l2);
        let t1 = s1.drop_last();
        let t2 = s2.drop_last();
        assert forall|x: usize| #[trigger] t1.contains(x) <==> (s1.contains(x) && x != l1) by {
            if t1.contains(x) {
                let a = choose|a: int| 0 <= a < t1.len() && t1[a] == x;
                assert(s1[a] == x);
                assert(s1[a] < s1[s1.len() - 1]);
            }
            if s1.contains(x) && x != l1 {
                let a = choose|a: int| 0 <= a < s1.len() && s1[a] == x;
                assert(t1[a] == x);
            }
        }
        assert forall|x: usize| #[trigger] t2.contains(x) <==> (s2.contains(x) && x != l2) by {
            if t2.contains(x) {
                let a = choose|a: int| 0 <= a < t2.len() && t2[a] == x;
                assert(s2[a] == x);
                assert(s2[a] < s2[s2.len() - 1]);
            }
            if s2.contains(x) && x != l2 {
                let a = choose|a: int| 0 <= a < s2.len() && s2[a] == x;
                assert(t2[a] == x);
            }
        }
        assert forall|a: int, b: int| 0 <= a < b < t1.len() implies #[trigger] t1[a] < #[trigger] t1[b] by {
            assert(s1[a] < s1[b]);
        }
        assert forall|a: int, b: int| 0 <= a < b < t2.len() implies #[trigger] t2[a] < #[trigger] t2[b] by {
            assert(s2[a] < s2[b]);
        }
        lemma_ascending_unique(t1, t2);
        assert(s1 =~= t1.push(l1));
        assert(s2 =~= t2.push(l2));
    }
}

/// The lists built by a first scan and then the explicit edges, both
/// appending targets in ascending order, are the schedule lists.
proof fn lemma_schedule_lists(
    nodes: Seq<PassNode>,
    writers_only: bool,
    g_empty: Seq<Vec<usize>>,
    g1: Seq<Vec<usize>>,
    g2: Seq<Vec<usize>>,
)
    requires
        nodes.len() <= usize::MAX,
        g_empty.len() == nodes.len(),
        forall|u: int| 0 <= u < nodes.len() ==> (#[trigger] g_empty[u])@.len() == 0,
        grows_ascending(g_empty, g1, nodes.len() as int),
        grows_ascending(g1, g2, nodes.len() as int),
        adj_shape(g1, nodes.len() as int),
        adj_shape(g2, nodes.len() as int),
        forall|u: int, v: int| #[trigger] has_edge(g1, u, v) <==> first_edge(nodes, writers_only, u, v),
        forall|u: int, v: int|
            #[trigger] has_edge(g2, u, v) <==> (has_edge(g1, u, v) || explicit_edge(nodes, u, v)),
    ensures
        lists_view(g2) == schedule_lists(nodes, writers_only),
{
    let n = nodes.len() as int;
    assert forall|u: int| 0 <= u < n implies #[trigger] lists_view(g2)[u] == schedule_lists(nodes, writers_only)[u] by {
        let p = g1[u]@;
        let full = g2[u]@;
        let tail = full.subrange(p.len() as int, full.len() as int);
        let a1 = phase_targets(nodes, writers_only, false, u, n);
        let a2 = phase_targets(nodes, writers_only, true, u, n);
        lemma_phase_targets(nodes, writers_only, false, u, n);
        lemma_phase_targets(nodes, writers_only, true, u, n);
        assert(g_empty[u]@.len() == 0);
        assert forall|a: int, b: int| 0 <= a < b < p.len() implies #[trigger] p[a] < #[trigger] p[b] by {
            assert(g1[u]@[a] < g1[u]@[b]);
        }
        assert forall|x: usize| p.contains(x) <==> (x < n && first_edge(nodes, writers_only, u, x as int)) by {
            assert(has_edge(g1, u, x as int) <==> p.contains(x));
            if p.contains(x) {
                let a = choose|a: int| 0 <= a < p.len() && p[a] == x;
                assert(g1[u]@[a] < n);
            }
        }
        lemma_ascending_unique(p, a1);
        assert forall|a: int| 0 <= a < p.len() implies full[a] == p[a] by {
            assert(g2[u]@[a] == g1[u]@[a]);
        }
        assert(full =~= p + tail);
        assert forall|a: int, b: int| 0 <= a < b < tail.len() implies #[trigger] tail[a] < #[trigger] tail[b] by {
            assert(g2[u]@[a + p.len()] < g2[u]@[b + p.len()]);
        }
        assert forall|x: usize| tail.contains(x) <==> (x < n && explicit_edge(nodes, u, x as int) && !first_edge(
            nodes,
            writers_only,
            u,
            x as int,
        )) by {
            assert(has_edge(g2, u, x as int) <==> full.contains(x));
            assert(has_edge(g1, u, x as int) <==> p.contains(x));
            if tail.contains(x) {
                let a = choose|a: int| 0 <= a < tail.len() && tail[a] == x;
                assert(full[a + p.len()] == x);
                assert(full.contains(x));
                assert(g2[u]@[a + p.len()] < n);
                if p.contains(x) {
                    let b = choose|b: int| 0 <= b < p.len() && p[b] == x;
                    assert(full[b] == x);
                }
            }
            if x < n && explicit_edge(nodes, u, x as int) && !first_edge(nodes, writers_only, u, x as int) {
                assert(full.contains(x));
                let a = choose|a: int| 0 <= a < full.len() && full[a] == x;
                if a < p.len() {
                    assert(p[a] == x);
                } else {
                    assert(tail[a - p.len()] == x);
                }
            }
        }
        lemma_ascending_unique(tail, a2);
    }
    assert(lists_view(g2) =~= schedule_lists(nodes, writers_only));
}

proof fn lemma_pending_no_edges(adj: Seq<Vec<usize>>, m: int, v: int, done: Seq<usize>)
    requires
        forall|u: int| 0 <= u < adj.len() ==> (#[trigger] adj[u])@.len() == 0,
    ensures
        pending_preds(adj, m, v, done) == 0,
    decreases m,
{
    if m > 0 {
        lemma_pending_no_edges(adj, m - 1, v, done);
        if has_edge(adj, m - 1, v) {
            assert(adj[m - 1]@.len() == 0);
        }
    }
}

/// Order the passes so that each runs after every pass it depends on: hazard
/// dependencies through shared resources and explicit dependencies. Fails
/// exactly when the dependencies form a cycle; otherwise the order is
/// [`pass_schedule`], the same on every call.
pub fn schedule_passes(nodes: &Vec<PassNode>) -> (r: Result<Vec<usize>, GraphError>)
    requires
        dependencies_in_range(nodes@),
    ensures
        r is Ok <==> has_pass_order(nodes@),
        r is Ok <==> pass_schedule(nodes@).len() == nodes@.len(),
        r matches Ok(order) ==> is_pass_order(nodes@, order@),
        r matches Ok(order) ==> order@ == pass_schedule(nodes@),
        r matches Err(e) ==> e == GraphError::CycleDetected,
{
    let n = nodes.len();
    let mut adj: Vec<Vec<usize>> = Vec::new();
    let mut in_degree: Vec<usize> = Vec::new();
    let mut i: usize = 0;
    while i < n
        invariant
            n == nodes@.len(),
            i <= n,
            adj@.len() == i,
            in_degree@.len() == i,
            forall|u: int| 0 <= u < i ==> (#[trigger] adj@[u])@.len() == 0,
            forall|u: int| 0 <= u < i ==> #[trigger] in_degree@[u] == 0,
        decreases n - i,
    {
        adj.push(Vec::new());
        in_degree.push(0);
        i = i + 1;
    }
    proof {
        assert forall|v: int| 0 <= v < n implies #[trigger] in_degree@[v] == pending_preds(adj@, n as int, v, seq![]) by {
            lemma_pending_no_edges(adj@, n as int, v, seq![]);
        }
        assert forall|u: int| 0 <= u < n implies !has_edge(adj@, u, u) by {
            assert(adj@[u]@.len() == 0);
        }
    }
    let ghost g_empty = adj@;
    build_resource_edges(nodes, &mut adj, &mut in_degree);
    let ghost g1 = adj@;
    build_explicit_edges(nodes, &mut adj, &mut in_degree);
    let ghost g = adj@;
    proof {
        assert forall|u: int, v: int| #[trigger] has_edge(g1, u, v) <==> first_edge(nodes@, false, u, v) by {
            if has_edge(g_empty, u, v) {
                assert(g_empty[u]@.len() == 0);
            }
        }
        lemma_schedule_lists(nodes@, false, g_empty, g1, g);
    }
    proof {
        assert forall|u: int, v: int| #![auto] has_edge(g, u, v) <==> (0 <= v <= usize::MAX && dependency_edge(nodes@, u, v)) by {
            if has_edge(g_empty, u, v) {
                assert(g_empty[u]@.len() == 0);
            }
            if hazard_edge(nodes@, u, v) {
                let (ku, kv) = choose|ku: int, kv: int| pos_lt(v, kv, nodes@.len() as int, 0) && #[trigger] hazard_pair(nodes@, u, ku, v, kv);
            }
        }
    }
    let r = topological_sort(n, adj, in_degree);
    proof {
        assert forall|o: Seq<usize>| is_topological_order(g, n as int, o) <==> #[trigger] is_pass_order(nodes@, o) by {
            if is_topological_order(g, n as int, o) {
                assert forall|a: int, b: int| 0 <= a < b < o.len() implies !dependency_edge(
                    nodes@,
                    #[trigger] o[b] as int,
                    #[trigger] o[a] as int,
                ) by {
                    assert(!has_edge(g, o[b] as int, o[a] as int));
                }
            }
            if is_pass_order(nodes@, o) {
                assert forall|a: int, b: int| 0 <= a < b < o.len() implies !has_edge(
                    g,
                    #[trigger] o[b] as int,
                    #[trigger] o[a] as int,
                ) by {
                    assert(!dependency_edge(nodes@, o[b] as int, o[a] as int));
                }
            }
        }
        if has_pass_order(nodes@) {
            let o = choose|o: Seq<usize>| is_pass_order(nodes@, o);
            assert(is_topological_order(g, n as int, o));
        }
        if has_topological_order(g, n as int) {
            let o = choose|o: Seq<usize>| is_topological_order(g, n as int, o);
            assert(is_pass_order(nodes@, o));
        }
    }
    r
}

// ───────────────────────── read-after-write scheduling ─────────────────────────

/// Access `(v, kv)` reads, and only reads, the resource that pass `u` wrote
/// last before it, at access `ku`.
pub open spec fn read_after_write(nodes: Seq<PassNode>, u: int, ku: int, v: int, kv: int) -> bool {
    valid_pos(nodes, v, kv) && access_at(nodes, v, kv).access == AccessType::Read && last_write_at(
        nodes,
        access_at(nodes, v, kv).handle.0,
        u,
        ku,
        v,
        kv,
    )
}

/// Pass `u` must run before pass `v` because of a read of `v` before
/// position `(i, l)` of data `u` wrote.
pub open spec fn read_edge_before(nodes: Seq<PassNode>, u: int, v: int, i: int, l: int) -> bool {
    u != v && exists|ku: int, kv: int| pos_lt(v, kv, i, l) && #[trigger] read_after_write(nodes, u, ku, v, kv)
}

/// Pass `v` reads a resource whose last writer before that read is pass `u`.
pub open spec fn read_edge(nodes: Seq<PassNode>, u: int, v: int) -> bool {
    read_edge_before(nodes, u, v, nodes.len() as int, 0)
}

/// Pass `u` must run before pass `v` when only reads wait for writes.
pub open spec fn writer_dependency_edge(nodes: Seq<PassNode>, u: int, v: int) -> bool {
    read_edge(nodes, u, v) || explicit_edge(nodes, u, v)
}

/// `order` runs every pass once and each pass after the writers of what it
/// reads and after the passes it names.
pub open spec fn is_writer_order(nodes: Seq<PassNode>, order: Seq<usize>) -> bool {
    &&& order.len() == nodes.len()
    &&& order.no_duplicates()
    &&& forall|i: int| 0 <= i < order.len() ==> #[trigger] order[i] < nodes.len()
    &&& forall|i: int, j: int|
        0 <= i < j < order.len() ==> !writer_dependency_edge(
            nodes,
            #[trigger] order[j] as int,
            #[trigger] order[i] as int,
        )
}

/// Some order satisfies every read-after-write and explicit dependency.
pub open spec fn has_writer_order(nodes: Seq<PassNode>) -> bool {
    exists|order: Seq<usize>| is_writer_order(nodes, order)
}

/// State of the read-after-write scan before position `(i, l)`.
spec fn writer_scan_state(
    nodes: Seq<PassNode>,
    i: int,
    l: int,
    g0: Seq<Vec<usize>>,
    g: Seq<Vec<usize>>,
    lw: Map<u32, usize>,
) -> bool {
    &&& forall|h: u32|
        #[trigger] lw.dom().contains(h) ==> lw[h] < nodes.len() && exists|kj: int|
            last_write_at(nodes, h, lw[h] as int, kj, i, l)
    &&& forall|h: u32, j: int, kj: int| #[trigger] last_write_at(nodes, h, j, kj, i, l) ==> lw.dom().contains(h)
    &&& forall|u: int, v: int|
        #[trigger] has_edge(g, u, v) <==> (has_edge(g0, u, v) || read_edge_before(nodes, u, v, i, l))
}

proof fn lemma_read_edge_extend(nodes: Seq<PassNode>, u: int, v: int, i: int, l: int)
    ensures
        read_edge_before(nodes, u, v, i, l + 1) <==> (read_edge_before(nodes, u, v, i, l) || (v == i && u
            != i && exists|ku: int| #[trigger] read_after_write(nodes, u, ku, i, l))),
{
    if read_edge_before(nodes, u, v, i, l + 1) {
        let (ku, kv) = choose|ku: int, kv: int|
            pos_lt(v, kv, i, l + 1) && #[trigger] read_after_write(nodes, u, ku, v, kv);
        if !pos_lt(v, kv, i, l) {
            assert(v == i && kv == l);
            assert(read_after_write(nodes, u, ku, i, l));
        }
    }
    if read_edge_before(nodes, u, v, i, l) {
        let (ku, kv) = choose|ku: int, kv: int| pos_lt(v, kv, i, l) && #[trigger] read_after_write(nodes, u, ku, v, kv);
        assert(pos_lt(v, kv, i, l + 1));
    }
    if v == i && u != i && exists|ku: int| #[trigger] read_after_write(nodes, u, ku, i, l) {
        let ku = choose|ku: int| #[trigger] read_after_write(nodes, u, ku, i, l);
        assert(pos_lt(v, l, i, l + 1));
    }
}

proof fn lemma_writer_scan_step(
    nodes: Seq<PassNode>,
    i: int,
    l: int,
    g0: Seq<Vec<usize>>,
    g: Seq<Vec<usize>>,
    g1: Seq<Vec<usize>>,
    lw: Map<u32, usize>,
    lw2: Map<u32, usize>,
)
    requires
        writer_scan_state(nodes, i, l, g0, g, lw),
        valid_pos(nodes, i, l),
        0 <= i < nodes.len() <= usize::MAX,
        forall|u: int, v: int|
            #![trigger has_edge(g1, u, v)]
            has_edge(g1, u, v) <==> (has_edge(g, u, v) || (access_at(nodes, i, l).access == AccessType::Read
                && lw.dom().contains(access_at(nodes, i, l).handle.0) && u == lw[access_at(
                nodes,
                i,
                l,
            ).handle.0] as int && v == i && u != v)),
        lw2 == if is_writing(access_at(nodes, i, l).access) {
            lw.insert(access_at(nodes, i, l).handle.0, i as usize)
        } else {
            lw
        },
    ensures
        writer_scan_state(nodes, i, l + 1, g0, g1, lw2),
{
    let l1 = l + 1;
    let a = access_at(nodes, i, l);
    let h = a.handle.0;
    assert forall|h1: u32| #[trigger] lw2.dom().contains(h1) implies lw2[h1] < nodes.len() && exists|kj: int|
        last_write_at(nodes, h1, lw2[h1] as int, kj, i, l1) by {
        if is_writing(a.access) && h1 == h {
            lemma_last_write_step(nodes, h1, i, l, i, l);
            assert(writes_at(nodes, i, l, h1));
            assert(lw2[h1] == i as usize);
            assert(last_write_at(nodes, h1, lw2[h1] as int, l, i, l1));
        } else {
            assert(lw.dom().contains(h1));
            assert(lw2[h1] == lw[h1]);
            let kj = choose|kj: int| last_write_at(nodes, h1, lw[h1] as int, kj, i, l);
            lemma_last_write_step(nodes, h1, lw[h1] as int, kj, i, l);
            assert(!writes_at(nodes, i, l, h1));
            assert(last_write_at(nodes, h1, lw2[h1] as int, kj, i, l1));
        }
    }
    assert forall|h1: u32, j: int, kj: int| #[trigger] last_write_at(nodes, h1, j, kj, i, l1) implies lw2.dom().contains(
        h1) by {
        lemma_last_write_step(nodes, h1, j, kj, i, l);
    }
    assert forall|u: int, v: int| #[trigger] has_edge(g1, u, v) <==> (has_edge(g0, u, v) || read_edge_before(
        nodes,
        u,
        v,
        i,
        l1,
    )) by {
        lemma_read_edge_extend(nodes, u, v, i, l);
        assert(has_edge(g, u, v) <==> (has_edge(g0, u, v) || read_edge_before(nodes, u, v, i, l)));
        if exists|ku: int| #[trigger] read_after_write(nodes, u, ku, i, l) {
            let ku = choose|ku: int| #[trigger] read_after_write(nodes, u, ku, i, l);
            assert(lw.dom().contains(h));
            let kj = choose|kj: int| last_write_at(nodes, h, lw[h] as int, kj, i, l);
            lemma_last_write_unique(nodes, h, u, ku, lw[h] as int, kj, i, l);
        }
        if a.access == AccessType::Read && lw.dom().contains(h) {
            let kj = choose|kj: int| last_write_at(nodes, h, lw[h] as int, kj, i, l);
            assert(read_after_write(nodes, lw[h] as int, kj, i, l));
        }
    }
}

proof fn lemma_writer_scan_next_node(
    nodes: Seq<PassNode>,
    i: int,
    g0: Seq<Vec<usize>>,
    g: Seq<Vec<usize>>,
    lw: Map<u32, usize>,
)
    requires
        0 <= i < nodes.len(),
        writer_scan_state(nodes, i, nodes[i].accesses@.len() as int, g0, g, lw),
    ensures
        writer_scan_state(nodes, i + 1, 0, g0, g, lw),
{
    let len = nodes[i].accesses@.len() as int;
    let i1 = i + 1;
    assert forall|h: u32, j: int, kj: int| #![trigger last_write_at(nodes, h, j, kj, i1, 0)] #![trigger last_write_at(nodes, h, j, kj, i, len)]
        last_write_at(nodes, h, j, kj, i, len) <==> last_write_at(nodes, h, j, kj, i1, 0) by {
        lemma_quiet_next_node(nodes, h, j, kj, i);
    }
    assert forall|h: u32| #[trigger] lw.dom().contains(h) implies lw[h] < nodes.len() && exists|kj: int|
        last_write_at(nodes, h, lw[h] as int, kj, i1, 0) by {
        let kj = choose|kj: int| last_write_at(nodes, h, lw[h] as int, kj, i, len);
        assert(last_write_at(nodes, h, lw[h] as int, kj, i1, 0));
    }
    assert forall|u: int, v: int| #![auto] read_edge_before(nodes, u, v, i, len) <==> read_edge_before(
        nodes,
        u,
        v,
        i1,
        0,
    ) by {
        if read_edge_before(nodes, u, v, i, len) {
            let (ku, kv) = choose|ku: int, kv: int| pos_lt(v, kv, i, len) && #[trigger] read_after_write(nodes, u, ku, v, kv);
            assert(pos_lt(v, kv, i1, 0));
        }
        if read_edge_before(nodes, u, v, i1, 0) {
            let (ku, kv) = choose|ku: int, kv: int| pos_lt(v, kv, i1, 0) && #[trigger] read_after_write(nodes, u, ku, v, kv);
            assert(pos_lt(v, kv, i, len));
        }
    }
}

/// Add an edge from the last writer of a resource to every later pass that
/// reads it (a read-write access only records its pass as the new writer).
fn build_read_edges(nodes: &Vec<PassNode>, adj: &mut Vec<Vec<usize>>, in_degree: &mut Vec<usize>)
    requires
        graph_wf(old(adj)@, old(in_degree)@, old(adj)@.len() as int),
        old(adj)@.len() == nodes@.len(),
    ensures
        final(adj)@.len() == old(adj)@.len(),
        graph_wf(final(adj)@, final(in_degree)@, final(adj)@.len() as int),
        forall|u: int, v: int|
            #![trigger has_edge(final(adj)@, u, v)]
            has_edge(final(adj)@, u, v) <==> (has_edge(old(adj)@, u, v) || read_edge(nodes@, u, v)),
        grows_ascending(old(adj)@, final(adj)@, nodes@.len() as int),
{
    broadcast use vstd::std_specs::hash::group_hash_axioms;

    let ghost g0 = adj@;
    let ghost ns = nodes@;
    let mut last_writer: HashMap<u32, usize> = HashMap::new();
    let mut i: usize = 0;
    while i < nodes.len()
        invariant
            ns == nodes@,
            ns.len() == nodes.len(),
            i <= ns.len(),
            adj@.len() == ns.len(),
            graph_wf(adj@, in_degree@, adj@.len() as int),
            writer_scan_state(ns, i as int, 0, g0, adj@, last_writer@),
            grows_ascending(g0, adj@, i as int),
        decreases ns.len() - i,
    {
        let node = &nodes[i];
        let mut k: usize = 0;
        while k < node.accesses.len()
            invariant
                ns == nodes@,
                ns.len() == nodes.len(),
                i < ns.len(),
                *node == ns[i as int],
                k <= node.accesses@.len(),
                adj@.len() == ns.len(),
                graph_wf(adj@, in_degree@, adj@.len() as int),
                writer_scan_state(ns, i as int, k as int, g0, adj@, last_writer@),
                grows_ascending(g0, adj@, i + 1),
            decreases node.accesses@.len() - k,
        {
            let access = node.accesses[k];
            let h = access.handle.0;
            let ghost g = adj@;
            let ghost lw = last_writer@;
            match access.access {
                AccessType::Read => {
                    let lw_node = match last_writer.get(&h) {
                        Some(w) => Some(*w),
                        None => None,
                    };
                    add_edge(adj, in_degree, lw_node, i);
                    proof {
                        lemma_appends_after_add(g, adj@, lw_node, i);
                        lemma_grows_step(g0, g, adj@, i);
                    }
                },
                _ => {
                    last_writer.insert(h, i);
                },
            }
            proof {
                lemma_writer_scan_step(ns, i as int, k as int, g0, g, adj@, lw, last_writer@);
            }
            k = k + 1;
        }
        proof {
            lemma_writer_scan_next_node(ns, i as int, g0, adj@, last_writer@);
        }
        i = i + 1;
    }
}

/// Order the passes so that each runs after the last writer of every
/// resource it reads and after the passes it names explicitly. Fails exactly
/// when those dependencies form a cycle; otherwise the order is
/// [`writer_schedule`], the same on every call.
pub fn schedule_passes_after_writers(nodes: &Vec<PassNode>) -> (r: Result<Vec<usize>, GraphError>)
    requires
        dependencies_in_range(nodes@),
    ensures
        r is Ok <==> has_writer_order(nodes@),
        r is Ok <==> writer_schedule(nodes@).len() == nodes@.len(),
        r matches Ok(order) ==> is_writer_order(nodes@, order@),
        r matches Ok(order) ==> order@ == writer_schedule(nodes@),
        r matches Err(e) ==> e == GraphError::CycleDetected,
{
    let n = nodes.len();
    let mut adj: Vec<Vec<usize>> = Vec::new();
    let mut in_degree: Vec<usize> = Vec::new();
    let mut i: usize = 0;
    while i < n
        invariant
            n == nodes@.len(),
            i <= n,
            adj@.len() == i,
            in_degree@.len() == i,
            forall|u: int| 0 <= u < i ==> (#[trigger] adj@[u])@.len() == 0,
            forall|u: int| 0 <= u < i ==> #[trigger] in_degree@[u] == 0,
        decreases n - i,
    {
        adj.push(Vec::new());
        in_degree.push(0);
        i = i + 1;
    }
    proof {
        assert forall|v: int| 0 <= v < n implies #[trigger] in_degree@[v] == pending_preds(adj@, n as int, v, seq![]) by {
            lemma_pending_no_edges(adj@, n as int, v, seq![]);
        }
        assert forall|u: int| 0 <= u < n implies !has_edge(adj@, u, u) by {
            assert(adj@[u]@.len() == 0);
        }
    }
    let ghost g_empty = adj@;
    build_read_edges(nodes, &mut adj, &mut in_degree);
    let ghost g1 = adj@;
    build_explicit_edges(nodes, &mut adj, &mut in_degree);
    let ghost g = adj@;
    proof {
        assert forall|u: int, v: int| #[trigger] has_edge(g1, u, v) <==> first_edge(nodes@, true, u, v) by {
            if has_edge(g_empty, u, v) {
                assert(g_empty[u]@.len() == 0);
            }
        }
        lemma_schedule_lists(nodes@, true, g_empty, g1, g);
    }
    proof {
        assert forall|u: int, v: int| #![auto] has_edge(g, u, v) <==> (0 <= v <= usize::MAX && writer_dependency_edge(nodes@, u, v)) by {
            if has_edge(g_empty, u, v) {
                assert(g_empty[u]@.len() == 0);
            }
            if read_edge(nodes@, u, v) {
                let (ku, kv) = choose|ku: int, kv: int| pos_lt(v, kv, nodes@.len() as int, 0) && #[trigger] read_after_write(nodes@, u, ku, v, kv);
            }
        }
    }
    let r = topological_sort(n, adj, in_degree);
    proof {
        assert forall|o: Seq<usize>| is_topological_order(g, n as int, o) <==> #[trigger] is_writer_order(nodes@, o) by {
            if is_topological_order(g, n as int, o) {
                assert forall|a: int, b: int| 0 <= a < b < o.len() implies !writer_dependency_edge(
                    nodes@,
                    #[trigger] o[b] as int,
                    #[trigger] o[a] as int,
                ) by {
                    assert(!has_edge(g, o[b] as int, o[a] as int));
                }
            }
            if is_writer_order(nodes@, o) {
                assert forall|a: int, b: int| 0 <= a < b < o.len() implies !has_edge(
                    g,
                    #[trigger] o[b] as int,
                    #[trigger] o[a] as int,
                ) by {
                    assert(!writer_dependency_edge(nodes@, o[b] as int, o[a] as int));
                }
            }
        }
        if has_writer_order(nodes@) {
            let o = choose|o: Seq<usize>| is_writer_order(nodes@, o);
            assert(is_topological_order(g, n as int, o));
        }
        if has_topological_order(g, n as int) {
            let o = choose|o: Seq<usize>| is_topological_order(g, n as int, o);
            assert(is_writer_order(nodes@, o));
        }
    }
    r
}

} // verus!
