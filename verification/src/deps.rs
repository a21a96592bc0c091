//! Walks and cycles in a dependency graph whose nodes are numbered
//! `0..n` and whose edges lead from a node to the nodes it depends on.
use vstd::prelude::*;

verus! {

/// `adj[i]` lists the nodes that node `i` depends on; an edge `i -> j`
/// means that `i` depends on `j`.
pub open spec fn edge(adj: Seq<Seq<usize>>, i: int, j: int) -> bool {
    0 <= i < adj.len() && 0 <= j < adj.len() && adj[i].contains(j as usize)
}

/// Every listed dependency is a node of the graph.
pub open spec fn adj_in_range(adj: Seq<Seq<usize>>) -> bool {
    forall|i: int, t: int| 0 <= i < adj.len() && 0 <= t < adj[i].len() ==> #[trigger] adj[i][t] < adj.len()
}

/// A walk along dependency edges.
pub open spec fn is_walk(adj: Seq<Seq<usize>>, p: Seq<int>) -> bool {
    &&& p.len() >= 1
    &&& forall|t: int| 0 <= t < p.len() ==> 0 <= #[trigger] p[t] < adj.len()
    &&& forall|t: int| #![trigger p[t]] 0 <= t < p.len() - 1 ==> edge(adj, p[t], p[t + 1])
}

/// A walk of at least one edge that ends where it starts.
pub open spec fn is_cycle(adj: Seq<Seq<usize>>, p: Seq<int>) -> bool {
    is_walk(adj, p) && p.len() >= 2 && p[0] == p.last()
}

/// The graph has no cycle.
pub open spec fn acyclic(adj: Seq<Seq<usize>>) -> bool {
    forall|p: Seq<int>| !is_cycle(adj, p)
}

/// `i` reaches `j` by following dependency edges (zero or more).
pub open spec fn reaches(adj: Seq<Seq<usize>>, i: int, j: int) -> bool {
    exists|p: Seq<int>| is_walk(adj, p) && p[0] == i && p.last() == j
}

/// `finish` lists nodes so that whatever a listed node depends on is listed
/// before it.
pub open spec fn finished_before(adj: Seq<Seq<usize>>, finish: Seq<int>) -> bool {
    forall|a: int, j: int|
        0 <= a < finish.len() && #[trigger] edge(adj, finish[a], j) ==> exists|b: int|
            0 <= b < a && finish[b] == j
}

proof fn lemma_walk_descends(adj: Seq<Seq<usize>>, finish: Seq<int>, p: Seq<int>, a0: int)
    requires
        finished_before(adj, finish),
        is_walk(adj, p),
        p.len() >= 2,
        0 <= a0 < finish.len(),
        finish[a0] == p[0],
    ensures
        exists|b: int| 0 <= b < a0 && finish[b] == p.last(),
    decreases p.len(),
{
    assert(edge(adj, p[0], p[1]));
    assert(edge(adj, finish[a0], p[1]));
    let a1 = choose|b: int| 0 <= b < a0 && finish[b] == p[1];
    if p.len() > 2 {
        let q = p.drop_first();
        assert forall|t: int| #![trigger q[t]] 0 <= t < q.len() - 1 implies edge(
            adj,
            q[t],
            q[t + 1],
        ) by {
            assert(q[t] == p[t + 1]);
            assert(q[t + 1] == p[t + 2]);
        }
        lemma_walk_descends(adj, finish, q, a1);
    }
}

/// A graph whose nodes are all listed so that dependencies come first
/// has no cycle.
pub proof fn lemma_finished_acyclic(adj: Seq<Seq<usize>>, finish: Seq<int>)
    requires
        finished_before(adj, finish),
        finish.no_duplicates(),
        forall|i: int| 0 <= i < adj.len() ==> finish.contains(i),
    ensures
        acyclic(adj),
{
    assert forall|p: Seq<int>| !is_cycle(adj, p) by {
        if is_cycle(adj, p) {
            assert(0 <= p[0] < adj.len());
            assert(finish.contains(p[0]));
            let a0 = choose|a: int| 0 <= a < finish.len() && finish[a] == p[0];
            lemma_walk_descends(adj, finish, p, a0);
            let b = choose|b: int| 0 <= b < a0 && finish[b] == p.last();
            assert(finish[b] == finish[a0]);
            assert(false);
        }
    }
}

/// A walk `p` with an edge from its end back to `p[k]` closes a cycle: the
/// walk from `p[k]` on, then `p[k]` again.
pub proof fn lemma_back_edge_cycle(adj: Seq<Seq<usize>>, p: Seq<int>, k: int)
    requires
        is_walk(adj, p),
        0 <= k < p.len(),
        edge(adj, p.last(), p[k]),
    ensures
        is_cycle(adj, p.subrange(k, p.len() as int).push(p[k])),
{
    let c = p.subrange(k, p.len() as int).push(p[k]);
    assert forall|t: int| #![trigger c[t]] 0 <= t < c.len() - 1 implies edge(
        adj,
        c[t],
        c[t + 1],
    ) by {
        if t < c.len() - 2 {
            assert(c[t] == p[k + t]);
            assert(c[t + 1] == p[k + t + 1]);
        } else {
            assert(c[t] == p.last());
        }
    }
    assert forall|t: int| 0 <= t < c.len() implies 0 <= #[trigger] c[t] < adj.len() by {
        if t < c.len() - 1 {
            assert(c[t] == p[k + t]);
        }
    }
}

/// Appending an edge to a walk gives a walk.
pub proof fn lemma_walk_push(adj: Seq<Seq<usize>>, p: Seq<int>, j: int)
    requires
        is_walk(adj, p),
        edge(adj, p.last(), j),
    ensures
        is_walk(adj, p.push(j)),
{
    let q = p.push(j);
    assert forall|t: int| #![trigger q[t]] 0 <= t < q.len() - 1 implies edge(adj, q[t], q[t + 1]) by {
        if t < p.len() - 1 {
            assert(q[t] == p[t] && q[t + 1] == p[t + 1]);
        }
    }
}

/// Positions as integers.
pub open spec fn ints(s: Seq<usize>) -> Seq<int> {
    s.map_values(|x: usize| x as int)
}

/// A sequence of distinct positions below `n` has at most `n` items.
pub proof fn lemma_distinct_bounded_ints(t: Seq<int>, n: int)
    requires
        0 <= n,
        t.no_duplicates(),
        forall|k: int| 0 <= k < t.len() ==> 0 <= #[trigger] t[k] < n,
    ensures
        t.len() <= n,
{
    t.unique_seq_to_set();
    vstd::set_lib::lemma_int_range(0, n);
    assert(t.to_set().subset_of(vstd::set_lib::set_int_range(0, n))) by {
        assert forall|x: int| t.to_set().contains(x) implies vstd::set_lib::set_int_range(0, n).contains(x) by {
            let k = choose|k: int| 0 <= k < t.len() && t[k] == x;
        }
    }
    vstd::set_lib::lemma_len_subset(t.to_set(), vstd::set_lib::set_int_range(0, n));
}

/// A sequence of distinct positions below `n` has at most `n` items.
pub proof fn lemma_distinct_bounded(s: Seq<usize>, n: int)
    requires
        0 <= n,
        s.no_duplicates(),
        forall|t: int| 0 <= t < s.len() ==> #[trigger] s[t] < n,
    ensures
        s.len() <= n,
{
    let t = ints(s);
    assert(t.no_duplicates()) by {
        assert forall|a: int, b: int| 0 <= a < t.len() && 0 <= b < t.len() && a != b implies t[a] != t[b] by {
            assert(s[a] != s[b]);
        }
    }
    assert forall|k: int| 0 <= k < t.len() implies 0 <= #[trigger] t[k] < n by {
        assert(s[k] < n);
    }
    lemma_distinct_bounded_ints(t, n);
}

/// Every node reaches itself.
pub proof fn lemma_reaches_self(adj: Seq<Seq<usize>>, i: int)
    requires
        0 <= i < adj.len(),
    ensures
        reaches(adj, i, i),
{
    let p = seq![i];
    assert(is_walk(adj, p));
    assert(p[0] == i && p.last() == i);
}

/// A node that depends on `c` reaches whatever `c` reaches.
pub proof fn lemma_reaches_prepend(adj: Seq<Seq<usize>>, d: int, c: int, j: int)
    requires
        edge(adj, d, c),
        reaches(adj, c, j),
    ensures
        reaches(adj, d, j),
{
    let p = choose|p: Seq<int>| is_walk(adj, p) && p[0] == c && p.last() == j;
    let q = seq![d] + p;
    assert forall|t: int| #![trigger q[t]] 0 <= t < q.len() - 1 implies edge(adj, q[t], q[t + 1]) by {
        if t > 0 {
            assert(q[t] == p[t - 1]);
            assert(q[t + 1] == p[t]);
        }
    }
    assert forall|t: int| 0 <= t < q.len() implies 0 <= #[trigger] q[t] < adj.len() by {
        if t > 0 {
            assert(q[t] == p[t - 1]);
        }
    }
    assert(q.last() == p.last());
    assert(is_walk(adj, q));
}

/// A set of nodes that holds `j` and every node depending on one of its
/// members holds every node that reaches `j`.
pub proof fn lemma_closed_holds_reach(adj: Seq<Seq<usize>>, holds: spec_fn(int) -> bool, i: int, j: int)
    requires
        holds(j),
        forall|d: int, c: int| holds(c) && #[trigger] edge(adj, d, c) ==> holds(d),
        reaches(adj, i, j),
    ensures
        holds(i),
{
    let p = choose|p: Seq<int>| is_walk(adj, p) && p[0] == i && p.last() == j;
    lemma_closed_walk_from(adj, holds, p, 0);
}

proof fn lemma_closed_walk_from(adj: Seq<Seq<usize>>, holds: spec_fn(int) -> bool, p: Seq<int>, u: int)
    requires
        is_walk(adj, p),
        0 <= u < p.len(),
        holds(p.last()),
        forall|d: int, c: int| holds(c) && #[trigger] edge(adj, d, c) ==> holds(d),
    ensures
        holds(p[u]),
    decreases p.len() - u,
{
    if u < p.len() - 1 {
        lemma_closed_walk_from(adj, holds, p, u + 1);
        assert(edge(adj, p[u], p[u + 1]));
    }
}

} // verus!
