//! Walks and cycles in a finite directed graph on the nodes `0..n`, with the
//! edge relation given as a predicate; the ranking argument that rules out
//! cycles.

use vstd::prelude::*;

verus! {

/// The edge from the `k`-th node of `p` to the next one exists.
pub open spec fn walk_step(edge: spec_fn(int, int) -> bool, p: Seq<usize>, k: int) -> bool {
    edge(p[k] as int, p[k + 1] as int)
}

/// `p` is a non-empty sequence of nodes below `n`, each joined to the next
/// by an edge.
pub open spec fn is_walk(edge: spec_fn(int, int) -> bool, n: int, p: Seq<usize>) -> bool {
    &&& p.len() >= 1
    &&& forall|k: int| 0 <= k < p.len() ==> #[trigger] p[k] < n
    &&& forall|k: int| 0 <= k < p.len() - 1 ==> #[trigger] walk_step(edge, p, k)
}

/// `p` is a walk of at least one edge that ends where it starts.
pub open spec fn is_cycle(edge: spec_fn(int, int) -> bool, n: int, p: Seq<usize>) -> bool {
    &&& is_walk(edge, n, p)
    &&& p.len() >= 2
    &&& p[0] == p.last()
}

/// A cycle that passes no node twice, but for its end, which is its start.
pub open spec fn is_simple_cycle(edge: spec_fn(int, int) -> bool, n: int, p: Seq<usize>) -> bool {
    &&& is_cycle(edge, n, p)
    &&& forall|i: int, j: int| 0 <= i < j < p.len() - 1 ==> #[trigger] p[i] != #[trigger] p[j]
}

/// Some walk of the graph is a cycle.
pub open spec fn has_cycle(edge: spec_fn(int, int) -> bool, n: int) -> bool {
    exists|p: Seq<usize>| is_cycle(edge, n, p)
}

/// Every edge goes from a higher rank to a strictly lower one.
pub open spec fn rank_decreases(edge: spec_fn(int, int) -> bool, n: int, rank: Seq<int>) -> bool {
    &&& rank.len() == n
    &&& forall|i: int, j: int|
        0 <= i < n && 0 <= j < n && #[trigger] edge(i, j) ==> rank[j] < rank[i]
}

/// Along a walk of a ranked graph the rank strictly falls.
pub proof fn lemma_ranked_walk(edge: spec_fn(int, int) -> bool, n: int, rank: Seq<int>, p: Seq<usize>)
    requires
        is_walk(edge, n, p),
        p.len() >= 2,
        rank_decreases(edge, n, rank),
    ensures
        rank[p.last() as int] < rank[p[0] as int],
    decreases p.len(),
{
    let q = p.drop_last();
    let k = p.len() - 2;
    assert(walk_step(edge, p, k));
    assert(p[k] < n && p[k + 1] < n);
    if p.len() > 2 {
        assert forall|m: int| 0 <= m < q.len() - 1 implies #[trigger] walk_step(edge, q, m) by {
            assert(walk_step(edge, p, m));
        }
        assert forall|m: int| 0 <= m < q.len() implies #[trigger] q[m] < n by {
            assert(p[m] < n);
        }
        lemma_ranked_walk(edge, n, rank, q);
    }
}

/// A graph whose edges all lower a rank has no cycle.
pub proof fn lemma_ranked_acyclic(edge: spec_fn(int, int) -> bool, n: int, rank: Seq<int>)
    requires
        rank_decreases(edge, n, rank),
    ensures
        !has_cycle(edge, n),
{
    assert forall|p: Seq<usize>| !is_cycle(edge, n, p) by {
        if is_cycle(edge, n, p) {
            lemma_ranked_walk(edge, n, rank, p);
        }
    }
}

/// `j` is listed for `i`.
pub open spec fn adj_has(adj: Seq<Seq<usize>>, i: int, j: int) -> bool {
    0 <= i < adj.len() && exists|k: int| 0 <= k < adj[i].len() && adj[i][k] == j
}

/// The edges of an adjacency list: `i -> j` when `j` is listed for `i`.
pub open spec fn adj_edge(adj: Seq<Seq<usize>>) -> spec_fn(int, int) -> bool {
    |i: int, j: int| adj_has(adj, i, j)
}

/// The adjacency lists of a vector of vectors.
pub open spec fn adj_view(adj: Vec<Vec<usize>>) -> Seq<Seq<usize>> {
    adj@.map_values(|v: Vec<usize>| v@)
}

/// Every listed node is below the number of lists.
pub open spec fn adj_closed(adj: Seq<Seq<usize>>) -> bool {
    forall|i: int, k: int| 0 <= i < adj.len() && 0 <= k < adj[i].len() ==> #[trigger] adj[i][k] < adj.len()
}


/// The nodes in `fin` reach only nodes in `fin`, of lower rank.
pub open spec fn closed_ranked(edge: spec_fn(int, int) -> bool, n: int, fin: spec_fn(int) -> bool, rank: Seq<int>) -> bool {
    &&& rank.len() == n
    &&& forall|i: int, j: int|
        0 <= i < n && 0 <= j < n && fin(i) && #[trigger] edge(i, j) ==> fin(j) && rank[j] < rank[i]
}

/// A walk that starts in a closed, ranked set stays in it and ends lower.
pub proof fn lemma_closed_walk(
    edge: spec_fn(int, int) -> bool,
    n: int,
    fin: spec_fn(int) -> bool,
    rank: Seq<int>,
    p: Seq<usize>,
)
    requires
        is_walk(edge, n, p),
        p.len() >= 2,
        fin(p[0] as int),
        closed_ranked(edge, n, fin, rank),
    ensures
        fin(p.last() as int),
        rank[p.last() as int] < rank[p[0] as int],
    decreases p.len(),
{
    let q = p.drop_last();
    let k = p.len() - 2;
    assert(walk_step(edge, p, k));
    assert(p[k] < n && p[k + 1] < n);
    if p.len() > 2 {
        assert forall|m: int| 0 <= m < q.len() - 1 implies #[trigger] walk_step(edge, q, m) by {
            assert(walk_step(edge, p, m));
        }
        assert forall|m: int| 0 <= m < q.len() implies #[trigger] q[m] < n by {
            assert(p[m] < n);
        }
        lemma_closed_walk(edge, n, fin, rank, q);
    }
}

/// No cycle starts in a closed, ranked set.
pub proof fn lemma_closed_no_cycle(
    edge: spec_fn(int, int) -> bool,
    n: int,
    fin: spec_fn(int) -> bool,
    rank: Seq<int>,
    s: int,
)
    requires
        fin(s),
        closed_ranked(edge, n, fin, rank),
    ensures
        forall|p: Seq<usize>| is_cycle(edge, n, p) ==> p[0] != s,
{
    assert forall|p: Seq<usize>| is_cycle(edge, n, p) implies p[0] != s by {
        if p[0] == s {
            lemma_closed_walk(edge, n, fin, rank, p);
        }
    }
}

/// `p` is a walk whose last node occurs earlier in it: a path into a cycle.
pub open spec fn is_lasso(edge: spec_fn(int, int) -> bool, n: int, p: Seq<usize>) -> bool {
    &&& is_walk(edge, n, p)
    &&& p.len() >= 2
    &&& exists|k: int| 0 <= k < p.len() - 1 && p[k] == p.last()
}

} // verus!
