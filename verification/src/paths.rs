//! Walks: what it means for one vertex to be reachable from another, in how
//! many edges, and at what weight.

use crate::graph::{well_formed, Node};
use vstd::prelude::*;

verus! {

/// `e` is one of the edges that the graph files under `e.from`.
pub open spec fn has_edge(adj: Seq<Seq<Node>>, e: Node) -> bool {
    e.from < adj.len() && adj[e.from as int].contains(e)
}

/// `w` is a walk from `s` to `t`: a chain of edges of the graph, each
/// starting where the one before it ends. The empty walk stays at `s`.
pub open spec fn is_walk(adj: Seq<Seq<Node>>, w: Seq<Node>, s: int, t: int) -> bool
    decreases w.len(),
{
    if w.len() == 0 {
        s == t && 0 <= s < adj.len()
    } else {
        &&& has_edge(adj, w.last())
        &&& w.last().to == t
        &&& is_walk(adj, w.drop_last(), s, w.last().from as int)
    }
}

/// The sum of the weights along `w`.
pub open spec fn walk_weight(w: Seq<Node>) -> int
    decreases w.len(),
{
    if w.len() == 0 {
        0
    } else {
        walk_weight(w.drop_last()) + w.last().weight
    }
}

/// Some walk leads from `s` to `t`.
pub open spec fn reaches(adj: Seq<Seq<Node>>, s: int, t: int) -> bool {
    exists|w: Seq<Node>| is_walk(adj, w, s, t)
}

/// The edge at position `k` of the list of `u` is an edge of the graph, from
/// `u` to a vertex of the graph.
pub proof fn lemma_edge_at(adj: Seq<Seq<Node>>, u: int, k: int)
    requires
        well_formed(adj),
        0 <= u < adj.len(),
        0 <= k < adj[u].len(),
    ensures
        has_edge(adj, adj[u][k]),
        adj[u][k].from == u,
        adj[u][k].to < adj.len(),
{
}

/// A walk to the start of an edge, followed by the edge, is a walk to its
/// end, one edge longer and heavier by the weight of the edge.
pub proof fn lemma_walk_push(adj: Seq<Seq<Node>>, w: Seq<Node>, s: int, e: Node)
    requires
        is_walk(adj, w, s, e.from as int),
        has_edge(adj, e),
    ensures
        is_walk(adj, w.push(e), s, e.to as int),
        walk_weight(w.push(e)) == walk_weight(w) + e.weight,
        w.push(e).len() == w.len() + 1,
{
    assert(w.push(e).drop_last() =~= w);
}

/// Every vertex reaches itself.
pub proof fn lemma_reaches_self(adj: Seq<Seq<Node>>, s: int)
    requires
        0 <= s < adj.len(),
    ensures
        reaches(adj, s, s),
{
    assert(is_walk(adj, Seq::<Node>::empty(), s, s));
}

/// What reaches the start of an edge reaches its end.
pub proof fn lemma_reaches_step(adj: Seq<Seq<Node>>, s: int, e: Node)
    requires
        reaches(adj, s, e.from as int),
        has_edge(adj, e),
    ensures
        reaches(adj, s, e.to as int),
{
    let w = choose|w: Seq<Node>| is_walk(adj, w, s, e.from as int);
    lemma_walk_push(adj, w, s, e);
}

/// A set of vertices that no edge leaves holds the end of every walk that
/// starts in it.
pub proof fn lemma_closed_walk(adj: Seq<Seq<Node>>, inside: Set<int>, w: Seq<Node>, s: int, t: int)
    requires
        inside.contains(s),
        forall|e: Node|
            #[trigger] has_edge(adj, e) && inside.contains(e.from as int) ==> inside.contains(
                e.to as int,
            ),
        is_walk(adj, w, s, t),
    ensures
        inside.contains(t),
    decreases w.len(),
{
    if w.len() > 0 {
        lemma_closed_walk(adj, inside, w.drop_last(), s, w.last().from as int);
    }
}

} // verus!
