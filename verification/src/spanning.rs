//! Spanning-structure selection: the edges of the graph, lightest first, are
//! kept one by one where they join two vertices that the edges kept so far do
//! not yet connect.

use crate::forest::{
    classes, ends_below, is_chain, joined, joins_all, label, lemma_chain_joined,
    lemma_chain_transfer, lemma_classes_empty, lemma_classes_positive, lemma_classes_push,
    lemma_fewer_classes, lemma_joined_iff_linked, lemma_member_joined, lemma_push_redundant,
    lemma_push_same_partition, lemma_refines, lemma_single_class, linked, same_partition,
};
use crate::graph::{edge_total, nonnegative_weights, well_formed, Graph, Node};
use crate::union_find::UnionFind;
use vstd::prelude::*;

verus! {

/// All edges of the graph, vertex by vertex, each list in its own order.
pub open spec fn edge_list(adj: Seq<Seq<Node>>) -> Seq<Node>
    decreases adj.len(),
{
    if adj.len() == 0 {
        Seq::empty()
    } else {
        edge_list(adj.drop_last()) + adj.last()
    }
}

/// `perm` names the position `j`.
pub open spec fn names(perm: Seq<int>, j: int) -> bool {
    exists|i: int| 0 <= i < perm.len() && #[trigger] perm[i] == j
}

/// `after` holds the items of `before` in the order given by `perm`, which
/// names every position of `before`: by ascending weight, and items of equal
/// weight in the order they had.
pub open spec fn sorts_by_weight(before: Seq<Node>, after: Seq<Node>, perm: Seq<int>) -> bool {
    &&& perm.len() == before.len()
    &&& forall|j: int| 0 <= j < before.len() ==> #[trigger] names(perm, j)
    &&& after.len() == before.len()
    &&& forall|i: int|
        0 <= i < perm.len() ==> 0 <= #[trigger] perm[i] < before.len() && after[i]
            == before[perm[i]]
    &&& forall|i: int, j: int|
        0 <= i < j < perm.len() ==> before[#[trigger] perm[i]].weight < before[#[trigger] perm[j]].weight
            || (before[perm[i]].weight == before[perm[j]].weight && perm[i] < perm[j])
}

/// `after` is `before`, sorted by weight without reordering equal weights.
pub open spec fn is_stable_sort(before: Seq<Node>, after: Seq<Node>) -> bool {
    exists|perm: Seq<int>| sorts_by_weight(before, after, perm)
}

/// The edges kept among the first `i` of `sorted`: an edge is kept while
/// fewer than `limit` are, if the edges kept before it do not connect its
/// ends.
pub open spec fn selection(sorted: Seq<Node>, limit: nat, i: nat) -> Seq<Node>
    decreases i,
{
    if i == 0 {
        Seq::empty()
    } else {
        let kept = selection(sorted, limit, (i - 1) as nat);
        let e = sorted[i - 1];
        if kept.len() < limit && !joined(kept, e.from as int, e.to as int) {
            kept.push(e)
        } else {
            kept
        }
    }
}

/// The number of edges of a spanning tree on `n` vertices.
pub open spec fn tree_size(n: nat) -> nat {
    if n == 0 {
        0
    } else {
        (n - 1) as nat
    }
}

/// Once `limit` edges are kept, no later edge is.
pub proof fn lemma_selection_full(sorted: Seq<Node>, limit: nat, i: nat, j: nat)
    requires
        i <= j,
        selection(sorted, limit, i).len() >= limit,
    ensures
        selection(sorted, limit, j) == selection(sorted, limit, i),
    decreases j,
{
    if j > i {
        lemma_selection_full(sorted, limit, i, (j - 1) as nat);
    }
}

/// The edge list has as many entries as the graph has edges, and each is an
/// edge between vertices below `bound` if those of the graph are.
pub proof fn lemma_edge_list(adj: Seq<Seq<Node>>, bound: int)
    requires
        forall|u: int, k: int|
            0 <= u < adj.len() && 0 <= k < adj[u].len() ==> (#[trigger] adj[u][k]).from < bound
                && adj[u][k].to < bound,
    ensures
        edge_list(adj).len() == edge_total(adj),
        forall|i: int|
            0 <= i < edge_list(adj).len() ==> (#[trigger] edge_list(adj)[i]).from < bound
                && edge_list(adj)[i].to < bound,
    decreases adj.len(),
{
    if adj.len() > 0 {
        let head = adj.drop_last();
        lemma_edge_list(head, bound);
        assert forall|i: int| 0 <= i < edge_list(adj).len() implies (#[trigger] edge_list(
            adj,
        )[i]).from < bound && edge_list(adj)[i].to < bound by {
            if i >= edge_list(head).len() {
                assert(edge_list(adj)[i] == adj[adj.len() - 1][i - edge_list(head).len()]);
            } else {
                assert(edge_list(adj)[i] == edge_list(head)[i]);
            }
        }
    }
}

/// The edge list could not be spanned: the graph is not connected. `forest`
/// holds the edges that were kept.
#[derive(Debug)]
pub struct Disconnected {
    pub forest: Vec<Node>,
}

/// Sorts the edges by ascending weight, edges of equal weight staying in the
/// order they had.
///
/// This is `slice::sort_by_key` of the standard library, with the weight as
/// key. Its documentation promises a stable sort; the contract states that
/// and is not proved here.
#[verifier::external_body]
fn sort_by_weight(edges: &mut Vec<Node>)
    ensures
        is_stable_sort(old(edges)@, final(edges)@),
{
    edges.sort_by_key(|e| e.weight);
}

impl Graph {
    /// All edges of the graph in one list.
    pub fn edge_list(&self) -> (edges: Vec<Node>)
        requires
            self.wf(),
        ensures
            edges@ == edge_list(self@.adj),
    {
        let n: usize = self.edges.len();
        let ghost adj = self@.adj;
        let mut edges: Vec<Node> = Vec::with_capacity(self.total_edges());
        let mut u: usize = 0;
        assert(adj.take(0) =~= Seq::<Seq<Node>>::empty());
        while u < n
            invariant
                adj == self@.adj,
                n == adj.len(),
                u <= n,
                edges@ == edge_list(adj.take(u as int)),
            decreases n - u,
        {
            let row: usize = self.edges[u].len();
            let mut k: usize = 0;
            while k < row
                invariant
                    adj == self@.adj,
                    n == adj.len(),
                    u < n,
                    row == adj[u as int].len(),
                    k <= row,
                    edges@ == edge_list(adj.take(u as int)) + adj[u as int].take(k as int),
                decreases row - k,
            {
                edges.push(self.edges[u][k]);
                proof {
                    assert(self.edges[u as int][k as int] == adj[u as int][k as int]);
                    assert(adj[u as int].take(k as int + 1) =~= adj[u as int].take(k as int).push(
                        adj[u as int][k as int],
                    ));
                    assert(edges@ =~= edge_list(adj.take(u as int)) + adj[u as int].take(
                        k as int + 1,
                    ));
                }
                k += 1;
            }
            proof {
                assert(adj[u as int].take(row as int) =~= adj[u as int]);
                assert(adj.take(u as int + 1).drop_last() =~= adj.take(u as int));
                assert(adj.take(u as int + 1).last() == adj[u as int]);
            }
            u += 1;
        }
        proof {
            assert(adj.take(n as int) =~= adj);
        }
        edges
    }

    /// Selects a spanning tree by taking the edges in order of weight and
    /// keeping each that joins two vertices not yet connected.
    ///
    /// The edges kept are those of `selection`, over the edges of the graph
    /// in stable order of weight and up to one edge fewer than there are
    /// vertices. They are returned as the tree if they are that many, which
    /// they are exactly if the graph is connected; otherwise the edges ran
    /// out first, and they come back in the error.
    pub fn minimum_spanning_tree(&self) -> (outcome: Result<Vec<Node>, Disconnected>)
        requires
            self.wf(),
        ensures
            outcome is Ok <==> is_connected(self@.adj),
            exists|sorted: Seq<Node>|
                {
                    let kept = selection(sorted, tree_size(self@.adj.len()), sorted.len());
                    &&& #[trigger] is_stable_sort(edge_list(self@.adj), sorted)
                    &&& match outcome {
                        Ok(tree) => tree@ == kept && kept.len() == tree_size(self@.adj.len()),
                        Err(e) => e.forest@ == kept && kept.len() < tree_size(self@.adj.len()),
                    }
                },
    {
        let n: usize = self.edges.len();
        let ghost adj = self@.adj;
        let limit: usize = if n == 0 {
            0
        } else {
            n - 1
        };
        let mut edges: Vec<Node> = self.edge_list();
        proof {
            lemma_edge_list(adj, n as int);
        }
        let ghost listed = edges@;
        sort_by_weight(&mut edges);
        let ghost sorted = edges@;
        proof {
            let perm = choose|perm: Seq<int>| sorts_by_weight(listed, sorted, perm);
            assert forall|i: int| 0 <= i < sorted.len() implies (#[trigger] sorted[i]).from < n
                && sorted[i].to < n by {
                assert(sorted[i] == listed[perm[i]]);
            }
        }
        let mut union_find = UnionFind::new(n);
        let mut kept: Vec<Node> = Vec::with_capacity(limit);
        let mut i: usize = 0;
        while kept.len() < limit && i < edges.len()
            invariant
                n == adj.len(),
                limit == tree_size(n as nat),
                edges@ == sorted,
                i <= sorted.len(),
                forall|j: int| 0 <= j < sorted.len() ==> (#[trigger] sorted[j]).from < n && sorted[j].to < n,
                union_find.wf(),
                union_find.size() == n,
                kept@ == selection(sorted, limit as nat, i as nat),
                kept@.len() <= limit,
                forall|v: int| 0 <= v < n ==> #[trigger] union_find.representative(v) == label(kept@, v),
            decreases sorted.len() - i,
        {
            let e: Node = edges[i];
            let ghost before = kept@;
            if !union_find.are_adjacent(e.from, e.to) {
                let ghost sets = union_find;
                union_find.merge(e.from, e.to);
                kept.push(e);
                proof {
                    assert(kept@.drop_last() =~= before);
                    assert forall|v: int| 0 <= v < n implies #[trigger] union_find.representative(
                        v,
                    ) == label(kept@, v) by {
                        assert(sets.representative(v) == label(before, v));
                        assert(sets.representative(e.from as int) == label(before, e.from as int));
                        assert(sets.representative(e.to as int) == label(before, e.to as int));
                    }
                }
            }
            i += 1;
        }
        proof {
            if i < sorted.len() {
                lemma_selection_full(sorted, limit as nat, i as nat, sorted.len());
            }
            assert(is_stable_sort(edge_list(adj), sorted));
            if is_connected(adj) {
                lemma_connected_is_spanned(adj, sorted);
            }
            if kept@.len() == limit {
                lemma_spanned_is_connected(adj, sorted);
            }
        }
        if kept.len() == limit {
            Ok(kept)
        } else {
            Err(Disconnected { forest: kept })
        }
    }
}

/// Chains of edges of `edges`, taken in either direction, link all vertices
/// below `n` with each other.
pub open spec fn spans(edges: Seq<Node>, n: nat) -> bool {
    forall|a: int, b: int| 0 <= a < n && 0 <= b < n ==> #[trigger] linked(edges, a, b)
}

/// The edges of the graph link all its vertices with each other.
pub open spec fn is_connected(adj: Seq<Seq<Node>>) -> bool {
    spans(edge_list(adj), adj.len())
}

/// A list of edges spans the vertices exactly if it connects them all.
pub proof fn lemma_spans(edges: Seq<Node>, n: nat)
    ensures
        spans(edges, n) <==> joins_all(edges, n),
{
    if spans(edges, n) {
        assert forall|a: int, b: int| 0 <= a < n && 0 <= b < n implies #[trigger] joined(
            edges,
            a,
            b,
        ) by {
            assert(linked(edges, a, b));
            lemma_joined_iff_linked(edges, a, b);
        }
    }
    if joins_all(edges, n) {
        assert forall|a: int, b: int| 0 <= a < n && 0 <= b < n implies #[trigger] linked(
            edges,
            a,
            b,
        ) by {
            assert(joined(edges, a, b));
            lemma_joined_iff_linked(edges, a, b);
        }
    }
}

/// The edges kept are edges of the list, between vertices below `n` if those
/// are, and each of them makes one set of two: as many sets are left as
/// there are vertices, less the edges kept.
pub proof fn lemma_selection_classes(sorted: Seq<Node>, n: nat, limit: nat, i: nat)
    requires
        ends_below(sorted, n),
        i <= sorted.len(),
    ensures
        ends_below(selection(sorted, limit, i), n),
        selection(sorted, limit, i).len() <= limit,
        classes(selection(sorted, limit, i), n) == n - selection(sorted, limit, i).len(),
    decreases i,
{
    if i == 0 {
        lemma_classes_empty(n);
    } else {
        lemma_selection_classes(sorted, n, limit, (i - 1) as nat);
        let kept = selection(sorted, limit, (i - 1) as nat);
        lemma_classes_push(kept, n, sorted[i - 1]);
    }
}

/// No edge is kept between two vertices that the edges kept before it
/// connect: the edges kept form a forest.
pub proof fn lemma_selection_is_forest(sorted: Seq<Node>, limit: nat, i: nat, j: int)
    requires
        0 <= j < selection(sorted, limit, i).len(),
    ensures
        !joined(
            selection(sorted, limit, i).take(j),
            selection(sorted, limit, i)[j].from as int,
            selection(sorted, limit, i)[j].to as int,
        ),
    decreases i,
{
    if i > 0 {
        let before = selection(sorted, limit, (i - 1) as nat);
        let kept = selection(sorted, limit, i);
        if j < before.len() {
            lemma_selection_is_forest(sorted, limit, (i - 1) as nat, j);
            assert(kept.take(j) =~= before.take(j));
        } else {
            assert(kept.take(j) =~= before);
        }
    }
}

/// Every edge kept is one of the first `i` edges of the list.
pub proof fn lemma_selection_members(sorted: Seq<Node>, limit: nat, i: nat, j: int)
    requires
        i <= sorted.len(),
        0 <= j < selection(sorted, limit, i).len(),
    ensures
        exists|k: int| 0 <= k < i && #[trigger] sorted[k] == selection(sorted, limit, i)[j],
    decreases i,
{
    if i > 0 {
        let before = selection(sorted, limit, (i - 1) as nat);
        if j < before.len() {
            lemma_selection_members(sorted, limit, (i - 1) as nat, j);
            let k = choose|k: int|
                0 <= k < i - 1 && #[trigger] sorted[k] == selection(
                    sorted,
                    limit,
                    (i - 1) as nat,
                )[j];
            assert(sorted[k] == selection(sorted, limit, i)[j]);
        } else {
            assert(sorted[i - 1] == selection(sorted, limit, i)[j]);
        }
    }
}

/// The edges kept among the first `i` connect what those `i` edges connect.
pub proof fn lemma_selection_partition(sorted: Seq<Node>, n: nat, i: nat)
    requires
        ends_below(sorted, n),
        i <= sorted.len(),
    ensures
        same_partition(selection(sorted, tree_size(n), i), sorted.take(i as int), n),
    decreases i,
{
    let limit = tree_size(n);
    if i > 0 && n > 0 {
        let kept = selection(sorted, limit, (i - 1) as nat);
        let head = sorted.take(i - 1);
        let e = sorted[i - 1];
        lemma_selection_partition(sorted, n, (i - 1) as nat);
        lemma_selection_classes(sorted, n, limit, (i - 1) as nat);
        assert(sorted.take(i as int) =~= head.push(e));
        assert(joined(kept, e.from as int, e.to as int) <==> joined(
            head,
            e.from as int,
            e.to as int,
        ));
        if joined(kept, e.from as int, e.to as int) {
            lemma_push_redundant(head, e, n);
            assert forall|a: int, b: int| 0 <= a < n && 0 <= b < n implies (#[trigger] joined(
                kept,
                a,
                b,
            ) <==> joined(head.push(e), a, b)) by {
                assert(joined(kept, a, b) <==> joined(head, a, b));
                assert(joined(head.push(e), a, b) <==> joined(head, a, b));
            }
        } else {
            if kept.len() >= limit {
                lemma_classes_positive(kept, n);
                lemma_single_class(kept, n);
                assert(joined(kept, e.from as int, e.to as int));
            }
            lemma_push_same_partition(kept, head, e, n);
        }
    }
}

/// The graph's edges in stable order of weight are edges between its
/// vertices, and hold every edge of the graph.
pub proof fn lemma_sorted_edges(adj: Seq<Seq<Node>>, sorted: Seq<Node>)
    requires
        well_formed(adj),
        is_stable_sort(edge_list(adj), sorted),
    ensures
        ends_below(sorted, adj.len()),
        forall|j: int|
            0 <= j < edge_list(adj).len() ==> sorted.contains(#[trigger] edge_list(adj)[j]),
{
    let listed = edge_list(adj);
    lemma_edge_list(adj, adj.len() as int);
    let perm = choose|perm: Seq<int>| sorts_by_weight(listed, sorted, perm);
    assert forall|i: int| 0 <= i < sorted.len() implies (#[trigger] sorted[i]).from < adj.len()
        && sorted[i].to < adj.len() by {
        assert(sorted[i] == listed[perm[i]]);
    }
    assert forall|j: int| 0 <= j < listed.len() implies sorted.contains(#[trigger] listed[j]) by {
        assert(names(perm, j));
        let i = choose|i: int| 0 <= i < perm.len() && #[trigger] perm[i] == j;
        assert(sorted[i] == listed[j]);
    }
}

/// On a graph whose edges connect all its vertices, the selection keeps one
/// edge fewer than there are vertices, and the edges kept connect all
/// vertices: the tree is returned, and it spans the graph.
pub proof fn lemma_connected_is_spanned(adj: Seq<Seq<Node>>, sorted: Seq<Node>)
    requires
        well_formed(adj),
        is_stable_sort(edge_list(adj), sorted),
        is_connected(adj),
    ensures
        selection(sorted, tree_size(adj.len()), sorted.len()).len() == tree_size(adj.len()),
        spans(selection(sorted, tree_size(adj.len()), sorted.len()), adj.len()),
{
    let n = adj.len();
    let limit = tree_size(n);
    let kept = selection(sorted, limit, sorted.len());
    lemma_sorted_edges(adj, sorted);
    lemma_selection_classes(sorted, n, limit, sorted.len());
    lemma_spans(kept, n);
    if n > 0 {
        lemma_selection_partition(sorted, n, sorted.len());
        assert(sorted.take(sorted.len() as int) =~= sorted);
        assert forall|a: int, b: int| 0 <= a < n && 0 <= b < n implies #[trigger] joined(
            kept,
            a,
            b,
        ) by {
            assert(linked(edge_list(adj), a, b));
            let path = choose|path: Seq<int>| is_chain(edge_list(adj), path, a, b);
            lemma_chain_transfer(edge_list(adj), sorted, path, a, b);
            lemma_chain_joined(sorted, path, a, b);
            assert(joined(kept, a, b) <==> joined(sorted, a, b));
        }
        lemma_single_class(kept, n);
    }
}

/// Where the selection keeps one edge fewer than there are vertices, the
/// edges kept connect all vertices: a tree that is returned spans the graph.
pub proof fn lemma_tree_spans(adj: Seq<Seq<Node>>, sorted: Seq<Node>)
    requires
        well_formed(adj),
        is_stable_sort(edge_list(adj), sorted),
        selection(sorted, tree_size(adj.len()), sorted.len()).len() == tree_size(adj.len()),
    ensures
        spans(selection(sorted, tree_size(adj.len()), sorted.len()), adj.len()),
{
    let n = adj.len();
    let kept = selection(sorted, tree_size(n), sorted.len());
    lemma_spans(kept, n);
    lemma_sorted_edges(adj, sorted);
    lemma_selection_classes(sorted, n, tree_size(n), sorted.len());
    if n > 0 {
        lemma_single_class(kept, n);
    }
}

/// Where the selection keeps one edge fewer than there are vertices, the
/// graph is connected.
pub proof fn lemma_spanned_is_connected(adj: Seq<Seq<Node>>, sorted: Seq<Node>)
    requires
        well_formed(adj),
        is_stable_sort(edge_list(adj), sorted),
        selection(sorted, tree_size(adj.len()), sorted.len()).len() == tree_size(adj.len()),
    ensures
        is_connected(adj),
{
    let n = adj.len();
    let listed = edge_list(adj);
    let kept = selection(sorted, tree_size(n), sorted.len());
    lemma_tree_spans(adj, sorted);
    let perm = choose|perm: Seq<int>| sorts_by_weight(listed, sorted, perm);
    assert forall|j: int| 0 <= j < kept.len() implies listed.contains(#[trigger] kept[j]) by {
        lemma_selection_members(sorted, tree_size(n), sorted.len(), j);
        let k = choose|k: int| 0 <= k < sorted.len() && #[trigger] sorted[k] == kept[j];
        assert(sorted[k] == listed[perm[k]]);
    }
    assert forall|a: int, b: int| 0 <= a < n && 0 <= b < n implies #[trigger] linked(
        listed,
        a,
        b,
    ) by {
        assert(linked(kept, a, b));
        let path = choose|path: Seq<int>| is_chain(kept, path, a, b);
        lemma_chain_transfer(kept, listed, path, a, b);
    }
}

/// The sum of the weights of `edges`.
pub open spec fn total_weight(edges: Seq<Node>) -> int
    decreases edges.len(),
{
    if edges.len() == 0 {
        0
    } else {
        total_weight(edges.drop_last()) + edges.last().weight
    }
}

/// `picks` are positions of a list of `len` items, in ascending order.
pub open spec fn are_positions(picks: Seq<int>, len: nat) -> bool {
    &&& forall|k: int| 0 <= k < picks.len() ==> 0 <= #[trigger] picks[k] < len
    &&& forall|j: int, k: int|
        0 <= j < k < picks.len() ==> #[trigger] picks[j] < #[trigger] picks[k]
}

/// The edges of `edges` at the positions `picks`.
pub open spec fn picked(edges: Seq<Node>, picks: Seq<int>) -> Seq<Node> {
    Seq::new(picks.len(), |k: int| edges[picks[k]])
}

/// No edge of the list runs between two vertices that the edges before it
/// connect.
pub open spec fn is_forest_list(edges: Seq<Node>) -> bool {
    forall|k: int|
        0 <= k < edges.len() ==> !joined(
            #[trigger] edges.take(k),
            edges[k].from as int,
            edges[k].to as int,
        )
}

/// The weights of `edges` ascend.
pub open spec fn ascends(edges: Seq<Node>) -> bool {
    forall|a: int, b: int|
        0 <= a < b < edges.len() ==> (#[trigger] edges[a]).weight <= (#[trigger] edges[b]).weight
}

/// No edge of the list weighs less than zero.
pub open spec fn no_negative(edges: Seq<Node>) -> bool {
    forall|j: int| 0 <= j < edges.len() ==> (#[trigger] edges[j]).weight >= 0
}

/// The positions at which the selection keeps an edge, among the first `i`.
pub open spec fn selection_at(edges: Seq<Node>, limit: nat, i: nat) -> Seq<int>
    decreases i,
{
    if i == 0 {
        Seq::empty()
    } else {
        let at = selection_at(edges, limit, (i - 1) as nat);
        let kept = selection(edges, limit, (i - 1) as nat);
        let e = edges[i - 1];
        if kept.len() < limit && !joined(kept, e.from as int, e.to as int) {
            at.push(i - 1)
        } else {
            at
        }
    }
}

/// The first `k` edges of a forest leave `k` sets fewer than there are
/// vertices.
pub proof fn lemma_forest_classes(edges: Seq<Node>, n: nat, k: nat)
    requires
        ends_below(edges, n),
        is_forest_list(edges),
        k <= edges.len(),
    ensures
        ends_below(edges.take(k as int), n),
        classes(edges.take(k as int), n) == n - k,
    decreases k,
{
    if k == 0 {
        assert(edges.take(0) =~= Seq::<Node>::empty());
        lemma_classes_empty(n);
    } else {
        lemma_forest_classes(edges, n, (k - 1) as nat);
        let head = edges.take(k - 1);
        assert(edges.take(k as int) =~= head.push(edges[k - 1]));
        lemma_classes_push(head, n, edges[k - 1]);
    }
}

/// The selection keeps as many of the first `i` edges as these leave fewer
/// sets than there are vertices.
pub proof fn lemma_selection_rank(sorted: Seq<Node>, n: nat, i: nat)
    requires
        ends_below(sorted, n),
        i <= sorted.len(),
        n >= 1,
    ensures
        ends_below(sorted.take(i as int), n),
        selection(sorted, tree_size(n), i).len() == n - classes(sorted.take(i as int), n),
    decreases i,
{
    let limit = tree_size(n);
    if i == 0 {
        assert(sorted.take(0) =~= Seq::<Node>::empty());
        lemma_classes_empty(n);
    } else {
        let kept = selection(sorted, limit, (i - 1) as nat);
        let head = sorted.take(i - 1);
        let e = sorted[i - 1];
        lemma_selection_rank(sorted, n, (i - 1) as nat);
        lemma_selection_partition(sorted, n, (i - 1) as nat);
        lemma_selection_classes(sorted, n, limit, (i - 1) as nat);
        assert(sorted.take(i as int) =~= head.push(e));
        lemma_classes_push(head, n, e);
        assert(joined(kept, e.from as int, e.to as int) <==> joined(
            head,
            e.from as int,
            e.to as int,
        ));
        if kept.len() >= limit {
            lemma_classes_positive(kept, n);
            lemma_single_class(kept, n);
            assert(joined(kept, e.from as int, e.to as int));
        }
    }
}

/// What the selection keeps among the first edges, it keeps among more, at
/// the same place.
pub proof fn lemma_selection_grows(sorted: Seq<Node>, limit: nat, i: nat, later: nat, j: int)
    requires
        i <= later,
        0 <= j < selection(sorted, limit, i).len(),
    ensures
        j < selection(sorted, limit, later).len(),
        selection(sorted, limit, later)[j] == selection(sorted, limit, i)[j],
    decreases later,
{
    if later > i {
        lemma_selection_grows(sorted, limit, i, (later - 1) as nat, j);
    }
}

/// A stable sort by weight leaves the weights ascending.
pub proof fn lemma_sorted_ascends(before: Seq<Node>, sorted: Seq<Node>)
    requires
        is_stable_sort(before, sorted),
    ensures
        ascends(sorted),
{
    let perm = choose|perm: Seq<int>| sorts_by_weight(before, sorted, perm);
    assert forall|a: int, b: int| 0 <= a < b < sorted.len() implies (#[trigger] sorted[a]).weight
        <= (#[trigger] sorted[b]).weight by {
        assert(sorted[a] == before[perm[a]] && sorted[b] == before[perm[b]]);
    }
}

/// The edge that the selection keeps at place `j` weighs no more than the
/// edge at place `j` of any forest taken from the same ascending list.
pub proof fn lemma_kept_is_lighter(sorted: Seq<Node>, n: nat, picks: Seq<int>, j: int)
    requires
        ends_below(sorted, n),
        ascends(sorted),
        n >= 1,
        are_positions(picks, sorted.len()),
        is_forest_list(picked(sorted, picks)),
        0 <= j < picks.len(),
    ensures
        j < selection(sorted, tree_size(n), sorted.len()).len(),
        selection(sorted, tree_size(n), sorted.len())[j].weight <= sorted[picks[j]].weight,
{
    let limit = tree_size(n);
    let forest = picked(sorted, picks);
    let i = (picks[j] + 1) as nat;
    let head = sorted.take(i as int);
    let sub = forest.take(j + 1);
    assert(ends_below(forest, n)) by {
        assert forall|k: int| 0 <= k < forest.len() implies (#[trigger] forest[k]).from < n
            && forest[k].to < n by {
            assert(forest[k] == sorted[picks[k]]);
        }
    }
    lemma_forest_classes(forest, n, (j + 1) as nat);
    lemma_selection_rank(sorted, n, i);
    assert forall|k: int| 0 <= k < sub.len() implies joined(
        head,
        (#[trigger] sub[k]).from as int,
        sub[k].to as int,
    ) by {
        assert(sub[k] == sorted[picks[k]]);
        if k < j {
            assert(picks[k] < picks[j]);
        }
        assert(head[picks[k]] == sorted[picks[k]]);
        lemma_member_joined(head, picks[k]);
    }
    assert forall|a: int, b: int| 0 <= a < n && 0 <= b < n && #[trigger] joined(
        sub,
        a,
        b,
    ) implies joined(head, a, b) by {
        lemma_refines(sub, head, a, b);
    }
    lemma_fewer_classes(sub, head, n);
    let early = selection(sorted, limit, i);
    assert(early.len() >= j + 1);
    lemma_selection_grows(sorted, limit, i, sorted.len(), j);
    lemma_selection_members(sorted, limit, i, j);
    let k = choose|k: int| 0 <= k < i && #[trigger] sorted[k] == early[j];
    if k < picks[j] {
        assert(sorted[k].weight <= sorted[picks[j]].weight);
    }
}

/// A list that is no longer than another, and place by place no heavier,
/// weighs no more in all, if the other has no negative weight.
pub proof fn lemma_weight_by_place(light: Seq<Node>, heavy: Seq<Node>)
    requires
        light.len() <= heavy.len(),
        no_negative(heavy),
        forall|j: int| 0 <= j < light.len() ==> (#[trigger] light[j]).weight <= heavy[j].weight,
    ensures
        total_weight(light) <= total_weight(heavy),
    decreases heavy.len(),
{
    if heavy.len() > 0 {
        let rest = heavy.drop_last();
        assert(no_negative(rest)) by {
            assert forall|j: int| 0 <= j < rest.len() implies (#[trigger] rest[j]).weight >= 0 by {
                assert(rest[j] == heavy[j]);
            }
        }
        assert(heavy[heavy.len() - 1].weight >= 0);
        if light.len() == heavy.len() {
            let less = light.drop_last();
            assert forall|j: int| 0 <= j < less.len() implies (#[trigger] less[j]).weight
                <= rest[j].weight by {
                assert(less[j] == light[j] && rest[j] == heavy[j]);
            }
            assert(light[light.len() - 1].weight <= heavy[light.len() - 1].weight);
            lemma_weight_by_place(less, rest);
        } else {
            assert forall|j: int| 0 <= j < light.len() implies (#[trigger] light[j]).weight
                <= rest[j].weight by {
                assert(rest[j] == heavy[j]);
            }
            lemma_weight_by_place(light, rest);
        }
    }
}

/// The positions at which the selection keeps an edge ascend, and the edges
/// at these positions are the edges kept; they weigh no more than the edges
/// from which they were taken, if none of those has a negative weight.
pub proof fn lemma_selection_at(edges: Seq<Node>, limit: nat, i: nat)
    requires
        i <= edges.len(),
    ensures
        are_positions(selection_at(edges, limit, i), i),
        picked(edges, selection_at(edges, limit, i)) == selection(edges, limit, i),
        no_negative(edges) ==> total_weight(selection(edges, limit, i)) <= total_weight(
            edges.take(i as int),
        ),
    decreases i,
{
    if i == 0 {
        assert(picked(edges, selection_at(edges, limit, 0)) =~= selection(edges, limit, 0));
        assert(edges.take(0) =~= Seq::<Node>::empty());
    } else {
        lemma_selection_at(edges, limit, (i - 1) as nat);
        let at = selection_at(edges, limit, (i - 1) as nat);
        let kept = selection(edges, limit, (i - 1) as nat);
        assert(picked(edges, selection_at(edges, limit, i)) =~= selection(edges, limit, i));
        assert(edges.take(i as int).drop_last() =~= edges.take(i - 1));
        assert(edges.take(i as int).last() == edges[i - 1]);
        assert(selection(edges, limit, i).len() > kept.len() ==> selection(
            edges,
            limit,
            i,
        ).drop_last() =~= kept);
    }
}

/// Among the forests taken from the edges of a graph that connect all its
/// vertices, the edges kept weigh least.
pub proof fn lemma_lighter_than_forest(sorted: Seq<Node>, n: nat, picks: Seq<int>)
    requires
        ends_below(sorted, n),
        ascends(sorted),
        no_negative(sorted),
        are_positions(picks, sorted.len()),
        is_forest_list(picked(sorted, picks)),
        joins_all(picked(sorted, picks), n),
    ensures
        total_weight(selection(sorted, tree_size(n), sorted.len())) <= total_weight(
            picked(sorted, picks),
        ),
{
    let limit = tree_size(n);
    let kept = selection(sorted, limit, sorted.len());
    let forest = picked(sorted, picks);
    assert(no_negative(forest)) by {
        assert forall|j: int| 0 <= j < forest.len() implies (#[trigger] forest[j]).weight >= 0 by {
            assert(forest[j] == sorted[picks[j]]);
        }
    }
    lemma_selection_classes(sorted, n, limit, sorted.len());
    if n == 0 {
        assert(kept.len() == 0);
        lemma_weight_by_place(kept, forest);
    } else {
        assert(ends_below(forest, n)) by {
            assert forall|k: int| 0 <= k < forest.len() implies (#[trigger] forest[k]).from < n
                && forest[k].to < n by {
                assert(forest[k] == sorted[picks[k]]);
            }
        }
        lemma_forest_classes(forest, n, forest.len());
        assert(forest.take(forest.len() as int) =~= forest);
        lemma_single_class(forest, n);
        assert(forest.len() == n - 1);
        assert forall|j: int| 0 <= j < kept.len() implies (#[trigger] kept[j]).weight
            <= forest[j].weight by {
            lemma_kept_is_lighter(sorted, n, picks, j);
        }
        lemma_weight_by_place(kept, forest);
    }
}

/// The edges of a graph without negative weights, in any order, have none.
pub proof fn lemma_sorted_weights(adj: Seq<Seq<Node>>, sorted: Seq<Node>)
    requires
        nonnegative_weights(adj),
        is_stable_sort(edge_list(adj), sorted),
    ensures
        no_negative(sorted),
{
    lemma_edge_list_weights(adj);
    let listed = edge_list(adj);
    let perm = choose|perm: Seq<int>| sorts_by_weight(listed, sorted, perm);
    assert forall|i: int| 0 <= i < sorted.len() implies (#[trigger] sorted[i]).weight >= 0 by {
        assert(sorted[i] == listed[perm[i]]);
    }
}

/// The edge list of a graph without negative weights has none.
pub proof fn lemma_edge_list_weights(adj: Seq<Seq<Node>>)
    requires
        nonnegative_weights(adj),
    ensures
        no_negative(edge_list(adj)),
    decreases adj.len(),
{
    if adj.len() > 0 {
        let head = adj.drop_last();
        assert(nonnegative_weights(head)) by {
            assert forall|u: int, k: int|
                0 <= u < head.len() && 0 <= k < head[u].len() implies (#[trigger] head[u][k]).weight
                >= 0 by {
                assert(head[u][k] == adj[u][k]);
            }
        }
        lemma_edge_list_weights(head);
        assert forall|i: int| 0 <= i < edge_list(adj).len() implies (#[trigger] edge_list(
            adj,
        )[i]).weight >= 0 by {
            if i >= edge_list(head).len() {
                assert(edge_list(adj)[i] == adj[adj.len() - 1][i - edge_list(head).len()]);
            } else {
                assert(edge_list(adj)[i] == edge_list(head)[i]);
            }
        }
    }
}

/// On a graph without negative weights, the edges kept weigh no more than
/// any set of its edges that spans its vertices. The set is given by the
/// positions it takes in the edges in order of weight.
pub proof fn lemma_selection_is_lightest(adj: Seq<Seq<Node>>, sorted: Seq<Node>, picks: Seq<int>)
    requires
        well_formed(adj),
        nonnegative_weights(adj),
        is_stable_sort(edge_list(adj), sorted),
        are_positions(picks, sorted.len()),
        spans(picked(sorted, picks), adj.len()),
    ensures
        total_weight(selection(sorted, tree_size(adj.len()), sorted.len())) <= total_weight(
            picked(sorted, picks),
        ),
{
    let n = adj.len();
    let limit = tree_size(n);
    let rival = picked(sorted, picks);
    lemma_spans(rival, n);
    lemma_sorted_edges(adj, sorted);
    lemma_sorted_weights(adj, sorted);
    lemma_sorted_ascends(edge_list(adj), sorted);
    assert(ends_below(rival, n) && no_negative(rival)) by {
        assert forall|k: int| 0 <= k < rival.len() implies (#[trigger] rival[k]).from < n
            && rival[k].to < n && rival[k].weight >= 0 by {
            assert(rival[k] == sorted[picks[k]]);
        }
    }
    // The forest that the selection keeps of the rival connects what the
    // rival connects, and weighs no more.
    let at = selection_at(rival, limit, rival.len());
    let forest = selection(rival, limit, rival.len());
    lemma_selection_at(rival, limit, rival.len());
    assert(rival.take(rival.len() as int) =~= rival);
    lemma_selection_partition(rival, n, rival.len());
    let inner = Seq::new(at.len(), |k: int| picks[at[k]]);
    assert(are_positions(inner, sorted.len())) by {
        assert forall|k: int| 0 <= k < inner.len() implies 0 <= #[trigger] inner[k]
            < sorted.len() by {
            assert(0 <= at[k] < rival.len());
        }
        assert forall|j: int, k: int| 0 <= j < k < inner.len() implies #[trigger] inner[j]
            < #[trigger] inner[k] by {
            assert(at[j] < at[k]);
        }
    }
    assert(picked(sorted, inner) =~= forest) by {
        assert forall|k: int| 0 <= k < inner.len() implies picked(sorted, inner)[k]
            == forest[k] by {
            assert(forest[k] == picked(rival, at)[k]);
        }
    }
    assert(is_forest_list(forest)) by {
        assert forall|k: int| 0 <= k < forest.len() implies !joined(
            #[trigger] forest.take(k),
            forest[k].from as int,
            forest[k].to as int,
        ) by {
            lemma_selection_is_forest(rival, limit, rival.len(), k);
        }
    }
    assert(joins_all(forest, n)) by {
        assert forall|a: int, b: int| 0 <= a < n && 0 <= b < n implies #[trigger] joined(
            forest,
            a,
            b,
        ) by {
            assert(joined(rival, a, b));
        }
    }
    lemma_lighter_than_forest(sorted, n, inner);
}

} // verus!
