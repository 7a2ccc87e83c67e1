//! Single-source shortest paths over edges that do not weigh less than zero.

use crate::distance::{
    filled, lemma_measures_nonnegative, lemma_measures_update, reached_sum, unreached_count,
    UNREACHED,
};
use crate::frontier::{
    is_least, least, lemma_queue_empty, lemma_queue_insert, lemma_queue_remove, Entry,
    PriorityQueue,
};
use crate::graph::{nonnegative_weights, well_formed, Graph, Node};
use crate::bfs::hop_distances;
use crate::paths::{is_walk, lemma_edge_at, lemma_walk_push, reaches, walk_weight};
use vstd::multiset::Multiset;
use vstd::prelude::*;

verus! {

/// `d` is the least weight of a walk from `s` to `t`.
pub open spec fn least_weight(adj: Seq<Seq<Node>>, s: int, t: int, d: int) -> bool {
    &&& exists|w: Seq<Node>| #[trigger] is_walk(adj, w, s, t) && walk_weight(w) == d
    &&& forall|w: Seq<Node>| #[trigger] is_walk(adj, w, s, t) ==> walk_weight(w) >= d
}

/// Some walk from `s` to `t` weighs less than the sentinel.
pub open spec fn within_reach(adj: Seq<Seq<Node>>, s: int, t: int) -> bool {
    exists|w: Seq<Node>| #[trigger] is_walk(adj, w, s, t) && walk_weight(w) < i64::MAX
}

/// `table` holds the shortest distances from `start`: the least weight of a
/// walk for every vertex that a walk of a weight below the sentinel reaches,
/// and the sentinel for the others.
pub open spec fn shortest_distances(adj: Seq<Seq<Node>>, start: int, table: Seq<i64>) -> bool {
    &&& table.len() == adj.len()
    &&& forall|v: int|
        0 <= v < adj.len() ==> if within_reach(adj, start, v) {
            #[trigger] table[v] < i64::MAX && least_weight(adj, start, v, table[v] as int)
        } else {
            table[v] == UNREACHED
        }
}

/// No edge out of a vertex that has a distance can improve the distance at
/// its end.
pub open spec fn is_fixed_point(adj: Seq<Seq<Node>>, table: Seq<i64>) -> bool {
    forall|u: int, k: int|
        0 <= u < adj.len() && 0 <= k < adj[u].len() && table[u] != UNREACHED
            ==> table[(#[trigger] adj[u][k]).to as int] <= table[u] + adj[u][k].weight
}

/// The first `upto` edges of `v` cannot improve the distance at their end.
pub open spec fn relaxed(adj: Seq<Seq<Node>>, table: Seq<i64>, v: int, upto: int) -> bool {
    forall|k: int|
        0 <= k < upto ==> table[(#[trigger] adj[v][k]).to as int] <= table[v] + adj[v][k].weight
}

/// Some entry of the queue is for `v`.
pub open spec fn waits(queue: Multiset<Entry>, v: int) -> bool {
    exists|e: Entry| #[trigger] queue.contains(e) && e.vertex == v
}

/// Every vertex with a distance, but `open`, has its edges relaxed or waits
/// in the queue.
pub open spec fn settled_but(
    adj: Seq<Seq<Node>>,
    table: Seq<i64>,
    queue: Multiset<Entry>,
    open: int,
) -> bool {
    forall|v: int|
        0 <= v < adj.len() && #[trigger] table[v] != UNREACHED && v != open ==> relaxed(
            adj,
            table,
            v,
            adj[v].len() as int,
        ) || waits(queue, v)
}

/// What the search keeps true of its table and its queue.
pub open spec fn shortest_inv(
    adj: Seq<Seq<Node>>,
    start: int,
    table: Seq<i64>,
    queue: Multiset<Entry>,
) -> bool {
    &&& table.len() == adj.len()
    &&& table[start] == 0
    &&& forall|v: int| 0 <= v < adj.len() ==> #[trigger] table[v] >= 0
    &&& forall|e: Entry| #[trigger] queue.contains(e) ==> e.vertex < adj.len()
    &&& forall|v: int|
        0 <= v < adj.len() && #[trigger] table[v] != UNREACHED ==> exists|w: Seq<Node>| #[trigger]
            is_walk(adj, w, start, v) && walk_weight(w) == table[v]
}

/// At a fixed point, the end of a walk from the start that weighs less than
/// the sentinel has a distance, no greater than the weight of the walk.
proof fn lemma_weight_bound(adj: Seq<Seq<Node>>, start: int, table: Seq<i64>, w: Seq<Node>, t: int)
    requires
        well_formed(adj),
        nonnegative_weights(adj),
        table.len() == adj.len(),
        0 <= start < adj.len(),
        table[start] == 0,
        is_fixed_point(adj, table),
        is_walk(adj, w, start, t),
        walk_weight(w) < i64::MAX,
    ensures
        0 <= t < adj.len(),
        table[t] <= walk_weight(w),
    decreases w.len(),
{
    if w.len() > 0 {
        let e = w.last();
        let u = e.from as int;
        let k = choose|k: int| 0 <= k < adj[u].len() && adj[u][k] == e;
        assert(adj[u][k].weight >= 0);
        lemma_weight_bound(adj, start, table, w.drop_last(), u);
        assert(adj[u][k].to == t);
    }
}

/// At a fixed point the table holds the shortest distances.
proof fn lemma_shortest_final(adj: Seq<Seq<Node>>, start: int, table: Seq<i64>)
    requires
        well_formed(adj),
        nonnegative_weights(adj),
        0 <= start < adj.len(),
        shortest_inv(adj, start, table, Multiset::<Entry>::empty()),
        is_fixed_point(adj, table),
    ensures
        shortest_distances(adj, start, table),
{
    assert forall|v: int| 0 <= v < adj.len() implies if within_reach(adj, start, v) {
        #[trigger] table[v] < i64::MAX && least_weight(adj, start, v, table[v] as int)
    } else {
        table[v] == UNREACHED
    } by {
        if within_reach(adj, start, v) {
            let w = choose|w: Seq<Node>| #[trigger]
                is_walk(adj, w, start, v) && walk_weight(w) < i64::MAX;
            lemma_weight_bound(adj, start, table, w, v);
            assert forall|w2: Seq<Node>| #[trigger] is_walk(adj, w2, start, v) implies walk_weight(
                w2,
            ) >= table[v] by {
                if walk_weight(w2) < i64::MAX {
                    lemma_weight_bound(adj, start, table, w2, v);
                }
            }
        } else if table[v] != UNREACHED {
            let w = choose|w: Seq<Node>| #[trigger]
                is_walk(adj, w, start, v) && walk_weight(w) == table[v];
            assert(is_walk(adj, w, start, v) && walk_weight(w) < i64::MAX);
        }
    }
}

impl Graph {
    /// The least weight of a walk from `start` to every vertex; `i64::MAX`
    /// for the vertices that no walk of a smaller weight reaches.
    ///
    /// A vertex is queued again whenever its distance improves, so the queue
    /// may hold it several times; a candidate distance that is no `i64` is
    /// no improvement.
    pub fn dijsktra(&self, start: usize) -> (table: Vec<i64>)
        requires
            self.wf(),
            start < self@.adj.len(),
            nonnegative_weights(self@.adj),
        ensures
            shortest_distances(self@.adj, start as int, table@),
            is_fixed_point(self@.adj, table@),
            table@[start as int] == 0,
    {
        let n: usize = self.edges.len();
        let ghost adj = self@.adj;
        let mut table: Vec<i64> = filled(n, UNREACHED);
        table[start] = 0;
        let mut heap = PriorityQueue::new();
        heap.push(0, start);
        proof {
            assert(is_walk(adj, Seq::<Node>::empty(), start as int, start as int));
            assert(walk_weight(Seq::<Node>::empty()) == 0);
            lemma_queue_empty(Multiset::<Entry>::empty());
            lemma_queue_insert(Multiset::<Entry>::empty(), Entry { priority: 0, vertex: start });
            assert(heap@.contains(Entry { priority: 0, vertex: start }));
            assert(waits(heap@, start as int));
        }
        while !heap.is_empty()
            invariant
                self.wf(),
                adj == self@.adj,
                n == adj.len(),
                start < n,
                nonnegative_weights(adj),
                heap.wf(),
                shortest_inv(adj, start as int, table@, heap@),
                settled_but(adj, table@, heap@, -1),
            decreases unreached_count(table@), reached_sum(table@), heap@.len(),
        {
            let ghost full = heap@;
            proof {
                lemma_measures_nonnegative(table@);
            }
            let entry = heap.pop().unwrap();
            let actual: usize = entry.vertex;
            let ghost entered = table@;
            proof {
                assert(is_least(full, entry));
                lemma_queue_remove(full, entry);
                assert forall|v: int|
                    0 <= v < n && #[trigger] table@[v] != UNREACHED && v != actual implies relaxed(
                    adj,
                    table@,
                    v,
                    adj[v].len() as int,
                ) || waits(heap@, v) by {
                    if !relaxed(adj, table@, v, adj[v].len() as int) {
                        assert(waits(full, v));
                        let other = choose|e: Entry| #[trigger] full.contains(e) && e.vertex == v;
                        assert(heap@.contains(other));
                    }
                }
            }
            let degree: usize = self.edges[actual].len();
            let mut k: usize = 0;
            while k < degree
                invariant
                    self.wf(),
                    adj == self@.adj,
                    n == adj.len(),
                    start < n,
                    actual < n,
                    nonnegative_weights(adj),
                    degree == adj[actual as int].len(),
                    k <= degree,
                    entered.len() == n,
                    forall|v: int| 0 <= v < n ==> #[trigger] entered[v] >= 0,
                    full.len() > 0,
                    heap.wf(),
                    shortest_inv(adj, start as int, table@, heap@),
                    settled_but(adj, table@, heap@, actual as int),
                    relaxed(adj, table@, actual as int, k as int),
                    (unreached_count(table@) == unreached_count(entered) && reached_sum(table@)
                        == reached_sum(entered) && heap@.len() == full.len() - 1)
                        || unreached_count(table@) < unreached_count(entered) || (unreached_count(
                        table@,
                    ) == unreached_count(entered) && reached_sum(table@) < reached_sum(entered)),
                decreases degree - k,
            {
                let e: Node = self.edges[actual][k];
                proof {
                    lemma_edge_at(adj, actual as int, k as int);
                    assert(e == adj[actual as int][k as int]);
                }
                let ghost old_table = table@;
                let ghost old_heap = heap@;
                match table[actual].checked_add(e.weight) {
                    Some(c) => {
                        if c < table[e.to] {
                            proof {
                                lemma_measures_update(old_table, e.to as int, c);
                                lemma_measures_nonnegative(old_table);
                                lemma_queue_insert(old_heap, Entry { priority: c, vertex: e.to });
                            }
                            table[e.to] = c;
                            heap.push(c, e.to);
                            proof {
                                let w = choose|w: Seq<Node>| #[trigger]
                                    is_walk(adj, w, start as int, actual as int) && walk_weight(w)
                                        == old_table[actual as int];
                                lemma_walk_push(adj, w, start as int, e);
                                assert(is_walk(adj, w.push(e), start as int, e.to as int)
                                    && walk_weight(w.push(e)) == table@[e.to as int]);
                                assert forall|v: int|
                                    0 <= v < adj.len() && #[trigger] table@[v]
                                        != UNREACHED implies exists|w: Seq<Node>| #[trigger]
                                    is_walk(adj, w, start as int, v) && walk_weight(w)
                                        == table@[v] by {
                                    if v != e.to {
                                        assert(old_table[v] != UNREACHED);
                                        let wv = choose|wv: Seq<Node>| #[trigger]
                                            is_walk(adj, wv, start as int, v) && walk_weight(wv)
                                                == old_table[v];
                                        assert(is_walk(adj, wv, start as int, v) && walk_weight(wv)
                                            == table@[v]);
                                    }
                                }
                                assert(heap@.contains(Entry { priority: c, vertex: e.to }));
                                assert(waits(heap@, e.to as int));
                                assert forall|v: int|
                                    0 <= v < n && #[trigger] table@[v] != UNREACHED && v
                                        != actual implies relaxed(
                                    adj,
                                    table@,
                                    v,
                                    adj[v].len() as int,
                                ) || waits(heap@, v) by {
                                    if v != e.to {
                                        assert(old_table[v] != UNREACHED);
                                        if relaxed(adj, old_table, v, adj[v].len() as int) {
                                            assert forall|j: int|
                                                0 <= j < adj[v].len() implies table@[(#[trigger] adj[v][j]).to as int]
                                                <= table@[v] + adj[v][j].weight by {
                                            }
                                        } else {
                                            let other = choose|o: Entry| #[trigger]
                                                old_heap.contains(o) && o.vertex == v;
                                            assert(heap@.contains(other));
                                        }
                                    }
                                }
                                assert forall|j: int| 0 <= j < k + 1 implies table@[(#[trigger] adj[actual as int][j]).to as int]
                                    <= table@[actual as int] + adj[actual as int][j].weight by {
                                    if j < k {
                                        assert(old_table[adj[actual as int][j].to as int]
                                            <= old_table[actual as int]
                                            + adj[actual as int][j].weight);
                                    }
                                }
                            }
                        }
                    },
                    None => {},
                }
                k += 1;
            }
            proof {
                assert forall|v: int| 0 <= v < n && #[trigger] table@[v] != UNREACHED implies relaxed(
                    adj,
                    table@,
                    v,
                    adj[v].len() as int,
                ) || waits(heap@, v) by {
                }
                lemma_measures_nonnegative(table@);
            }
        }
        proof {
            lemma_queue_empty(heap@);
            assert(heap@ =~= Multiset::<Entry>::empty());
            assert forall|u: int, k: int|
                0 <= u < adj.len() && 0 <= k < adj[u].len() && table@[u]
                    != UNREACHED implies table@[(#[trigger] adj[u][k]).to as int] <= table@[u]
                + adj[u][k].weight by {
                assert(!waits(heap@, u));
                assert(relaxed(adj, table@, u, adj[u].len() as int));
            }
            lemma_shortest_final(adj, start as int, table@);
        }
        table
    }
}

/// Over edges that all weigh one, a walk weighs as much as it has edges.
pub proof fn lemma_unit_walk(adj: Seq<Seq<Node>>, w: Seq<Node>, s: int, t: int)
    requires
        forall|u: int, k: int|
            0 <= u < adj.len() && 0 <= k < adj[u].len() ==> (#[trigger] adj[u][k]).weight == 1,
        is_walk(adj, w, s, t),
    ensures
        walk_weight(w) == w.len(),
    decreases w.len(),
{
    if w.len() > 0 {
        let e = w.last();
        lemma_unit_walk(adj, w.drop_last(), s, e.from as int);
        let k = choose|k: int| 0 <= k < adj[e.from as int].len() && adj[e.from as int][k] == e;
        assert(adj[e.from as int][k].weight == 1);
    }
}

/// On a graph whose edges all weigh one, the shortest distances from a
/// vertex are its breadth-first distances: whatever table holds the one
/// holds the other.
pub proof fn lemma_unit_weights_agree(
    adj: Seq<Seq<Node>>,
    start: int,
    hops: Seq<i64>,
    weights: Seq<i64>,
)
    requires
        well_formed(adj),
        0 <= start < adj.len(),
        forall|u: int, k: int|
            0 <= u < adj.len() && 0 <= k < adj[u].len() ==> (#[trigger] adj[u][k]).weight == 1,
        hop_distances(adj, start, hops),
        shortest_distances(adj, start, weights),
    ensures
        hops == weights,
{
    assert forall|v: int| 0 <= v < adj.len() implies hops[v] == weights[v] by {
        if reaches(adj, start, v) {
            let by_hops = choose|w: Seq<Node>| #[trigger]
                is_walk(adj, w, start, v) && w.len() == hops[v];
            lemma_unit_walk(adj, by_hops, start, v);
            assert(is_walk(adj, by_hops, start, v) && walk_weight(by_hops) < i64::MAX);
            let by_weight = choose|w: Seq<Node>| #[trigger]
                is_walk(adj, w, start, v) && walk_weight(w) == weights[v];
            lemma_unit_walk(adj, by_weight, start, v);
        } else if within_reach(adj, start, v) {
            let w = choose|w: Seq<Node>| #[trigger]
                is_walk(adj, w, start, v) && walk_weight(w) < i64::MAX;
            assert(is_walk(adj, w, start, v));
        }
    }
    assert(hops =~= weights);
}

} // verus!
