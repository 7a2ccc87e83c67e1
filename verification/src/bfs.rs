//! Breadth-first distances: for every vertex, the least number of edges on a
//! walk from the start.

use crate::distance::{filled, UNREACHED};
use crate::graph::{well_formed, Graph, Node};
use crate::measure::{
    lemma_pending_bounds, lemma_pending_raise, lemma_pending_uniform, lowered, pending_count,
};
use crate::paths::{is_walk, lemma_edge_at, lemma_walk_push, reaches};
use std::collections::VecDeque;
use vstd::prelude::*;

verus! {

/// `d` is the least number of edges on a walk from `s` to `t`.
pub open spec fn min_hops(adj: Seq<Seq<Node>>, s: int, t: int, d: int) -> bool {
    &&& exists|w: Seq<Node>| #[trigger] is_walk(adj, w, s, t) && w.len() == d
    &&& forall|w: Seq<Node>| #[trigger] is_walk(adj, w, s, t) ==> w.len() >= d
}

/// `table` holds the breadth-first distances from `start`: the least number
/// of edges for the vertices that `start` reaches, and the sentinel for the
/// others.
pub open spec fn hop_distances(adj: Seq<Seq<Node>>, start: int, table: Seq<i64>) -> bool {
    &&& table.len() == adj.len()
    &&& forall|v: int|
        0 <= v < adj.len() ==> if reaches(adj, start, v) {
            0 <= #[trigger] table[v] < adj.len() && min_hops(adj, start, v, table[v] as int)
        } else {
            table[v] == UNREACHED
        }
}

/// The first `upto` edges of `v` end at a vertex that has a distance, at most
/// one more than that of `v`.
pub open spec fn hop_relaxed(adj: Seq<Seq<Node>>, table: Seq<i64>, v: int, upto: int) -> bool {
    forall|k: int|
        0 <= k < upto ==> table[(#[trigger] adj[v][k]).to as int] != UNREACHED
            && table[adj[v][k].to as int] <= table[v] + 1
}

/// Every visited vertex but `open` has all its edges relaxed.
pub open spec fn hop_closed_but(
    adj: Seq<Seq<Node>>,
    table: Seq<i64>,
    visited: Seq<bool>,
    open: int,
) -> bool {
    forall|v: int|
        0 <= v < adj.len() && visited[v] && v != open ==> #[trigger] hop_relaxed(
            adj,
            table,
            v,
            adj[v].len() as int,
        )
}

/// What the scan keeps true of its table, its flags and its queue. The queue
/// is read from its back: the vertex at the back is the next to be expanded.
pub open spec fn hop_inv(
    adj: Seq<Seq<Node>>,
    start: int,
    table: Seq<i64>,
    queued: Seq<bool>,
    visited: Seq<bool>,
    queue: Seq<usize>,
) -> bool {
    &&& table.len() == adj.len()
    &&& queued.len() == adj.len()
    &&& visited.len() == adj.len()
    &&& table[start] == 0
    &&& forall|i: int| 0 <= i < queue.len() ==> (#[trigger] queue[i]) < adj.len() && queued[queue[i] as int]
    &&& forall|v: int| 0 <= v < adj.len() ==> (#[trigger] queued[v] <==> table[v] != UNREACHED)
    &&& forall|v: int|
        0 <= v < adj.len() && #[trigger] queued[v] ==> 0 <= table[v] < adj.len() - pending_count(
            queued,
        ) && exists|w: Seq<Node>| #[trigger] is_walk(adj, w, start, v) && w.len() == table[v]
    &&& forall|v: int| 0 <= v < adj.len() && #[trigger] visited[v] ==> queued[v]
    &&& forall|v: int|
        0 <= v < adj.len() && #[trigger] queued[v] ==> visited[v] || queue.contains(v as usize)
    &&& forall|a: int, b: int|
        0 <= a <= b < queue.len() ==> table[#[trigger] queue[a] as int] >= table[#[trigger] queue[b] as int]
    &&& queue.len() > 0 ==> forall|v: int|
        0 <= v < adj.len() && #[trigger] queued[v] ==> table[v] <= table[queue.last() as int] + 1
}

/// Where every vertex with a distance has all its edges relaxed, the end of
/// a walk from the start has a distance, no greater than the length of the
/// walk.
proof fn lemma_hops_bound(adj: Seq<Seq<Node>>, start: int, table: Seq<i64>, w: Seq<Node>, t: int)
    requires
        well_formed(adj),
        table.len() == adj.len(),
        0 <= start < adj.len(),
        table[start] == 0,
        forall|v: int|
            0 <= v < adj.len() && table[v] != UNREACHED ==> #[trigger] hop_relaxed(
                adj,
                table,
                v,
                adj[v].len() as int,
            ),
        is_walk(adj, w, start, t),
    ensures
        0 <= t < adj.len(),
        table[t] != UNREACHED,
        table[t] <= w.len(),
    decreases w.len(),
{
    if w.len() > 0 {
        let e = w.last();
        let u = e.from as int;
        lemma_hops_bound(adj, start, table, w.drop_last(), u);
        let k = choose|k: int| 0 <= k < adj[u].len() && adj[u][k] == e;
        assert(hop_relaxed(adj, table, u, adj[u].len() as int));
        assert(adj[u][k].to == t);
    }
}

/// Once nothing is queued, the table holds the breadth-first distances.
proof fn lemma_hops_final(
    adj: Seq<Seq<Node>>,
    start: int,
    table: Seq<i64>,
    queued: Seq<bool>,
    visited: Seq<bool>,
)
    requires
        well_formed(adj),
        0 <= start < adj.len(),
        hop_inv(adj, start, table, queued, visited, Seq::<usize>::empty()),
        hop_closed_but(adj, table, visited, -1),
    ensures
        hop_distances(adj, start, table),
{
    lemma_pending_bounds(queued);
    assert forall|v: int| 0 <= v < adj.len() && table[v] != UNREACHED implies #[trigger] hop_relaxed(
        adj,
        table,
        v,
        adj[v].len() as int,
    ) by {
        assert(queued[v]);
        assert(!Seq::<usize>::empty().contains(v as usize));
        assert(visited[v]);
    }
    assert forall|v: int| 0 <= v < adj.len() implies if reaches(adj, start, v) {
        0 <= #[trigger] table[v] < adj.len() && min_hops(adj, start, v, table[v] as int)
    } else {
        table[v] == UNREACHED
    } by {
        if reaches(adj, start, v) {
            let w = choose|w: Seq<Node>| is_walk(adj, w, start, v);
            lemma_hops_bound(adj, start, table, w, v);
            assert(queued[v]);
            assert forall|w2: Seq<Node>| #[trigger] is_walk(adj, w2, start, v) implies w2.len()
                >= table[v] by {
                lemma_hops_bound(adj, start, table, w2, v);
            }
        } else {
            if table[v] != UNREACHED {
                assert(queued[v]);
            }
        }
    }
}

impl Graph {
    /// The number of edges on a shortest walk from `start` to every vertex;
    /// `i64::MAX` for the vertices that `start` does not reach.
    ///
    /// `previsit` is called on a vertex when it is first found at the head of
    /// the queue, before its neighbours are queued; `postvisit` when it is
    /// found there again and leaves the queue, after they are.
    pub fn bfs(&self, start: usize, previsit: impl Fn(usize), postvisit: impl Fn(usize)) -> (table: Vec<i64>)
        requires
            self.wf(),
            start < self@.adj.len(),
            forall|v: usize| v < self@.adj.len() ==> call_requires(previsit, (v,)),
            forall|v: usize| v < self@.adj.len() ==> call_requires(postvisit, (v,)),
        ensures
            hop_distances(self@.adj, start as int, table@),
            table@[start as int] == 0,
    {
        let n: usize = self.edges.len();
        let ghost adj = self@.adj;
        let mut table: Vec<i64> = filled(n, UNREACHED);
        let mut queue: VecDeque<usize> = VecDeque::new();
        let mut queued: Vec<bool> = lowered(n);
        let mut visited: Vec<bool> = lowered(n);
        proof {
            lemma_pending_uniform(queued@, false);
            lemma_pending_raise(queued@, start as int);
            lemma_pending_bounds(visited@);
        }
        queue.push_front(start);
        queued[start] = true;
        table[start] = 0;
        proof {
            assert(queue@[0] == start);
            assert(is_walk(adj, Seq::<Node>::empty(), start as int, start as int));
            assert(Seq::<Node>::empty().len() == 0);
        }
        while queue.len() > 0
            invariant
                self.wf(),
                adj == self@.adj,
                n == adj.len(),
                start < n,
                forall|v: usize| v < self@.adj.len() ==> call_requires(previsit, (v,)),
                forall|v: usize| v < self@.adj.len() ==> call_requires(postvisit, (v,)),
                hop_inv(adj, start as int, table@, queued@, visited@, queue@),
                hop_closed_but(adj, table@, visited@, -1),
                pending_count(visited@) >= 0,
            decreases pending_count(visited@), queue@.len(),
        {
            let head: usize = queue[queue.len() - 1];
            assert(head == queue@.last());
            if visited[head] {
                let ghost longer = queue@;
                queue.pop_back();
                postvisit(head);
                proof {
                    assert forall|v: int| 0 <= v < n && #[trigger] queued@[v] implies visited@[v]
                        || queue@.contains(v as usize) by {
                        if !visited@[v] {
                            let j = choose|j: int| 0 <= j < longer.len() && longer[j] == v as usize;
                            assert(queue@[j] == v as usize);
                        }
                    }
                    assert forall|a: int, b: int| 0 <= a <= b < queue@.len() implies table@[#[trigger] queue@[a] as int]
                        >= table@[#[trigger] queue@[b] as int] by {
                        assert(longer[a] == queue@[a] && longer[b] == queue@[b]);
                    }
                    if queue@.len() > 0 {
                        assert(longer[queue@.len() - 1] == queue@.last());
                        assert(table@[longer[queue@.len() - 1] as int] >= table@[longer[longer.len() - 1] as int]);
                    }
                }
            } else {
                proof {
                    lemma_pending_raise(visited@, head as int);
                }
                let ghost unmarked = visited@;
                visited[head] = true;
                previsit(head);
                proof {
                    assert forall|v: int| 0 <= v < n && visited@[v] && v != head implies #[trigger] hop_relaxed(
                        adj,
                        table@,
                        v,
                        adj[v].len() as int,
                    ) by {
                        assert(unmarked[v]);
                    }
                }
                let degree: usize = self.edges[head].len();
                let mut k: usize = 0;
                while k < degree
                    invariant
                        self.wf(),
                        adj == self@.adj,
                        n == adj.len(),
                        start < n,
                        head < n,
                        degree == adj[head as int].len(),
                        k <= degree,
                        queue@.len() > 0,
                        head == queue@.last(),
                        visited@[head as int],
                        unmarked.len() == n,
                        visited@ == unmarked.update(head as int, true),
                        hop_inv(adj, start as int, table@, queued@, visited@, queue@),
                        hop_closed_but(adj, table@, visited@, head as int),
                        hop_relaxed(adj, table@, head as int, k as int),
                    decreases degree - k,
                {
                    let target: usize = self.edges[head][k].to;
                    proof {
                        lemma_edge_at(adj, head as int, k as int);
                        assert(self.edges[head as int][k as int] == adj[head as int][k as int]);
                    }
                    if !queued[target] {
                        let ghost old_table = table@;
                        let ghost old_queued = queued@;
                        let ghost old_queue = queue@;
                        proof {
                            lemma_pending_raise(queued@, target as int);
                            lemma_pending_bounds(queued@);
                        }
                        queued[target] = true;
                        table[target] = table[head] + 1;
                        queue.push_front(target);
                        proof {
                            let e = adj[head as int][k as int];
                            let w = choose|w: Seq<Node>| #[trigger]
                                is_walk(adj, w, start as int, head as int) && w.len()
                                    == old_table[head as int];
                            lemma_walk_push(adj, w, start as int, e);
                            assert(is_walk(adj, w.push(e), start as int, target as int) && w.push(
                                e,
                            ).len() == table@[target as int]);
                            assert forall|i: int| 0 <= i < queue@.len() implies (#[trigger] queue@[i])
                                < adj.len() && queued@[queue@[i] as int] by {
                                if i > 0 {
                                    assert(queue@[i] == old_queue[i - 1]);
                                }
                            }
                            assert forall|v: int| 0 <= v < adj.len() && #[trigger] queued@[v] implies 0
                                <= table@[v] < adj.len() - pending_count(queued@) && exists|
                                w: Seq<Node>,
                            | #[trigger]
                                is_walk(adj, w, start as int, v) && w.len() == table@[v] by {
                                if v != target {
                                    assert(old_queued[v]);
                                    let wv = choose|wv: Seq<Node>| #[trigger]
                                        is_walk(adj, wv, start as int, v) && wv.len()
                                            == old_table[v];
                                    assert(is_walk(adj, wv, start as int, v) && wv.len()
                                        == table@[v]);
                                }
                            }
                            assert forall|v: int| 0 <= v < adj.len() && #[trigger] queued@[v] implies visited@[v]
                                || queue@.contains(v as usize) by {
                                if v == target {
                                    assert(queue@[0] == target);
                                } else if !visited@[v] {
                                    assert(old_queued[v]);
                                    let j = choose|j: int|
                                        0 <= j < old_queue.len() && old_queue[j] == v as usize;
                                    assert(queue@[j + 1] == v as usize);
                                }
                            }
                            assert forall|a: int, b: int| 0 <= a <= b < queue@.len() implies table@[#[trigger] queue@[a] as int]
                                >= table@[#[trigger] queue@[b] as int] by {
                                if a > 0 {
                                    assert(queue@[a] == old_queue[a - 1] && queue@[b]
                                        == old_queue[b - 1]);
                                } else if b > 0 {
                                    assert(queue@[b] == old_queue[b - 1]);
                                    assert(old_queued[old_queue[b - 1] as int]);
                                }
                            }
                            assert(queue@.last() == old_queue.last());
                            assert forall|v: int|
                                0 <= v < n && visited@[v] && v != head implies #[trigger] hop_relaxed(
                                adj,
                                table@,
                                v,
                                adj[v].len() as int,
                            ) by {
                                assert(hop_relaxed(adj, old_table, v, adj[v].len() as int));
                            }
                            assert(hop_relaxed(adj, old_table, head as int, k as int));
                        }
                    }
                    k += 1;
                }
            }
        }
        proof {
            assert(queue@ =~= Seq::<usize>::empty());
            lemma_hops_final(adj, start as int, table@, queued@, visited@);
        }
        table
    }
}

} // verus!
