//! Depth-first scans of the whole graph: how many vertices start a new
//! region when the vertices are taken in index order, and an order of the
//! vertices in which edges point forward.

use crate::graph::{well_formed, Graph, Node};
use crate::measure::{
    lemma_pending_bounds, lemma_pending_raise, lemma_pending_uniform, lemma_tally_bounds, lowered,
    pending_count, tally,
};
use crate::paths::{
    has_edge, is_walk, lemma_closed_walk, lemma_edge_at, lemma_reaches_self, lemma_reaches_step,
    reaches,
};
use vstd::prelude::*;

verus! {

/// Some vertex below `bound` reaches `v`.
pub open spec fn reached_below(adj: Seq<Seq<Node>>, bound: int, v: int) -> bool {
    exists|u: int| 0 <= u < bound && #[trigger] reaches(adj, u, v)
}

/// `v` starts a new region: no vertex before it reaches it.
pub open spec fn is_fresh(adj: Seq<Seq<Node>>, v: int) -> bool {
    !reached_below(adj, v, v)
}

/// The number of vertices below `upto` that start a new region.
pub open spec fn fresh_roots(adj: Seq<Seq<Node>>, upto: nat) -> int {
    tally(
        upto,
        |v: int|
            if is_fresh(adj, v) {
                1int
            } else {
                0int
            },
    )
}

/// The first `upto` edges of `v` end at a vertex that is visited or waits on
/// the stack.
pub open spec fn settled(
    adj: Seq<Seq<Node>>,
    visited: Seq<bool>,
    stack: Seq<usize>,
    v: int,
    upto: int,
) -> bool {
    forall|k: int|
        0 <= k < upto ==> visited[(#[trigger] adj[v][k]).to as int] || stack.contains(
            adj[v][k].to,
        )
}

/// Every visited vertex but `open` has all its edges settled.
pub open spec fn closed_but(
    adj: Seq<Seq<Node>>,
    visited: Seq<bool>,
    stack: Seq<usize>,
    open: int,
) -> bool {
    forall|v: int|
        0 <= v < adj.len() && visited[v] && v != open ==> #[trigger] settled(
            adj,
            visited,
            stack,
            v,
            adj[v].len() as int,
        )
}

/// Whatever is visited or stacked is reached from a vertex below `bound`.
pub open spec fn sound(adj: Seq<Seq<Node>>, visited: Seq<bool>, stack: Seq<usize>, bound: int) -> bool {
    &&& visited.len() == adj.len()
    &&& forall|v: int| 0 <= v < adj.len() && #[trigger] visited[v] ==> reached_below(adj, bound, v)
    &&& forall|j: int|
        0 <= j < stack.len() ==> (#[trigger] stack[j]) < adj.len() && reached_below(
            adj,
            bound,
            stack[j] as int,
        )
}

/// Once the stack is empty, the visited vertices are all that the vertices
/// below `bound` reach.
proof fn lemma_scan_complete(
    adj: Seq<Seq<Node>>,
    before: Seq<bool>,
    visited: Seq<bool>,
    root: int,
)
    requires
        well_formed(adj),
        0 <= root < adj.len(),
        visited.len() == adj.len(),
        before.len() == adj.len(),
        closed_but(adj, visited, Seq::<usize>::empty(), -1),
        visited[root],
        forall|v: int| 0 <= v < adj.len() && #[trigger] before[v] ==> visited[v],
        forall|v: int| 0 <= v < adj.len() && reached_below(adj, root, v) ==> #[trigger] before[v],
    ensures
        forall|v: int| 0 <= v < adj.len() && reached_below(adj, root + 1, v) ==> #[trigger] visited[v],
{
    let inside = Set::new(|v: int| 0 <= v < adj.len() && visited[v]);
    assert forall|e: Node| #[trigger] has_edge(adj, e) && inside.contains(e.from as int) implies inside.contains(
        e.to as int,
    ) by {
        let u = e.from as int;
        let k = choose|k: int| 0 <= k < adj[u].len() && adj[u][k] == e;
        assert(settled(adj, visited, Seq::<usize>::empty(), u, adj[u].len() as int));
        assert(adj[u][k].to < adj.len());
        assert(!Seq::<usize>::empty().contains(adj[u][k].to));
    }
    assert forall|v: int| 0 <= v < adj.len() && reached_below(adj, root + 1, v) implies #[trigger] visited[v] by {
        let u = choose|u: int| 0 <= u < root + 1 && #[trigger] reaches(adj, u, v);
        if u < root {
            assert(reached_below(adj, root, v));
            assert(before[v]);
        } else {
            let w = choose|w: Seq<Node>| is_walk(adj, w, root, v);
            lemma_closed_walk(adj, inside, w, root, v);
        }
    }
}

impl Graph {
    /// Counts the vertices that no vertex of smaller index reaches. Where
    /// every edge has its reverse in the graph, that is the number of
    /// connected components.
    pub fn number_of_components(&self) -> (count: usize)
        requires
            self.wf(),
        ensures
            count == fresh_roots(self@.adj, self@.adj.len()),
    {
        let n: usize = self.edges.len();
        let ghost adj = self@.adj;
        let mut visited: Vec<bool> = lowered(n);
        let mut stack: Vec<usize> = Vec::new();
        let mut count: usize = 0;
        let mut i: usize = 0;
        while i < n
            invariant
                self.wf(),
                adj == self@.adj,
                n == adj.len(),
                i <= n,
                visited@.len() == n,
                stack@.len() == 0,
                count == fresh_roots(adj, i as nat),
                count <= i,
                forall|v: int| 0 <= v < n ==> (#[trigger] visited@[v] <==> reached_below(adj, i as int, v)),
                closed_but(adj, visited@, stack@, -1),
            decreases n - i,
        {
            let ghost before = visited@;
            proof {
                lemma_reaches_self(adj, i as int);
                assert(reached_below(adj, i as int + 1, i as int));
                assert forall|v: int| 0 <= v < n && #[trigger] visited@[v] implies reached_below(adj, i as int + 1, v) by {
                    let u = choose|u: int| 0 <= u < i && #[trigger] reaches(adj, u, v);
                    assert(reaches(adj, u, v));
                }
            }
            let ghost idle = stack@;
            if !visited[i] {
                stack.push(i);
                count += 1;
                proof {
                    assert(stack@[0] == i);
                    assert forall|v: int| 0 <= v < n && visited@[v] implies #[trigger] settled(adj, visited@, stack@, v, adj[v].len() as int) by {
                        assert(settled(adj, visited@, idle, v, adj[v].len() as int));
                    }
                }
            }
            proof {
                lemma_pending_bounds(visited@);
            }
            while stack.len() > 0
                invariant
                    self.wf(),
                    adj == self@.adj,
                    n == adj.len(),
                    i < n,
                    before.len() == n,
                    sound(adj, visited@, stack@, i as int + 1),
                    closed_but(adj, visited@, stack@, -1),
                    forall|v: int| 0 <= v < n && #[trigger] before[v] ==> visited@[v],
                    visited@[i as int] || stack@.contains(i),
                    pending_count(visited@) >= 0,
                decreases pending_count(visited@), stack@.len(),
            {
                let actual: usize = stack[stack.len() - 1];
                if visited[actual] {
                    let ghost above = stack@;
                    stack.pop();
                    proof {
                        assert forall|v: int| 0 <= v < n && visited@[v] implies #[trigger] settled(adj, visited@, stack@, v, adj[v].len() as int) by {
                            assert(settled(adj, visited@, above, v, adj[v].len() as int));
                            assert forall|k: int| 0 <= k < adj[v].len() implies visited@[(#[trigger] adj[v][k]).to as int] || stack@.contains(adj[v][k].to) by {
                                let t = adj[v][k].to;
                                if !visited@[t as int] {
                                    assert(above.contains(t));
                                    let j = choose|j: int| 0 <= j < above.len() && above[j] == t;
                                    assert(stack@[j] == t);
                                }
                            }
                        }
                        if !visited@[i as int] {
                            let j = choose|j: int| 0 <= j < above.len() && above[j] == i;
                            assert(stack@[j] == i);
                        }
                    }
                } else {
                    proof {
                        lemma_pending_raise(visited@, actual as int);
                    }
                    let ghost unmarked = visited@;
                    visited[actual] = true;
                    proof {
                        assert forall|v: int| 0 <= v < n && visited@[v] && v != actual implies #[trigger] settled(adj, visited@, stack@, v, adj[v].len() as int) by {
                            assert(settled(adj, unmarked, stack@, v, adj[v].len() as int));
                        }
                    }
                    let degree: usize = self.edges[actual].len();
                    let mut k: usize = 0;
                    while k < degree
                        invariant
                            self.wf(),
                            adj == self@.adj,
                            n == adj.len(),
                            i < n,
                            actual < n,
                            degree == adj[actual as int].len(),
                            k <= degree,
                            visited@[actual as int],
                            sound(adj, visited@, stack@, i as int + 1),
                            closed_but(adj, visited@, stack@, actual as int),
                            settled(adj, visited@, stack@, actual as int, k as int),
                            stack@.len() > 0,
                            visited@[i as int] || stack@.contains(i),
                            unmarked.len() == n,
                            visited@ == unmarked.update(actual as int, true),
                        decreases degree - k,
                    {
                        let target: usize = self.edges[actual][k].to;
                        proof {
                            lemma_edge_at(adj, actual as int, k as int);
                            assert(self.edges[actual as int][k as int] == adj[actual as int][k as int]);
                        }
                        if !visited[target] {
                            let ghost below = stack@;
                            stack.push(target);
                            proof {
                                let u = choose|u: int| 0 <= u < i + 1 && #[trigger] reaches(adj, u, actual as int);
                                lemma_reaches_step(adj, u, adj[actual as int][k as int]);
                                assert(reached_below(adj, i as int + 1, target as int));
                                assert forall|t: usize| below.contains(t) implies stack@.contains(t) by {
                                    let j = choose|j: int| 0 <= j < below.len() && below[j] == t;
                                    assert(stack@[j] == t);
                                }
                                assert(stack@[below.len() as int] == target);
                                assert forall|v: int| 0 <= v < n && visited@[v] && v != actual implies #[trigger] settled(adj, visited@, stack@, v, adj[v].len() as int) by {
                                    assert(settled(adj, visited@, below, v, adj[v].len() as int));
                                }
                                assert(settled(adj, visited@, below, actual as int, k as int));
                            }
                        }
                        k += 1;
                    }
                    proof {
                        assert forall|v: int| 0 <= v < n && visited@[v] implies #[trigger] settled(adj, visited@, stack@, v, adj[v].len() as int) by {
                        }
                    }
                }
            }
            proof {
                assert(stack@ =~= Seq::<usize>::empty());
                lemma_scan_complete(adj, before, visited@, i as int);
                assert forall|v: int| 0 <= v < n implies (#[trigger] visited@[v] <==> reached_below(adj, i as int + 1, v)) by {
                }
                lemma_tally_bounds(
                    (i + 1) as nat,
                    |v: int|
                        if is_fresh(adj, v) {
                            1int
                        } else {
                            0int
                        },
                    0,
                    1,
                );
            }
            i += 1;
        }
        count
    }
}

/// A moment of the depth-first scan that orders the vertices.
///
/// A vertex is new until the scan first finds it on top of the stack, open
/// from then until it is found there again, and finished afterwards.
pub struct ScanState {
    pub visited: Seq<bool>,
    pub finished: Seq<bool>,
    pub stack: Seq<usize>,
    /// The finished vertices, in the order in which they were finished.
    pub finish: Seq<usize>,
    /// The positions of the stack at which the open vertices were opened,
    /// from the bottom up.
    pub active: Seq<int>,
}

impl ScanState {
    /// `v` has been opened and is not finished.
    pub open spec fn is_open(self, v: int) -> bool {
        self.visited[v] && !self.finished[v]
    }

    /// The open vertex that was opened at position `active[m]`.
    pub open spec fn opened(self, m: int) -> usize {
        self.stack[self.active[m]]
    }

    /// Some position of the stack above `low` holds `v`.
    pub open spec fn stacked_above(self, low: int, v: usize) -> bool {
        exists|j: int| low < j < self.stack.len() && #[trigger] self.stack[j] == v
    }
}

/// The state made of the given parts.
pub open spec fn scan_of(
    visited: Seq<bool>,
    finished: Seq<bool>,
    stack: Seq<usize>,
    finish: Seq<usize>,
    active: Seq<int>,
) -> ScanState {
    ScanState { visited, finished, stack, finish, active }
}

/// The stack and the open vertices fit together: the open vertices are those
/// opened at the active positions, nothing above an active position repeats
/// its vertex, and every open vertex reaches all that lies above it.
pub open spec fn scan_shape(adj: Seq<Seq<Node>>, st: ScanState) -> bool {
    &&& st.visited.len() == adj.len()
    &&& st.finished.len() == adj.len()
    &&& forall|v: int| 0 <= v < adj.len() && #[trigger] st.finished[v] ==> st.visited[v]
    &&& forall|j: int| 0 <= j < st.stack.len() ==> (#[trigger] st.stack[j]) < adj.len()
    &&& forall|m: int|
        0 <= m < st.active.len() ==> 0 <= #[trigger] st.active[m] < st.stack.len() && st.is_open(
            st.opened(m) as int,
        )
    &&& forall|a: int, b: int|
        0 <= a < b < st.active.len() ==> #[trigger] st.active[a] < #[trigger] st.active[b]
    &&& forall|v: int|
        0 <= v < adj.len() && #[trigger] st.is_open(v) ==> exists|m: int|
            0 <= m < st.active.len() && #[trigger] st.opened(m) == v
    &&& forall|m: int, j: int|
        0 <= m < st.active.len() && st.active[m] < j < st.stack.len() ==> #[trigger] st.stack[j]
            != #[trigger] st.opened(m) && reaches(adj, st.opened(m) as int, st.stack[j] as int)
}

/// The first `upto` edges of the vertex opened at `active[m]` end at a
/// vertex that is visited or lies above it on the stack.
pub open spec fn scan_explored(adj: Seq<Seq<Node>>, st: ScanState, m: int, upto: int) -> bool {
    forall|k: int|
        0 <= k < upto ==> st.visited[(#[trigger] adj[st.opened(m) as int][k]).to as int]
            || st.stacked_above(st.active[m], adj[st.opened(m) as int][k].to)
}

/// The edges of the vertex opened at `active[m]` are explored: all of them,
/// or the first `upto` if it is the last vertex opened.
pub open spec fn scan_row(adj: Seq<Seq<Node>>, st: ScanState, m: int, upto: int) -> bool {
    scan_explored(
        adj,
        st,
        m,
        if m == st.active.len() - 1 {
            upto
        } else {
            adj[st.opened(m) as int].len() as int
        },
    )
}

/// All edges of the open vertices are explored, but for the last of them,
/// of which the first `upto` are.
pub open spec fn scan_frontier(adj: Seq<Seq<Node>>, st: ScanState, upto: int) -> bool {
    forall|m: int| 0 <= m < st.active.len() ==> #[trigger] scan_row(adj, st, m, upto)
}

/// The edge `k` of the vertex finished at position `a` ends at a vertex that
/// was finished no later, or at one that reaches it.
pub open spec fn finish_edge(adj: Seq<Seq<Node>>, finish: Seq<usize>, a: int, k: int) -> bool {
    let u = finish[a];
    let v = adj[u as int][k].to;
    (exists|b: int| 0 <= b <= a && #[trigger] finish[b] == v) || reaches(adj, v as int, u as int)
}

/// The finishing order lists the finished vertices, each once, and an edge
/// points to a vertex finished later only where that vertex reaches it.
pub open spec fn scan_finish(adj: Seq<Seq<Node>>, st: ScanState) -> bool {
    &&& forall|v: usize|
        v < adj.len() ==> (st.finished[v as int] <==> #[trigger] st.finish.contains(v))
    &&& forall|a: int| 0 <= a < st.finish.len() ==> (#[trigger] st.finish[a]) < adj.len()
    &&& forall|a: int, b: int|
        0 <= a < b < st.finish.len() ==> #[trigger] st.finish[a] != #[trigger] st.finish[b]
    &&& st.finish.len() == adj.len() - pending_count(st.finished)
    &&& forall|a: int, k: int|
        0 <= a < st.finish.len() && 0 <= k < adj[st.finish[a] as int].len()
            ==> #[trigger] finish_edge(adj, st.finish, a, k)
}

/// The edges of every open vertex are explored.
pub open spec fn scan_settled(adj: Seq<Seq<Node>>, st: ScanState) -> bool {
    st.active.len() > 0 ==> scan_frontier(
        adj,
        st,
        adj[st.opened(st.active.len() - 1) as int].len() as int,
    )
}

/// The vertex on top of the stack is new: it becomes open.
proof fn lemma_scan_open(adj: Seq<Seq<Node>>, st: ScanState) -> (next: ScanState)
    requires
        well_formed(adj),
        scan_shape(adj, st),
        st.stack.len() > 0,
        !st.visited[st.stack.last() as int],
        st.active.len() > 0 ==> scan_frontier(
            adj,
            st,
            adj[st.opened(st.active.len() - 1) as int].len() as int,
        ),
    ensures
        next == (ScanState {
            visited: st.visited.update(st.stack.last() as int, true),
            active: st.active.push(st.stack.len() - 1),
            ..st
        }),
        scan_shape(adj, next),
        scan_frontier(adj, next, 0),
{
    let top = st.stack.len() - 1;
    let x = st.stack.last();
    let next = ScanState {
        visited: st.visited.update(x as int, true),
        active: st.active.push(top),
        ..st
    };
    assert forall|m: int| 0 <= m < next.active.len() implies 0 <= #[trigger] next.active[m]
        < next.stack.len() && next.is_open(next.opened(m) as int) by {
        if m < st.active.len() {
            assert(st.active[m] == next.active[m]);
            assert(st.is_open(st.opened(m) as int));
        }
    }
    assert forall|m: int| 0 <= m < st.active.len() implies st.active[m] < top by {
        assert(st.is_open(st.opened(m) as int));
        if st.active[m] == top {
            assert(st.opened(m) == x);
        }
    }
    assert forall|a: int, b: int| 0 <= a < b < next.active.len() implies #[trigger] next.active[a]
        < #[trigger] next.active[b] by {
        if b < st.active.len() {
            assert(st.active[a] < st.active[b]);
        }
    }
    assert forall|v: int| 0 <= v < adj.len() && #[trigger] next.is_open(v) implies exists|m: int|
        0 <= m < next.active.len() && #[trigger] next.opened(m) == v by {
        if v == x {
            assert(next.opened(st.active.len() as int) == x);
        } else {
            assert(st.is_open(v));
            let m = choose|m: int| 0 <= m < st.active.len() && #[trigger] st.opened(m) == v;
            assert(next.opened(m) == v);
        }
    }
    assert forall|m: int, j: int|
        0 <= m < next.active.len() && next.active[m] < j < next.stack.len() implies #[trigger] next.stack[j]
            != #[trigger] next.opened(m) && reaches(
        adj,
        next.opened(m) as int,
        next.stack[j] as int,
    ) by {
        assert(m < st.active.len());
        assert(st.stack[j] != st.opened(m));
    }
    assert forall|m: int| 0 <= m < next.active.len() implies #[trigger] scan_row(adj, next, m, 0) by {
        if m < st.active.len() {
            let full = adj[st.opened(m) as int].len() as int;
            assert(scan_row(adj, st, m, adj[st.opened(st.active.len() - 1) as int].len() as int));
            assert forall|k: int| 0 <= k < full implies next.visited[(#[trigger] adj[next.opened(
                m,
            ) as int][k]).to as int] || next.stacked_above(
                next.active[m],
                adj[next.opened(m) as int][k].to,
            ) by {
                let to = adj[st.opened(m) as int][k].to;
                if !st.visited[to as int] {
                    assert(st.stacked_above(st.active[m], to));
                    let j = choose|j: int|
                        st.active[m] < j < st.stack.len() && #[trigger] st.stack[j] == to;
                    assert(next.stack[j] == to);
                }
            }
        }
    }
    next
}

/// The edge `k` of the last open vertex is looked at: its end is pushed if
/// it is new.
proof fn lemma_scan_edge(adj: Seq<Seq<Node>>, st: ScanState, k: int) -> (next: ScanState)
    requires
        well_formed(adj),
        scan_shape(adj, st),
        st.active.len() > 0,
        0 <= k < adj[st.opened(st.active.len() - 1) as int].len(),
        scan_frontier(adj, st, k),
    ensures
        next == (if st.visited[adj[st.opened(st.active.len() - 1) as int][k].to as int] {
            st
        } else {
            ScanState {
                stack: st.stack.push(adj[st.opened(st.active.len() - 1) as int][k].to),
                ..st
            }
        }),
        scan_shape(adj, next),
        scan_frontier(adj, next, k + 1),
{
    let last = st.active.len() - 1;
    let x = st.opened(last);
    let to = adj[x as int][k].to;
    assert(st.is_open(x as int));
    lemma_edge_at(adj, x as int, k);
    if st.visited[to as int] {
        assert forall|m: int| 0 <= m < st.active.len() implies #[trigger] scan_row(adj, st, m, k + 1) by {
            assert(scan_row(adj, st, m, k));
        }
        st
    } else {
        let next = ScanState { stack: st.stack.push(to), ..st };
        let new_top = st.stack.len() as int;
        assert forall|m: int| 0 <= m < next.active.len() implies 0 <= #[trigger] next.active[m]
            < next.stack.len() && next.is_open(next.opened(m) as int) by {
            assert(st.is_open(st.opened(m) as int));
        }
        assert forall|v: int| 0 <= v < adj.len() && #[trigger] next.is_open(v) implies exists|
            m: int,
        |
            0 <= m < next.active.len() && #[trigger] next.opened(m) == v by {
            assert(st.is_open(v));
            let m = choose|m: int| 0 <= m < st.active.len() && #[trigger] st.opened(m) == v;
            assert(next.opened(m) == v);
        }
        assert forall|m: int, j: int|
            0 <= m < next.active.len() && next.active[m] < j < next.stack.len() implies #[trigger] next.stack[j]
                != #[trigger] next.opened(m) && reaches(
            adj,
            next.opened(m) as int,
            next.stack[j] as int,
        ) by {
            assert(st.is_open(st.opened(m) as int));
            if j < new_top {
                assert(st.stack[j] != st.opened(m));
            } else {
                if m == last {
                    lemma_reaches_self(adj, x as int);
                } else {
                    assert(st.active[m] < st.active[last]);
                    assert(st.stack[st.active[last]] != st.opened(m));
                }
                lemma_reaches_step(adj, st.opened(m) as int, adj[x as int][k]);
            }
        }
        assert forall|m: int| 0 <= m < next.active.len() implies #[trigger] scan_row(adj, next, m, k + 1) by {
            let had = if m == last {
                k
            } else {
                adj[st.opened(m) as int].len() as int
            };
            assert(scan_row(adj, st, m, k));
            assert(scan_explored(adj, st, m, had));
            assert forall|i: int| 0 <= i < (if m == last {
                k + 1
            } else {
                had
            }) implies next.visited[(#[trigger] adj[next.opened(m) as int][i]).to as int]
                || next.stacked_above(next.active[m], adj[next.opened(m) as int][i].to) by {
                let t = adj[st.opened(m) as int][i].to;
                if i < had {
                    if !st.visited[t as int] {
                        let j = choose|j: int|
                            st.active[m] < j < st.stack.len() && #[trigger] st.stack[j] == t;
                        assert(next.stack[j] == t);
                    }
                } else {
                    assert(next.stack[new_top] == t);
                }
            }
        }
        next
    }
}

/// The vertex on top of the stack is finished already: it leaves the stack.
proof fn lemma_scan_drop(adj: Seq<Seq<Node>>, st: ScanState, upto: int) -> (next: ScanState)
    requires
        well_formed(adj),
        scan_shape(adj, st),
        st.stack.len() > 0,
        st.finished[st.stack.last() as int],
        scan_frontier(adj, st, upto),
    ensures
        next == (ScanState { stack: st.stack.drop_last(), ..st }),
        scan_shape(adj, next),
        scan_frontier(adj, next, upto),
{
    let top = st.stack.len() - 1;
    let next = ScanState { stack: st.stack.drop_last(), ..st };
    assert forall|m: int| 0 <= m < st.active.len() implies st.active[m] < top by {
        assert(st.is_open(st.opened(m) as int));
    }
    assert forall|m: int| 0 <= m < next.active.len() implies 0 <= #[trigger] next.active[m]
        < next.stack.len() && next.is_open(next.opened(m) as int) by {
        assert(st.is_open(st.opened(m) as int));
    }
    assert forall|v: int| 0 <= v < adj.len() && #[trigger] next.is_open(v) implies exists|m: int|
        0 <= m < next.active.len() && #[trigger] next.opened(m) == v by {
        assert(st.is_open(v));
        let m = choose|m: int| 0 <= m < st.active.len() && #[trigger] st.opened(m) == v;
        assert(next.opened(m) == v);
    }
    assert forall|m: int, j: int|
        0 <= m < next.active.len() && next.active[m] < j < next.stack.len() implies #[trigger] next.stack[j]
            != #[trigger] next.opened(m) && reaches(
        adj,
        next.opened(m) as int,
        next.stack[j] as int,
    ) by {
        assert(st.stack[j] != st.opened(m));
    }
    assert forall|m: int| 0 <= m < next.active.len() implies #[trigger] scan_row(adj, next, m, upto) by {
        let had = if m == st.active.len() - 1 {
            upto
        } else {
            adj[st.opened(m) as int].len() as int
        };
        assert(scan_row(adj, st, m, upto));
        assert(scan_explored(adj, st, m, had));
        assert forall|i: int| 0 <= i < had implies next.visited[(#[trigger] adj[next.opened(
            m,
        ) as int][i]).to as int] || next.stacked_above(
            next.active[m],
            adj[next.opened(m) as int][i].to,
        ) by {
            let t = adj[st.opened(m) as int][i].to;
            if !st.visited[t as int] {
                let j = choose|j: int|
                    st.active[m] < j < st.stack.len() && #[trigger] st.stack[j] == t;
                assert(next.stack[j] == t);
            }
        }
    }
    next
}

/// The vertex on top of the stack is open: all its edges are explored, so it
/// is finished and leaves the stack.
proof fn lemma_scan_close(adj: Seq<Seq<Node>>, st: ScanState) -> (next: ScanState)
    requires
        well_formed(adj),
        scan_shape(adj, st),
        scan_finish(adj, st),
        st.stack.len() > 0,
        st.is_open(st.stack.last() as int),
        scan_settled(adj, st),
    ensures
        st.active.len() > 0,
        st.active.last() == st.stack.len() - 1,
        next == (ScanState {
            finished: st.finished.update(st.stack.last() as int, true),
            stack: st.stack.drop_last(),
            finish: st.finish.push(st.stack.last()),
            active: st.active.drop_last(),
            ..st
        }),
        scan_shape(adj, next),
        scan_finish(adj, next),
        next.active.len() > 0 ==> scan_frontier(
            adj,
            next,
            adj[next.opened(next.active.len() - 1) as int].len() as int,
        ),
{
    let top = st.stack.len() - 1;
    let last = st.active.len() - 1;
    let x = st.stack.last();
    let m0 = choose|m: int| 0 <= m < st.active.len() && #[trigger] st.opened(m) == x;
    assert(st.active[m0] == top) by {
        if st.active[m0] < top {
            assert(st.stack[top] != st.opened(m0));
        }
    }
    assert(m0 == last) by {
        if m0 < last {
            assert(st.active[m0] < st.active[last]);
        }
    }
    let next = ScanState {
        finished: st.finished.update(x as int, true),
        stack: st.stack.drop_last(),
        finish: st.finish.push(x),
        active: st.active.drop_last(),
        ..st
    };
    assert forall|m: int| 0 <= m < next.active.len() implies st.active[m] < top && st.opened(m)
        != x by {
        assert(st.active[m] < st.active[last]);
        assert(st.stack[top] != st.opened(m));
    }
    assert forall|m: int| 0 <= m < next.active.len() implies 0 <= #[trigger] next.active[m]
        < next.stack.len() && next.is_open(next.opened(m) as int) by {
        assert(st.active[m] < top && st.opened(m) != x);
        assert(st.is_open(st.opened(m) as int));
    }
    assert forall|a: int, b: int| 0 <= a < b < next.active.len() implies #[trigger] next.active[a]
        < #[trigger] next.active[b] by {
        assert(st.active[a] < st.active[b]);
    }
    assert forall|v: int| 0 <= v < adj.len() && #[trigger] next.is_open(v) implies exists|m: int|
        0 <= m < next.active.len() && #[trigger] next.opened(m) == v by {
        assert(st.is_open(v));
        let m = choose|m: int| 0 <= m < st.active.len() && #[trigger] st.opened(m) == v;
        assert(m != last);
        assert(st.active[m] < top && st.opened(m) != x);
        assert(next.opened(m) == v);
    }
    assert forall|m: int, j: int|
        0 <= m < next.active.len() && next.active[m] < j < next.stack.len() implies #[trigger] next.stack[j]
            != #[trigger] next.opened(m) && reaches(
        adj,
        next.opened(m) as int,
        next.stack[j] as int,
    ) by {
        assert(st.active[m] < top && st.opened(m) != x);
        assert(st.stack[j] != st.opened(m));
    }
    assert forall|m: int| 0 <= m < next.active.len() implies #[trigger] scan_explored(
        adj,
        next,
        m,
        adj[next.opened(m) as int].len() as int,
    ) by {
        assert(st.active[m] < top && st.opened(m) != x);
        let full = adj[st.opened(m) as int].len() as int;
        assert(scan_row(adj, st, m, adj[st.opened(st.active.len() - 1) as int].len() as int));
        assert forall|i: int| 0 <= i < full implies next.visited[(#[trigger] adj[next.opened(
            m,
        ) as int][i]).to as int] || next.stacked_above(
            next.active[m],
            adj[next.opened(m) as int][i].to,
        ) by {
            let t = adj[st.opened(m) as int][i].to;
            if !st.visited[t as int] {
                let j = choose|j: int|
                    st.active[m] < j < st.stack.len() && #[trigger] st.stack[j] == t;
                assert(next.stack[j] == t);
            }
        }
    }
    // The finishing order.
    lemma_pending_raise(st.finished, x as int);
    assert(st.finished[x as int] <==> st.finish.contains(x));
    assert forall|v: usize| v < adj.len() implies (next.finished[v as int]
        <==> #[trigger] next.finish.contains(v)) by {
        assert(st.finished[v as int] <==> st.finish.contains(v));
        if v == x {
            assert(next.finish[st.finish.len() as int] == x);
        } else if st.finished[v as int] {
            let a = choose|a: int| 0 <= a < st.finish.len() && st.finish[a] == v;
            assert(next.finish[a] == v);
        } else if next.finish.contains(v) {
            let a = choose|a: int| 0 <= a < next.finish.len() && next.finish[a] == v;
            assert(st.finish[a] == v);
        }
    }
    assert forall|a: int, b: int| 0 <= a < b < next.finish.len() implies #[trigger] next.finish[a]
        != #[trigger] next.finish[b] by {
        if b < st.finish.len() {
            assert(st.finish[a] != st.finish[b]);
        } else {
            assert(st.finish[a] == next.finish[a]);
        }
    }
    assert forall|a: int, k: int|
        0 <= a < next.finish.len() && 0 <= k < adj[next.finish[a] as int].len() implies #[trigger] finish_edge(
        adj,
        next.finish,
        a,
        k,
    ) by {
        if a < st.finish.len() {
            assert(finish_edge(adj, st.finish, a, k));
            let v = adj[st.finish[a] as int][k].to;
            if !reaches(adj, v as int, st.finish[a] as int) {
                let b = choose|b: int| 0 <= b <= a && #[trigger] st.finish[b] == v;
                assert(next.finish[b] == v);
            }
        } else {
            let v = adj[x as int][k].to;
            lemma_edge_at(adj, x as int, k);
            assert(scan_row(adj, st, last, adj[x as int].len() as int));
            assert(scan_explored(adj, st, last, adj[x as int].len() as int));
            assert(st.visited[v as int]);
            if st.finished[v as int] {
                assert(st.finish.contains(v));
                let b = choose|b: int| 0 <= b < st.finish.len() && st.finish[b] == v;
                assert(next.finish[b] == v);
            } else {
                assert(st.is_open(v as int));
                let m = choose|m: int| 0 <= m < st.active.len() && #[trigger] st.opened(m) == v;
                if m == last {
                    lemma_reaches_self(adj, x as int);
                } else {
                    assert(st.active[m] < st.active[last]);
                    assert(st.stack[top] != st.opened(m));
                }
            }
        }
    }
    next
}

/// With every vertex finished, the finishing order read backwards puts the
/// start of an edge before its end, unless the end reaches the start.
proof fn lemma_backward_edges(adj: Seq<Seq<Node>>, st: ScanState, order: Seq<usize>)
    requires
        well_formed(adj),
        scan_finish(adj, st),
        st.finish.len() == adj.len(),
        order.len() == adj.len(),
        forall|i: int| 0 <= i < order.len() ==> #[trigger] order[i] == st.finish[order.len() - 1 - i],
    ensures
        is_ordering(adj, order),
{
    let n = adj.len() as int;
    assert forall|i: int| 0 <= i < n implies (#[trigger] order[i]) < n by {
        assert(order[i] == st.finish[n - 1 - i]);
    }
    assert forall|i: int, j: int| 0 <= i < j < n implies #[trigger] order[i] != #[trigger] order[j] by {
        assert(st.finish[n - 1 - j] != st.finish[n - 1 - i]);
    }
    assert forall|i: int, j: int, k: int|
        0 <= i < j < n && 0 <= k < adj[order[j] as int].len() && (#[trigger] adj[order[j] as int][k]).to
            == #[trigger] order[i] implies reaches(adj, order[i] as int, order[j] as int) by {
        let a = n - 1 - j;
        assert(order[j] == st.finish[a]);
        assert(finish_edge(adj, st.finish, a, k));
        if !reaches(adj, order[i] as int, order[j] as int) {
            let b = choose|b: int| 0 <= b <= a && #[trigger] st.finish[b] == order[i];
            assert(st.finish[n - 1 - i] == order[i]);
            if b < n - 1 - i {
                assert(st.finish[b] != st.finish[n - 1 - i]);
            }
        }
    }
}

/// `order` lists every vertex of the graph once, and an edge points backwards
/// in it only where its end reaches its start: on a graph without cycles,
/// every edge points forwards.
pub open spec fn is_ordering(adj: Seq<Seq<Node>>, order: Seq<usize>) -> bool {
    &&& order.len() == adj.len()
    &&& forall|i: int| 0 <= i < order.len() ==> (#[trigger] order[i]) < adj.len()
    &&& forall|i: int, j: int|
        0 <= i < j < order.len() ==> #[trigger] order[i] != #[trigger] order[j]
    &&& forall|i: int, j: int, k: int|
        0 <= i < j < order.len() && 0 <= k < adj[order[j] as int].len() && (#[trigger] adj[order[j] as int][k]).to
            == #[trigger] order[i] ==> reaches(adj, order[i] as int, order[j] as int)
}

/// The stack after the ends of `edges[k..]` that are not visited have been
/// pushed, one after the other.
pub open spec fn scan_pushes(edges: Seq<Node>, visited: Seq<bool>, stack: Seq<usize>, k: int) -> Seq<
    usize,
>
    decreases edges.len() - k,
{
    if k < 0 || k >= edges.len() {
        stack
    } else {
        scan_pushes(
            edges,
            visited,
            if visited[edges[k].to as int] {
                stack
            } else {
                stack.push(edges[k].to)
            },
            k + 1,
        )
    }
}

/// One turn of the scan, which looks at the vertex on top of the stack. A
/// finished vertex leaves the stack. An open vertex leaves it and is
/// finished. A new vertex becomes open, and its neighbours that are not
/// visited are pushed.
pub open spec fn scan_turn(adj: Seq<Seq<Node>>, st: ScanState) -> ScanState {
    let top = st.stack.last();
    if st.finished[top as int] {
        ScanState { stack: st.stack.drop_last(), ..st }
    } else if st.visited[top as int] {
        ScanState {
            finished: st.finished.update(top as int, true),
            stack: st.stack.drop_last(),
            finish: st.finish.push(top),
            active: st.active.drop_last(),
            ..st
        }
    } else {
        let visited = st.visited.update(top as int, true);
        ScanState {
            visited,
            stack: scan_pushes(adj[top as int], visited, st.stack, 0),
            active: st.active.push(st.stack.len() - 1),
            ..st
        }
    }
}

/// The state after at most `turns` turns, which end when the stack is empty.
pub open spec fn scan_drain(adj: Seq<Seq<Node>>, st: ScanState, turns: nat) -> ScanState
    decreases turns,
{
    if turns == 0 {
        st
    } else {
        let before = scan_drain(adj, st, (turns - 1) as nat);
        if before.stack.len() == 0 {
            before
        } else {
            scan_turn(adj, before)
        }
    }
}

/// The scan turns to `root`: it is pushed unless it is visited.
pub open spec fn scan_enter(st: ScanState, root: usize) -> ScanState {
    if st.visited[root as int] {
        st
    } else {
        ScanState { stack: st.stack.push(root), ..st }
    }
}

/// The state in which the scan has seen the vertices below `i`, having
/// taken `turns[r]` turns for the vertex `r`.
pub open spec fn scan_roots(adj: Seq<Seq<Node>>, turns: Seq<nat>, i: nat) -> ScanState
    decreases i,
{
    if i == 0 {
        ScanState {
            visited: Seq::new(adj.len(), |v: int| false),
            finished: Seq::new(adj.len(), |v: int| false),
            stack: Seq::empty(),
            finish: Seq::empty(),
            active: Seq::empty(),
        }
    } else {
        scan_drain(
            adj,
            scan_enter(scan_roots(adj, turns, (i - 1) as nat), (i - 1) as usize),
            turns[i - 1],
        )
    }
}

/// `order` is what the scan yields: the vertices in reverse order of
/// finishing, where the scan has come to the end of its stack for every
/// vertex in turn.
pub open spec fn scans_to(adj: Seq<Seq<Node>>, turns: Seq<nat>, order: Seq<usize>) -> bool {
    &&& turns.len() == adj.len()
    &&& forall|r: nat| 1 <= r <= adj.len() ==> (#[trigger] scan_roots(adj, turns, r)).stack.len() == 0
    &&& order == scan_roots(adj, turns, adj.len()).finish.reverse()
}

/// The turns taken for later vertices do not change the states before them.
pub proof fn lemma_scan_roots_prefix(adj: Seq<Seq<Node>>, turns: Seq<nat>, more: nat, i: nat)
    requires
        i <= turns.len(),
    ensures
        scan_roots(adj, turns.push(more), i) == scan_roots(adj, turns, i),
    decreases i,
{
    if i > 0 {
        lemma_scan_roots_prefix(adj, turns, more, (i - 1) as nat);
    }
}

impl Graph {
    /// Orders the vertices by a depth-first scan from each vertex in turn,
    /// latest finished first.
    ///
    /// Every vertex occurs once in the order. An edge whose end does not
    /// reach its start, as every edge of a graph without cycles, has its
    /// start before its end.
    pub fn topological_sort(&self) -> (order: Vec<usize>)
        requires
            self.wf(),
        ensures
            is_ordering(self@.adj, order@),
            exists|turns: Seq<nat>| scans_to(self@.adj, turns, order@),
    {
        let n: usize = self.edges.len();
        let ghost adj = self@.adj;
        let mut visited: Vec<bool> = lowered(n);
        let mut finished: Vec<bool> = lowered(n);
        let mut stack: Vec<usize> = Vec::new();
        let mut finish: Vec<usize> = Vec::with_capacity(n);
        let ghost mut active: Seq<int> = Seq::empty();
        let ghost mut turns: Seq<nat> = Seq::empty();
        proof {
            lemma_pending_uniform(finished@, false);
            assert(stack@ =~= Seq::<usize>::empty());
            assert(finish@ =~= Seq::<usize>::empty());
        }
        let mut i: usize = 0;
        while i < n
            invariant
                self.wf(),
                adj == self@.adj,
                n == adj.len(),
                i <= n,
                stack@.len() == 0,
                active.len() == 0,
                scan_shape(adj, scan_of(visited@, finished@, stack@, finish@, active)),
                scan_finish(adj, scan_of(visited@, finished@, stack@, finish@, active)),
                forall|v: int| 0 <= v < i ==> #[trigger] finished@[v],
                turns.len() == i,
                forall|r: nat| 1 <= r <= i ==> (#[trigger] scan_roots(adj, turns, r)).stack.len() == 0,
                scan_roots(adj, turns, i as nat) == scan_of(visited@, finished@, stack@, finish@, active),
            decreases n - i,
        {
            let ghost rooted = scan_of(visited@, finished@, stack@, finish@, active);
            if !visited[i] {
                proof {
                    let st = scan_of(visited@, finished@, stack@, finish@, active);
                    assert(stack@ =~= Seq::<usize>::empty());
                    assert forall|v: int| 0 <= v < adj.len() implies !#[trigger] st.is_open(v) by {
                        if st.is_open(v) {
                            let m = choose|m: int|
                                0 <= m < st.active.len() && #[trigger] st.opened(m) == v;
                        }
                    }
                }
                stack.push(i);
                proof {
                    assert(stack@[0] == i);
                    let st = ScanState {
                        visited: visited@,
                        finished: finished@,
                        stack: Seq::<usize>::empty(),
                        finish: finish@,
                        active,
                    };
                    let pushed = ScanState { stack: stack@, ..st };
                    assert forall|v: int| 0 <= v < adj.len() implies !#[trigger] pushed.is_open(
                        v,
                    ) by {
                        assert(!st.is_open(v));
                    }
                }
            } else {
                proof {
                    let st = scan_of(visited@, finished@, stack@, finish@, active);
                    if st.is_open(i as int) {
                        let m = choose|m: int|
                            0 <= m < st.active.len() && #[trigger] st.opened(m) == i;
                    }
                }
            }
            proof {
                lemma_pending_bounds(visited@);
            }
            let ghost entered = scan_of(visited@, finished@, stack@, finish@, active);
            let ghost mut taken: nat = 0;
            assert(entered == scan_enter(rooted, i));
            while stack.len() > 0
                invariant
                    self.wf(),
                    adj == self@.adj,
                    n == adj.len(),
                    i < n,
                    scan_drain(adj, entered, taken) == scan_of(visited@, finished@, stack@, finish@, active),
                    scan_shape(adj, scan_of(visited@, finished@, stack@, finish@, active)),
                    scan_finish(adj, scan_of(visited@, finished@, stack@, finish@, active)),
                    scan_settled(adj, scan_of(visited@, finished@, stack@, finish@, active)),
                    visited@[i as int] || stack@.contains(i),
                    forall|v: int| 0 <= v < i ==> #[trigger] finished@[v],
                    pending_count(visited@) >= 0,
                decreases pending_count(visited@), stack@.len(),
            {
                let ghost st = scan_of(visited@, finished@, stack@, finish@, active);
                let top: usize = stack[stack.len() - 1];
                assert(top == st.stack.last());
                if finished[top] {
                    proof {
                        let quota = if active.len() > 0 {
                            adj[st.opened(active.len() - 1) as int].len() as int
                        } else {
                            0
                        };
                        lemma_scan_drop(adj, st, quota);
                        if !visited@[i as int] {
                            let j = choose|j: int| 0 <= j < stack@.len() && stack@[j] == i;
                            assert(stack@.drop_last()[j] == i);
                        }
                    }
                    stack.pop();
                    proof {
                        assert(scan_turn(adj, st) == scan_of(visited@, finished@, stack@, finish@, active));
                        taken = taken + 1;
                    }
                } else if visited[top] {
                    proof {
                        let after = lemma_scan_close(adj, st);
                        active = after.active;
                        if !visited@[i as int] {
                            let j = choose|j: int| 0 <= j < stack@.len() && stack@[j] == i;
                            assert(stack@.drop_last()[j] == i);
                        }
                    }
                    stack.pop();
                    finished[top] = true;
                    finish.push(top);
                    assert(forall|v: int| 0 <= v < i ==> #[trigger] finished@[v]);
                    proof {
                        assert(scan_turn(adj, st) == scan_of(visited@, finished@, stack@, finish@, active));
                        taken = taken + 1;
                    }
                } else {
                    proof {
                        let after = lemma_scan_open(adj, st);
                        active = after.active;
                        lemma_pending_raise(visited@, top as int);
                    }
                    visited[top] = true;
                    let degree: usize = self.edges[top].len();
                    let mut k: usize = 0;
                    while k < degree
                        invariant
                            self.wf(),
                            adj == self@.adj,
                            n == adj.len(),
                            i < n,
                            top < n,
                            k <= degree,
                            degree == adj[top as int].len(),
                            active.len() > 0,
                            stack@[active.last()] == top,
                            stack@.len() > 0,
                            visited@ == st.visited.update(top as int, true),
                            finished@ == st.finished,
                            finish@ == st.finish,
                            active == st.active.push(st.stack.len() - 1),
                            scan_pushes(adj[top as int], visited@, stack@, k as int)
                                == scan_pushes(adj[top as int], visited@, st.stack, 0),
                            scan_shape(adj, scan_of(visited@, finished@, stack@, finish@, active)),
                            scan_frontier(adj, scan_of(visited@, finished@, stack@, finish@, active), k as int),
                            visited@[i as int] || stack@.contains(i),
                        decreases degree - k,
                    {
                        let target: usize = self.edges[top][k].to;
                        proof {
                            let now = scan_of(visited@, finished@, stack@, finish@, active);
                            lemma_edge_at(adj, top as int, k as int);
                            assert(self.edges[top as int][k as int] == adj[top as int][k as int]);
                            lemma_scan_edge(adj, now, k as int);
                        }
                        if !visited[target] {
                            let ghost below = stack@;
                            stack.push(target);
                            proof {
                                if !visited@[i as int] {
                                    let j = choose|j: int| 0 <= j < below.len() && below[j] == i;
                                    assert(stack@[j] == i);
                                }
                            }
                        }
                        k += 1;
                    }
                    proof {
                        assert(scan_turn(adj, st) == scan_of(visited@, finished@, stack@, finish@, active));
                        taken = taken + 1;
                    }
                }
            }
            proof {
                let grown = turns.push(taken);
                assert forall|r: nat| 1 <= r <= i + 1 implies (#[trigger] scan_roots(
                    adj,
                    grown,
                    r,
                )).stack.len() == 0 by {
                    if r <= i {
                        lemma_scan_roots_prefix(adj, turns, taken, r);
                    } else {
                        lemma_scan_roots_prefix(adj, turns, taken, i as nat);
                    }
                }
                lemma_scan_roots_prefix(adj, turns, taken, i as nat);
                turns = grown;
            }
            proof {
                let st = scan_of(visited@, finished@, stack@, finish@, active);
                if active.len() > 0 {
                    assert(0 <= st.active[0] < st.stack.len());
                }
                if st.is_open(i as int) {
                    let m = choose|m: int| 0 <= m < st.active.len() && #[trigger] st.opened(m) == i;
                }
            }
            i += 1;
        }
        proof {
            lemma_pending_uniform(finished@, true);
        }
        let ghost done = scan_of(visited@, finished@, stack@, finish@, active);
        let mut order: Vec<usize> = Vec::with_capacity(n);
        let mut left: usize = n;
        while left > 0
            invariant
                left <= n,
                finish@.len() == n,
                order@.len() == n - left,
                forall|p: int| 0 <= p < order@.len() ==> #[trigger] order@[p] == finish@[n - 1 - p],
            decreases left,
        {
            left -= 1;
            order.push(finish[left]);
        }
        proof {
            lemma_backward_edges(adj, done, order@);
            assert(order@ =~= done.finish.reverse());
            assert(scans_to(adj, turns, order@));
        }
        order
    }
}

} // verus!
