//! Heuristic search towards one target. The frontier is ordered by the
//! Manhattan distance between a vertex and the target alone, and the search
//! ends as soon as the target leaves the frontier, so the distance reported
//! is that of the path found first, which need not be a shortest one.
//!
//! As with the meet-in-the-middle search, the search is defined step by step
//! as a function on states, and the executable search computes that function.

use crate::distance::{extend, filled, UNREACHED};
use crate::frontier::{
    is_least, least, lemma_queue_empty, lemma_queue_insert, lemma_queue_remove, Entry,
    PriorityQueue,
};
use crate::graph::{nonnegative_weights, well_formed, Graph, Node, Point};
use crate::measure::{lemma_tally_bounds, lemma_tally_change, tally};
use crate::paths::{is_walk, lemma_edge_at, lemma_walk_push, walk_weight};
use vstd::multiset::Multiset;
use vstd::prelude::*;

verus! {

/// The parent of a vertex that the search has not yet found.
pub const NO_PARENT: i64 = -1;

/// The Manhattan distance `|a.x - b.x| + |a.y - b.y|`.
pub open spec fn manhattan(a: Point, b: Point) -> int {
    (if a.x >= b.x {
        a.x - b.x
    } else {
        b.x - a.x
    }) + (if a.y >= b.y {
        a.y - b.y
    } else {
        b.y - a.y
    })
}

/// A state of the search.
pub struct GuidedState {
    /// The cost of the path by which each vertex was last found.
    pub distances: Seq<i64>,
    /// The vertex from which each vertex was last found.
    pub parents: Seq<i64>,
    /// The vertices that wait to be expanded.
    pub frontier: Multiset<Entry>,
    /// The target has left the frontier.
    pub halted: bool,
}

/// The state before the first step: only `start` is queued, at cost zero.
pub open spec fn guided_start(n: nat, start: usize) -> GuidedState {
    GuidedState {
        distances: Seq::new(n, |v: int| UNREACHED).update(start as int, 0),
        parents: Seq::new(n, |v: int| NO_PARENT),
        frontier: Multiset::empty().insert(Entry { priority: 0, vertex: start }),
        halted: false,
    }
}

/// Whether the edge `e`, looked at from `actual`, is taken: its candidate
/// cost is an `i64`, and its target is new or was found at a higher cost.
pub open spec fn guided_takes(st: GuidedState, e: Node, actual: usize) -> bool {
    match extend(st.distances[actual as int], e.weight) {
        Some(c) => st.parents[e.to as int] == NO_PARENT || st.distances[e.to as int] > c,
        None => false,
    }
}

/// One edge: if it is taken, its target gets the candidate cost and `actual`
/// as parent, and is queued under its Manhattan distance to the target.
pub open spec fn guided_edge(
    points: Seq<Point>,
    st: GuidedState,
    e: Node,
    actual: usize,
    target: usize,
) -> GuidedState {
    if guided_takes(st, e, actual) {
        GuidedState {
            distances: st.distances.update(
                e.to as int,
                extend(st.distances[actual as int], e.weight).unwrap(),
            ),
            parents: st.parents.update(e.to as int, actual as i64),
            frontier: st.frontier.insert(
                Entry {
                    priority: manhattan(points[e.to as int], points[target as int]) as i64,
                    vertex: e.to,
                },
            ),
            ..st
        }
    } else {
        st
    }
}

/// The edges `edges[k..]` of `actual`, one after the other.
pub open spec fn guided_expand(
    edges: Seq<Node>,
    points: Seq<Point>,
    st: GuidedState,
    actual: usize,
    target: usize,
    k: int,
) -> GuidedState
    decreases edges.len() - k,
{
    if k < 0 || k >= edges.len() {
        st
    } else {
        guided_expand(
            edges,
            points,
            guided_edge(points, st, edges[k], actual, target),
            actual,
            target,
            k + 1,
        )
    }
}

/// One step: the entry of least priority leaves the frontier. If it is the
/// target, the search halts; otherwise its vertex is expanded.
pub open spec fn guided_step(
    adj: Seq<Seq<Node>>,
    points: Seq<Point>,
    st: GuidedState,
    target: usize,
) -> GuidedState {
    let first = least(st.frontier);
    let actual = first.vertex;
    let popped = GuidedState { frontier: st.frontier.remove(first), ..st };
    if actual == target {
        GuidedState { halted: true, ..popped }
    } else {
        guided_expand(adj[actual as int], points, popped, actual, target, 0)
    }
}

/// The search is over: it has halted at the target, or nothing is queued.
pub open spec fn guided_done(st: GuidedState) -> bool {
    st.halted || st.frontier.len() == 0
}

/// The state after at most `steps` steps; a search that is over stays as it
/// is.
pub open spec fn guided_run(
    adj: Seq<Seq<Node>>,
    points: Seq<Point>,
    st: GuidedState,
    target: usize,
    steps: nat,
) -> GuidedState
    decreases steps,
{
    if steps == 0 {
        st
    } else {
        let before = guided_run(adj, points, st, target, (steps - 1) as nat);
        if guided_done(before) {
            before
        } else {
            guided_step(adj, points, before, target)
        }
    }
}

/// A search that is over stays in the state it is in: its result can be read
/// after any number of steps at which it is over.
pub proof fn lemma_guided_run_settles(
    adj: Seq<Seq<Node>>,
    points: Seq<Point>,
    st: GuidedState,
    target: usize,
    steps: nat,
    later: nat,
)
    requires
        steps <= later,
        guided_done(guided_run(adj, points, st, target, steps)),
    ensures
        guided_run(adj, points, st, target, later) == guided_run(adj, points, st, target, steps),
    decreases later,
{
    if later > steps {
        lemma_guided_run_settles(adj, points, st, target, steps, (later - 1) as nat);
    }
}

/// The graphs on which the search can run: weights are not negative, every
/// vertex has its coordinates, and the Manhattan distance of each vertex to
/// the target is an `i64`.
pub open spec fn guided_ready(
    adj: Seq<Seq<Node>>,
    points: Seq<Point>,
    start: usize,
    target: usize,
) -> bool {
    &&& well_formed(adj)
    &&& nonnegative_weights(adj)
    &&& start < adj.len()
    &&& target < adj.len()
    &&& points.len() >= adj.len()
    &&& forall|v: int|
        0 <= v < adj.len() ==> manhattan(#[trigger] points[v], points[target as int]) <= i64::MAX
}

/// What holds of every state that the search passes through.
pub open spec fn guided_inv(adj: Seq<Seq<Node>>, start: int, st: GuidedState) -> bool {
    &&& st.distances.len() == adj.len()
    &&& st.parents.len() == adj.len()
    &&& forall|v: int| 0 <= v < st.distances.len() ==> #[trigger] st.distances[v] >= 0
    &&& forall|e: Entry| #[trigger] st.frontier.contains(e) ==> e.vertex < adj.len()
    &&& forall|v: int|
        0 <= v < adj.len() && #[trigger] st.distances[v] != UNREACHED ==> is_cost_of_walk(
            adj,
            start,
            v,
            st.distances[v] as int,
        )
}

/// Some walk from `s` to `t` weighs `d`.
pub open spec fn is_cost_of_walk(adj: Seq<Seq<Node>>, s: int, t: int, d: int) -> bool {
    exists|w: Seq<Node>| #[trigger] is_walk(adj, w, s, t) && walk_weight(w) == d
}

/// How many vertices the search has not yet found.
pub open spec fn unfound_count(parents: Seq<i64>) -> int {
    tally(
        parents.len(),
        |v: int|
            if parents[v] == NO_PARENT {
                1int
            } else {
                0int
            },
    )
}

/// The sum of the costs of the vertices found.
pub open spec fn found_sum(parents: Seq<i64>, distances: Seq<i64>) -> int {
    tally(
        parents.len(),
        |v: int|
            if parents[v] == NO_PARENT {
                0int
            } else {
                distances[v] as int
            },
    )
}

/// `next` is no further from the end than `prev`: either nothing was taken,
/// or the pair (vertices not found, sum of the costs found) went down in the
/// lexicographic order.
pub open spec fn guided_advances(prev: GuidedState, next: GuidedState) -> bool {
    let u0 = unfound_count(prev.parents);
    let s0 = found_sum(prev.parents, prev.distances);
    let u1 = unfound_count(next.parents);
    let s1 = found_sum(next.parents, next.distances);
    ||| (u1 == u0 && s1 == s0 && next.frontier.len() == prev.frontier.len())
    ||| u1 < u0
    ||| (u1 == u0 && s1 < s0)
}

/// A step brings the search closer to its end: the triple (vertices not
/// found, sum of the costs found, queued vertices) goes down in the
/// lexicographic order.
pub open spec fn guided_descends(prev: GuidedState, next: GuidedState) -> bool {
    let u0 = unfound_count(prev.parents);
    let s0 = found_sum(prev.parents, prev.distances);
    let u1 = unfound_count(next.parents);
    let s1 = found_sum(next.parents, next.distances);
    ||| u1 < u0
    ||| (u1 == u0 && s1 < s0)
    ||| (u1 == u0 && s1 == s0 && next.frontier.len() < prev.frontier.len())
}

/// Both measures of a state without negative costs are natural numbers.
pub proof fn lemma_guided_measures(parents: Seq<i64>, distances: Seq<i64>)
    requires
        parents.len() == distances.len(),
        forall|v: int| 0 <= v < distances.len() ==> #[trigger] distances[v] >= 0,
    ensures
        0 <= unfound_count(parents),
        0 <= found_sum(parents, distances),
{
    lemma_tally_bounds(
        parents.len(),
        |v: int|
            if parents[v] == NO_PARENT {
                1int
            } else {
                0int
            },
        0,
        1,
    );
    lemma_tally_bounds(
        parents.len(),
        |v: int|
            if parents[v] == NO_PARENT {
                0int
            } else {
                distances[v] as int
            },
        0,
        i64::MAX as int,
    );
    assert(parents.len() * 0 == 0) by (nonlinear_arith);
}

/// What taking an edge to `v` does to the two measures.
pub proof fn lemma_guided_update(
    parents: Seq<i64>,
    distances: Seq<i64>,
    v: int,
    parent: i64,
    cost: i64,
)
    requires
        parents.len() == distances.len(),
        0 <= v < parents.len(),
        parent != NO_PARENT,
    ensures
        unfound_count(parents.update(v, parent)) == unfound_count(parents) - (if parents[v]
            == NO_PARENT {
            1int
        } else {
            0int
        }),
        found_sum(parents.update(v, parent), distances.update(v, cost)) == found_sum(
            parents,
            distances,
        ) - (if parents[v] == NO_PARENT {
            0int
        } else {
            distances[v] as int
        }) + cost,
{
    let p = parents.update(v, parent);
    let d = distances.update(v, cost);
    lemma_tally_change(
        parents.len(),
        |i: int|
            if parents[i] == NO_PARENT {
                1int
            } else {
                0int
            },
        |i: int|
            if p[i] == NO_PARENT {
                1int
            } else {
                0int
            },
        v,
    );
    lemma_tally_change(
        parents.len(),
        |i: int|
            if parents[i] == NO_PARENT {
                0int
            } else {
                distances[i] as int
            },
        |i: int|
            if p[i] == NO_PARENT {
                0int
            } else {
                d[i] as int
            },
        v,
    );
}

/// The search as it runs.
pub struct GuidedSearch {
    pub distances: Vec<i64>,
    pub parents: Vec<i64>,
    pub frontier: PriorityQueue,
    pub halted: bool,
}

impl View for GuidedSearch {
    type V = GuidedState;

    open spec fn view(&self) -> GuidedState {
        GuidedState {
            distances: self.distances@,
            parents: self.parents@,
            frontier: self.frontier@,
            halted: self.halted,
        }
    }
}

impl GuidedSearch {
    /// The invariant of the search: its frontier is a well-formed queue.
    pub open spec fn wf(&self) -> bool {
        self.frontier.wf()
    }

    /// The search before its first step.
    pub fn start(g: &Graph, start: usize, target: usize) -> (s: Self)
        requires
            guided_ready(g@.adj, g@.points, start, target),
        ensures
            s.wf(),
            s@ == guided_start(g@.adj.len(), start),
            guided_inv(g@.adj, start as int, s@),
    {
        let n: usize = g.edges.len();
        let mut distances = filled(n, UNREACHED);
        distances[start] = 0;
        let parents = filled(n, NO_PARENT);
        let mut frontier = PriorityQueue::new();
        frontier.push(0, start);
        let s = GuidedSearch { distances, parents, frontier, halted: false };
        proof {
            lemma_queue_insert(Multiset::<Entry>::empty(), Entry { priority: 0, vertex: start });
            lemma_queue_empty(Multiset::<Entry>::empty());
            assert(is_walk(g@.adj, Seq::<Node>::empty(), start as int, start as int));
            assert(walk_weight(Seq::<Node>::empty()) == 0);
            assert(is_cost_of_walk(g@.adj, start as int, start as int, 0));
        }
        s
    }

    /// Handles the edge `k` of `actual`.
    pub fn edge(&mut self, g: &Graph, actual: usize, k: usize, start: usize, target: usize)
        requires
            guided_ready(g@.adj, g@.points, start, target),
            old(self).wf(),
            guided_inv(g@.adj, start as int, old(self)@),
            actual < g@.adj.len(),
            k < g@.adj[actual as int].len(),
        ensures
            final(self).wf(),
            final(self)@ == guided_edge(
                g@.points,
                old(self)@,
                g@.adj[actual as int][k as int],
                actual,
                target,
            ),
            guided_inv(g@.adj, start as int, final(self)@),
            guided_advances(old(self)@, final(self)@),
    {
        let e: Node = g.edges[actual][k];
        assert(e == g@.adj[actual as int][k as int]);
        let ghost before = self@;
        match self.distances[actual].checked_add(e.weight) {
            Some(c) => {
                if self.parents[e.to] == NO_PARENT || self.distances[e.to] > c {
                    proof {
                        lemma_guided_update(
                            before.parents,
                            before.distances,
                            e.to as int,
                            actual as i64,
                            c,
                        );
                        lemma_guided_measures(before.parents, before.distances);
                        lemma_queue_insert(
                            before.frontier,
                            Entry {
                                priority: manhattan(
                                    g@.points[e.to as int],
                                    g@.points[target as int],
                                ) as i64,
                                vertex: e.to,
                            },
                        );
                    }
                    self.parents[e.to] = actual as i64;
                    self.distances[e.to] = c;
                    let priority = g.a_search_heuristic(&g.points[e.to], &g.points[target]);
                    self.frontier.push(priority, e.to);
                    proof {
                        lemma_edge_at(g@.adj, actual as int, k as int);
                        assert forall|v: int|
                            0 <= v < g@.adj.len() && #[trigger] self@.distances[v]
                                != UNREACHED implies is_cost_of_walk(
                            g@.adj,
                            start as int,
                            v,
                            self@.distances[v] as int,
                        ) by {
                            if v == e.to {
                                assert(before.distances[actual as int] != UNREACHED);
                                assert(is_cost_of_walk(
                                    g@.adj,
                                    start as int,
                                    actual as int,
                                    before.distances[actual as int] as int,
                                ));
                                let w = choose|w: Seq<Node>| #[trigger]
                                    is_walk(g@.adj, w, start as int, actual as int) && walk_weight(
                                        w,
                                    ) == before.distances[actual as int];
                                lemma_walk_push(g@.adj, w, start as int, e);
                                assert(is_walk(g@.adj, w.push(e), start as int, v) && walk_weight(
                                    w.push(e),
                                ) == c);
                            } else {
                                assert(before.distances[v] != UNREACHED);
                                assert(is_cost_of_walk(
                                    g@.adj,
                                    start as int,
                                    v,
                                    before.distances[v] as int,
                                ));
                            }
                        }
                    }
                }
            },
            None => {},
        }
    }

    /// Handles all edges of `actual`.
    pub fn expand(&mut self, g: &Graph, actual: usize, start: usize, target: usize)
        requires
            guided_ready(g@.adj, g@.points, start, target),
            old(self).wf(),
            guided_inv(g@.adj, start as int, old(self)@),
            actual < g@.adj.len(),
        ensures
            final(self).wf(),
            final(self)@ == guided_expand(
                g@.adj[actual as int],
                g@.points,
                old(self)@,
                actual,
                target,
                0,
            ),
            guided_inv(g@.adj, start as int, final(self)@),
            guided_advances(old(self)@, final(self)@),
    {
        let ghost edges = g@.adj[actual as int];
        let count: usize = g.edges[actual].len();
        let mut k: usize = 0;
        while k < count
            invariant
                guided_ready(g@.adj, g@.points, start, target),
                self.wf(),
                guided_inv(g@.adj, start as int, self@),
                actual < g@.adj.len(),
                edges == g@.adj[actual as int],
                count == edges.len(),
                k <= count,
                guided_expand(edges, g@.points, self@, actual, target, k as int) == guided_expand(
                    edges,
                    g@.points,
                    old(self)@,
                    actual,
                    target,
                    0,
                ),
                guided_advances(old(self)@, self@),
            decreases count - k,
        {
            self.edge(g, actual, k, start, target);
            k += 1;
        }
    }

    /// One step of a search that is not over.
    pub fn step(&mut self, g: &Graph, start: usize, target: usize)
        requires
            guided_ready(g@.adj, g@.points, start, target),
            old(self).wf(),
            guided_inv(g@.adj, start as int, old(self)@),
            !guided_done(old(self)@),
        ensures
            final(self).wf(),
            final(self)@ == guided_step(g@.adj, g@.points, old(self)@, target),
            guided_inv(g@.adj, start as int, final(self)@),
            guided_descends(old(self)@, final(self)@),
    {
        let ghost before = self@;
        match self.frontier.pop() {
            Some(entry) => {
                proof {
                    assert(is_least(before.frontier, entry));
                    lemma_queue_remove(before.frontier, entry);
                }
                assert(self@ == (GuidedState {
                    frontier: before.frontier.remove(least(before.frontier)),
                    ..before
                }));
                if entry.vertex == target {
                    self.halted = true;
                } else {
                    self.expand(g, entry.vertex, start, target);
                }
            },
            None => {},
        }
    }
}

impl Graph {
    /// The Manhattan distance between two positions.
    pub fn a_search_heuristic(&self, a: &Point, b: &Point) -> (h: i64)
        requires
            manhattan(*a, *b) <= i64::MAX,
        ensures
            h == manhattan(*a, *b),
    {
        let dx: i64 = if a.x >= b.x {
            a.x - b.x
        } else {
            b.x - a.x
        };
        let dy: i64 = if a.y >= b.y {
            a.y - b.y
        } else {
            b.y - a.y
        };
        dx + dy
    }

    /// Searches from `start` towards `target`, guided by the coordinates, and
    /// returns the cost at which the target was found, or `i64::MAX` if it
    /// was not.
    ///
    /// The result is read off the search defined by `guided_run`, at the step
    /// where it is over. Where it is not `i64::MAX`, it is the weight of a
    /// walk from `start` to `target`.
    pub fn a_search(&self, start: usize, target: usize) -> (cost: i64)
        requires
            self.wf(),
            guided_ready(self@.adj, self@.points, start, target),
        ensures
            exists|steps: nat|
                {
                    let end = #[trigger] guided_run(
                        self@.adj,
                        self@.points,
                        guided_start(self@.adj.len(), start),
                        target,
                        steps,
                    );
                    guided_done(end) && cost == end.distances[target as int]
                },
            cost == UNREACHED || is_cost_of_walk(
                self@.adj,
                start as int,
                target as int,
                cost as int,
            ),
    {
        let mut search = GuidedSearch::start(self, start, target);
        let ghost first = search@;
        let ghost mut steps: nat = 0;
        while !search.frontier.is_empty() && !search.halted
            invariant
                self.wf(),
                guided_ready(self@.adj, self@.points, start, target),
                search.wf(),
                guided_inv(self@.adj, start as int, search@),
                first == guided_start(self@.adj.len(), start),
                search@ == guided_run(self@.adj, self@.points, first, target, steps),
            decreases
                    unfound_count(search@.parents),
                    found_sum(search@.parents, search@.distances),
                    search@.frontier.len(),
        {
            proof {
                lemma_guided_measures(search@.parents, search@.distances);
            }
            search.step(self, start, target);
            proof {
                steps = steps + 1;
                lemma_guided_measures(search@.parents, search@.distances);
            }
        }
        assert(guided_done(search@));
        search.distances[target]
    }
}

} // verus!
