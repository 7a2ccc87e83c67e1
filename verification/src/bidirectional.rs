//! Meet-in-the-middle search: two frontiers, one rooted at each endpoint,
//! take turns until an edge of one side ends at a vertex that the other side
//! has recorded.
//!
//! The search is defined here step by step as a function on states, and the
//! executable search is proved to compute exactly that function. The search
//! is a heuristic: its answer need not be a shortest distance, and where two
//! endpoints are neighbours an edge between them can be counted more than
//! once.

use crate::distance::{
    extend, filled, lemma_measures_nonnegative, lemma_measures_update, reached_sum,
    unreached_count, UNREACHED,
};
use crate::frontier::{
    is_least, least, lemma_queue_empty, lemma_queue_insert, lemma_queue_remove, Entry,
    PriorityQueue,
};
use crate::graph::{nonnegative_weights, well_formed, Graph, Node};
use std::collections::HashSet;
use vstd::multiset::Multiset;
use vstd::prelude::*;

verus! {

broadcast use vstd::std_specs::hash::group_hash_axioms;

/// The side whose turn it is.
#[derive(Clone, Copy, Debug, PartialEq, Eq, Structural)]
pub enum Side {
    A,
    B,
}

impl Side {
    /// The side that moves after this one.
    pub open spec fn other(self) -> Side {
        match self {
            Side::A => Side::B,
            Side::B => Side::A,
        }
    }

    /// The side that moves after this one.
    pub fn flip(self) -> (s: Side)
        ensures
            s == self.other(),
    {
        match self {
            Side::A => Side::B,
            Side::B => Side::A,
        }
    }
}

/// A state of the search.
pub struct MeetState {
    /// The table shared by both sides.
    pub distances: Seq<i64>,
    /// The vertices that each side has still to expand.
    pub frontier_a: Multiset<Entry>,
    pub frontier_b: Multiset<Entry>,
    /// The vertices that each side has seen at the end of an edge.
    pub group_a: Set<usize>,
    pub group_b: Set<usize>,
    pub turn: Side,
    /// The edge at which the two sides met.
    pub middle: Option<Node>,
}

/// How a vertex is queued: the frontiers hand out the least vertex first.
pub open spec fn queued(v: usize) -> Entry {
    Entry { priority: v as i64, vertex: v }
}

/// The state before the first turn: both endpoints at distance zero, each in
/// the frontier of its side, and side `B` to move.
pub open spec fn meet_start(n: nat, from: usize, to: usize) -> MeetState {
    MeetState {
        distances: Seq::new(n, |v: int| UNREACHED).update(from as int, 0).update(to as int, 0),
        frontier_a: Multiset::empty().insert(queued(from)),
        frontier_b: Multiset::empty().insert(queued(to)),
        group_a: Set::empty(),
        group_b: Set::empty(),
        turn: Side::A.other(),
        middle: None,
    }
}

/// Whether the edge `e`, looked at from `actual`, is taken: its candidate
/// distance is an `i64`, and either improves on the distance of its target or
/// the target is an endpoint that still has its initial zero.
pub open spec fn meet_takes(st: MeetState, e: Node, actual: usize, from: usize, to: usize) -> bool {
    match extend(st.distances[actual as int], e.weight) {
        Some(c) => c < st.distances[e.to as int] || (st.distances[e.to as int] == 0 && (e.to
            == from || e.to == to)),
        None => false,
    }
}

/// One edge: relax it if it is taken, record its target for the side that
/// moves, and note the meeting if the other side has recorded it too.
pub open spec fn meet_edge(st: MeetState, e: Node, actual: usize, from: usize, to: usize) -> MeetState {
    let relaxed = if meet_takes(st, e, actual, from, to) {
        let c = extend(st.distances[actual as int], e.weight).unwrap();
        match st.turn {
            Side::A => MeetState {
                distances: st.distances.update(e.to as int, c),
                frontier_a: st.frontier_a.insert(queued(e.to)),
                ..st
            },
            Side::B => MeetState {
                distances: st.distances.update(e.to as int, c),
                frontier_b: st.frontier_b.insert(queued(e.to)),
                ..st
            },
        }
    } else {
        st
    };
    match st.turn {
        Side::A => MeetState {
            group_a: relaxed.group_a.insert(e.to),
            middle: if relaxed.group_b.contains(e.to) {
                Some(e)
            } else {
                None
            },
            ..relaxed
        },
        Side::B => MeetState {
            group_b: relaxed.group_b.insert(e.to),
            middle: if relaxed.group_a.contains(e.to) {
                Some(e)
            } else {
                None
            },
            ..relaxed
        },
    }
}

/// The edges `edges[k..]` of `actual`, one after the other, up to the edge at
/// which the sides meet.
pub open spec fn meet_expand(
    edges: Seq<Node>,
    st: MeetState,
    actual: usize,
    from: usize,
    to: usize,
    k: int,
) -> MeetState
    decreases edges.len() - k,
{
    if k < 0 || k >= edges.len() || st.middle is Some {
        st
    } else {
        meet_expand(edges, meet_edge(st, edges[k], actual, from, to), actual, from, to, k + 1)
    }
}

/// One turn. A side with an empty frontier passes; otherwise it takes the
/// least vertex out of its frontier and expands it. Then the turn changes.
pub open spec fn meet_step(adj: Seq<Seq<Node>>, st: MeetState, from: usize, to: usize) -> MeetState {
    let active = match st.turn {
        Side::A => st.frontier_a,
        Side::B => st.frontier_b,
    };
    if active.len() == 0 {
        MeetState { turn: st.turn.other(), ..st }
    } else {
        let first = least(active);
        let actual = first.vertex;
        let popped = match st.turn {
            Side::A => MeetState { frontier_a: active.remove(first), ..st },
            Side::B => MeetState { frontier_b: active.remove(first), ..st },
        };
        let after = meet_expand(adj[actual as int], popped, actual, from, to, 0);
        MeetState { turn: st.turn.other(), ..after }
    }
}

/// The search is over: the sides have met, or neither has a vertex left.
pub open spec fn meet_done(st: MeetState) -> bool {
    st.middle is Some || (st.frontier_a.len() == 0 && st.frontier_b.len() == 0)
}

/// The state after at most `turns` turns; a search that is over stays as it
/// is.
pub open spec fn meet_run(adj: Seq<Seq<Node>>, st: MeetState, from: usize, to: usize, turns: nat) -> MeetState
    decreases turns,
{
    if turns == 0 {
        st
    } else {
        let before = meet_run(adj, st, from, to, (turns - 1) as nat);
        if meet_done(before) {
            before
        } else {
            meet_step(adj, before, from, to)
        }
    }
}

/// A search that is over stays in the state it is in: its answer can be read
/// after any number of turns at which it is over.
pub proof fn lemma_meet_run_settles(
    adj: Seq<Seq<Node>>,
    st: MeetState,
    from: usize,
    to: usize,
    turns: nat,
    later: nat,
)
    requires
        turns <= later,
        meet_done(meet_run(adj, st, from, to, turns)),
    ensures
        meet_run(adj, st, from, to, later) == meet_run(adj, st, from, to, turns),
    decreases later,
{
    if later > turns {
        lemma_meet_run_settles(adj, st, from, to, turns, (later - 1) as nat);
    }
}

/// What a finished search reports.
///
/// With a meeting edge `p -> q` of weight `w` it is the cost
/// `distance[p] + distance[q] + w`, where that is an `i64`. Without one, it
/// is the greater of the two endpoint distances if the other one is the zero
/// it began with, and nothing otherwise.
pub open spec fn meet_answer(st: MeetState, from: usize, to: usize) -> Option<(i64, Seq<i64>)> {
    let d = st.distances;
    match st.middle {
        Some(e) => {
            let cost = d[e.from as int] + d[e.to as int] + e.weight;
            if i64::MIN <= cost <= i64::MAX {
                Some((cost as i64, d))
            } else {
                None
            }
        },
        None => {
            let a = d[from as int];
            let b = d[to as int];
            let top = if a >= b {
                a
            } else {
                b
            };
            if a + b == top {
                Some((top, d))
            } else {
                None
            }
        },
    }
}

/// The graphs and endpoints on which the search comes to an end: weights are
/// not negative, and the edges that end at an endpoint weigh at least one.
pub open spec fn meet_ready(adj: Seq<Seq<Node>>, from: usize, to: usize) -> bool {
    &&& well_formed(adj)
    &&& from < adj.len()
    &&& to < adj.len()
    &&& nonnegative_weights(adj)
    &&& forall|u: int, k: int|
        0 <= u < adj.len() && 0 <= k < adj[u].len() && ((#[trigger] adj[u][k]).to == from
            || adj[u][k].to == to) ==> adj[u][k].weight >= 1
}

/// What holds of every state that the search passes through.
pub open spec fn meet_inv(adj: Seq<Seq<Node>>, st: MeetState) -> bool {
    &&& st.distances.len() == adj.len()
    &&& forall|v: int| 0 <= v < st.distances.len() ==> #[trigger] st.distances[v] >= 0
    &&& forall|e: Entry| #[trigger] st.frontier_a.contains(e) ==> e.vertex < adj.len()
    &&& forall|e: Entry| #[trigger] st.frontier_b.contains(e) ==> e.vertex < adj.len()
    &&& st.middle matches Some(e) ==> e.from < adj.len() && e.to < adj.len()
}

/// The number of endpoints that still have their initial zero.
pub open spec fn zero_roots(d: Seq<i64>, from: usize, to: usize) -> int {
    (if d[from as int] == 0 {
        1int
    } else {
        0int
    }) + (if d[to as int] == 0 {
        1int
    } else {
        0int
    })
}

/// The number of queued vertices.
pub open spec fn waiting(st: MeetState) -> int {
    (st.frontier_a.len() + st.frontier_b.len()) as int
}

/// Whether the side that moves has nothing to expand, as 1 or 0.
pub open spec fn idle(st: MeetState) -> int {
    if (st.turn == Side::A && st.frontier_a.len() == 0) || (st.turn == Side::B
        && st.frontier_b.len() == 0) {
        1
    } else {
        0
    }
}

/// A turn brings the search closer to its end: the tuple (endpoints at zero,
/// unreached vertices, sum of distances, queued vertices, idle) goes down in
/// the lexicographic order.
pub open spec fn meet_descends(prev: MeetState, next: MeetState, from: usize, to: usize) -> bool {
    let z0 = zero_roots(prev.distances, from, to);
    let u0 = unreached_count(prev.distances);
    let s0 = reached_sum(prev.distances);
    let z1 = zero_roots(next.distances, from, to);
    let u1 = unreached_count(next.distances);
    let s1 = reached_sum(next.distances);
    ||| z1 < z0
    ||| (z1 == z0 && u1 < u0)
    ||| (z1 == z0 && u1 == u0 && s1 < s0)
    ||| (z1 == z0 && u1 == u0 && s1 == s0 && waiting(next) < waiting(prev))
    ||| (z1 == z0 && u1 == u0 && s1 == s0 && waiting(next) == waiting(prev) && idle(next) < idle(
        prev,
    ))
}

/// `next` is no further from the end than `prev`: either nothing was relaxed,
/// or the triple (endpoints at zero, unreached vertices, sum of distances)
/// went down in the lexicographic order.
pub open spec fn meet_advances(prev: MeetState, next: MeetState, from: usize, to: usize) -> bool {
    let z0 = zero_roots(prev.distances, from, to);
    let u0 = unreached_count(prev.distances);
    let s0 = reached_sum(prev.distances);
    let z1 = zero_roots(next.distances, from, to);
    let u1 = unreached_count(next.distances);
    let s1 = reached_sum(next.distances);
    ||| (z1 == z0 && u1 == u0 && s1 == s0 && waiting(next) == waiting(prev))
    ||| z1 < z0
    ||| (z1 == z0 && u1 < u0)
    ||| (z1 == z0 && u1 == u0 && s1 < s0)
}

/// The search as it runs.
pub struct MeetSearch {
    pub distances: Vec<i64>,
    pub frontier_a: PriorityQueue,
    pub frontier_b: PriorityQueue,
    pub group_a: HashSet<usize>,
    pub group_b: HashSet<usize>,
    pub turn: Side,
    pub middle: Option<Node>,
}

impl View for MeetSearch {
    type V = MeetState;

    open spec fn view(&self) -> MeetState {
        MeetState {
            distances: self.distances@,
            frontier_a: self.frontier_a@,
            frontier_b: self.frontier_b@,
            group_a: self.group_a@,
            group_b: self.group_b@,
            turn: self.turn,
            middle: self.middle,
        }
    }
}

impl MeetSearch {
    /// The invariant of the search: its frontiers are well-formed queues.
    pub open spec fn wf(&self) -> bool {
        self.frontier_a.wf() && self.frontier_b.wf()
    }

    /// The search before its first turn.
    pub fn start(g: &Graph, from: usize, to: usize) -> (s: Self)
        requires
            meet_ready(g@.adj, from, to),
        ensures
            s.wf(),
            s@ == meet_start(g@.adj.len(), from, to),
            meet_inv(g@.adj, s@),
    {
        let mut distances = filled(g.edges.len(), UNREACHED);
        distances[from] = 0;
        distances[to] = 0;
        let mut frontier_a = PriorityQueue::new();
        let mut frontier_b = PriorityQueue::new();
        frontier_a.push(from as i64, from);
        frontier_b.push(to as i64, to);
        let s = MeetSearch {
            distances,
            frontier_a,
            frontier_b,
            group_a: HashSet::new(),
            group_b: HashSet::new(),
            turn: Side::B,
            middle: None,
        };
        proof {
            lemma_queue_empty(Multiset::<Entry>::empty());
            lemma_queue_insert(Multiset::<Entry>::empty(), queued(from));
            lemma_queue_insert(Multiset::<Entry>::empty(), queued(to));
        }
        s
    }

    /// Handles the edge `k` of `actual`.
    pub fn edge(&mut self, g: &Graph, actual: usize, k: usize, from: usize, to: usize)
        requires
            meet_ready(g@.adj, from, to),
            old(self).wf(),
            meet_inv(g@.adj, old(self)@),
            actual < g@.adj.len(),
            k < g@.adj[actual as int].len(),
        ensures
            final(self).wf(),
            final(self)@ == meet_edge(old(self)@, g@.adj[actual as int][k as int], actual, from, to),
            meet_inv(g@.adj, final(self)@),
            meet_advances(old(self)@, final(self)@, from, to),
    {
        let e: Node = g.edges[actual][k];
        assert(e == g@.adj[actual as int][k as int]);
        let ghost before = self@;
        match self.distances[actual].checked_add(e.weight) {
            Some(c) => {
                let known: i64 = self.distances[e.to];
                if c < known || (known == 0 && (e.to == from || e.to == to)) {
                    proof {
                        lemma_measures_update(before.distances, e.to as int, c);
                        lemma_measures_nonnegative(before.distances);
                        lemma_queue_insert(before.frontier_a, queued(e.to));
                        lemma_queue_insert(before.frontier_b, queued(e.to));
                    }
                    self.distances[e.to] = c;
                    match self.turn {
                        Side::A => {
                            self.frontier_a.push(e.to as i64, e.to);
                        },
                        Side::B => {
                            self.frontier_b.push(e.to as i64, e.to);
                        },
                    }
                }
            },
            None => {},
        }
        match self.turn {
            Side::A => {
                self.group_a.insert(e.to);
                if self.group_b.contains(&e.to) {
                    self.middle = Some(e);
                } else {
                    self.middle = None;
                }
            },
            Side::B => {
                self.group_b.insert(e.to);
                if self.group_a.contains(&e.to) {
                    self.middle = Some(e);
                } else {
                    self.middle = None;
                }
            },
        }
    }

    /// Handles the edges of `actual`, up to the one at which the sides meet.
    pub fn expand(&mut self, g: &Graph, actual: usize, from: usize, to: usize)
        requires
            meet_ready(g@.adj, from, to),
            old(self).wf(),
            meet_inv(g@.adj, old(self)@),
            actual < g@.adj.len(),
        ensures
            final(self).wf(),
            final(self)@ == meet_expand(g@.adj[actual as int], old(self)@, actual, from, to, 0),
            meet_inv(g@.adj, final(self)@),
            meet_advances(old(self)@, final(self)@, from, to),
    {
        let ghost edges = g@.adj[actual as int];
        let count: usize = g.edges[actual].len();
        let mut k: usize = 0;
        while k < count && self.middle.is_none()
            invariant
                meet_ready(g@.adj, from, to),
                self.wf(),
                meet_inv(g@.adj, self@),
                actual < g@.adj.len(),
                edges == g@.adj[actual as int],
                count == edges.len(),
                k <= count,
                meet_expand(edges, self@, actual, from, to, k as int) == meet_expand(
                    edges,
                    old(self)@,
                    actual,
                    from,
                    to,
                    0,
                ),
                meet_advances(old(self)@, self@, from, to),
            decreases count - k,
        {
            self.edge(g, actual, k, from, to);
            k += 1;
        }
    }

    /// One turn of the search.
    pub fn step(&mut self, g: &Graph, from: usize, to: usize)
        requires
            meet_ready(g@.adj, from, to),
            old(self).wf(),
            meet_inv(g@.adj, old(self)@),
            !meet_done(old(self)@),
        ensures
            final(self).wf(),
            final(self)@ == meet_step(g@.adj, old(self)@, from, to),
            meet_inv(g@.adj, final(self)@),
            meet_descends(old(self)@, final(self)@, from, to),
    {
        let ghost before = self@;
        let mover = self.turn;
        let next = match mover {
            Side::A => self.frontier_a.pop(),
            Side::B => self.frontier_b.pop(),
        };
        match next {
            Some(entry) => {
                let ghost active = match before.turn {
                    Side::A => before.frontier_a,
                    Side::B => before.frontier_b,
                };
                let ghost first = least(active);
                let ghost popped = match before.turn {
                    Side::A => MeetState { frontier_a: active.remove(first), ..before },
                    Side::B => MeetState { frontier_b: active.remove(first), ..before },
                };
                proof {
                    assert(is_least(active, first));
                    lemma_queue_remove(active, first);
                }
                assert(self@ == popped);
                assert(entry == first);
                self.expand(g, entry.vertex, from, to);
            },
            None => {
                assert(self@ == before);
            },
        }
        self.turn = mover.flip();
    }
}

impl Graph {
    /// Searches from both endpoints at once and reports the cost found, with
    /// the table of distances that the two sides have filled.
    ///
    /// The result is that of the search defined by `meet_run`, at the turn
    /// where it is over.
    pub fn bidirectional_search(&self, from: usize, to: usize) -> (found: Option<(i64, Vec<i64>)>)
        requires
            self.wf(),
            meet_ready(self@.adj, from, to),
        ensures
            exists|turns: nat|
                {
                    let end = #[trigger] meet_run(
                        self@.adj,
                        meet_start(self@.adj.len(), from, to),
                        from,
                        to,
                        turns,
                    );
                    &&& meet_done(end)
                    &&& match meet_answer(end, from, to) {
                        Some((cost, table)) => found matches Some(f) && f.0 == cost && f.1@
                            == table,
                        None => found is None,
                    }
                },
    {
        let mut search = MeetSearch::start(self, from, to);
        let ghost first = search@;
        let ghost mut turns: nat = 0;
        while (!search.frontier_a.is_empty() || !search.frontier_b.is_empty())
            && search.middle.is_none()
            invariant
                self.wf(),
                meet_ready(self@.adj, from, to),
                search.wf(),
                meet_inv(self@.adj, search@),
                first == meet_start(self@.adj.len(), from, to),
                search@ == meet_run(self@.adj, first, from, to, turns),
            decreases
                    zero_roots(search@.distances, from, to),
                    unreached_count(search@.distances),
                    reached_sum(search@.distances),
                    waiting(search@),
                    idle(search@),
        {
            proof {
                lemma_measures_nonnegative(search@.distances);
            }
            search.step(self, from, to);
            proof {
                turns = turns + 1;
                lemma_measures_nonnegative(search@.distances);
            }
        }
        assert(meet_done(search@));
        let MeetSearch { distances, middle, .. } = search;
        match middle {
            Some(e) => {
                let cost: i128 = distances[e.from] as i128 + distances[e.to] as i128
                    + e.weight as i128;
                if cost < i64::MIN as i128 || cost > i64::MAX as i128 {
                    None
                } else {
                    Some((cost as i64, distances))
                }
            },
            None => {
                let a: i64 = distances[from];
                let b: i64 = distances[to];
                let top: i64 = if a >= b {
                    a
                } else {
                    b
                };
                match a.checked_add(b) {
                    Some(sum) => {
                        if sum == top {
                            Some((top, distances))
                        } else {
                            None
                        }
                    },
                    None => None,
                }
            },
        }
    }
}

} // verus!
