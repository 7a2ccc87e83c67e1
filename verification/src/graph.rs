//! The adjacency-list graph: vertices are the indices `0..n`, every vertex
//! owns the list of its outgoing edges, and coordinates may be attached for
//! the heuristic search.

use vstd::prelude::*;

verus! {

/// A position in the plane, attached to a vertex.
#[derive(Clone, Copy, Debug, PartialEq, Eq, Structural)]
pub struct Point {
    pub x: i64,
    pub y: i64,
}

impl Point {
    /// The position `(x, y)`.
    pub fn new(x: i64, y: i64) -> (p: Self)
        ensures
            p == (Point { x, y }),
    {
        Self { x, y }
    }
}

/// A directed edge `from -> to` with its weight.
#[derive(Clone, Copy, Debug, PartialEq, Eq, Structural)]
pub struct Node {
    pub from: usize,
    pub to: usize,
    pub weight: i64,
}

impl Node {
    /// The edge `from -> to` of the given weight.
    pub fn new(from: usize, to: usize, weight: i64) -> (e: Self)
        ensures
            e == (Node { from, to, weight }),
    {
        Self { from, to, weight }
    }
}

/// What a graph is to its contracts: one sequence of outgoing edges per
/// vertex, and the coordinates supplied so far.
pub struct GraphView {
    pub adj: Seq<Seq<Node>>,
    pub points: Seq<Point>,
}

/// Every edge is filed under its source and ends at a vertex of the graph,
/// and vertex counts stay below the distance sentinel.
pub open spec fn well_formed(adj: Seq<Seq<Node>>) -> bool {
    &&& adj.len() <= i64::MAX
    &&& forall|u: int, k: int|
        0 <= u < adj.len() && 0 <= k < adj[u].len() ==> (#[trigger] adj[u][k]).from == u
            && adj[u][k].to < adj.len()
}

/// The number of edges held by all adjacency lists together.
pub open spec fn edge_total(adj: Seq<Seq<Node>>) -> nat
    decreases adj.len(),
{
    if adj.len() == 0 {
        0
    } else {
        edge_total(adj.drop_last()) + adj.last().len()
    }
}

/// No edge has a negative weight.
pub open spec fn nonnegative_weights(adj: Seq<Seq<Node>>) -> bool {
    forall|u: int, k: int|
        0 <= u < adj.len() && 0 <= k < adj[u].len() ==> (#[trigger] adj[u][k]).weight >= 0
}

/// Appending one edge to the list of `u` adds one to the total.
pub proof fn lemma_edge_total_push(adj: Seq<Seq<Node>>, u: int, e: Node)
    requires
        0 <= u < adj.len(),
    ensures
        edge_total(adj.update(u, adj[u].push(e))) == edge_total(adj) + 1,
    decreases adj.len(),
{
    let next = adj.update(u, adj[u].push(e));
    if u == adj.len() - 1 {
        assert(next.drop_last() =~= adj.drop_last());
    } else {
        lemma_edge_total_push(adj.drop_last(), u, e);
        assert(next.drop_last() =~= adj.drop_last().update(u, adj[u].push(e)));
    }
}

/// A graph whose lists are all empty has no edges.
pub proof fn lemma_edge_total_empty(adj: Seq<Seq<Node>>)
    requires
        forall|u: int| 0 <= u < adj.len() ==> (#[trigger] adj[u]).len() == 0,
    ensures
        edge_total(adj) == 0,
    decreases adj.len(),
{
    if adj.len() > 0 {
        lemma_edge_total_empty(adj.drop_last());
    }
}

/// A directed graph with weighted edges.
pub struct Graph {
    /// The outgoing edges of every vertex.
    pub edges: Vec<Vec<Node>>,
    /// The coordinates of the vertices, as far as they were supplied.
    pub points: Vec<Point>,
    /// The number of edges in all lists together.
    pub total_edges: usize,
}

impl View for Graph {
    type V = GraphView;

    open spec fn view(&self) -> GraphView {
        GraphView {
            adj: Seq::new(self.edges@.len(), |u: int| self.edges@[u]@),
            points: self.points@,
        }
    }
}

impl Graph {
    /// The invariant of a graph: its lists are well formed and the counter
    /// agrees with them.
    pub open spec fn wf(&self) -> bool {
        &&& well_formed(self@.adj)
        &&& self.total_edges == edge_total(self@.adj)
    }

    /// The graph without vertices.
    pub fn new() -> (g: Self)
        ensures
            g.wf(),
            g@.adj.len() == 0,
            g@.points.len() == 0,
    {
        let g = Self { edges: Vec::new(), points: Vec::new(), total_edges: 0 };
        assert(g@.adj =~= Seq::empty());
        g
    }

    /// A graph of `cap` vertices without edges or coordinates.
    pub fn with_capacity(cap: &usize) -> (g: Self)
        requires
            *cap <= i64::MAX,
        ensures
            g.wf(),
            g@.adj == Seq::new(*cap as nat, |u: int| Seq::<Node>::empty()),
            edge_total(g@.adj) == 0,
            g@.points.len() == 0,
    {
        let mut edges: Vec<Vec<Node>> = Vec::with_capacity(*cap);
        let mut i: usize = 0;
        while i < *cap
            invariant
                i <= *cap,
                edges@.len() == i,
                forall|u: int| 0 <= u < i ==> (#[trigger] edges@[u])@.len() == 0,
            decreases *cap - i,
        {
            edges.push(Vec::new());
            i += 1;
        }
        let g = Self { edges, points: Vec::with_capacity(*cap), total_edges: 0 };
        proof {
            lemma_edge_total_empty(g@.adj);
            assert(g@.adj =~~= Seq::new(*cap as nat, |u: int| Seq::<Node>::empty()));
        }
        g
    }

    /// The number of edges added so far.
    pub fn total_edges(&self) -> (count: usize)
        requires
            self.wf(),
        ensures
            count == edge_total(self@.adj),
    {
        self.total_edges
    }

    /// Appends the edge `from -> to` to the list of `from`.
    pub fn add_weighted_edge(&mut self, from: usize, to: usize, weight: i64)
        requires
            old(self).wf(),
            from < old(self)@.adj.len(),
            to < old(self)@.adj.len(),
            edge_total(old(self)@.adj) < usize::MAX,
        ensures
            final(self).wf(),
            final(self)@.adj == old(self)@.adj.update(
                from as int,
                old(self)@.adj[from as int].push(Node { from, to, weight }),
            ),
            edge_total(final(self)@.adj) == edge_total(old(self)@.adj) + 1,
            final(self)@.points == old(self)@.points,
    {
        self.edges[from].push(Node::new(from, to, weight));
        self.total_edges = self.total_edges + 1;
        proof {
            let before = old(self)@.adj;
            let e = Node { from, to, weight };
            assert(self@.adj =~= before.update(from as int, before[from as int].push(e)));
            lemma_edge_total_push(before, from as int, e);
        }
    }
}

/// The lists of a graph of `n` vertices to which the edges of `triples`,
/// each a triple of start, end and weight, were added one after the other.
pub open spec fn with_edges(n: nat, triples: Seq<(i64, i64, i64)>) -> Seq<Seq<Node>>
    decreases triples.len(),
{
    if triples.len() == 0 {
        Seq::new(n, |u: int| Seq::<Node>::empty())
    } else {
        let adj = with_edges(n, triples.drop_last());
        let t = triples.last();
        adj.update(
            t.0 as int,
            adj[t.0 as int].push(Node { from: t.0 as usize, to: t.1 as usize, weight: t.2 }),
        )
    }
}

/// The ids of `assignments` are the numbers below its length, each once.
pub open spec fn covers_all(assignments: Seq<(usize, Point)>) -> bool {
    &&& forall|i: int| 0 <= i < assignments.len() ==> (#[trigger] assignments[i]).0 < assignments.len()
    &&& forall|i: int, j: int|
        0 <= i < j < assignments.len() ==> (#[trigger] assignments[i]).0 != (#[trigger] assignments[j]).0
}

impl Graph {
    /// Appends the coordinates of `points`, ordered by the vertex ids that
    /// come with them. The ids must be `0, 1, ..` up to the number of
    /// points, each once, in any order.
    pub fn set_points(&mut self, points: Vec<(usize, Point)>)
        requires
            old(self).wf(),
            covers_all(points@),
        ensures
            final(self).wf(),
            final(self)@.adj == old(self)@.adj,
            final(self)@.points.len() == old(self)@.points.len() + points@.len(),
            forall|i: int|
                0 <= i < old(self)@.points.len() ==> #[trigger] final(self)@.points[i] == old(
                    self,
                )@.points[i],
            forall|i: int|
                0 <= i < points@.len() ==> final(self)@.points[old(self)@.points.len()
                    + (#[trigger] points@[i]).0] == points@[i].1,
    {
        let count: usize = points.len();
        let mut placed: Vec<Point> = Vec::with_capacity(count);
        let mut i: usize = 0;
        while i < count
            invariant
                i <= count,
                placed@.len() == i,
            decreases count - i,
        {
            placed.push(Point::new(0, 0));
            i += 1;
        }
        i = 0;
        while i < count
            invariant
                i <= count,
                count == points@.len(),
                placed@.len() == count,
                covers_all(points@),
                forall|j: int| 0 <= j < i ==> placed@[(#[trigger] points@[j]).0 as int] == points@[j].1,
            decreases count - i,
        {
            let (id, point) = points[i];
            placed[id] = point;
            i += 1;
        }
        let ghost before = self.points@;
        i = 0;
        while i < count
            invariant
                i <= count,
                placed@.len() == count,
                self.edges == old(self).edges,
                self.total_edges == old(self).total_edges,
                self.points@ == before + placed@.take(i as int),
            decreases count - i,
        {
            self.points.push(placed[i]);
            proof {
                assert(placed@.take(i as int + 1) =~= placed@.take(i as int).push(placed@[i as int]));
                assert(self.points@ =~= before + placed@.take(i as int + 1));
            }
            i += 1;
        }
        proof {
            assert(placed@.take(count as int) =~= placed@);
            assert(self@.adj =~= old(self)@.adj);
        }
    }

    /// The graph of `vertices` vertices with the edges of `triples`, each a
    /// triple of start, end and weight, in the order given.
    pub fn from_prompt(vertices: i64, triples: &Vec<(i64, i64, i64)>) -> (g: Self)
        requires
            0 <= vertices <= usize::MAX,
            forall|i: int|
                0 <= i < triples@.len() ==> 0 <= (#[trigger] triples@[i]).0 < vertices && 0
                    <= triples@[i].1 < vertices,
        ensures
            g.wf(),
            g@.adj == with_edges(vertices as nat, triples@),
            g@.adj.len() == vertices,
            g@.points.len() == 0,
    {
        let n: usize = vertices as usize;
        let mut g = Self::with_capacity(&n);
        proof {
            assert(triples@.take(0).len() == 0);
        }
        let mut i: usize = 0;
        while i < triples.len()
            invariant
                i <= triples@.len(),
                n == vertices,
                forall|j: int|
                    0 <= j < triples@.len() ==> 0 <= (#[trigger] triples@[j]).0 < vertices && 0
                        <= triples@[j].1 < vertices,
                g.wf(),
                g@.adj.len() == n,
                g@.adj == with_edges(vertices as nat, triples@.take(i as int)),
                edge_total(g@.adj) == i,
                g@.points.len() == 0,
            decreases triples@.len() - i,
        {
            let (from, to, weight) = triples[i];
            g.add_weighted_edge(from as usize, to as usize, weight);
            proof {
                lemma_edge_total_push(
                    with_edges(vertices as nat, triples@.take(i as int)),
                    from as int,
                    Node { from: from as usize, to: to as usize, weight },
                );
                assert(triples@.take(i as int + 1).drop_last() =~= triples@.take(i as int));
                assert(triples@.take(i as int + 1).last() == triples@[i as int]);
            }
            i += 1;
        }
        proof {
            assert(triples@.take(triples@.len() as int) =~= triples@);
        }
        g
    }
}

} // verus!
