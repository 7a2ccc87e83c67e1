//! What a list of edges connects when direction is ignored: the sets that
//! arise when the edges are added one after the other, how many there are,
//! and how they relate to the chains of edges between two vertices.

use crate::graph::Node;
use crate::measure::{lemma_tally_bounds, lemma_tally_change, lemma_tally_two, tally};
use vstd::prelude::*;

verus! {

/// The name of the set of `v` once the edges of `chosen` have been added one
/// after the other: an edge moves all that was in the set of its start to
/// the set of its end.
pub open spec fn label(chosen: Seq<Node>, v: int) -> int
    decreases chosen.len(),
{
    if chosen.len() == 0 {
        v
    } else {
        let rest = chosen.drop_last();
        let e = chosen.last();
        if label(rest, v) == label(rest, e.from as int) {
            label(rest, e.to as int)
        } else {
            label(rest, v)
        }
    }
}

/// The edges of `chosen` connect `a` and `b`.
pub open spec fn joined(chosen: Seq<Node>, a: int, b: int) -> bool {
    label(chosen, a) == label(chosen, b)
}

/// All edges of `chosen` run between vertices below `n`.
pub open spec fn ends_below(chosen: Seq<Node>, n: nat) -> bool {
    forall|j: int| 0 <= j < chosen.len() ==> (#[trigger] chosen[j]).from < n && chosen[j].to < n
}

/// The number of sets into which `chosen` divides the vertices below `n`.
pub open spec fn classes(chosen: Seq<Node>, n: nat) -> int {
    tally(
        n,
        |r: int|
            if label(chosen, r) == r {
                1int
            } else {
                0int
            },
    )
}

/// `chosen` connects all vertices below `n` with each other.
pub open spec fn joins_all(chosen: Seq<Node>, n: nat) -> bool {
    forall|a: int, b: int| 0 <= a < n && 0 <= b < n ==> #[trigger] joined(chosen, a, b)
}

/// `first` and `second` connect the same pairs of vertices below `n`.
pub open spec fn same_partition(first: Seq<Node>, second: Seq<Node>, n: nat) -> bool {
    forall|a: int, b: int|
        0 <= a < n && 0 <= b < n ==> (#[trigger] joined(first, a, b) <==> joined(second, a, b))
}

/// `e` runs between `x` and `y`, in one direction or the other.
pub open spec fn touches(e: Node, x: int, y: int) -> bool {
    (e.from == x && e.to == y) || (e.from == y && e.to == x)
}

/// Some edge of `edges` runs between `x` and `y`.
pub open spec fn adjacent(edges: Seq<Node>, x: int, y: int) -> bool {
    exists|j: int| 0 <= j < edges.len() && touches(#[trigger] edges[j], x, y)
}

/// `path` lists the vertices of a chain from `a` to `b`, without `b`: each
/// is adjacent to the next, and the last of them to `b`. The empty chain
/// stays at `a`.
pub open spec fn is_chain(edges: Seq<Node>, path: Seq<int>, a: int, b: int) -> bool
    decreases path.len(),
{
    if path.len() == 0 {
        a == b
    } else {
        adjacent(edges, path.last(), b) && is_chain(edges, path.drop_last(), a, path.last())
    }
}

/// Some chain of edges, taken in either direction, leads from `a` to `b`.
pub open spec fn linked(edges: Seq<Node>, a: int, b: int) -> bool {
    exists|path: Seq<int>| is_chain(edges, path, a, b)
}

/// The name of a set is a vertex below `n`.
pub proof fn lemma_label_range(chosen: Seq<Node>, n: nat, v: int)
    requires
        ends_below(chosen, n),
        0 <= v < n,
    ensures
        0 <= label(chosen, v) < n,
    decreases chosen.len(),
{
    if chosen.len() > 0 {
        let rest = chosen.drop_last();
        let e = chosen.last();
        assert(ends_below(rest, n)) by {
            assert forall|j: int| 0 <= j < rest.len() implies (#[trigger] rest[j]).from < n
                && rest[j].to < n by {
                assert(rest[j] == chosen[j]);
            }
        }
        lemma_label_range(rest, n, v);
        lemma_label_range(rest, n, e.to as int);
    }
}

/// The name of a set is in the set it names.
pub proof fn lemma_label_idempotent(chosen: Seq<Node>, n: nat, v: int)
    requires
        ends_below(chosen, n),
        0 <= v < n,
    ensures
        label(chosen, label(chosen, v)) == label(chosen, v),
    decreases chosen.len(),
{
    if chosen.len() > 0 {
        let rest = chosen.drop_last();
        let e = chosen.last();
        assert(ends_below(rest, n)) by {
            assert forall|j: int| 0 <= j < rest.len() implies (#[trigger] rest[j]).from < n
                && rest[j].to < n by {
                assert(rest[j] == chosen[j]);
            }
        }
        lemma_label_idempotent(rest, n, v);
        lemma_label_idempotent(rest, n, e.to as int);
    }
}

/// What the edges connect stays connected when an edge is added, and the
/// ends of the added edge are connected.
pub proof fn lemma_push_joins(chosen: Seq<Node>, e: Node, a: int, b: int)
    ensures
        joined(chosen, a, b) ==> joined(chosen.push(e), a, b),
        joined(chosen.push(e), e.from as int, e.to as int),
{
    assert(chosen.push(e).drop_last() =~= chosen);
}

/// An edge between two sets makes one set of them; an edge within a set
/// changes nothing.
pub proof fn lemma_classes_push(chosen: Seq<Node>, n: nat, e: Node)
    requires
        ends_below(chosen, n),
        e.from < n,
        e.to < n,
    ensures
        classes(chosen.push(e), n) == classes(chosen, n) - (if joined(
            chosen,
            e.from as int,
            e.to as int,
        ) {
            0int
        } else {
            1int
        }),
        ends_below(chosen.push(e), n),
{
    let next = chosen.push(e);
    assert(next.drop_last() =~= chosen);
    let from_set = label(chosen, e.from as int);
    let to_set = label(chosen, e.to as int);
    lemma_label_range(chosen, n, e.from as int);
    lemma_label_idempotent(chosen, n, e.from as int);
    lemma_label_idempotent(chosen, n, e.to as int);
    let f = |r: int|
        if label(chosen, r) == r {
            1int
        } else {
            0int
        };
    let g = |r: int|
        if label(next, r) == r {
            1int
        } else {
            0int
        };
    if from_set == to_set {
        assert forall|r: int| 0 <= r < n && r != -1 implies #[trigger] f(r) == g(r) by {
            assert(label(next, r) == label(chosen, r));
        }
        lemma_tally_change(n, f, g, -1);
    } else {
        assert forall|r: int| 0 <= r < n && r != from_set implies #[trigger] f(r) == g(r) by {
            if label(chosen, r) == from_set {
                assert(label(next, r) == to_set);
            } else {
                assert(label(next, r) == label(chosen, r));
            }
        }
        assert(f(from_set) == 1);
        assert(label(next, from_set) == to_set);
        assert(g(from_set) == 0);
        lemma_tally_change(n, f, g, from_set);
    }
}

/// Without edges, every vertex is a set of its own.
pub proof fn lemma_classes_empty(n: nat)
    ensures
        classes(Seq::<Node>::empty(), n) == n,
{
    let none = Seq::<Node>::empty();
    lemma_tally_bounds(
        n,
        |r: int|
            if label(none, r) == r {
                1int
            } else {
                0int
            },
        1,
        1,
    );
    assert(n * 1 == n) by (nonlinear_arith);
}

/// Where there is a vertex, there is a set.
pub proof fn lemma_classes_positive(chosen: Seq<Node>, n: nat)
    requires
        ends_below(chosen, n),
        n >= 1,
    ensures
        classes(chosen, n) >= 1,
{
    let f = |r: int|
        if label(chosen, r) == r {
            1int
        } else {
            0int
        };
    let z = |r: int|
        if label(chosen, r) == r && r != label(chosen, 0) {
            1int
        } else {
            0int
        };
    lemma_label_range(chosen, n, 0);
    lemma_label_idempotent(chosen, n, 0);
    lemma_tally_change(n, z, f, label(chosen, 0));
    lemma_tally_bounds(n, z, 0, 1);
    assert(n * 0 == 0) by (nonlinear_arith);
}

/// One set holds all vertices exactly if the edges connect them all.
pub proof fn lemma_single_class(chosen: Seq<Node>, n: nat)
    requires
        ends_below(chosen, n),
        n >= 1,
    ensures
        classes(chosen, n) == 1 <==> joins_all(chosen, n),
{
    let f = |r: int|
        if label(chosen, r) == r {
            1int
        } else {
            0int
        };
    if classes(chosen, n) == 1 {
        assert forall|a: int, b: int| 0 <= a < n && 0 <= b < n implies #[trigger] joined(
            chosen,
            a,
            b,
        ) by {
            let x = label(chosen, a);
            let y = label(chosen, b);
            lemma_label_range(chosen, n, a);
            lemma_label_range(chosen, n, b);
            lemma_label_idempotent(chosen, n, a);
            lemma_label_idempotent(chosen, n, b);
            if x != y {
                assert(f(x) == 1 && f(y) == 1);
                lemma_tally_two(n, f, x, y);
            }
        }
    }
    if joins_all(chosen, n) {
        let only = label(chosen, 0);
        lemma_label_range(chosen, n, 0);
        lemma_label_idempotent(chosen, n, 0);
        let z = |r: int| 0int;
        assert forall|r: int| 0 <= r < n && r != only implies #[trigger] z(r) == f(r) by {
            assert(joined(chosen, r, 0));
        }
        lemma_tally_change(n, z, f, only);
        lemma_tally_bounds(n, z, 0, 0);
        assert(n * 0 == 0) by (nonlinear_arith);
        assert(f(only) == 1);
    }
}

/// Two lists that connect the same pairs still do when the same edge is
/// added to both.
pub proof fn lemma_push_same_partition(first: Seq<Node>, second: Seq<Node>, e: Node, n: nat)
    requires
        same_partition(first, second, n),
        e.from < n,
        e.to < n,
    ensures
        same_partition(first.push(e), second.push(e), n),
{
    assert(first.push(e).drop_last() =~= first);
    assert(second.push(e).drop_last() =~= second);
    let f = e.from as int;
    let t = e.to as int;
    assert forall|a: int, b: int| 0 <= a < n && 0 <= b < n implies (#[trigger] joined(
        first.push(e),
        a,
        b,
    ) <==> joined(second.push(e), a, b)) by {
        assert(joined(first, a, f) <==> joined(second, a, f));
        assert(joined(first, b, f) <==> joined(second, b, f));
        assert(joined(first, a, t) <==> joined(second, a, t));
        assert(joined(first, b, t) <==> joined(second, b, t));
        assert(joined(first, t, b) <==> joined(second, t, b));
        assert(joined(first, t, a) <==> joined(second, t, a));
        assert(joined(first, a, b) <==> joined(second, a, b));
    }
}

/// An edge between two vertices that are connected already connects nothing
/// new.
pub proof fn lemma_push_redundant(chosen: Seq<Node>, e: Node, n: nat)
    requires
        joined(chosen, e.from as int, e.to as int),
    ensures
        same_partition(chosen.push(e), chosen, n),
{
    assert(chosen.push(e).drop_last() =~= chosen);
    assert forall|a: int, b: int| 0 <= a < n && 0 <= b < n implies (#[trigger] joined(
        chosen.push(e),
        a,
        b,
    ) <==> joined(chosen, a, b)) by {
        assert(label(chosen.push(e), a) == label(chosen, a));
        assert(label(chosen.push(e), b) == label(chosen, b));
    }
}

/// Every edge of the list connects its ends.
pub proof fn lemma_member_joined(chosen: Seq<Node>, j: int)
    requires
        0 <= j < chosen.len(),
    ensures
        joined(chosen, chosen[j].from as int, chosen[j].to as int),
    decreases chosen.len(),
{
    let rest = chosen.drop_last();
    let e = chosen.last();
    assert(rest.push(e) =~= chosen);
    if j < chosen.len() - 1 {
        lemma_member_joined(rest, j);
        lemma_push_joins(rest, e, rest[j].from as int, rest[j].to as int);
    } else {
        lemma_push_joins(rest, e, 0, 0);
    }
}

/// The ends of a chain are connected.
pub proof fn lemma_chain_joined(edges: Seq<Node>, path: Seq<int>, a: int, b: int)
    requires
        is_chain(edges, path, a, b),
    ensures
        joined(edges, a, b),
    decreases path.len(),
{
    if path.len() > 0 {
        lemma_chain_joined(edges, path.drop_last(), a, path.last());
        let j = choose|j: int| 0 <= j < edges.len() && touches(#[trigger] edges[j], path.last(), b);
        lemma_member_joined(edges, j);
    }
}

/// A chain over one list is a chain over every list that holds its edges.
pub proof fn lemma_chain_transfer(
    edges: Seq<Node>,
    others: Seq<Node>,
    path: Seq<int>,
    a: int,
    b: int,
)
    requires
        forall|j: int| 0 <= j < edges.len() ==> others.contains(#[trigger] edges[j]),
        is_chain(edges, path, a, b),
    ensures
        is_chain(others, path, a, b),
    decreases path.len(),
{
    if path.len() > 0 {
        lemma_chain_transfer(edges, others, path.drop_last(), a, path.last());
        let j = choose|j: int| 0 <= j < edges.len() && touches(#[trigger] edges[j], path.last(), b);
        assert(others.contains(edges[j]));
        let i = choose|i: int| 0 <= i < others.len() && others[i] == edges[j];
        assert(touches(others[i], path.last(), b));
    }
}

/// What `sub` connects, `full` connects too, if `full` connects the ends of
/// every edge of `sub`.
pub proof fn lemma_refines(sub: Seq<Node>, full: Seq<Node>, a: int, b: int)
    requires
        forall|j: int|
            0 <= j < sub.len() ==> joined(full, (#[trigger] sub[j]).from as int, sub[j].to as int),
        joined(sub, a, b),
    ensures
        joined(full, a, b),
    decreases sub.len(),
{
    if sub.len() > 0 {
        let rest = sub.drop_last();
        let e = sub.last();
        let f = e.from as int;
        let t = e.to as int;
        assert forall|j: int| 0 <= j < rest.len() implies joined(
            full,
            (#[trigger] rest[j]).from as int,
            rest[j].to as int,
        ) by {
            assert(rest[j] == sub[j]);
        }
        assert(joined(full, f, t)) by {
            assert(sub[sub.len() - 1] == e);
        }
        if joined(rest, a, f) {
            lemma_refines(rest, full, a, f);
        }
        if joined(rest, b, f) {
            lemma_refines(rest, full, b, f);
        }
        if joined(rest, t, b) {
            lemma_refines(rest, full, t, b);
        }
        if joined(rest, a, t) {
            lemma_refines(rest, full, a, t);
        }
        if joined(rest, a, b) {
            lemma_refines(rest, full, a, b);
        }
    }
}

/// The names of the sets into which `chosen` divides the vertices below `n`.
pub open spec fn set_names(chosen: Seq<Node>, n: nat) -> Set<int> {
    crate::measure::chosen_below(n, |r: int| label(chosen, r) == r)
}

/// A list that connects no more than another divides the vertices into at
/// least as many sets.
pub proof fn lemma_fewer_classes(sub: Seq<Node>, full: Seq<Node>, n: nat)
    requires
        ends_below(sub, n),
        ends_below(full, n),
        forall|a: int, b: int|
            0 <= a < n && 0 <= b < n && #[trigger] joined(sub, a, b) ==> joined(full, a, b),
    ensures
        classes(full, n) <= classes(sub, n),
{
    let coarse = set_names(full, n);
    let fine = set_names(sub, n);
    crate::measure::lemma_tally_counts(
        n,
        |r: int|
            if label(full, r) == r {
                1int
            } else {
                0int
            },
        |r: int| label(full, r) == r,
    );
    crate::measure::lemma_tally_counts(
        n,
        |r: int|
            if label(sub, r) == r {
                1int
            } else {
                0int
            },
        |r: int| label(sub, r) == r,
    );
    let g = |s: int| label(sub, s);
    assert(vstd::relations::injective_on(g, coarse)) by {
        assert forall|x: int, y: int|
            coarse.contains(x) && coarse.contains(y) && #[trigger] g(x) == #[trigger] g(
                y,
            ) implies x == y by {
            assert(joined(sub, x, y));
        }
    }
    let image = coarse.map(g);
    vstd::set_lib::lemma_map_size(coarse, image, g);
    assert(image.subset_of(fine)) by {
        assert forall|r: int| image.contains(r) implies fine.contains(r) by {
            let s = choose|s: int| coarse.contains(s) && r == g(s);
            lemma_label_range(sub, n, s);
            lemma_label_idempotent(sub, n, s);
        }
    }
    vstd::set_lib::lemma_len_subset(image, fine);
}

/// A chain to `x` followed by a chain from `x` is a chain.
pub proof fn lemma_chain_append(
    edges: Seq<Node>,
    first: Seq<int>,
    second: Seq<int>,
    a: int,
    x: int,
    b: int,
)
    requires
        is_chain(edges, first, a, x),
        is_chain(edges, second, x, b),
    ensures
        is_chain(edges, first + second, a, b),
    decreases second.len(),
{
    if second.len() == 0 {
        assert(first + second =~= first);
    } else {
        lemma_chain_append(edges, first, second.drop_last(), a, x, second.last());
        assert((first + second).drop_last() =~= first + second.drop_last());
        assert((first + second).last() == second.last());
    }
}

/// A chain can be walked backwards.
pub proof fn lemma_chain_reverse(edges: Seq<Node>, path: Seq<int>, a: int, b: int)
    requires
        is_chain(edges, path, a, b),
    ensures
        linked(edges, b, a),
    decreases path.len(),
{
    if path.len() == 0 {
        assert(is_chain(edges, Seq::<int>::empty(), b, a));
    } else {
        let x = path.last();
        lemma_chain_reverse(edges, path.drop_last(), a, x);
        let back = choose|back: Seq<int>| is_chain(edges, back, x, a);
        let j = choose|j: int| 0 <= j < edges.len() && touches(#[trigger] edges[j], x, b);
        assert(touches(edges[j], b, x));
        let step = seq![b];
        assert(step.drop_last() =~= Seq::<int>::empty());
        assert(is_chain(edges, step.drop_last(), b, b));
        assert(step.last() == b);
        assert(adjacent(edges, b, x));
        assert(is_chain(edges, step, b, x));
        lemma_chain_append(edges, step, back, b, x, a);
    }
}

/// Being linked by a chain is symmetric and transitive, survives the
/// adding of an edge, and holds of the ends of an edge that is added.
pub proof fn lemma_linked_laws(edges: Seq<Node>, e: Node, a: int, b: int, c: int)
    ensures
        linked(edges, a, a),
        linked(edges, a, b) ==> linked(edges, b, a),
        linked(edges, a, b) && linked(edges, b, c) ==> linked(edges, a, c),
        linked(edges, a, b) ==> linked(edges.push(e), a, b),
        linked(edges.push(e), e.from as int, e.to as int),
{
    assert(is_chain(edges, Seq::<int>::empty(), a, a));
    if linked(edges, a, b) {
        let path = choose|path: Seq<int>| is_chain(edges, path, a, b);
        lemma_chain_reverse(edges, path, a, b);
        assert forall|j: int| 0 <= j < edges.len() implies edges.push(e).contains(
            #[trigger] edges[j],
        ) by {
            assert(edges.push(e)[j] == edges[j]);
        }
        lemma_chain_transfer(edges, edges.push(e), path, a, b);
        if linked(edges, b, c) {
            let rest = choose|rest: Seq<int>| is_chain(edges, rest, b, c);
            lemma_chain_append(edges, path, rest, a, b, c);
        }
    }
    let grown = edges.push(e);
    let step = seq![e.from as int];
    assert(step.drop_last() =~= Seq::<int>::empty());
    assert(touches(grown[edges.len() as int], e.from as int, e.to as int));
    assert(is_chain(grown, step.drop_last(), e.from as int, e.from as int));
    assert(step.last() == e.from);
    assert(adjacent(grown, e.from as int, e.to as int));
    assert(is_chain(grown, step, e.from as int, e.to as int));
}

/// What the edges connect is linked by a chain of them.
pub proof fn lemma_joined_is_linked(chosen: Seq<Node>, a: int, b: int)
    requires
        joined(chosen, a, b),
    ensures
        linked(chosen, a, b),
    decreases chosen.len(),
{
    if chosen.len() == 0 {
        assert(is_chain(chosen, Seq::<int>::empty(), a, b));
    } else {
        let rest = chosen.drop_last();
        let e = chosen.last();
        let f = e.from as int;
        let t = e.to as int;
        assert(rest.push(e) =~= chosen);
        lemma_linked_laws(rest, e, f, t, t);
        if joined(rest, a, b) {
            lemma_joined_is_linked(rest, a, b);
            lemma_linked_laws(rest, e, a, b, b);
        } else if joined(rest, a, f) && joined(rest, b, f) {
            lemma_joined_is_linked(rest, a, f);
            lemma_joined_is_linked(rest, b, f);
            lemma_linked_laws(rest, e, a, f, f);
            lemma_linked_laws(rest, e, b, f, f);
            lemma_linked_laws(chosen, e, b, f, f);
            lemma_linked_laws(chosen, e, a, f, b);
        } else if joined(rest, a, f) {
            lemma_joined_is_linked(rest, a, f);
            lemma_joined_is_linked(rest, t, b);
            lemma_linked_laws(rest, e, a, f, f);
            lemma_linked_laws(rest, e, t, b, b);
            lemma_linked_laws(chosen, e, a, f, t);
            lemma_linked_laws(chosen, e, a, t, b);
        } else {
            lemma_joined_is_linked(rest, b, f);
            lemma_joined_is_linked(rest, a, t);
            lemma_linked_laws(rest, e, b, f, f);
            lemma_linked_laws(rest, e, a, t, t);
            lemma_linked_laws(chosen, e, b, f, t);
            lemma_linked_laws(chosen, e, b, t, t);
            lemma_linked_laws(chosen, e, a, t, t);
            lemma_linked_laws(chosen, e, t, f, f);
            lemma_linked_laws(chosen, e, f, t, t);
            lemma_linked_laws(chosen, e, a, t, f);
            lemma_linked_laws(chosen, e, a, f, b);
        }
    }
}

/// The edges connect two vertices exactly if a chain of them links the two.
pub proof fn lemma_joined_iff_linked(chosen: Seq<Node>, a: int, b: int)
    ensures
        joined(chosen, a, b) <==> linked(chosen, a, b),
{
    if joined(chosen, a, b) {
        lemma_joined_is_linked(chosen, a, b);
    }
    if linked(chosen, a, b) {
        let path = choose|path: Seq<int>| is_chain(chosen, path, a, b);
        lemma_chain_joined(chosen, path, a, b);
    }
}

} // verus!
