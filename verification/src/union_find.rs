//! Disjoint sets over `0..n`: every element points to a parent, the elements
//! that are their own parent represent the sets, and `find` shortens the
//! paths it walks by making every element on them point to its grandparent.

use vstd::prelude::*;

verus! {

/// The element reached from `v` after `k` steps from child to parent.
pub open spec fn follow(p: Seq<usize>, v: int, k: nat) -> int
    decreases k,
{
    if k == 0 {
        v
    } else {
        follow(p, p[v] as int, (k - 1) as nat)
    }
}

/// `v` is its own parent.
pub open spec fn is_root(p: Seq<usize>, v: int) -> bool {
    p[v] == v
}

/// Every parent is an element.
pub open spec fn in_range(p: Seq<usize>) -> bool {
    forall|v: int| 0 <= v < p.len() ==> (#[trigger] p[v]) < p.len()
}

/// `k` steps lead from `v` to a root.
pub open spec fn climbs(p: Seq<usize>, v: int, k: nat) -> bool {
    is_root(p, follow(p, v, k))
}

/// Finitely many steps lead from `v` to a root.
pub open spec fn has_root(p: Seq<usize>, v: int) -> bool {
    exists|k: nat| #[trigger] climbs(p, v, k)
}

/// The parents form a forest: every element has a root above it.
pub open spec fn is_forest(p: Seq<usize>) -> bool {
    &&& in_range(p)
    &&& forall|v: int| 0 <= v < p.len() ==> #[trigger] has_root(p, v)
}

/// The representative of the set of `v`: the root above it.
pub open spec fn root_of(p: Seq<usize>, v: int) -> int {
    follow(p, v, choose|k: nat| climbs(p, v, k))
}

/// Path halving from `a`, for at most `fuel` steps: as long as `a` is not a
/// root, it is made to point to its grandparent, and the walk goes on from
/// what was its parent. The result is the parents and the element at which
/// the walk stands.
pub open spec fn halved(p: Seq<usize>, a: int, fuel: nat) -> (Seq<usize>, int)
    decreases fuel,
{
    if fuel == 0 || p[a] == a {
        (p, a)
    } else {
        halved(p.update(a, p[p[a] as int]), p[a] as int, (fuel - 1) as nat)
    }
}

/// `after` and `root` are what path halving from `a` leaves once it stands
/// at a root.
pub open spec fn halves_to(p: Seq<usize>, a: int, after: Seq<usize>, root: int) -> bool {
    after[root] == root && exists|fuel: nat| #[trigger] halved(p, a, fuel) == (after, root)
}

/// Stepping upwards stays among the elements.
pub proof fn lemma_follow_in_range(p: Seq<usize>, v: int, k: nat)
    requires
        in_range(p),
        0 <= v < p.len(),
    ensures
        0 <= follow(p, v, k) < p.len(),
    decreases k,
{
    if k > 0 {
        lemma_follow_in_range(p, p[v] as int, (k - 1) as nat);
    }
}

/// Steps beyond a root stay at the root.
pub proof fn lemma_follow_stays(p: Seq<usize>, v: int, k: nat, more: nat)
    requires
        climbs(p, v, k),
    ensures
        follow(p, v, k + more) == follow(p, v, k),
    decreases k, more,
{
    if k > 0 {
        lemma_follow_stays(p, p[v] as int, (k - 1) as nat, more);
    } else if more > 0 {
        lemma_follow_stays(p, v, 0, (more - 1) as nat);
    }
}

/// However many steps lead from `v` to a root, it is the same root.
pub proof fn lemma_root_of(p: Seq<usize>, v: int, k: nat)
    requires
        climbs(p, v, k),
    ensures
        root_of(p, v) == follow(p, v, k),
        is_root(p, root_of(p, v)),
{
    let c = choose|c: nat| climbs(p, v, c);
    if c <= k {
        lemma_follow_stays(p, v, c, (k - c) as nat);
    } else {
        lemma_follow_stays(p, v, k, (c - k) as nat);
    }
}

/// A number of steps that lead from `v` to a root.
pub proof fn lemma_height(p: Seq<usize>, v: int) -> (k: nat)
    requires
        is_forest(p),
        0 <= v < p.len(),
    ensures
        climbs(p, v, k),
        root_of(p, v) == follow(p, v, k),
{
    assert(has_root(p, v));
    let k = choose|k: nat| climbs(p, v, k);
    lemma_root_of(p, v, k);
    k
}

/// The root above an element of a forest is an element, and a root.
pub proof fn lemma_root_in_range(p: Seq<usize>, v: int)
    requires
        is_forest(p),
        0 <= v < p.len(),
    ensures
        0 <= root_of(p, v) < p.len(),
        is_root(p, root_of(p, v)),
{
    let k = lemma_height(p, v);
    lemma_follow_in_range(p, v, k);
}

/// Pointing `a` to its grandparent keeps, for `v`, the root it climbs to,
/// and takes it there in no more steps than before.
pub proof fn lemma_halve(p: Seq<usize>, a: int, v: int, k: nat) -> (k2: nat)
    requires
        in_range(p),
        0 <= a < p.len(),
        0 <= v < p.len(),
        climbs(p, v, k),
    ensures
        k2 <= k,
        climbs(p.update(a, p[p[a] as int]), v, k2),
        follow(p.update(a, p[p[a] as int]), v, k2) == follow(p, v, k),
    decreases k,
{
    let q = p.update(a, p[p[a] as int]);
    if p[v] == v {
        lemma_follow_stays(p, v, 0, k);
        0
    } else if v != a {
        let rest = lemma_halve(p, a, p[v] as int, (k - 1) as nat);
        rest + 1
    } else {
        let u = p[a] as int;
        if p[u] == u {
            lemma_follow_stays(p, u, 0, (k - 1) as nat);
            assert(follow(q, a, 1) == follow(q, u, 0));
            1
        } else {
            assert(k >= 2) by {
                if k == 1 {
                    assert(follow(p, a, 1) == follow(p, u, 0));
                }
            }
            assert(follow(p, a, k) == follow(p, u, (k - 1) as nat));
            assert(follow(p, u, (k - 1) as nat) == follow(p, p[u] as int, (k - 2) as nat));
            let rest = lemma_halve(p, a, p[u] as int, (k - 2) as nat);
            rest + 1
        }
    }
}

/// Pointing the root `ra` to the root `rb` takes what climbed to `ra` on to
/// `rb`, and leaves every other element with its root.
pub proof fn lemma_link(p: Seq<usize>, ra: int, rb: int, v: int, k: nat) -> (k2: nat)
    requires
        in_range(p),
        0 <= ra < p.len(),
        0 <= rb < p.len(),
        is_root(p, ra),
        is_root(p, rb),
        0 <= v < p.len(),
        climbs(p, v, k),
    ensures
        climbs(p.update(ra, rb as usize), v, k2),
        follow(p.update(ra, rb as usize), v, k2) == (if follow(p, v, k) == ra {
            rb
        } else {
            follow(p, v, k)
        }),
    decreases k,
{
    let q = p.update(ra, rb as usize);
    if p[v] == v {
        lemma_follow_stays(p, v, 0, k);
        if v == ra && ra != rb {
            assert(follow(q, ra, 1) == follow(q, rb, 0));
            1
        } else {
            0
        }
    } else {
        let rest = lemma_link(p, ra, rb, p[v] as int, (k - 1) as nat);
        rest + 1
    }
}

/// A partition of `0..n` into disjoint sets.
pub struct UnionFind {
    /// The parent of every element; a representative is its own parent.
    pub parents: Vec<usize>,
}

impl UnionFind {
    /// The invariant: the parents form a forest.
    pub open spec fn wf(&self) -> bool {
        is_forest(self.parents@)
    }

    /// The number of elements.
    pub open spec fn size(&self) -> nat {
        self.parents@.len()
    }

    /// The representative of the set that holds `v`.
    pub open spec fn representative(&self, v: int) -> int {
        root_of(self.parents@, v)
    }

    /// `a` and `b` are in one set.
    pub open spec fn same_set(&self, a: int, b: int) -> bool {
        self.representative(a) == self.representative(b)
    }

    /// `n` sets of one element each.
    pub fn new(n: usize) -> (uf: Self)
        ensures
            uf.wf(),
            uf.size() == n,
            forall|v: int| 0 <= v < n ==> #[trigger] uf.representative(v) == v,
    {
        let mut parents: Vec<usize> = Vec::with_capacity(n);
        let mut i: usize = 0;
        while i < n
            invariant
                i <= n,
                parents@.len() == i,
                forall|v: int| 0 <= v < i ==> #[trigger] parents@[v] == v,
            decreases n - i,
        {
            parents.push(i);
            i += 1;
        }
        let uf = Self { parents };
        proof {
            assert forall|v: int| 0 <= v < n implies #[trigger] has_root(uf.parents@, v) by {
                assert(climbs(uf.parents@, v, 0));
            }
            assert forall|v: int| 0 <= v < n implies #[trigger] uf.representative(v) == v by {
                assert(climbs(uf.parents@, v, 0));
                lemma_root_of(uf.parents@, v, 0);
            }
        }
        uf
    }

    /// The representative of the set of `a`. The sets stay as they are; the
    /// elements passed on the way are moved one step closer to the root.
    pub fn find(&mut self, a: usize) -> (root: usize)
        requires
            old(self).wf(),
            a < old(self).size(),
        ensures
            final(self).wf(),
            final(self).size() == old(self).size(),
            root == old(self).representative(a as int),
            forall|v: int|
                0 <= v < old(self).size() ==> #[trigger] final(self).representative(v) == old(
                    self,
                ).representative(v),
            halves_to(old(self).parents@, a as int, final(self).parents@, root as int),
    {
        let ghost first = self.parents@;
        let ghost origin = a as int;
        let ghost mut count: nat = 0;
        let ghost goal = root_of(first, a as int);
        let ghost mut steps: nat = 0;
        proof {
            steps = lemma_height(first, a as int);
        }
        let mut a = a;
        while self.parents[a] != a
            invariant
                is_forest(self.parents@),
                self.parents@.len() == first.len(),
                a < first.len(),
                climbs(self.parents@, a as int, steps),
                follow(self.parents@, a as int, steps) == goal,
                forall|f: nat|
                    halved(first, origin, count + f) == #[trigger] halved(
                        self.parents@,
                        a as int,
                        f,
                    ),
                forall|v: int|
                    0 <= v < first.len() ==> #[trigger] root_of(self.parents@, v) == root_of(
                        first,
                        v,
                    ),
            decreases steps,
        {
            let next: usize = self.parents[a];
            let ghost p = self.parents@;
            self.parents[a] = self.parents[next];
            proof {
                let q = self.parents@;
                assert(q == p.update(a as int, p[p[a as int] as int]));
                assert forall|v: int| 0 <= v < q.len() implies #[trigger] has_root(q, v) by {
                    let k = lemma_height(p, v);
                    let k2 = lemma_halve(p, a as int, v, k);
                    assert(climbs(q, v, k2));
                }
                assert forall|v: int| 0 <= v < first.len() implies #[trigger] root_of(q, v)
                    == root_of(first, v) by {
                    let k = lemma_height(p, v);
                    let k2 = lemma_halve(p, a as int, v, k);
                    lemma_root_of(q, v, k2);
                }
                assert(steps > 0);
                assert(follow(p, a as int, steps) == follow(p, next as int, (steps - 1) as nat));
                let k2 = lemma_halve(p, a as int, next as int, (steps - 1) as nat);
                steps = k2;
                assert forall|f: nat|
                    halved(first, origin, count + 1 + f) == #[trigger] halved(
                        q,
                        next as int,
                        f,
                    ) by {
                    assert(halved(p, a as int, f + 1) == halved(q, next as int, f));
                    assert(halved(first, origin, count + (f + 1)) == halved(p, a as int, f + 1));
                }
                count = count + 1;
            }
            a = next;
        }
        proof {
            lemma_follow_stays(self.parents@, a as int, 0, steps);
            assert(halved(first, origin, count + 0) == halved(self.parents@, a as int, 0));
            assert(halved(first, origin, count) == (self.parents@, a as int));
        }
        a
    }

    /// Unites the sets of `a` and `b`: the representative of `a` is put under
    /// that of `b`.
    pub fn merge(&mut self, a: usize, b: usize)
        requires
            old(self).wf(),
            a < old(self).size(),
            b < old(self).size(),
        ensures
            final(self).wf(),
            final(self).size() == old(self).size(),
            forall|v: int|
                0 <= v < old(self).size() ==> #[trigger] final(self).representative(v) == (if old(
                    self,
                ).same_set(v, a as int) {
                    old(self).representative(b as int)
                } else {
                    old(self).representative(v)
                }),
            exists|mid: Seq<usize>, halfway: Seq<usize>, top: int, under: int|
                {
                    &&& #[trigger] halves_to(old(self).parents@, b as int, mid, under)
                    &&& #[trigger] halves_to(mid, a as int, halfway, top)
                    &&& final(self).parents@ == halfway.update(top, under as usize)
                },
    {
        let under: usize = self.find(b);
        let ghost mid = *self;
        let top: usize = self.find(a);
        let ghost after = *self;
        let ghost p = self.parents@;
        proof {
            assert(mid.representative(b as int) == under);
            assert(after.representative(b as int) == under);
            assert(after.representative(a as int) == top);
            lemma_root_in_range(p, a as int);
            lemma_root_in_range(p, b as int);
        }
        self.parents[top] = under;
        proof {
            let q = self.parents@;
            assert(q == p.update(top as int, under));
            assert forall|v: int| 0 <= v < q.len() implies #[trigger] has_root(q, v) by {
                let k = lemma_height(p, v);
                let k2 = lemma_link(p, top as int, under as int, v, k);
                assert(climbs(q, v, k2));
            }
            assert forall|v: int| 0 <= v < q.len() implies #[trigger] root_of(q, v) == (if root_of(
                p,
                v,
            ) == top {
                under as int
            } else {
                root_of(p, v)
            }) by {
                let k = lemma_height(p, v);
                let k2 = lemma_link(p, top as int, under as int, v, k);
                lemma_root_of(q, v, k2);
            }
            assert forall|v: int| 0 <= v < old(self).size() implies #[trigger] self.representative(
                v,
            ) == (if old(self).same_set(v, a as int) {
                old(self).representative(b as int)
            } else {
                old(self).representative(v)
            }) by {
                assert(mid.representative(v) == old(self).representative(v));
                assert(after.representative(v) == mid.representative(v));
                assert(mid.representative(a as int) == old(self).representative(a as int));
                assert(root_of(q, v) == (if root_of(p, v) == top {
                    under as int
                } else {
                    root_of(p, v)
                }));
            }
            assert(halves_to(old(self).parents@, b as int, mid.parents@, under as int));
            assert(halves_to(mid.parents@, a as int, p, top as int));
        }
    }

    /// Whether `a` and `b` are in one set.
    pub fn are_adjacent(&mut self, a: usize, b: usize) -> (joined: bool)
        requires
            old(self).wf(),
            a < old(self).size(),
            b < old(self).size(),
        ensures
            final(self).wf(),
            final(self).size() == old(self).size(),
            joined == old(self).same_set(a as int, b as int),
            forall|v: int|
                0 <= v < old(self).size() ==> #[trigger] final(self).representative(v) == old(
                    self,
                ).representative(v),
            exists|mid: Seq<usize>, ra: int, rb: int|
                {
                    &&& #[trigger] halves_to(old(self).parents@, a as int, mid, ra)
                    &&& #[trigger] halves_to(mid, b as int, final(self).parents@, rb)
                },
    {
        let ra: usize = self.find(a);
        let ghost mid = self.parents@;
        let rb: usize = self.find(b);
        proof {
            assert(halves_to(old(self).parents@, a as int, mid, ra as int));
            assert(halves_to(mid, b as int, self.parents@, rb as int));
        }
        ra == rb
    }
}

} // verus!
