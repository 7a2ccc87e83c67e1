//! Sums over the vertices `0..n`, used to count vertices of a kind and to
//! bound the work that a search has left.

use vstd::prelude::*;

verus! {

/// `f(0) + f(1) + ... + f(n - 1)`.
pub open spec fn tally(n: nat, f: spec_fn(int) -> int) -> int
    decreases n,
{
    if n == 0 {
        0
    } else {
        tally((n - 1) as nat, f) + f(n - 1)
    }
}

/// Two functions that differ at `j` only have tallies that differ by what
/// they differ at `j`.
pub proof fn lemma_tally_change(n: nat, f: spec_fn(int) -> int, g: spec_fn(int) -> int, j: int)
    requires
        forall|i: int| 0 <= i < n && i != j ==> #[trigger] f(i) == g(i),
    ensures
        0 <= j < n ==> tally(n, g) == tally(n, f) - f(j) + g(j),
        !(0 <= j < n) ==> tally(n, g) == tally(n, f),
    decreases n,
{
    if n > 0 {
        lemma_tally_change((n - 1) as nat, f, g, j);
    }
}

/// A tally of values between `lo` and `hi` lies between `n * lo` and `n * hi`.
pub proof fn lemma_tally_bounds(n: nat, f: spec_fn(int) -> int, lo: int, hi: int)
    requires
        forall|i: int| 0 <= i < n ==> lo <= #[trigger] f(i) <= hi,
    ensures
        n * lo <= tally(n, f) <= n * hi,
    decreases n,
{
    if n > 0 {
        let m = (n - 1) as nat;
        lemma_tally_bounds(m, f, lo, hi);
        assert(n * lo == m * lo + lo) by (nonlinear_arith)
            requires
                n == m + 1,
        ;
        assert(n * hi == m * hi + hi) by (nonlinear_arith)
            requires
                n == m + 1,
        ;
    } else {
        assert(n * lo == 0 && n * hi == 0) by (nonlinear_arith)
            requires
                n == 0,
        ;
    }
}

/// A tally of values that are never negative is at least the sum of any two
/// of them.
pub proof fn lemma_tally_two(n: nat, f: spec_fn(int) -> int, a: int, b: int)
    requires
        forall|i: int| 0 <= i < n ==> 0 <= #[trigger] f(i),
        0 <= a < n,
        0 <= b < n,
        a != b,
    ensures
        tally(n, f) >= f(a) + f(b),
{
    let g = |i: int|
        if i == a {
            0int
        } else {
            f(i)
        };
    let h = |i: int|
        if i == a || i == b {
            0int
        } else {
            f(i)
        };
    lemma_tally_change(n, f, g, a);
    lemma_tally_change(n, g, h, b);
    assert forall|i: int| 0 <= i < n implies 0 <= #[trigger] h(i) by {
        assert(0 <= f(i));
    }
    lemma_tally_nonnegative(n, h);
}

/// A tally of values that are never negative is not negative.
pub proof fn lemma_tally_nonnegative(n: nat, f: spec_fn(int) -> int)
    requires
        forall|i: int| 0 <= i < n ==> 0 <= #[trigger] f(i),
    ensures
        0 <= tally(n, f),
    decreases n,
{
    if n > 0 {
        lemma_tally_nonnegative((n - 1) as nat, f);
    }
}

/// How many of the flags are still down.
pub open spec fn pending_count(flags: Seq<bool>) -> int {
    tally(
        flags.len(),
        |v: int|
            if flags[v] {
                0int
            } else {
                1int
            },
    )
}

/// Raising a flag that was down leaves one flag fewer down.
pub proof fn lemma_pending_raise(flags: Seq<bool>, v: int)
    requires
        0 <= v < flags.len(),
        !flags[v],
    ensures
        pending_count(flags.update(v, true)) == pending_count(flags) - 1,
        pending_count(flags.update(v, true)) >= 0,
{
    let next = flags.update(v, true);
    lemma_tally_change(
        flags.len(),
        |i: int|
            if flags[i] {
                0int
            } else {
                1int
            },
        |i: int|
            if next[i] {
                0int
            } else {
                1int
            },
        v,
    );
    lemma_tally_nonnegative(
        flags.len(),
        |i: int|
            if next[i] {
                0int
            } else {
                1int
            },
    );
}

/// The count of flags that are down is a natural number, at most their number.
pub proof fn lemma_pending_bounds(flags: Seq<bool>)
    ensures
        0 <= pending_count(flags) <= flags.len(),
{
    lemma_tally_bounds(
        flags.len(),
        |i: int|
            if flags[i] {
                0int
            } else {
                1int
            },
        0,
        1,
    );
    assert(flags.len() * 0 == 0 && flags.len() * 1 == flags.len()) by (nonlinear_arith);
}

/// Flags that are all up leave none down; flags that are all down are all
/// counted.
pub proof fn lemma_pending_uniform(flags: Seq<bool>, up: bool)
    requires
        forall|i: int| 0 <= i < flags.len() ==> #[trigger] flags[i] == up,
    ensures
        pending_count(flags) == (if up {
            0
        } else {
            flags.len() as int
        }),
{
    let each = if up {
        0int
    } else {
        1int
    };
    lemma_tally_bounds(
        flags.len(),
        |i: int|
            if flags[i] {
                0int
            } else {
                1int
            },
        each,
        each,
    );
    assert(flags.len() * each == (if up {
        0
    } else {
        flags.len() as int
    })) by (nonlinear_arith)
        requires
            each == (if up {
                0int
            } else {
                1int
            }),
    ;
}

/// `n` flags, all down.
pub fn lowered(n: usize) -> (flags: Vec<bool>)
    ensures
        flags@ == Seq::new(n as nat, |v: int| false),
{
    let mut flags: Vec<bool> = Vec::with_capacity(n);
    let mut i: usize = 0;
    while i < n
        invariant
            i <= n,
            flags@ == Seq::new(i as nat, |v: int| false),
        decreases n - i,
    {
        flags.push(false);
        i += 1;
        assert(flags@ =~= Seq::new(i as nat, |v: int| false));
    }
    flags
}

/// The numbers below `n` of which `p` holds.
pub open spec fn chosen_below(n: nat, p: spec_fn(int) -> bool) -> Set<int> {
    Set::new(|i: int| 0 <= i < n && p(i))
}

/// A tally of ones and zeros counts the numbers at which it has a one.
pub proof fn lemma_tally_counts(n: nat, f: spec_fn(int) -> int, p: spec_fn(int) -> bool)
    requires
        forall|i: int|
            0 <= i < n ==> #[trigger] f(i) == (if p(i) {
                1int
            } else {
                0int
            }),
    ensures
        chosen_below(n, p).finite(),
        tally(n, f) == chosen_below(n, p).len(),
    decreases n,
{
    if n == 0 {
        assert(chosen_below(n, p) =~= Set::empty());
    } else {
        let m = (n - 1) as nat;
        lemma_tally_counts(m, f, p);
        if p(n - 1) {
            assert(chosen_below(n, p) =~= chosen_below(m, p).insert(n - 1));
        } else {
            assert(chosen_below(n, p) =~= chosen_below(m, p));
        }
    }
}

} // verus!
