//! Distance tables: one `i64` per vertex, where `i64::MAX` stands for a
//! vertex that has not been reached.

use crate::measure::{lemma_tally_bounds, lemma_tally_change, tally};
use vstd::prelude::*;

verus! {

/// The distance of a vertex that no path has reached.
pub const UNREACHED: i64 = i64::MAX;

/// The sum of `d` and `w` where it is an `i64`.
pub open spec fn extend(d: i64, w: i64) -> Option<i64> {
    if i64::MIN <= d + w <= i64::MAX {
        Some((d + w) as i64)
    } else {
        None
    }
}

/// How many vertices still have no distance.
pub open spec fn unreached_count(d: Seq<i64>) -> int {
    tally(
        d.len(),
        |v: int|
            if d[v] == i64::MAX {
                1int
            } else {
                0int
            },
    )
}

/// The sum of the distances found so far.
pub open spec fn reached_sum(d: Seq<i64>) -> int {
    tally(
        d.len(),
        |v: int|
            if d[v] == i64::MAX {
                0int
            } else {
                d[v] as int
            },
    )
}

/// What writing `c` at `v` does to the two measures of a table.
pub proof fn lemma_measures_update(d: Seq<i64>, v: int, c: i64)
    requires
        0 <= v < d.len(),
    ensures
        unreached_count(d.update(v, c)) == unreached_count(d) - (if d[v] == i64::MAX {
            1int
        } else {
            0int
        }) + (if c == i64::MAX {
            1int
        } else {
            0int
        }),
        reached_sum(d.update(v, c)) == reached_sum(d) - (if d[v] == i64::MAX {
            0int
        } else {
            d[v] as int
        }) + (if c == i64::MAX {
            0int
        } else {
            c as int
        }),
{
    let e = d.update(v, c);
    lemma_tally_change(
        d.len(),
        |i: int|
            if d[i] == i64::MAX {
                1int
            } else {
                0int
            },
        |i: int|
            if e[i] == i64::MAX {
                1int
            } else {
                0int
            },
        v,
    );
    lemma_tally_change(
        d.len(),
        |i: int|
            if d[i] == i64::MAX {
                0int
            } else {
                d[i] as int
            },
        |i: int|
            if e[i] == i64::MAX {
                0int
            } else {
                e[i] as int
            },
        v,
    );
}

/// Both measures of a table without negative entries are natural numbers.
pub proof fn lemma_measures_nonnegative(d: Seq<i64>)
    requires
        forall|v: int| 0 <= v < d.len() ==> #[trigger] d[v] >= 0,
    ensures
        0 <= unreached_count(d) <= d.len(),
        0 <= reached_sum(d),
{
    lemma_tally_bounds(
        d.len(),
        |v: int|
            if d[v] == i64::MAX {
                1int
            } else {
                0int
            },
        0,
        1,
    );
    lemma_tally_bounds(
        d.len(),
        |v: int|
            if d[v] == i64::MAX {
                0int
            } else {
                d[v] as int
            },
        0,
        i64::MAX as int,
    );
    assert(d.len() * 0 == 0 && d.len() * 1 == d.len()) by (nonlinear_arith);
}

/// A table of `n` entries that all hold `value`.
pub fn filled(n: usize, value: i64) -> (table: Vec<i64>)
    ensures
        table@ == Seq::new(n as nat, |v: int| value),
{
    let mut table: Vec<i64> = Vec::with_capacity(n);
    let mut i: usize = 0;
    while i < n
        invariant
            i <= n,
            table@ == Seq::new(i as nat, |v: int| value),
        decreases n - i,
    {
        table.push(value);
        i += 1;
        assert(table@ =~= Seq::new(i as nat, |v: int| value));
    }
    table
}

} // verus!
