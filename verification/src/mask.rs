//! Gap simulation: drawing the withheld row set for one trial and
//! masking the target column with it.

use crate::metrics::seq_wf;
use crate::rational::Val;
use vstd::prelude::*;

verus! {

/// Relies on `rand::random_range`: a uniformly distributed value drawn
/// from the thread-local generator, always inside the given range.  The
/// range `0..n` must be nonempty, as the call panics on an empty range.
#[verifier::external_body]
fn random_below(n: usize) -> (r: usize)
    requires
        n >= 1,
    ensures
        r < n,
{
    rand::random_range(0..n)
}

/// No index appears twice.
pub open spec fn distinct_indices(s: Seq<usize>) -> bool {
    forall|i: int, j: int| 0 <= i < j < s.len() ==> s[i] != s[j]
}

/// Index `i` is in the withheld set.
pub open spec fn in_mask(mask: Seq<usize>, i: int) -> bool {
    exists|j: int| 0 <= j < mask.len() && mask[j] == i
}

/// Draw a withheld mask for one trial: exactly `samples` distinct row
/// indices, each below `row_count`, chosen without replacement from the
/// thread-local random source.  Each call draws afresh; no state is
/// shared between trials.
pub fn sample_indices(row_count: usize, samples: usize) -> (r: Vec<usize>)
    requires
        0 < samples <= row_count,
    ensures
        r@.len() == samples,
        forall|i: int| 0 <= i < r@.len() ==> r@[i] < row_count,
        distinct_indices(r@),
{
    let mut pool: Vec<usize> = Vec::new();
    let mut i: usize = 0;
    while i < row_count
        invariant
            pool@.len() == i,
            i <= row_count,
            forall|j: int| 0 <= j < i ==> pool@[j] == j,
        decreases row_count - i,
    {
        pool.push(i);
        i = i + 1;
    }
    let mut k: usize = 0;
    while k < samples
        invariant
            k <= samples <= row_count,
            pool@.len() == row_count,
            forall|j: int| 0 <= j < row_count ==> pool@[j] < row_count,
            distinct_indices(pool@),
        decreases samples - k,
    {
        let off = random_below(row_count - k);
        let pick = k + off;
        let ghost old_pool = pool@;
        let a = pool[k];
        let b = pool[pick];
        pool.set(k, b);
        pool.set(pick, a);
        proof {
            assert forall|x: int, y: int|
                0 <= x < y < pool@.len() implies pool@[x] != pool@[y] by {
                let sx: int = if x == k {
                    pick as int
                } else if x == pick {
                    k as int
                } else {
                    x
                };
                let sy: int = if y == k {
                    pick as int
                } else if y == pick {
                    k as int
                } else {
                    y
                };
                assert(pool@[x] == old_pool[sx]);
                assert(pool@[y] == old_pool[sy]);
                assert(sx != sy);
            }
        }
        k = k + 1;
    }
    let mut r: Vec<usize> = Vec::new();
    let mut t: usize = 0;
    while t < samples
        invariant
            samples <= pool@.len(),
            t <= samples,
            r@.len() == t,
            forall|j: int| 0 <= j < t ==> r@[j] == pool@[j],
            pool@.len() == row_count,
            forall|j: int| 0 <= j < row_count ==> pool@[j] < row_count,
            distinct_indices(pool@),
        decreases samples - t,
    {
        r.push(pool[t]);
        t = t + 1;
    }
    r
}

/// The masked column, at the specification level.
pub open spec fn masked_of(col: Seq<Val>, mask: Seq<usize>) -> Seq<Val> {
    Seq::new(
        col.len(),
        |i: int|
            if in_mask(mask, i) {
                Val::NaN
            } else {
                col[i]
            },
    )
}

/// The rows of a column at the withheld indices, at the specification
/// level.
pub open spec fn rows_at(col: Seq<Val>, mask: Seq<usize>) -> Seq<Val> {
    Seq::new(mask.len(), |j: int| col[mask[j] as int])
}

/// Mask the target column: every withheld index becomes missing, every
/// other row keeps its value.  The ground truth is kept by the caller.
pub fn apply_mask(col: &Vec<Val>, mask: &Vec<usize>) -> (r: Vec<Val>)
    requires
        seq_wf(col@),
        forall|j: int| 0 <= j < mask@.len() ==> mask@[j] < col@.len(),
    ensures
        r@.len() == col@.len(),
        seq_wf(r@),
        forall|i: int|
            0 <= i < col@.len() ==> r@[i] == (if in_mask(mask@, i) {
                Val::NaN
            } else {
                col@[i]
            }),
        r@ == masked_of(col@, mask@),
{
    let n = col.len();
    let mut r: Vec<Val> = Vec::new();
    let mut i: usize = 0;
    while i < n
        invariant
            n == col@.len(),
            i <= n,
            r@.len() == i,
            forall|j: int| 0 <= j < i ==> r@[j] == col@[j],
        decreases n - i,
    {
        r.push(col[i]);
        i = i + 1;
    }
    let mut t: usize = 0;
    while t < mask.len()
        invariant
            n == col@.len(),
            r@.len() == n,
            t <= mask@.len(),
            forall|j: int| 0 <= j < mask@.len() ==> mask@[j] < n,
            forall|i: int|
                0 <= i < n ==> r@[i] == (if in_mask(mask@.take(t as int), i) {
                    Val::NaN
                } else {
                    col@[i]
                }),
        decreases mask@.len() - t,
    {
        let m = mask[t];
        let ghost old_r = r@;
        r.set(m, Val::NaN);
        proof {
            assert forall|i: int|
                0 <= i < n implies r@[i] == (if in_mask(mask@.take(t as int + 1), i) {
                Val::NaN
            } else {
                col@[i]
            }) by {
                if i == m as int {
                    assert(mask@.take(t as int + 1)[t as int] == m);
                    assert(in_mask(mask@.take(t as int + 1), i));
                } else {
                    assert(r@[i] == old_r[i]);
                    if in_mask(mask@.take(t as int + 1), i) {
                        let j = choose|j: int|
                            0 <= j < mask@.take(t as int + 1).len() && #[trigger] mask@.take(
                                t as int + 1,
                            )[j] == i;
                        assert(j < t as int);
                        assert(mask@.take(t as int)[j] == i);
                        assert(in_mask(mask@.take(t as int), i));
                    } else if in_mask(mask@.take(t as int), i) {
                        let j = choose|j: int|
                            0 <= j < mask@.take(t as int).len() && #[trigger] mask@.take(
                                t as int,
                            )[j] == i;
                        assert(mask@.take(t as int + 1)[j] == i);
                        assert(in_mask(mask@.take(t as int + 1), i));
                    }
                }
            }
        }
        t = t + 1;
    }
    proof {
        assert(mask@.take(mask@.len() as int) =~= mask@);
        assert forall|i: int| 0 <= i < n implies (#[trigger] r@[i]).wf() by {
            if !in_mask(mask@, i) {
                assert(r@[i] == col@[i]);
            }
        }
        assert(r@ =~= masked_of(col@, mask@));
    }
    r
}

/// The rows of a column at the withheld indices, in mask order; used to
/// score a reconstruction against only the withheld ground truth.
pub fn extract_rows(col: &Vec<Val>, mask: &Vec<usize>) -> (r: Vec<Val>)
    requires
        seq_wf(col@),
        forall|j: int| 0 <= j < mask@.len() ==> mask@[j] < col@.len(),
    ensures
        r@.len() == mask@.len(),
        seq_wf(r@),
        forall|j: int| 0 <= j < mask@.len() ==> r@[j] == col@[mask@[j] as int],
        r@ == rows_at(col@, mask@),
{
    let mut r: Vec<Val> = Vec::new();
    let mut t: usize = 0;
    while t < mask.len()
        invariant
            seq_wf(col@),
            t <= mask@.len(),
            r@.len() == t,
            forall|j: int| 0 <= j < mask@.len() ==> mask@[j] < col@.len(),
            forall|j: int| 0 <= j < t ==> r@[j] == col@[mask@[j] as int],
        decreases mask@.len() - t,
    {
        r.push(col[mask[t]]);
        t = t + 1;
    }
    proof {
        assert forall|j: int| 0 <= j < r@.len() implies (#[trigger] r@[j]).wf() by {
            assert(r@[j] == col@[mask@[j] as int]);
        }
        assert(r@ =~= rows_at(col@, mask@));
    }
    r
}

} // verus!
