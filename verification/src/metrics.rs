//! NaN-aware error metrics between a ground-truth and a reconstructed
//! column.
//!
//! All metrics work pairwise: a row contributes only when both sequences
//! hold a number at that index.  The specification-level sums below are
//! the reference for every metric contract.

use crate::rational::{
    abs_int, frac_abs, frac_add, frac_div, frac_eq, frac_fits, frac_le, frac_mul, frac_one, frac_sub,
    frac_wf, frac_zero, lemma_abs_cong, lemma_add_cong, lemma_div_cong, lemma_eq_sign,
    lemma_eq_trans, lemma_le_cong, lemma_mul_cong, lemma_sub_cong, result_of, val_abs, val_add,
    val_div, val_mul, val_sqrt_ceil, val_sub, Frac, Rat, Val,
};
use vstd::prelude::*;

verus! {

/// Every value of the sequence satisfies its representation invariant.
pub open spec fn seq_wf(s: Seq<Val>) -> bool {
    forall|i: int| 0 <= i < s.len() ==> (#[trigger] s[i]).wf()
}

/// Both sequences hold a number at index `i`.
pub open spec fn pair_valid(a: Seq<Val>, b: Seq<Val>, i: int) -> bool {
    a[i].is_num() && b[i].is_num()
}

/// How many indices hold a valid pair.
pub open spec fn count_valid(a: Seq<Val>, b: Seq<Val>) -> nat
    decreases a.len(),
{
    if a.len() == 0 {
        0nat
    } else {
        count_valid(a.drop_last(), b.drop_last()) + if pair_valid(a, b, a.len() - 1) {
            1nat
        } else {
            0nat
        }
    }
}

/// The squared difference contributed by one valid pair.
pub open spec fn sq_diff_term(x: Val, y: Val) -> Frac {
    frac_mul(frac_sub(y.frac(), x.frac()), frac_sub(y.frac(), x.frac()))
}

/// Sum of squared differences over the valid pairs.
pub open spec fn sum_sq_diff(a: Seq<Val>, b: Seq<Val>) -> Frac
    decreases a.len(),
{
    if a.len() == 0 {
        frac_zero()
    } else if pair_valid(a, b, a.len() - 1) {
        frac_add(sum_sq_diff(a.drop_last(), b.drop_last()), sq_diff_term(a.last(), b.last()))
    } else {
        sum_sq_diff(a.drop_last(), b.drop_last())
    }
}

/// Sum of absolute differences over the valid pairs.
pub open spec fn sum_abs_diff(a: Seq<Val>, b: Seq<Val>) -> Frac
    decreases a.len(),
{
    if a.len() == 0 {
        frac_zero()
    } else if pair_valid(a, b, a.len() - 1) {
        frac_add(
            sum_abs_diff(a.drop_last(), b.drop_last()),
            frac_abs(frac_sub(b.last().frac(), a.last().frac())),
        )
    } else {
        sum_abs_diff(a.drop_last(), b.drop_last())
    }
}

/// Sum of the ground-truth values over the valid pairs.
pub open spec fn sum_obs(a: Seq<Val>, b: Seq<Val>) -> Frac
    decreases a.len(),
{
    if a.len() == 0 {
        frac_zero()
    } else if pair_valid(a, b, a.len() - 1) {
        frac_add(sum_obs(a.drop_last(), b.drop_last()), a.last().frac())
    } else {
        sum_obs(a.drop_last(), b.drop_last())
    }
}

/// Sum of the squared ground-truth values over the valid pairs.
pub open spec fn sum_obs_sq(a: Seq<Val>, b: Seq<Val>) -> Frac
    decreases a.len(),
{
    if a.len() == 0 {
        frac_zero()
    } else if pair_valid(a, b, a.len() - 1) {
        frac_add(
            sum_obs_sq(a.drop_last(), b.drop_last()),
            frac_mul(a.last().frac(), a.last().frac()),
        )
    } else {
        sum_obs_sq(a.drop_last(), b.drop_last())
    }
}

/// Mean squared error over the valid pairs.
pub open spec fn mse_spec(a: Seq<Val>, b: Seq<Val>) -> Frac {
    frac_div(sum_sq_diff(a, b), Frac { num: count_valid(a, b) as int, den: 1 })
}

/// Mean absolute error over the valid pairs.
pub open spec fn abserr_spec(a: Seq<Val>, b: Seq<Val>) -> Frac {
    frac_div(sum_abs_diff(a, b), Frac { num: count_valid(a, b) as int, den: 1 })
}

/// Mean of the ground truth over the valid pairs.
pub open spec fn mean_spec(a: Seq<Val>, b: Seq<Val>) -> Frac {
    frac_div(sum_obs(a, b), Frac { num: count_valid(a, b) as int, den: 1 })
}

/// `n * sum((mean - a_i)^2)` over the valid pairs, written with the
/// mean's division cleared: `n * sum(a_i^2) - (sum(a_i))^2`.
pub open spec fn nse_denom_spec(a: Seq<Val>, b: Seq<Val>) -> Frac {
    frac_sub(
        frac_mul(Frac { num: count_valid(a, b) as int, den: 1 }, sum_obs_sq(a, b)),
        frac_mul(sum_obs(a, b), sum_obs(a, b)),
    )
}

/// Nash-Sutcliffe efficiency: `1 - n * SS / (n * sum(a_i^2) - S^2)`,
/// the usual `1 - SS / sum((a_i - mean)^2)` with both sides of the
/// quotient scaled by the valid-pair count `n`.
pub open spec fn nse_spec(a: Seq<Val>, b: Seq<Val>) -> Frac {
    frac_sub(
        frac_one(),
        frac_div(
            frac_mul(Frac { num: count_valid(a, b) as int, den: 1 }, sum_sq_diff(a, b)),
            nse_denom_spec(a, b),
        ),
    )
}

/// A value small enough that the scorers are proven total on it: a plain
/// integer of magnitude at most `1048576`.
pub open spec fn modest_val(v: Val) -> bool {
    &&& v.is_num()
    &&& v.frac().den == 1
    &&& -1048576 <= v.frac().num <= 1048576
}

pub open spec fn modest_seq(s: Seq<Val>) -> bool {
    forall|i: int| 0 <= i < s.len() ==> modest_val(#[trigger] s[i])
}

/// Inputs on which the scorers are proven to return a number: modest
/// integer values and at most 256 rows.
pub open spec fn modest_inputs(a: Seq<Val>, b: Seq<Val>) -> bool {
    &&& modest_seq(a)
    &&& modest_seq(b)
    &&& a.len() == b.len()
    &&& a.len() <= 256
}

/// One step of every pairwise sum: extending the prefix by index `i`.
pub proof fn lemma_sums_step(a: Seq<Val>, b: Seq<Val>, i: int)
    requires
        a.len() == b.len(),
        0 <= i < a.len(),
    ensures
        count_valid(a.take(i + 1), b.take(i + 1)) == count_valid(a.take(i), b.take(i)) + (
        if pair_valid(a, b, i) {
            1nat
        } else {
            0nat
        }),
        sum_sq_diff(a.take(i + 1), b.take(i + 1)) == (if pair_valid(a, b, i) {
            frac_add(sum_sq_diff(a.take(i), b.take(i)), sq_diff_term(a[i], b[i]))
        } else {
            sum_sq_diff(a.take(i), b.take(i))
        }),
        sum_abs_diff(a.take(i + 1), b.take(i + 1)) == (if pair_valid(a, b, i) {
            frac_add(
                sum_abs_diff(a.take(i), b.take(i)),
                frac_abs(frac_sub(b[i].frac(), a[i].frac())),
            )
        } else {
            sum_abs_diff(a.take(i), b.take(i))
        }),
        sum_obs(a.take(i + 1), b.take(i + 1)) == (if pair_valid(a, b, i) {
            frac_add(sum_obs(a.take(i), b.take(i)), a[i].frac())
        } else {
            sum_obs(a.take(i), b.take(i))
        }),
        sum_obs_sq(a.take(i + 1), b.take(i + 1)) == (if pair_valid(a, b, i) {
            frac_add(sum_obs_sq(a.take(i), b.take(i)), frac_mul(a[i].frac(), a[i].frac()))
        } else {
            sum_obs_sq(a.take(i), b.take(i))
        }),
{
    let a1 = a.take(i + 1);
    let b1 = b.take(i + 1);
    assert(a1.drop_last() =~= a.take(i));
    assert(b1.drop_last() =~= b.take(i));
    assert(a1.last() == a[i]);
    assert(b1.last() == b[i]);
    assert(pair_valid(a1, b1, a1.len() - 1) == pair_valid(a, b, i));
}

/// Well-formedness and signs of the pairwise sums.
pub proof fn lemma_sums_wf(a: Seq<Val>, b: Seq<Val>)
    requires
        seq_wf(a),
        seq_wf(b),
        a.len() == b.len(),
    ensures
        frac_wf(sum_sq_diff(a, b)),
        frac_wf(sum_abs_diff(a, b)),
        frac_wf(sum_obs(a, b)),
        frac_wf(sum_obs_sq(a, b)),
        sum_sq_diff(a, b).num >= 0,
        sum_abs_diff(a, b).num >= 0,
        sum_obs_sq(a, b).num >= 0,
        count_valid(a, b) <= a.len(),
    decreases a.len(),
{
    if a.len() == 0 {
    } else {
        let ap = a.drop_last();
        let bp = b.drop_last();
        assert(seq_wf(ap)) by {
            assert(forall|i: int| 0 <= i < ap.len() ==> ap[i] == a[i]);
        }
        assert(seq_wf(bp)) by {
            assert(forall|i: int| 0 <= i < bp.len() ==> bp[i] == b[i]);
        }
        lemma_sums_wf(ap, bp);
        if pair_valid(a, b, a.len() - 1) {
            let x = a.last();
            let y = b.last();
            assert(x.wf() && y.wf());
            lemma_term_facts(x.frac(), y.frac());
            lemma_add_wf_nonneg(sum_sq_diff(ap, bp), sq_diff_term(x, y));
            lemma_add_wf_nonneg(sum_abs_diff(ap, bp), frac_abs(frac_sub(y.frac(), x.frac())));
            lemma_frac_add_wf(sum_obs(ap, bp), x.frac());
            lemma_add_wf_nonneg(sum_obs_sq(ap, bp), frac_mul(x.frac(), x.frac()));
        }
    }
}

/// The per-pair terms are well-formed; the squared ones are nonnegative.
proof fn lemma_term_facts(fx: Frac, fy: Frac)
    requires
        frac_wf(fx),
        frac_wf(fy),
    ensures
        frac_wf(frac_sub(fy, fx)),
        frac_wf(frac_mul(frac_sub(fy, fx), frac_sub(fy, fx))),
        frac_mul(frac_sub(fy, fx), frac_sub(fy, fx)).num >= 0,
        frac_wf(frac_abs(frac_sub(fy, fx))),
        frac_abs(frac_sub(fy, fx)).num >= 0,
        frac_wf(frac_mul(fx, fx)),
        frac_mul(fx, fx).num >= 0,
{
    assert(fy.den * fx.den > 0) by (nonlinear_arith)
        requires
            fx.den > 0,
            fy.den > 0,
    ;
    let d = frac_sub(fy, fx);
    assert(d.num * d.num >= 0) by (nonlinear_arith);
    assert(d.den * d.den > 0) by (nonlinear_arith)
        requires
            d.den > 0,
    ;
    assert(fx.num * fx.num >= 0) by (nonlinear_arith);
    assert(fx.den * fx.den > 0) by (nonlinear_arith)
        requires
            fx.den > 0,
    ;
}

/// Adding well-formed fractions stays well-formed.
pub proof fn lemma_frac_add_wf(s: Frac, t: Frac)
    requires
        frac_wf(s),
        frac_wf(t),
    ensures
        frac_wf(frac_add(s, t)),
{
    assert(s.den * t.den > 0) by (nonlinear_arith)
        requires
            s.den > 0,
            t.den > 0,
    ;
}

/// Adding nonnegative well-formed fractions stays nonnegative.
proof fn lemma_add_wf_nonneg(s: Frac, t: Frac)
    requires
        frac_wf(s),
        frac_wf(t),
        s.num >= 0,
        t.num >= 0,
    ensures
        frac_wf(frac_add(s, t)),
        frac_add(s, t).num >= 0,
{
    lemma_frac_add_wf(s, t);
    assert(s.num * t.den >= 0 && t.num * s.den >= 0) by (nonlinear_arith)
        requires
            s.den > 0,
            t.den > 0,
            s.num >= 0,
            t.num >= 0,
    ;
}

/// Under modest inputs every sum is an integer (denominator one) with a
/// numerator linearly bounded by the length.
pub proof fn lemma_sums_modest(a: Seq<Val>, b: Seq<Val>)
    requires
        modest_seq(a),
        modest_seq(b),
        a.len() == b.len(),
    ensures
        sum_sq_diff(a, b).den == 1,
        0 <= sum_sq_diff(a, b).num <= a.len() * 4398046511104,
        sum_abs_diff(a, b).den == 1,
        0 <= sum_abs_diff(a, b).num <= a.len() * 2097152,
        sum_obs(a, b).den == 1,
        -(a.len() * 1048576) <= sum_obs(a, b).num <= a.len() * 1048576,
        sum_obs_sq(a, b).den == 1,
        0 <= sum_obs_sq(a, b).num <= a.len() * 1099511627776,
    decreases a.len(),
{
    if a.len() == 0 {
    } else {
        let ap = a.drop_last();
        let bp = b.drop_last();
        assert(modest_seq(ap)) by {
            assert(forall|i: int| 0 <= i < ap.len() ==> ap[i] == a[i]);
        }
        assert(modest_seq(bp)) by {
            assert(forall|i: int| 0 <= i < bp.len() ==> bp[i] == b[i]);
        }
        lemma_sums_modest(ap, bp);
        assert(modest_val(a.last()));
        assert(modest_val(b.last()));
        if pair_valid(a, b, a.len() - 1) {
            let fx = a.last().frac();
            let fy = b.last().frac();
            let d = frac_sub(fy, fx);
            assert(d.den == 1 && -2097152 <= d.num <= 2097152);
            assert(frac_abs(d).den == 1 && 0 <= frac_abs(d).num <= 2097152);
            assert(sum_abs_diff(a, b) == frac_add(sum_abs_diff(ap, bp), frac_abs(d)));
            assert(frac_add(sum_abs_diff(ap, bp), frac_abs(d)).num == sum_abs_diff(ap, bp).num
                * frac_abs(d).den + frac_abs(d).num * sum_abs_diff(ap, bp).den);
            assert(0 <= d.num * d.num <= 4398046511104) by (nonlinear_arith)
                requires
                    -2097152 <= d.num <= 2097152,
            ;
            assert(0 <= fx.num * fx.num <= 1099511627776) by (nonlinear_arith)
                requires
                    -1048576 <= fx.num <= 1048576,
            ;
            assert((a.len() - 1) * 4398046511104 + 4398046511104 == a.len() * 4398046511104)
                by (nonlinear_arith);
            assert((a.len() - 1) * 2097152 + 2097152 == a.len() * 2097152) by (nonlinear_arith);
            assert((a.len() - 1) * 1048576 + 1048576 == a.len() * 1048576) by (nonlinear_arith);
            assert((a.len() - 1) * 1099511627776 + 1099511627776 == a.len() * 1099511627776)
                by (nonlinear_arith);
        } else {
            assert((a.len() - 1) * 4398046511104 <= a.len() * 4398046511104) by (nonlinear_arith);
            assert((a.len() - 1) * 2097152 <= a.len() * 2097152) by (nonlinear_arith);
            assert((a.len() - 1) * 1048576 <= a.len() * 1048576) by (nonlinear_arith);
            assert(-((a.len() - 1) * 1048576) >= -(a.len() * 1048576)) by (nonlinear_arith);
            assert((a.len() - 1) * 1099511627776 <= a.len() * 1099511627776) by (nonlinear_arith);
        }
    }
}

/// Folding one exact term into an accumulator keeps it equal to the
/// specification sum; a missing accumulator or term stays missing.
proof fn lemma_acc_step(acc: Val, term: Val, r: Val, sp: Frac, st: Frac)
    requires
        acc.wf(),
        term.wf(),
        r.wf(),
        frac_wf(sp),
        frac_wf(st),
        acc.is_num() ==> frac_eq(acc.frac(), sp),
        term.is_num() ==> frac_eq(term.frac(), st),
        !(acc.is_num() && term.is_num()) ==> r is NaN,
        acc.is_num() && term.is_num() ==> crate::rational::result_of(
            r,
            frac_add(acc.frac(), term.frac()),
        ),
    ensures
        r.is_num() ==> frac_eq(r.frac(), frac_add(sp, st)),
{
    if r.is_num() {
        assert(acc.is_num() && term.is_num());
        lemma_add_cong(acc.frac(), term.frac(), sp, st);
        lemma_frac_add_wf(acc.frac(), term.frac());
        lemma_frac_add_wf(sp, st);
        lemma_eq_trans(r.frac(), frac_add(acc.frac(), term.frac()), frac_add(sp, st));
    }
}

/// All pairwise sums of a (ground truth, reconstruction) pair, computed
/// in one pass.
struct PairSums {
    count: usize,
    sq: Val,
    abs_diff: Val,
    obs: Val,
    obs_sq: Val,
}

fn pair_sums(obs: &Vec<Val>, sim: &Vec<Val>) -> (r: PairSums)
    requires
        obs@.len() == sim@.len(),
        seq_wf(obs@),
        seq_wf(sim@),
    ensures
        r.count == count_valid(obs@, sim@),
        r.sq.wf(),
        r.abs_diff.wf(),
        r.obs.wf(),
        r.obs_sq.wf(),
        r.sq.is_num() ==> frac_eq(r.sq.frac(), sum_sq_diff(obs@, sim@)),
        r.abs_diff.is_num() ==> frac_eq(r.abs_diff.frac(), sum_abs_diff(obs@, sim@)),
        r.obs.is_num() ==> frac_eq(r.obs.frac(), sum_obs(obs@, sim@)),
        r.obs_sq.is_num() ==> frac_eq(r.obs_sq.frac(), sum_obs_sq(obs@, sim@)),
        modest_inputs(obs@, sim@) ==> {
            &&& r.sq.is_num() && r.sq.frac().den == 1 && r.sq.frac().num == sum_sq_diff(
                obs@,
                sim@,
            ).num
            &&& r.abs_diff.is_num() && r.abs_diff.frac().den == 1
            &&& r.obs.is_num() && r.obs.frac().den == 1 && r.obs.frac().num == sum_obs(
                obs@,
                sim@,
            ).num
            &&& r.obs_sq.is_num() && r.obs_sq.frac().den == 1 && r.obs_sq.frac().num == sum_obs_sq(
                obs@,
                sim@,
            ).num
        },
{
    let ghost ga = obs@;
    let ghost gb = sim@;
    let n = obs.len();
    let mut count: usize = 0;
    let mut sq = Val::zero();
    let mut abs_diff = Val::zero();
    let mut obs_acc = Val::zero();
    let mut obs_sq_acc = Val::zero();
    let mut i: usize = 0;
    while i < n
        invariant
            ga == obs@,
            gb == sim@,
            ga.len() == gb.len(),
            n == ga.len(),
            i <= n,
            seq_wf(ga),
            seq_wf(gb),
            count == count_valid(ga.take(i as int), gb.take(i as int)),
            sq.wf(),
            abs_diff.wf(),
            obs_acc.wf(),
            obs_sq_acc.wf(),
            sq.is_num() ==> frac_eq(sq.frac(), sum_sq_diff(ga.take(i as int), gb.take(i as int))),
            abs_diff.is_num() ==> frac_eq(
                abs_diff.frac(),
                sum_abs_diff(ga.take(i as int), gb.take(i as int)),
            ),
            obs_acc.is_num() ==> frac_eq(
                obs_acc.frac(),
                sum_obs(ga.take(i as int), gb.take(i as int)),
            ),
            obs_sq_acc.is_num() ==> frac_eq(
                obs_sq_acc.frac(),
                sum_obs_sq(ga.take(i as int), gb.take(i as int)),
            ),
            modest_inputs(ga, gb) ==> {
                &&& sq.is_num() && sq.frac().den == 1 && sq.frac().num == sum_sq_diff(
                    ga.take(i as int),
                    gb.take(i as int),
                ).num
                &&& abs_diff.is_num() && abs_diff.frac().den == 1
                &&& obs_acc.is_num() && obs_acc.frac().den == 1 && obs_acc.frac().num == sum_obs(
                    ga.take(i as int),
                    gb.take(i as int),
                ).num
                &&& obs_sq_acc.is_num() && obs_sq_acc.frac().den == 1 && obs_sq_acc.frac().num
                    == sum_obs_sq(ga.take(i as int), gb.take(i as int)).num
            },
        decreases n - i,
    {
        let ghost pa = ga.take(i as int);
        let ghost pb = gb.take(i as int);
        let ghost qa = ga.take(i as int + 1);
        let ghost qb = gb.take(i as int + 1);
        proof {
            lemma_sums_step(ga, gb, i as int);
            assert(seq_wf(pa) && seq_wf(pb)) by {
                assert(forall|j: int| 0 <= j < pa.len() ==> pa[j] == ga[j]);
                assert(forall|j: int| 0 <= j < pb.len() ==> pb[j] == gb[j]);
            }
            lemma_sums_wf(pa, pb);
        }
        let x = obs[i];
        let y = sim[i];
        if x.is_number() && y.is_number() {
            proof {
                lemma_term_facts(x.frac(), y.frac());
            }
            let d = val_sub(y, x);
            let t = val_mul(d, d);
            let ad = val_abs(d);
            let xs = val_mul(x, x);
            proof {
                if d.is_num() {
                    lemma_term_facts(x.frac(), y.frac());
                    if t.is_num() {
                        lemma_mul_cong(
                            d.frac(),
                            d.frac(),
                            frac_sub(y.frac(), x.frac()),
                            frac_sub(y.frac(), x.frac()),
                        );
                        lemma_mul_wf(d.frac(), d.frac());
                        lemma_eq_trans(
                            t.frac(),
                            frac_mul(d.frac(), d.frac()),
                            sq_diff_term(x, y),
                        );
                    }
                    lemma_abs_cong(d.frac(), frac_sub(y.frac(), x.frac()));
                }
            }
            let new_sq = val_add(sq, t);
            let new_abs = val_add(abs_diff, ad);
            let new_obs = val_add(obs_acc, x);
            let new_obs_sq = val_add(obs_sq_acc, xs);
            proof {
                lemma_acc_step(sq, t, new_sq, sum_sq_diff(pa, pb), sq_diff_term(x, y));
                lemma_acc_step(
                    abs_diff,
                    ad,
                    new_abs,
                    sum_abs_diff(pa, pb),
                    frac_abs(frac_sub(y.frac(), x.frac())),
                );
                lemma_acc_step(obs_acc, x, new_obs, sum_obs(pa, pb), x.frac());
                lemma_acc_step(
                    obs_sq_acc,
                    xs,
                    new_obs_sq,
                    sum_obs_sq(pa, pb),
                    frac_mul(x.frac(), x.frac()),
                );
                if modest_inputs(ga, gb) {
                    lemma_modest_step(
                        ga,
                        gb,
                        i as int,
                        sq,
                        abs_diff,
                        obs_acc,
                        obs_sq_acc,
                        d,
                        t,
                        ad,
                        xs,
                        new_sq,
                        new_abs,
                        new_obs,
                        new_obs_sq,
                    );
                }
            }
            sq = new_sq;
            abs_diff = new_abs;
            obs_acc = new_obs;
            obs_sq_acc = new_obs_sq;
            count = count + 1;
        }
        i = i + 1;
    }
    proof {
        assert(ga.take(n as int) =~= ga);
        assert(gb.take(n as int) =~= gb);
    }
    PairSums { count, sq, abs_diff, obs: obs_acc, obs_sq: obs_sq_acc }
}

/// Multiplying well-formed fractions stays well-formed.
proof fn lemma_mul_wf(s: Frac, t: Frac)
    requires
        frac_wf(s),
        frac_wf(t),
    ensures
        frac_wf(frac_mul(s, t)),
{
    assert(s.den * t.den > 0) by (nonlinear_arith)
        requires
            s.den > 0,
            t.den > 0,
    ;
}

/// Under modest inputs, one valid accumulation step keeps every
/// accumulator an exact integer equal to its specification sum.
proof fn lemma_modest_step(
    ga: Seq<Val>,
    gb: Seq<Val>,
    i: int,
    sq: Val,
    abs_diff: Val,
    obs_acc: Val,
    obs_sq_acc: Val,
    d: Val,
    t: Val,
    ad: Val,
    xs: Val,
    new_sq: Val,
    new_abs: Val,
    new_obs: Val,
    new_obs_sq: Val,
)
    requires
        modest_inputs(ga, gb),
        0 <= i < ga.len(),
        pair_valid(ga, gb, i),
        seq_wf(ga),
        seq_wf(gb),
        sq.wf() && sq.is_num() && sq.frac().den == 1 && sq.frac().num == sum_sq_diff(
            ga.take(i),
            gb.take(i),
        ).num,
        abs_diff.wf() && abs_diff.is_num() && abs_diff.frac().den == 1 && frac_eq(
            abs_diff.frac(),
            sum_abs_diff(ga.take(i), gb.take(i)),
        ),
        obs_acc.wf() && obs_acc.is_num() && obs_acc.frac().den == 1 && obs_acc.frac().num
            == sum_obs(ga.take(i), gb.take(i)).num,
        obs_sq_acc.wf() && obs_sq_acc.is_num() && obs_sq_acc.frac().den == 1
            && obs_sq_acc.frac().num == sum_obs_sq(ga.take(i), gb.take(i)).num,
        d.wf(),
        t.wf(),
        ad.wf(),
        xs.wf(),
        crate::rational::result_of(d, frac_sub(gb[i].frac(), ga[i].frac())),
        d.is_num() ==> crate::rational::result_of(t, frac_mul(d.frac(), d.frac())),
        d.is_num() ==> (ad.is_num() && ad.frac() == frac_abs(d.frac())),
        d is NaN ==> t is NaN,
        d is NaN ==> ad is NaN,
        crate::rational::result_of(xs, frac_mul(ga[i].frac(), ga[i].frac())),
        sq.is_num() && t.is_num() ==> crate::rational::result_of(
            new_sq,
            frac_add(sq.frac(), t.frac()),
        ),
        abs_diff.is_num() && ad.is_num() ==> crate::rational::result_of(
            new_abs,
            frac_add(abs_diff.frac(), ad.frac()),
        ),
        obs_acc.is_num() && ga[i].is_num() ==> crate::rational::result_of(
            new_obs,
            frac_add(obs_acc.frac(), ga[i].frac()),
        ),
        obs_sq_acc.is_num() && xs.is_num() ==> crate::rational::result_of(
            new_obs_sq,
            frac_add(obs_sq_acc.frac(), xs.frac()),
        ),
    ensures
        new_sq.is_num() && new_sq.frac().den == 1 && new_sq.frac().num == sum_sq_diff(
            ga.take(i + 1),
            gb.take(i + 1),
        ).num,
        new_abs.is_num() && new_abs.frac().den == 1,
        new_obs.is_num() && new_obs.frac().den == 1 && new_obs.frac().num == sum_obs(
            ga.take(i + 1),
            gb.take(i + 1),
        ).num,
        new_obs_sq.is_num() && new_obs_sq.frac().den == 1 && new_obs_sq.frac().num == sum_obs_sq(
            ga.take(i + 1),
            gb.take(i + 1),
        ).num,
{
    let x = ga[i];
    let y = gb[i];
    assert(modest_val(x) && modest_val(y));
    let pa = ga.take(i);
    let pb = gb.take(i);
    let qa = ga.take(i + 1);
    let qb = gb.take(i + 1);
    assert(modest_seq(pa) && modest_seq(pb) && modest_seq(qa) && modest_seq(qb)) by {
        assert(forall|j: int| 0 <= j < pa.len() ==> pa[j] == ga[j]);
        assert(forall|j: int| 0 <= j < pb.len() ==> pb[j] == gb[j]);
        assert(forall|j: int| 0 <= j < qa.len() ==> qa[j] == ga[j]);
        assert(forall|j: int| 0 <= j < qb.len() ==> qb[j] == gb[j]);
    }
    lemma_sums_modest(pa, pb);
    lemma_sums_step(ga, gb, i);
    assert(0 <= pa.len() <= 256);
    assert(sum_sq_diff(pa, pb).num <= 256 * 4398046511104) by (nonlinear_arith)
        requires
            sum_sq_diff(pa, pb).num <= pa.len() * 4398046511104,
            0 <= pa.len() <= 256,
    ;
    assert(sum_abs_diff(pa, pb).num <= 256 * 2097152) by (nonlinear_arith)
        requires
            sum_abs_diff(pa, pb).num <= pa.len() * 2097152,
            0 <= pa.len() <= 256,
    ;
    assert(-(256 * 1048576) <= sum_obs(pa, pb).num <= 256 * 1048576) by (nonlinear_arith)
        requires
            -(pa.len() * 1048576) <= sum_obs(pa, pb).num <= pa.len() * 1048576,
            0 <= pa.len() <= 256,
    ;
    assert(sum_obs_sq(pa, pb).num <= 256 * 1099511627776) by (nonlinear_arith)
        requires
            sum_obs_sq(pa, pb).num <= pa.len() * 1099511627776,
            0 <= pa.len() <= 256,
    ;
    // the difference and its square are exact small integers
    let ds = frac_sub(y.frac(), x.frac());
    assert(ds.den == 1 && ds.num == y.frac().num - x.frac().num) by (nonlinear_arith)
        requires
            ds.num == y.frac().num * x.frac().den - x.frac().num * y.frac().den,
            ds.den == y.frac().den * x.frac().den,
            x.frac().den == 1,
            y.frac().den == 1,
    ;
    lemma_int_pin(d, ds);
    let ts = frac_mul(d.frac(), d.frac());
    assert(ts.den == 1 && 0 <= ts.num <= 4398046511104) by (nonlinear_arith)
        requires
            ts.num == d.frac().num * d.frac().num,
            ts.den == d.frac().den * d.frac().den,
            d.frac().den == 1,
            -2097152 <= d.frac().num <= 2097152,
    ;
    lemma_int_pin(t, ts);
    assert(ad.is_num() && ad.frac().den == 1 && 0 <= ad.frac().num <= 2097152);
    let xss = frac_mul(x.frac(), x.frac());
    assert(xss.den == 1 && 0 <= xss.num <= 1099511627776) by (nonlinear_arith)
        requires
            xss.num == x.frac().num * x.frac().num,
            xss.den == x.frac().den * x.frac().den,
            x.frac().den == 1,
            -1048576 <= x.frac().num <= 1048576,
    ;
    lemma_int_pin(xs, xss);
    // the squared-difference term matches the exact one structurally
    assert(d.frac() == ds);
    assert(sq_diff_term(x, y) == ts);
    // fold each term in; all sums stay exact integers within `i64`
    lemma_add_int(sq.frac(), t.frac());
    lemma_int_pin(new_sq, frac_add(sq.frac(), t.frac()));
    lemma_add_int(abs_diff.frac(), ad.frac());
    assert(0 <= abs_diff.frac().num <= 256 * 2097152) by {
        lemma_sums_wf(pa, pb);
        assert(seq_wf(pa) && seq_wf(pb)) by {
            assert(forall|j: int| 0 <= j < pa.len() ==> pa[j] == ga[j]);
            assert(forall|j: int| 0 <= j < pb.len() ==> pb[j] == gb[j]);
        }
        assert(abs_diff.frac().num * sum_abs_diff(pa, pb).den == sum_abs_diff(pa, pb).num
            * abs_diff.frac().den);
        assert(abs_diff.frac().num == sum_abs_diff(pa, pb).num) by (nonlinear_arith)
            requires
                abs_diff.frac().num * sum_abs_diff(pa, pb).den == sum_abs_diff(pa, pb).num
                    * abs_diff.frac().den,
                abs_diff.frac().den == 1,
                sum_abs_diff(pa, pb).den == 1,
        ;
    }
    lemma_int_pin(new_abs, frac_add(abs_diff.frac(), ad.frac()));
    lemma_add_int(obs_acc.frac(), x.frac());
    lemma_int_pin(new_obs, frac_add(obs_acc.frac(), x.frac()));
    lemma_add_int(obs_sq_acc.frac(), xs.frac());
    lemma_int_pin(new_obs_sq, frac_add(obs_sq_acc.frac(), xs.frac()));
    // connect to the sums over the extended prefix
    lemma_add_int(sum_sq_diff(pa, pb), sq_diff_term(x, y));
    lemma_add_int(sum_obs(pa, pb), x.frac());
    lemma_add_int(sum_obs_sq(pa, pb), xss);
    assert(frac_mul(ga[i].frac(), ga[i].frac()) == xss);
}

/// A value produced for an exact integer-valued fraction within `i64`
/// range is that integer.
pub(crate) proof fn lemma_int_pin(v: Val, ex: Frac)
    requires
        result_of(v, ex),
        ex.den == 1,
        -(i64::MAX as int) <= ex.num <= i64::MAX as int,
    ensures
        v.is_num(),
        v.frac().den == 1,
        v.frac().num == ex.num,
{
    assert(frac_fits(ex));
    assert(v.is_num());
    assert(v.frac().den == 1);
    assert(v.frac().num == ex.num) by (nonlinear_arith)
        requires
            v.frac().num * ex.den == ex.num * v.frac().den,
            ex.den == 1,
            v.frac().den == 1,
    ;
}

/// Division by a positive count keeps the numerator and scales the
/// denominator.
proof fn lemma_div_by_count(s: Frac, n: int)
    requires
        frac_wf(s),
        n >= 1,
    ensures
        frac_wf(frac_div(s, Frac { num: n, den: 1 })),
        frac_div(s, Frac { num: n, den: 1 }).num == s.num,
        frac_div(s, Frac { num: n, den: 1 }).den == s.den * n,
        frac_div(s, Frac { num: n, den: 1 }).den >= 1,
{
    assert(s.num * 1 == s.num) by (nonlinear_arith);
    assert(s.den * n >= 1) by (nonlinear_arith)
        requires
            s.den >= 1,
            n >= 1,
    ;
}

/// `x^2 < b^2` forces `x < b` for nonnegative `x`.
proof fn lemma_sq_lt(x: int, b: int)
    requires
        x >= 0,
        b >= 0,
        x * x < b * b,
    ensures
        x < b,
{
    if x >= b {
        assert(x * x >= b * b) by (nonlinear_arith)
            requires
                x >= b >= 0,
        ;
    }
}

/// The value the RMSE computation returns: a ceiling square root of
/// some representation of the mean squared error.  The rounding grid is
/// the representation's denominator and is implementation-chosen, so
/// the contract brackets the result within one grid step of the true
/// square root rather than pinning a single value; pinning the grid to
/// the lowest-terms form would need unique-factorisation reasoning the
/// rational model does not carry.
pub open spec fn rmse_of(a: Seq<Val>, b: Seq<Val>, c: Frac) -> bool {
    exists|m: Frac|
        frac_wf(m) && #[trigger] frac_eq(m, mse_spec(a, b)) && crate::rational::sqrt_ceil_rel(m, c)
}

/// Root-mean-square error over the valid pairs, rounded up to the
/// internal representation grid.  Missing when no pair is valid.
pub fn calc_rmse(obs: &Vec<Val>, sim: &Vec<Val>) -> (r: Val)
    requires
        obs@.len() == sim@.len(),
        obs@.len() <= 0x7fffffffffffffff,
        seq_wf(obs@),
        seq_wf(sim@),
    ensures
        r.wf(),
        count_valid(obs@, sim@) == 0 ==> r is NaN,
        r.is_num() ==> count_valid(obs@, sim@) > 0,
        r.is_num() ==> r.frac().num >= 0,
        r.is_num() ==> rmse_of(obs@, sim@, r.frac()),
        modest_inputs(obs@, sim@) && count_valid(obs@, sim@) > 0 ==> r.is_num(),
{
    let s = pair_sums(obs, sim);
    proof {
        lemma_sums_wf(obs@, sim@);
    }
    if s.count == 0 {
        return Val::NaN;
    }
    let cnt = Val::from_int(s.count as i64);
    let m = val_div(s.sq, cnt);
    proof {
        lemma_div_by_count(sum_sq_diff(obs@, sim@), s.count as int);
        if m.is_num() {
            lemma_div_by_count(s.sq.frac(), s.count as int);
            lemma_div_cong(
                s.sq.frac(),
                cnt.frac(),
                sum_sq_diff(obs@, sim@),
                Frac { num: count_valid(obs@, sim@) as int, den: 1 },
            );
            lemma_eq_trans(
                m.frac(),
                frac_div(s.sq.frac(), cnt.frac()),
                mse_spec(obs@, sim@),
            );
            lemma_eq_sign(m.frac(), mse_spec(obs@, sim@));
        }
        if modest_inputs(obs@, sim@) {
            lemma_sums_modest(obs@, sim@);
            assert(sum_sq_diff(obs@, sim@).num <= 256 * 4398046511104) by (nonlinear_arith)
                requires
                    sum_sq_diff(obs@, sim@).num <= obs@.len() * 4398046511104,
                    0 <= obs@.len() <= 256,
            ;
            assert(frac_fits(frac_div(s.sq.frac(), cnt.frac()))) by {
                lemma_div_by_count(s.sq.frac(), s.count as int);
                assert(s.sq.frac().den * (s.count as int) == s.count as int) by (nonlinear_arith)
                    requires
                        s.sq.frac().den == 1,
                ;
            }
        }
    }
    let r = val_sqrt_ceil(m);
    proof {
        if r.is_num() {
            assert(frac_eq(m.frac(), mse_spec(obs@, sim@)));
            assert(crate::rational::sqrt_ceil_rel(m.frac(), r.frac()));
            assert(rmse_of(obs@, sim@, r.frac()));
        }
    }
    r
}

/// Mean absolute error over the valid pairs.  Missing when no pair is
/// valid.
pub fn calc_abserr(obs: &Vec<Val>, sim: &Vec<Val>) -> (r: Val)
    requires
        obs@.len() == sim@.len(),
        obs@.len() <= 0x7fffffffffffffff,
        seq_wf(obs@),
        seq_wf(sim@),
    ensures
        r.wf(),
        count_valid(obs@, sim@) == 0 ==> r is NaN,
        r.is_num() ==> count_valid(obs@, sim@) > 0,
        r.is_num() ==> r.frac().num >= 0,
        r.is_num() ==> frac_eq(r.frac(), abserr_spec(obs@, sim@)),
        modest_inputs(obs@, sim@) && count_valid(obs@, sim@) > 0 ==> r.is_num(),
{
    let s = pair_sums(obs, sim);
    proof {
        lemma_sums_wf(obs@, sim@);
    }
    if s.count == 0 {
        return Val::NaN;
    }
    let cnt = Val::from_int(s.count as i64);
    let r = val_div(s.abs_diff, cnt);
    proof {
        lemma_div_by_count(sum_abs_diff(obs@, sim@), s.count as int);
        if r.is_num() {
            lemma_div_by_count(s.abs_diff.frac(), s.count as int);
            lemma_div_cong(
                s.abs_diff.frac(),
                cnt.frac(),
                sum_abs_diff(obs@, sim@),
                Frac { num: count_valid(obs@, sim@) as int, den: 1 },
            );
            lemma_eq_trans(
                r.frac(),
                frac_div(s.abs_diff.frac(), cnt.frac()),
                abserr_spec(obs@, sim@),
            );
            lemma_eq_sign(r.frac(), abserr_spec(obs@, sim@));
        }
        if modest_inputs(obs@, sim@) {
            lemma_sums_modest(obs@, sim@);
            assert(sum_abs_diff(obs@, sim@).num <= 256 * 2097152) by (nonlinear_arith)
                requires
                    sum_abs_diff(obs@, sim@).num <= obs@.len() * 2097152,
                    0 <= obs@.len() <= 256,
            ;
            assert(frac_fits(frac_div(s.abs_diff.frac(), cnt.frac()))) by {
                lemma_div_by_count(s.abs_diff.frac(), s.count as int);
                assert(s.abs_diff.frac().den * (s.count as int) == s.count as int)
                    by (nonlinear_arith)
                    requires
                        s.abs_diff.frac().den == 1,
                ;
                assert(s.abs_diff.frac().num * sum_abs_diff(obs@, sim@).den == sum_abs_diff(
                    obs@,
                    sim@,
                ).num * s.abs_diff.frac().den);
                assert(s.abs_diff.frac().num == sum_abs_diff(obs@, sim@).num)
                    by (nonlinear_arith)
                    requires
                        s.abs_diff.frac().num * sum_abs_diff(obs@, sim@).den == sum_abs_diff(
                            obs@,
                            sim@,
                        ).num * s.abs_diff.frac().den,
                        s.abs_diff.frac().den == 1,
                        sum_abs_diff(obs@, sim@).den == 1,
                ;
            }
        }
    }
    r
}

/// Subtracting well-formed fractions stays well-formed.
proof fn lemma_sub_wf(s: Frac, t: Frac)
    requires
        frac_wf(s),
        frac_wf(t),
    ensures
        frac_wf(frac_sub(s, t)),
{
    assert(s.den * t.den > 0) by (nonlinear_arith)
        requires
            s.den > 0,
            t.den > 0,
    ;
}

/// Division by a nonzero value is well-formed.
proof fn lemma_div_wf(s: Frac, t: Frac)
    requires
        frac_wf(s),
        frac_wf(t),
        t.num != 0,
    ensures
        frac_wf(frac_div(s, t)),
{
    if t.num > 0 {
        assert(s.den * t.num > 0) by (nonlinear_arith)
            requires
                s.den > 0,
                t.num > 0,
        ;
    } else {
        assert(-(s.den * t.num) > 0) by (nonlinear_arith)
            requires
                s.den > 0,
                t.num < 0,
        ;
    }
}

/// The value the NRMSE computation returns: an RMSE value divided by the
/// mean of the ground truth over the valid pairs.
pub open spec fn nrmse_of(a: Seq<Val>, b: Seq<Val>, c: Frac) -> bool {
    exists|rm: Frac|
        frac_wf(rm) && #[trigger] rmse_of(a, b, rm) && frac_eq(c, frac_div(rm, mean_spec(a, b)))
}

/// Normalized root-mean-square error: the RMSE divided by the mean of
/// the ground truth over the valid pairs.  Missing when no pair is
/// valid or when that mean is zero.
pub fn calc_nrmse(obs: &Vec<Val>, sim: &Vec<Val>) -> (r: Val)
    requires
        obs@.len() == sim@.len(),
        obs@.len() <= 0x7fffffffffffffff,
        seq_wf(obs@),
        seq_wf(sim@),
    ensures
        r.wf(),
        count_valid(obs@, sim@) == 0 ==> r is NaN,
        sum_obs(obs@, sim@).num == 0 ==> r is NaN,
        r.is_num() ==> count_valid(obs@, sim@) > 0,
        r.is_num() ==> nrmse_of(obs@, sim@, r.frac()),
        modest_inputs(obs@, sim@) && count_valid(obs@, sim@) > 0 && sum_obs(obs@, sim@).num != 0
            ==> r.is_num(),
{
    let ghost ga = obs@;
    let ghost gb = sim@;
    let s = pair_sums(obs, sim);
    proof {
        lemma_sums_wf(ga, gb);
    }
    if s.count == 0 {
        return Val::NaN;
    }
    let cnt = Val::from_int(s.count as i64);
    let m = val_div(s.sq, cnt);
    let rm = val_sqrt_ceil(m);
    let mean = val_div(s.obs, cnt);
    let r = val_div(rm, mean);
    proof {
        let n = s.count as int;
        lemma_div_by_count(sum_sq_diff(ga, gb), n);
        lemma_div_by_count(sum_obs(ga, gb), n);
        if m.is_num() {
            lemma_div_by_count(s.sq.frac(), n);
            lemma_div_cong(
                s.sq.frac(),
                cnt.frac(),
                sum_sq_diff(ga, gb),
                Frac { num: n, den: 1 },
            );
            lemma_eq_trans(m.frac(), frac_div(s.sq.frac(), cnt.frac()), mse_spec(ga, gb));
        }
        if mean.is_num() {
            lemma_div_by_count(s.obs.frac(), n);
            lemma_div_cong(
                s.obs.frac(),
                cnt.frac(),
                sum_obs(ga, gb),
                Frac { num: n, den: 1 },
            );
            lemma_eq_trans(mean.frac(), frac_div(s.obs.frac(), cnt.frac()), mean_spec(ga, gb));
            lemma_eq_sign(mean.frac(), mean_spec(ga, gb));
        }
        if r.is_num() {
            // the final division only returns a number for a numeric,
            // nonzero mean and a numeric RMSE
            assert(rm.is_num() && mean.is_num() && mean.frac().num != 0);
            assert(rmse_of(ga, gb, rm.frac()));
            lemma_div_wf(rm.frac(), mean.frac());
            assert(mean_spec(ga, gb).num != 0);
            lemma_div_wf(rm.frac(), mean_spec(ga, gb));
            lemma_div_cong(rm.frac(), mean.frac(), rm.frac(), mean_spec(ga, gb));
            lemma_eq_trans(
                r.frac(),
                frac_div(rm.frac(), mean.frac()),
                frac_div(rm.frac(), mean_spec(ga, gb)),
            );
            assert(nrmse_of(ga, gb, r.frac()));
        }
        if modest_inputs(ga, gb) && count_valid(ga, gb) > 0 && sum_obs(ga, gb).num != 0 {
            lemma_sums_modest(ga, gb);
            lemma_nrmse_total(ga, gb, n, s.sq, s.obs, cnt, m, rm, mean, r);
        }
    }
    r
}

/// Under modest inputs with a nonzero ground-truth sum, every step of
/// the NRMSE computation stays within the representable range.
proof fn lemma_nrmse_total(
    ga: Seq<Val>,
    gb: Seq<Val>,
    n: int,
    ssq: Val,
    sobs: Val,
    cnt: Val,
    m: Val,
    rm: Val,
    mean: Val,
    r: Val,
)
    requires
        modest_inputs(ga, gb),
        seq_wf(ga),
        seq_wf(gb),
        n == count_valid(ga, gb),
        1 <= n <= 256,
        sum_obs(ga, gb).num != 0,
        ssq.is_num() && ssq.frac().den == 1 && ssq.frac().num == sum_sq_diff(ga, gb).num,
        sobs.is_num() && sobs.frac().den == 1 && sobs.frac().num == sum_obs(ga, gb).num,
        cnt.is_num() && cnt.frac() == (Frac { num: n, den: 1 }),
        sum_sq_diff(ga, gb).den == 1,
        0 <= sum_sq_diff(ga, gb).num <= ga.len() * 4398046511104,
        sum_obs(ga, gb).den == 1,
        -(ga.len() * 1048576) <= sum_obs(ga, gb).num <= ga.len() * 1048576,
        result_of(m, frac_div(ssq.frac(), cnt.frac())),
        m.is_num() ==> frac_eq(m.frac(), mse_spec(ga, gb)),
        !(m.is_num() && m.frac().num >= 0) ==> rm is NaN,
        m.is_num() && m.frac().num >= 0 ==> rm.is_num() && crate::rational::sqrt_ceil_rel(
            m.frac(),
            rm.frac(),
        ),
        result_of(mean, frac_div(sobs.frac(), cnt.frac())),
        mean.is_num() ==> frac_eq(mean.frac(), mean_spec(ga, gb)),
        rm.is_num() && mean.is_num() && mean.frac().num != 0 ==> result_of(
            r,
            frac_div(rm.frac(), mean.frac()),
        ),
    ensures
        r.is_num(),
{
    let len = ga.len() as int;
    assert(0 <= sum_sq_diff(ga, gb).num <= 1125899906842624) by (nonlinear_arith)
        requires
            0 <= sum_sq_diff(ga, gb).num <= len * 4398046511104,
            0 <= len <= 256,
    ;
    assert(-268435456 <= sum_obs(ga, gb).num <= 268435456) by (nonlinear_arith)
        requires
            -(len * 1048576) <= sum_obs(ga, gb).num <= len * 1048576,
            0 <= len <= 256,
    ;
    // the mean squared error fits and is nonnegative
    lemma_div_by_count(ssq.frac(), n);
    assert(ssq.frac().den * n == n) by (nonlinear_arith)
        requires
            ssq.frac().den == 1,
    ;
    assert(frac_fits(frac_div(ssq.frac(), cnt.frac())));
    assert(m.is_num());
    assert(abs_int(m.frac().num) <= abs_int(ssq.frac().num));
    assert(m.frac().den <= n);
    lemma_sums_wf(ga, gb);
    lemma_div_by_count(sum_sq_diff(ga, gb), n);
    lemma_eq_sign(m.frac(), mse_spec(ga, gb));
    assert(m.frac().num >= 0);
    assert(rm.is_num());
    // bound the RMSE numerator from its minimality
    assert(rm.frac().den == m.frac().den);
    assert(rm.frac().num >= 0);
    if rm.frac().num >= 1 {
        let c1 = rm.frac().num - 1;
        assert(crate::rational::frac_lt(
            frac_mul(
                Frac { num: c1, den: rm.frac().den },
                Frac { num: c1, den: rm.frac().den },
            ),
            m.frac(),
        ));
        assert((c1 * c1) * m.frac().den < m.frac().num * (rm.frac().den * rm.frac().den));
        assert(c1 * c1 <= (c1 * c1) * m.frac().den) by (nonlinear_arith)
            requires
                m.frac().den >= 1,
                c1 * c1 >= 0,
        ;
        assert(rm.frac().den * rm.frac().den <= 65536) by (nonlinear_arith)
            requires
                1 <= rm.frac().den <= 256,
        ;
        assert(m.frac().num * (rm.frac().den * rm.frac().den) <= 73786976294838206464)
            by (nonlinear_arith)
            requires
                0 <= m.frac().num <= 1125899906842624,
                0 <= rm.frac().den * rm.frac().den <= 65536,
        ;
        assert(c1 * c1 < 8589934592 * 8589934592) by (nonlinear_arith)
            requires
                c1 * c1 < 73786976294838206464,
        ;
        lemma_sq_lt(c1, 8589934592);
    }
    assert(0 <= rm.frac().num <= 8589934592);
    // the mean fits and is nonzero
    lemma_div_by_count(sobs.frac(), n);
    assert(sobs.frac().den * n == n) by (nonlinear_arith)
        requires
            sobs.frac().den == 1,
    ;
    assert(frac_fits(frac_div(sobs.frac(), cnt.frac())));
    assert(mean.is_num());
    assert(abs_int(mean.frac().num) <= abs_int(sobs.frac().num));
    assert(mean.frac().den <= n);
    lemma_eq_sign(mean.frac(), mean_spec(ga, gb));
    assert(mean_spec(ga, gb).num == sum_obs(ga, gb).num);
    assert(mean.frac().num != 0);
    // the final quotient fits
    assert(abs_int(rm.frac().num * mean.frac().den) <= 2199023255552) by (nonlinear_arith)
        requires
            0 <= rm.frac().num <= 8589934592,
            1 <= mean.frac().den <= 256,
    ;
    assert(abs_int(rm.frac().den * mean.frac().num) <= 68719476736 && (mean.frac().num > 0
        ==> rm.frac().den * mean.frac().num >= 1) && (mean.frac().num < 0 ==> -(rm.frac().den
        * mean.frac().num) >= 1)) by (nonlinear_arith)
        requires
            1 <= rm.frac().den <= 256,
            -268435456 <= mean.frac().num <= 268435456,
            mean.frac().num != 0,
    ;
    if mean.frac().num > 0 {
        assert(frac_fits(frac_div(rm.frac(), mean.frac())));
    } else {
        assert(abs_int(-(rm.frac().num * mean.frac().den)) == abs_int(rm.frac().num
            * mean.frac().den)) by (nonlinear_arith);
        assert(frac_fits(frac_div(rm.frac(), mean.frac())));
    }
    assert(r.is_num());
}

/// Nash-Sutcliffe efficiency.  Missing when no pair is valid or when
/// the ground truth is constant over the valid pairs (zero denominator).
pub fn calc_nse(obs: &Vec<Val>, sim: &Vec<Val>) -> (r: Val)
    requires
        obs@.len() == sim@.len(),
        obs@.len() <= 0x7fffffffffffffff,
        seq_wf(obs@),
        seq_wf(sim@),
    ensures
        r.wf(),
        count_valid(obs@, sim@) == 0 ==> r is NaN,
        r.is_num() ==> count_valid(obs@, sim@) > 0,
        r.is_num() ==> nse_denom_spec(obs@, sim@).num != 0,
        r.is_num() ==> frac_eq(r.frac(), nse_spec(obs@, sim@)),
        modest_inputs(obs@, sim@) && count_valid(obs@, sim@) > 0 && nse_denom_spec(
            obs@,
            sim@,
        ).num != 0 ==> r.is_num(),
{
    let ghost ga = obs@;
    let ghost gb = sim@;
    let s = pair_sums(obs, sim);
    proof {
        lemma_sums_wf(ga, gb);
    }
    if s.count == 0 {
        return Val::NaN;
    }
    let cnt = Val::from_int(s.count as i64);
    let nk = val_mul(cnt, s.sq);
    let q1 = val_mul(cnt, s.obs_sq);
    let q2 = val_mul(s.obs, s.obs);
    let dk = val_sub(q1, q2);
    let ratio = val_div(nk, dk);
    let one = Val::from_int(1);
    let r = val_sub(one, ratio);
    proof {
        let n = s.count as int;
        let cf = Frac { num: n, den: 1 };
        let nks = frac_mul(cf, sum_sq_diff(ga, gb));
        let dks = nse_denom_spec(ga, gb);
        lemma_mul_wf(cf, sum_sq_diff(ga, gb));
        lemma_mul_wf(cf, sum_obs_sq(ga, gb));
        lemma_mul_wf(sum_obs(ga, gb), sum_obs(ga, gb));
        lemma_sub_wf(
            frac_mul(cf, sum_obs_sq(ga, gb)),
            frac_mul(sum_obs(ga, gb), sum_obs(ga, gb)),
        );
        if nk.is_num() {
            lemma_mul_cong(cnt.frac(), s.sq.frac(), cf, sum_sq_diff(ga, gb));
            lemma_mul_wf(cnt.frac(), s.sq.frac());
            lemma_eq_trans(nk.frac(), frac_mul(cnt.frac(), s.sq.frac()), nks);
        }
        if q1.is_num() && q2.is_num() && dk.is_num() {
            lemma_mul_cong(cnt.frac(), s.obs_sq.frac(), cf, sum_obs_sq(ga, gb));
            lemma_mul_wf(cnt.frac(), s.obs_sq.frac());
            lemma_eq_trans(
                q1.frac(),
                frac_mul(cnt.frac(), s.obs_sq.frac()),
                frac_mul(cf, sum_obs_sq(ga, gb)),
            );
            lemma_mul_cong(s.obs.frac(), s.obs.frac(), sum_obs(ga, gb), sum_obs(ga, gb));
            lemma_mul_wf(s.obs.frac(), s.obs.frac());
            lemma_eq_trans(
                q2.frac(),
                frac_mul(s.obs.frac(), s.obs.frac()),
                frac_mul(sum_obs(ga, gb), sum_obs(ga, gb)),
            );
            lemma_sub_cong(
                q1.frac(),
                q2.frac(),
                frac_mul(cf, sum_obs_sq(ga, gb)),
                frac_mul(sum_obs(ga, gb), sum_obs(ga, gb)),
            );
            lemma_sub_wf(q1.frac(), q2.frac());
            lemma_eq_trans(dk.frac(), frac_sub(q1.frac(), q2.frac()), dks);
            lemma_eq_sign(dk.frac(), dks);
        }
        if r.is_num() {
            assert(ratio.is_num() && nk.is_num() && dk.is_num() && dk.frac().num != 0);
            assert(q1.is_num() && q2.is_num());
            assert(dks.num != 0);
            lemma_div_wf(nk.frac(), dk.frac());
            lemma_div_wf(nks, dks);
            lemma_div_cong(nk.frac(), dk.frac(), nks, dks);
            lemma_eq_trans(ratio.frac(), frac_div(nk.frac(), dk.frac()), frac_div(nks, dks));
            lemma_sub_cong(one.frac(), ratio.frac(), frac_one(), frac_div(nks, dks));
            lemma_sub_wf(one.frac(), ratio.frac());
            lemma_sub_wf(frac_one(), frac_div(nks, dks));
            lemma_eq_trans(
                r.frac(),
                frac_sub(one.frac(), ratio.frac()),
                nse_spec(ga, gb),
            );
        }
        if modest_inputs(ga, gb) && count_valid(ga, gb) > 0 && dks.num != 0 {
            lemma_sums_modest(ga, gb);
            lemma_nse_total(ga, gb, n, s.sq, s.obs, s.obs_sq, cnt, nk, q1, q2, dk, ratio, one, r);
        }
    }
    r
}

/// Under modest inputs with a nonzero denominator, every step of the
/// NSE computation stays within the representable range.
proof fn lemma_nse_total(
    ga: Seq<Val>,
    gb: Seq<Val>,
    n: int,
    ssq: Val,
    sobs: Val,
    sosq: Val,
    cnt: Val,
    nk: Val,
    q1: Val,
    q2: Val,
    dk: Val,
    ratio: Val,
    one: Val,
    r: Val,
)
    requires
        modest_inputs(ga, gb),
        seq_wf(ga),
        seq_wf(gb),
        n == count_valid(ga, gb),
        1 <= n <= 256,
        nse_denom_spec(ga, gb).num != 0,
        ssq.is_num() && ssq.frac().den == 1 && ssq.frac().num == sum_sq_diff(ga, gb).num,
        sobs.is_num() && sobs.frac().den == 1 && sobs.frac().num == sum_obs(ga, gb).num,
        sosq.is_num() && sosq.frac().den == 1 && sosq.frac().num == sum_obs_sq(ga, gb).num,
        cnt.is_num() && cnt.frac() == (Frac { num: n, den: 1 }),
        0 <= sum_sq_diff(ga, gb).num <= ga.len() * 4398046511104,
        -(ga.len() * 1048576) <= sum_obs(ga, gb).num <= ga.len() * 1048576,
        0 <= sum_obs_sq(ga, gb).num <= ga.len() * 1099511627776,
        sum_sq_diff(ga, gb).den == 1,
        sum_obs(ga, gb).den == 1,
        sum_obs_sq(ga, gb).den == 1,
        result_of(nk, frac_mul(cnt.frac(), ssq.frac())),
        result_of(q1, frac_mul(cnt.frac(), sosq.frac())),
        result_of(q2, frac_mul(sobs.frac(), sobs.frac())),
        dk.is_num() ==> frac_eq(dk.frac(), nse_denom_spec(ga, gb)),
        q1.is_num() && q2.is_num() ==> result_of(dk, frac_sub(q1.frac(), q2.frac())),
        nk.is_num() && dk.is_num() && dk.frac().num != 0 ==> result_of(
            ratio,
            frac_div(nk.frac(), dk.frac()),
        ),
        one.is_num() && one.frac() == (Frac { num: 1, den: 1 }),
        one.is_num() && ratio.is_num() ==> result_of(r, frac_sub(one.frac(), ratio.frac())),
    ensures
        r.is_num(),
{
    let len = ga.len() as int;
    assert(0 <= sum_sq_diff(ga, gb).num <= 1125899906842624) by (nonlinear_arith)
        requires
            0 <= sum_sq_diff(ga, gb).num <= len * 4398046511104,
            0 <= len <= 256,
    ;
    assert(-268435456 <= sum_obs(ga, gb).num <= 268435456) by (nonlinear_arith)
        requires
            -(len * 1048576) <= sum_obs(ga, gb).num <= len * 1048576,
            0 <= len <= 256,
    ;
    assert(0 <= sum_obs_sq(ga, gb).num <= 281474976710656) by (nonlinear_arith)
        requires
            0 <= sum_obs_sq(ga, gb).num <= len * 1099511627776,
            0 <= len <= 256,
    ;
    // n * SS
    let nkx = frac_mul(cnt.frac(), ssq.frac());
    assert(nkx.den == 1 && 0 <= nkx.num <= 288230376151711744) by (nonlinear_arith)
        requires
            nkx.num == n * ssq.frac().num,
            nkx.den == 1 * ssq.frac().den,
            ssq.frac().den == 1,
            1 <= n <= 256,
            0 <= ssq.frac().num <= 1125899906842624,
    ;
    lemma_int_pin(nk, nkx);
    // n * SQ
    let q1x = frac_mul(cnt.frac(), sosq.frac());
    assert(q1x.den == 1 && 0 <= q1x.num <= 72057594037927936) by (nonlinear_arith)
        requires
            q1x.num == n * sosq.frac().num,
            q1x.den == 1 * sosq.frac().den,
            sosq.frac().den == 1,
            1 <= n <= 256,
            0 <= sosq.frac().num <= 281474976710656,
    ;
    lemma_int_pin(q1, q1x);
    // S^2
    let q2x = frac_mul(sobs.frac(), sobs.frac());
    assert(q2x.den == 1 && 0 <= q2x.num <= 72057594037927936) by (nonlinear_arith)
        requires
            q2x.num == sobs.frac().num * sobs.frac().num,
            q2x.den == sobs.frac().den * sobs.frac().den,
            sobs.frac().den == 1,
            -268435456 <= sobs.frac().num <= 268435456,
    ;
    lemma_int_pin(q2, q2x);
    // the denominator
    let dkx = frac_sub(q1.frac(), q2.frac());
    assert(dkx.den == 1 && -72057594037927936 <= dkx.num <= 72057594037927936)
        by (nonlinear_arith)
        requires
            dkx.num == q1.frac().num * q2.frac().den - q2.frac().num * q1.frac().den,
            dkx.den == q1.frac().den * q2.frac().den,
            q1.frac().den == 1,
            q2.frac().den == 1,
            0 <= q1.frac().num <= 72057594037927936,
            0 <= q2.frac().num <= 72057594037927936,
    ;
    lemma_int_pin(dk, dkx);
    lemma_eq_sign(dk.frac(), nse_denom_spec(ga, gb));
    assert(dk.frac().num != 0);
    // the quotient
    let rx = frac_div(nk.frac(), dk.frac());
    if dk.frac().num > 0 {
        assert(rx.num == nk.frac().num * 1 && rx.den == 1 * dk.frac().num) by (nonlinear_arith)
            requires
                rx.num == nk.frac().num * dk.frac().den,
                rx.den == nk.frac().den * dk.frac().num,
                nk.frac().den == 1,
                dk.frac().den == 1,
                dk.frac().num > 0,
                rx == frac_div(nk.frac(), dk.frac()),
        ;
    } else {
        assert(rx.num == -(nk.frac().num * 1) && rx.den == -(1 * dk.frac().num))
            by (nonlinear_arith)
            requires
                rx.num == -(nk.frac().num * dk.frac().den),
                rx.den == -(nk.frac().den * dk.frac().num),
                nk.frac().den == 1,
                dk.frac().den == 1,
                dk.frac().num < 0,
        ;
    }
    assert(-288230376151711744 <= rx.num <= 288230376151711744);
    assert(1 <= rx.den <= 72057594037927936);
    assert(frac_fits(rx));
    assert(ratio.is_num());
    assert(abs_int(ratio.frac().num) <= abs_int(rx.num));
    assert(1 <= ratio.frac().den <= rx.den);
    // the final subtraction
    let fx = frac_sub(one.frac(), ratio.frac());
    assert(fx.den == ratio.frac().den && fx.num == ratio.frac().den - ratio.frac().num)
        by (nonlinear_arith)
        requires
            fx.num == 1 * ratio.frac().den - ratio.frac().num * 1,
            fx.den == 1 * ratio.frac().den,
    ;
    assert(frac_fits(fx));
    assert(r.is_num());
}

/// The four metric names the scorer recognizes.
pub open spec fn metric_recognized(name: Seq<char>) -> bool {
    ||| name == "rmse"@
    ||| name == "nrmse"@
    ||| name == "abserr"@
    ||| name == "nse"@
}

/// The contract every recognized metric satisfies through the
/// name-dispatching scorer.
pub open spec fn metric_result(a: Seq<Val>, b: Seq<Val>, name: Seq<char>, v: Val) -> bool {
    &&& v.wf()
    &&& (count_valid(a, b) == 0 ==> v is NaN)
    &&& (v.is_num() ==> count_valid(a, b) > 0)
    &&& (name == "rmse"@ ==> {
        &&& (v.is_num() ==> v.frac().num >= 0 && rmse_of(a, b, v.frac()))
        &&& (modest_inputs(a, b) && count_valid(a, b) > 0 ==> v.is_num())
    })
    &&& (name == "nrmse"@ ==> {
        &&& (sum_obs(a, b).num == 0 ==> v is NaN)
        &&& (v.is_num() ==> nrmse_of(a, b, v.frac()))
        &&& (modest_inputs(a, b) && count_valid(a, b) > 0 && sum_obs(a, b).num != 0
            ==> v.is_num())
    })
    &&& (name == "abserr"@ ==> {
        &&& (v.is_num() ==> v.frac().num >= 0 && frac_eq(v.frac(), abserr_spec(a, b)))
        &&& (modest_inputs(a, b) && count_valid(a, b) > 0 ==> v.is_num())
    })
    &&& (name == "nse"@ ==> {
        &&& (v.is_num() ==> nse_denom_spec(a, b).num != 0 && frac_eq(v.frac(), nse_spec(a, b)))
        &&& (modest_inputs(a, b) && count_valid(a, b) > 0 && nse_denom_spec(a, b).num != 0
            ==> v.is_num())
    })
}

/// Score a reconstruction against the ground truth with the metric of
/// the given name; an unrecognized name is rejected, never defaulted.
pub fn calc_error(obs: &Vec<Val>, sim: &Vec<Val>, error: &str) -> (r: Result<
    Val,
    crate::errors::DataFillError,
>)
    requires
        obs@.len() == sim@.len(),
        obs@.len() <= 0x7fffffffffffffff,
        seq_wf(obs@),
        seq_wf(sim@),
    ensures
        r is Ok <==> metric_recognized(error@),
        r matches Err(e) ==> e matches crate::errors::DataFillError::UnknownMetric(n) && n@
            == error@,
        r matches Ok(v) ==> metric_result(obs@, sim@, error@, v),
{
    proof {
        reveal_strlit("rmse");
        reveal_strlit("nrmse");
        reveal_strlit("abserr");
        reveal_strlit("nse");
        assert("rmse"@.len() == 4);
        assert("nrmse"@.len() == 5);
        assert("abserr"@.len() == 6);
        assert("nse"@.len() == 3);
    }
    if crate::text::str_eq(error, "rmse") {
        Ok(calc_rmse(obs, sim))
    } else if crate::text::str_eq(error, "nrmse") {
        Ok(calc_nrmse(obs, sim))
    } else if crate::text::str_eq(error, "abserr") {
        Ok(calc_abserr(obs, sim))
    } else if crate::text::str_eq(error, "nse") {
        Ok(calc_nse(obs, sim))
    } else {
        Err(crate::errors::DataFillError::UnknownMetric(error.to_owned()))
    }
}

/// Score one reconstruction with every named metric, in order.
pub fn calc_errors(obs: &Vec<Val>, sim: &Vec<Val>, errors: &Vec<String>) -> (r: Result<
    Vec<Val>,
    crate::errors::DataFillError,
>)
    requires
        obs@.len() == sim@.len(),
        obs@.len() <= 0x7fffffffffffffff,
        seq_wf(obs@),
        seq_wf(sim@),
    ensures
        r matches Ok(vs) ==> {
            &&& vs@.len() == errors@.len()
            &&& forall|i: int|
                0 <= i < errors@.len() ==> metric_result(
                    obs@,
                    sim@,
                    errors@[i]@,
                    #[trigger] vs@[i],
                )
        },
        r is Ok <==> (forall|i: int|
            0 <= i < errors@.len() ==> metric_recognized((#[trigger] errors@[i])@)),
        r matches Err(e) ==> e matches crate::errors::DataFillError::UnknownMetric(n) && (exists|
            i: int,
        |
            0 <= i < errors@.len() && n@ == (#[trigger] errors@[i])@ && !metric_recognized(
                errors@[i]@,
            ) && (forall|j: int| 0 <= j < i ==> metric_recognized((#[trigger] errors@[j])@))),
{
    let mut vs: Vec<Val> = Vec::new();
    let mut i: usize = 0;
    while i < errors.len()
        invariant
            obs@.len() == sim@.len(),
            obs@.len() <= 0x7fffffffffffffff,
            seq_wf(obs@),
            seq_wf(sim@),
            i <= errors@.len(),
            vs@.len() == i,
            forall|j: int|
                0 <= j < i ==> metric_result(obs@, sim@, errors@[j]@, #[trigger] vs@[j]),
            forall|j: int| 0 <= j < i ==> metric_recognized((#[trigger] errors@[j])@),
        decreases errors@.len() - i,
    {
        match calc_error(obs, sim, errors[i].as_str()) {
            Ok(v) => {
                vs.push(v);
            },
            Err(e) => {
                return Err(e);
            },
        }
        i = i + 1;
    }
    Ok(vs)
}

/// The sum of squared differences vanishes exactly when the two
/// sequences agree at every valid pair.
pub proof fn lemma_sum_sq_zero_iff(a: Seq<Val>, b: Seq<Val>)
    requires
        seq_wf(a),
        seq_wf(b),
        a.len() == b.len(),
    ensures
        (sum_sq_diff(a, b).num == 0) <==> (forall|i: int|
            0 <= i < a.len() && pair_valid(a, b, i) ==> frac_eq(a[i].frac(), b[i].frac())),
    decreases a.len(),
{
    if a.len() == 0 {
    } else {
        let ap = a.drop_last();
        let bp = b.drop_last();
        assert(seq_wf(ap) && seq_wf(bp)) by {
            assert(forall|i: int| 0 <= i < ap.len() ==> ap[i] == a[i]);
            assert(forall|i: int| 0 <= i < bp.len() ==> bp[i] == b[i]);
        }
        lemma_sum_sq_zero_iff(ap, bp);
        lemma_sums_wf(ap, bp);
        let s = sum_sq_diff(ap, bp);
        if pair_valid(a, b, a.len() - 1) {
            let x = a.last();
            let y = b.last();
            let d = frac_sub(y.frac(), x.frac());
            let t = sq_diff_term(x, y);
            lemma_term_facts(x.frac(), y.frac());
            // the total is zero exactly when both parts are zero
            assert(frac_add(s, t).num == s.num * t.den + t.num * s.den);
            assert((frac_add(s, t).num == 0) <==> (s.num == 0 && t.num == 0))
                by (nonlinear_arith)
                requires
                    frac_add(s, t).num == s.num * t.den + t.num * s.den,
                    s.num >= 0,
                    t.num >= 0,
                    s.den > 0,
                    t.den > 0,
            ;
            // the term is zero exactly when the pair agrees
            assert((t.num == 0) <==> (d.num == 0)) by (nonlinear_arith)
                requires
                    t.num == d.num * d.num,
            ;
            assert((d.num == 0) <==> frac_eq(x.frac(), y.frac()));
            if sum_sq_diff(a, b).num == 0 {
                assert(s.num == 0 && t.num == 0);
                assert forall|i: int|
                    0 <= i < a.len() && pair_valid(a, b, i) implies frac_eq(
                    a[i].frac(),
                    b[i].frac(),
                ) by {
                    if i < a.len() - 1 {
                        assert(ap[i] == a[i] && bp[i] == b[i]);
                        assert(pair_valid(ap, bp, i) == pair_valid(a, b, i));
                        assert(pair_valid(ap, bp, i) ==> frac_eq(ap[i].frac(), bp[i].frac()));
                    } else {
                        assert(a[i] == x && b[i] == y);
                    }
                }
            }
            if forall|i: int|
                0 <= i < a.len() && pair_valid(a, b, i) ==> frac_eq(a[i].frac(), b[i].frac()) {
                assert forall|i: int|
                    0 <= i < ap.len() && pair_valid(ap, bp, i) implies frac_eq(
                    ap[i].frac(),
                    bp[i].frac(),
                ) by {
                    assert(ap[i] == a[i] && bp[i] == b[i]);
                    assert(pair_valid(a, b, i) == pair_valid(ap, bp, i));
                    assert(pair_valid(a, b, i) ==> frac_eq(a[i].frac(), b[i].frac()));
                }
                assert(pair_valid(a, b, a.len() - 1));
                assert(a[a.len() - 1] == x && b[a.len() - 1] == y);
                assert(frac_eq(x.frac(), y.frac()));
            }
        } else {
            assert(sum_sq_diff(a, b) == s);
            if s.num == 0 {
                assert forall|i: int|
                    0 <= i < a.len() && pair_valid(a, b, i) implies frac_eq(
                    a[i].frac(),
                    b[i].frac(),
                ) by {
                    assert(i < a.len() - 1);
                    assert(ap[i] == a[i] && bp[i] == b[i]);
                    assert(pair_valid(ap, bp, i) == pair_valid(a, b, i));
                    assert(pair_valid(ap, bp, i) ==> frac_eq(ap[i].frac(), bp[i].frac()));
                }
            }
            if forall|i: int|
                0 <= i < a.len() && pair_valid(a, b, i) ==> frac_eq(a[i].frac(), b[i].frac()) {
                assert forall|i: int|
                    0 <= i < ap.len() && pair_valid(ap, bp, i) implies frac_eq(
                    ap[i].frac(),
                    bp[i].frac(),
                ) by {
                    assert(ap[i] == a[i] && bp[i] == b[i]);
                    assert(pair_valid(a, b, i) == pair_valid(ap, bp, i));
                    assert(pair_valid(a, b, i) ==> frac_eq(a[i].frac(), b[i].frac()));
                }
            }
        }
    }
}

/// The Nash-Sutcliffe efficiency equals one exactly when the
/// reconstruction agrees with the ground truth at every valid pair,
/// whenever its denominator is nonzero (the ground truth is not
/// constant over the valid pairs).
pub proof fn lemma_nse_one_iff_equal(a: Seq<Val>, b: Seq<Val>)
    requires
        seq_wf(a),
        seq_wf(b),
        a.len() == b.len(),
        count_valid(a, b) > 0,
        nse_denom_spec(a, b).num != 0,
    ensures
        frac_eq(nse_spec(a, b), frac_one()) <==> (forall|i: int|
            0 <= i < a.len() && pair_valid(a, b, i) ==> frac_eq(a[i].frac(), b[i].frac())),
{
    let n = count_valid(a, b) as int;
    let cf = Frac { num: n, den: 1 };
    let ss = sum_sq_diff(a, b);
    let nks = frac_mul(cf, ss);
    let dks = nse_denom_spec(a, b);
    lemma_sums_wf(a, b);
    lemma_mul_wf(cf, ss);
    lemma_mul_wf(cf, sum_obs_sq(a, b));
    lemma_mul_wf(sum_obs(a, b), sum_obs(a, b));
    lemma_sub_wf(frac_mul(cf, sum_obs_sq(a, b)), frac_mul(sum_obs(a, b), sum_obs(a, b)));
    let q = frac_div(nks, dks);
    lemma_div_wf(nks, dks);
    // 1 - q equals 1 exactly when q is zero
    assert(frac_eq(nse_spec(a, b), frac_one()) <==> q.num == 0) by (nonlinear_arith)
        requires
            nse_spec(a, b).num == frac_one().num * q.den - q.num * frac_one().den,
            nse_spec(a, b).den == frac_one().den * q.den,
            frac_one().num == 1,
            frac_one().den == 1,
            q.den > 0,
            nse_spec(a, b) == frac_sub(frac_one(), q),
            frac_eq(nse_spec(a, b), frac_one()) == (nse_spec(a, b).num * frac_one().den
                == frac_one().num * nse_spec(a, b).den),
    ;
    // q is zero exactly when the scaled squared-difference sum is
    if dks.num > 0 {
        assert((q.num == 0) <==> (nks.num == 0)) by (nonlinear_arith)
            requires
                q.num == nks.num * dks.den,
                dks.den > 0,
        ;
    } else {
        assert((q.num == 0) <==> (nks.num == 0)) by (nonlinear_arith)
            requires
                q.num == -(nks.num * dks.den),
                dks.den > 0,
        ;
    }
    assert((nks.num == 0) <==> (ss.num == 0)) by (nonlinear_arith)
        requires
            nks.num == n * ss.num,
            n >= 1,
    ;
    lemma_sum_sq_zero_iff(a, b);
}

/// Pairwise masking: making either side of row `i` missing removes
/// exactly that row's pair from every metric's sums: the count and all
/// four sums equal those computed over the two sequences with row `i`
/// deleted, so no other row's contribution is affected.
pub proof fn lemma_pairwise_masking(a: Seq<Val>, b: Seq<Val>, i: int)
    requires
        a.len() == b.len(),
        0 <= i < a.len(),
    ensures
        count_valid(a.update(i, Val::NaN), b) == count_valid(a.remove(i), b.remove(i)),
        sum_sq_diff(a.update(i, Val::NaN), b) == sum_sq_diff(a.remove(i), b.remove(i)),
        sum_abs_diff(a.update(i, Val::NaN), b) == sum_abs_diff(a.remove(i), b.remove(i)),
        sum_obs(a.update(i, Val::NaN), b) == sum_obs(a.remove(i), b.remove(i)),
        sum_obs_sq(a.update(i, Val::NaN), b) == sum_obs_sq(a.remove(i), b.remove(i)),
        count_valid(a, b.update(i, Val::NaN)) == count_valid(a.remove(i), b.remove(i)),
        sum_sq_diff(a, b.update(i, Val::NaN)) == sum_sq_diff(a.remove(i), b.remove(i)),
        sum_abs_diff(a, b.update(i, Val::NaN)) == sum_abs_diff(a.remove(i), b.remove(i)),
        sum_obs(a, b.update(i, Val::NaN)) == sum_obs(a.remove(i), b.remove(i)),
        sum_obs_sq(a, b.update(i, Val::NaN)) == sum_obs_sq(a.remove(i), b.remove(i)),
    decreases a.len(),
{
    let n = a.len() as int;
    let au = a.update(i, Val::NaN);
    let bu = b.update(i, Val::NaN);
    let ar = a.remove(i);
    let br = b.remove(i);
    if i == n - 1 {
        assert(!pair_valid(au, b, n - 1));
        assert(!pair_valid(a, bu, n - 1));
        assert(au.drop_last() =~= a.drop_last());
        assert(bu.drop_last() =~= b.drop_last());
        assert(ar =~= a.drop_last());
        assert(br =~= b.drop_last());
    } else {
        let ap = a.drop_last();
        let bp = b.drop_last();
        lemma_pairwise_masking(ap, bp, i);
        assert(au.drop_last() =~= ap.update(i, Val::NaN));
        assert(bu.drop_last() =~= bp.update(i, Val::NaN));
        assert(ar.drop_last() =~= ap.remove(i));
        assert(br.drop_last() =~= bp.remove(i));
        assert(au.last() == a.last());
        assert(bu.last() == b.last());
        assert(ar.last() == a.last());
        assert(br.last() == b.last());
        assert(ar.len() == n - 1 && br.len() == n - 1);
        assert(pair_valid(au, b, n - 1) == pair_valid(a, b, n - 1));
        assert(pair_valid(a, bu, n - 1) == pair_valid(a, b, n - 1));
        assert(pair_valid(ar, br, n - 2) == pair_valid(a, b, n - 1));
    }
}

/// `(x * y)^2 == x^2 * y^2`.
proof fn lemma_sq2(x: int, y: int)
    ensures
        (x * y) * (x * y) == (x * x) * (y * y),
{
    assert((x * y) * (x * y) == (x * x) * (y * y)) by (nonlinear_arith);
}

/// Reassociation of a triple product.
proof fn lemma_ac3(x: int, y: int, z: int)
    ensures
        x * (y * z) == (x * y) * z,
        (x * y) * z == (x * z) * y,
{
    assert(x * (y * z) == (x * y) * z && (x * y) * z == (x * z) * y) by (nonlinear_arith);
}

/// Scaling an inequality by a nonnegative factor.
proof fn lemma_scale_le(a: int, b: int, f: int)
    requires
        a <= b,
        f >= 0,
    ensures
        a * f <= b * f,
{
    assert(a * f <= b * f) by (nonlinear_arith)
        requires
            a <= b,
            f >= 0,
    ;
}

/// The square of a sum.
proof fn lemma_sq_sum(x: int, y: int)
    ensures
        (x + y) * (x + y) == x * x + 2 * (x * y) + y * y,
{
    assert((x + y) * (x + y) == x * x + 2 * (x * y) + y * y) by (nonlinear_arith);
}

/// Distributing a factor over a three-part sum.
proof fn lemma_distr3(a: int, b: int, c: int, q: int)
    ensures
        (a + b + c) * q == a * q + b * q + c * q,
{
    assert((a + b + c) * q == a * q + b * q + c * q) by (nonlinear_arith);
}

/// Squares and products of nonnegative factors are nonnegative.
proof fn lemma_sq_nonneg(x: int)
    ensures
        x * x >= 0,
{
    assert(x * x >= 0) by (nonlinear_arith);
}

proof fn lemma_mul_nonneg(x: int, y: int)
    requires
        x >= 0,
        y >= 0,
    ensures
        x * y >= 0,
{
    assert(x * y >= 0) by (nonlinear_arith)
        requires
            x >= 0,
            y >= 0,
    ;
}

/// `2c <= x + y` whenever `c^2 <= x * y` for nonnegative `x`, `y`
/// (the arithmetic-geometric mean inequality).
proof fn lemma_am_gm(c: int, x: int, y: int)
    requires
        x >= 0,
        y >= 0,
        c * c <= x * y,
    ensures
        2 * c <= x + y,
{
    if c <= 0 {
    } else {
        assert((x + y) * (x + y) >= 4 * (x * y)) by (nonlinear_arith);
        assert((x + y) * (x + y) >= (2 * c) * (2 * c)) by (nonlinear_arith)
            requires
                (x + y) * (x + y) >= 4 * (x * y),
                x * y >= c * c,
        ;
        if x + y < 2 * c {
            assert((x + y) * (x + y) < (2 * c) * (2 * c)) by (nonlinear_arith)
                requires
                    0 <= x + y,
                    x + y < 2 * c,
            ;
        }
    }
}

/// The two bundled reassociations of the Cauchy-Schwarz cross term.
proof fn lemma_ac_cs1(a: int, b: int, c: int, p2: int, q: int)
    ensures
        ((a * b) * (c * p2)) * (q * q) == ((a * q) * q) * (b * (c * p2)),
{
    assert(((a * b) * (c * p2)) * (q * q) == ((a * q) * q) * (b * (c * p2)))
        by (nonlinear_arith);
}

proof fn lemma_pair(x: int, y: int, p: int)
    ensures
        (x * p) * (y * p) == (x * y) * (p * p),
{
    assert((x * p) * (y * p) == (x * y) * (p * p)) by (nonlinear_arith);
}

proof fn lemma_ac5a(ss: int, b: int, n: int, c: int, q: int)
    ensures
        (ss * b) * (n * (c * q)) == ((n * ss) * q) * (b * c),
{
    assert((ss * b) * (n * (c * q)) == ((n * ss) * q) * (b * c)) by (nonlinear_arith);
}

proof fn lemma_ac5b(m: int, q: int, b: int, c: int, p: int)
    ensures
        ((m * q) * (b * c)) * (p * p) == ((m * p) * q) * (b * (c * p)),
{
    assert(((m * q) * (b * c)) * (p * p) == ((m * p) * q) * (b * (c * p))) by (nonlinear_arith);
}

proof fn lemma_two(x: int, q: int)
    ensures
        (2 * x) * q == 2 * (x * q),
{
    assert((2 * x) * q == 2 * (x * q)) by (nonlinear_arith);
}

proof fn lemma_ac_cs2(ss: int, b: int, p2: int, n: int, c: int, q: int)
    ensures
        ((ss * b) * p2) * ((n * (c * q)) * p2) == (((n * ss) * p2) * q) * (b * (c * p2)),
{
    lemma_pair(ss * b, n * (c * q), p2);
    lemma_ac5a(ss, b, n, c, q);
    assert(((ss * b) * (n * (c * q))) * (p2 * p2) == (((n * ss) * q) * (b * c)) * (p2 * p2));
    lemma_ac5b(n * ss, q, b, c, p2);
}

/// Expanding the scaled denominator of the extended sum.
proof fn lemma_distr_w(n: int, sb: int, cq: int, p2: int)
    ensures
        ((n + 1) * (sb + cq)) * p2 == (n * sb) * p2 + sb * p2 + (n * cq) * p2 + cq * p2,
{
    assert(((n + 1) * (sb + cq)) * p2 == (n * sb) * p2 + sb * p2 + (n * cq) * p2 + cq * p2)
        by (nonlinear_arith);
}

/// Transitivity of `<=` on denoted values.
proof fn lemma_le_trans(a: Frac, b: Frac, c: Frac)
    requires
        frac_wf(a),
        frac_wf(b),
        frac_wf(c),
        frac_le(a, b),
        frac_le(b, c),
    ensures
        frac_le(a, c),
{
    assert(a.num * c.den <= c.num * a.den) by (nonlinear_arith)
        requires
            a.den > 0,
            b.den > 0,
            c.den > 0,
            a.num * b.den <= b.num * a.den,
            b.num * c.den <= c.num * b.den,
    ;
}

/// A nonnegative value with the smaller square is the smaller value.
proof fn lemma_sqrt_mono(a: Frac, c: Frac)
    requires
        frac_wf(a),
        frac_wf(c),
        a.num >= 0,
        c.num >= 0,
        frac_le(frac_mul(a, a), frac_mul(c, c)),
    ensures
        frac_le(a, c),
{
    let u = a.num * c.den;
    let v = c.num * a.den;
    lemma_sq2(a.num, c.den);
    lemma_sq2(c.num, a.den);
    assert((a.num * a.num) * (c.den * c.den) <= (c.num * c.num) * (a.den * a.den));
    assert(u * u <= v * v);
    lemma_mul_nonneg(a.num, c.den);
    lemma_mul_nonneg(c.num, a.den);
    if u > v {
        assert(u * u > v * v) by (nonlinear_arith)
            requires
                u > v >= 0,
        ;
    }
}

/// One step of Cauchy-Schwarz: extending both sums by a term `tn / td`
/// keeps the squared absolute sum below the count-scaled squared sum.
proof fn lemma_cs_step(sa: int, p: int, ss: int, q: int, tn: int, td: int, n: int)
    requires
        sa >= 0,
        p >= 1,
        ss >= 0,
        q >= 1,
        tn >= 0,
        td >= 1,
        n >= 0,
        (sa * sa) * (1 * q) <= (n * ss) * (p * p),
    ensures
        ((sa * td + tn * p) * (sa * td + tn * p)) * (1 * (q * (td * td))) <= ((n + 1) * (ss * (td
            * td) + (tn * tn) * q)) * ((p * td) * (p * td)),
{
    let u = sa * td + tn * p;
    let cross = (sa * td) * (tn * p);
    // expand the squared extended sum
    lemma_sq_sum(sa * td, tn * p);
    lemma_distr3((sa * td) * (sa * td), 2 * cross, (tn * p) * (tn * p), q);
    assert((u * u) * q == ((sa * td) * (sa * td)) * q + (2 * cross) * q + ((tn * p) * (tn * p))
        * q);
    // first piece: the inductive hypothesis scaled by td^2
    lemma_sq2(sa, td);
    assert((sa * sa) * (1 * q) == (sa * sa) * q);
    lemma_scale_le((sa * sa) * q, (n * ss) * (p * p), td * td);
    lemma_mul_nonneg(td, td);
    lemma_ac3(sa * sa, td * td, q);
    assert(((sa * td) * (sa * td)) * q == ((sa * sa) * q) * (td * td)) by {
        lemma_ac3(sa * sa, q, td * td);
    }
    lemma_ac3(n * ss, p * p, td * td);
    assert(((sa * td) * (sa * td)) * q <= ((n * ss) * (td * td)) * (p * p));
    // cross piece: the arithmetic-geometric mean inequality
    let cq = cross * q;
    let xx = (ss * (td * td)) * (p * p);
    let yy = (n * ((tn * tn) * q)) * (p * p);
    lemma_sq2(cross, q);
    lemma_sq2(sa * td, tn * p);
    lemma_sq2(tn, p);
    assert(cq * cq == (((sa * sa) * (td * td)) * ((tn * tn) * (p * p))) * (q * q));
    lemma_ac_cs1(sa * sa, td * td, tn * tn, p * p, q);
    assert(cq * cq == (((sa * sa) * q) * q) * ((td * td) * ((tn * tn) * (p * p))));
    lemma_ac_cs2(ss, td * td, p * p, n, tn * tn, q);
    assert(xx * yy == (((n * ss) * (p * p)) * q) * ((td * td) * ((tn * tn) * (p * p))));
    lemma_scale_le((sa * sa) * q, (n * ss) * (p * p), q);
    lemma_sq_nonneg(tn);
    lemma_sq_nonneg(td);
    lemma_mul_nonneg(tn * tn, p * p);
    lemma_sq_nonneg(p);
    lemma_mul_nonneg(td * td, (tn * tn) * (p * p));
    lemma_scale_le(
        ((sa * sa) * q) * q,
        ((n * ss) * (p * p)) * q,
        (td * td) * ((tn * tn) * (p * p)),
    );
    assert(cq * cq <= xx * yy);
    lemma_mul_nonneg(ss, td * td);
    lemma_mul_nonneg(ss * (td * td), p * p);
    lemma_mul_nonneg(tn * tn, q);
    lemma_mul_nonneg(n, (tn * tn) * q);
    assert(yy >= 0) by {
        lemma_ac3(n, tn * tn, q);
        assert(n * ((tn * tn) * q) == (n * (tn * tn)) * q);
        lemma_mul_nonneg(n, tn * tn);
        lemma_mul_nonneg(n * (tn * tn), q);
        lemma_mul_nonneg(n * ((tn * tn) * q), p * p);
    }
    assert(xx >= 0);
    lemma_am_gm(cq, xx, yy);
    lemma_two(cross, q);
    assert((2 * cross) * q == 2 * cq);
    // third piece
    assert(((tn * p) * (tn * p)) * q == ((tn * tn) * q) * (p * p)) by {
        lemma_sq2(tn, p);
        lemma_ac3(tn * tn, p * p, q);
        lemma_ac3(tn * tn, q, p * p);
    }
    // assemble the core inequality
    lemma_distr_w(n, ss * (td * td), (tn * tn) * q, p * p);
    assert((n * (ss * (td * td))) * (p * p) == ((n * ss) * (td * td)) * (p * p)) by {
        lemma_ac3(n, ss, td * td);
    }
    assert((n * ((tn * tn) * q)) * (p * p) == yy);
    assert((u * u) * q <= ((n + 1) * (ss * (td * td) + (tn * tn) * q)) * (p * p));
    // scale by td^2 and restore the goal's shape
    lemma_scale_le(
        (u * u) * q,
        ((n + 1) * (ss * (td * td) + (tn * tn) * q)) * (p * p),
        td * td,
    );
    assert((u * u) * (1 * (q * (td * td))) == ((u * u) * q) * (td * td)) by {
        lemma_ac3(u * u, q, td * td);
        assert(1 * (q * (td * td)) == q * (td * td));
    }
    lemma_sq2(p, td);
    lemma_ac3((n + 1) * (ss * (td * td) + (tn * tn) * q), p * p, td * td);
    assert((((n + 1) * (ss * (td * td) + (tn * tn) * q)) * (p * p)) * (td * td) == ((n + 1)
        * (ss * (td * td) + (tn * tn) * q)) * ((p * td) * (p * td))) by {
        lemma_ac3((n + 1) * (ss * (td * td) + (tn * tn) * q), p * p, td * td);
    }
}

/// Cauchy-Schwarz over the pairwise sums: the squared sum of absolute
/// differences is at most the valid-pair count times the sum of squared
/// differences.
proof fn lemma_cauchy_schwarz(a: Seq<Val>, b: Seq<Val>)
    requires
        seq_wf(a),
        seq_wf(b),
        a.len() == b.len(),
    ensures
        frac_le(
            frac_mul(sum_abs_diff(a, b), sum_abs_diff(a, b)),
            frac_mul(Frac { num: count_valid(a, b) as int, den: 1 }, sum_sq_diff(a, b)),
        ),
    decreases a.len(),
{
    if a.len() == 0 {
    } else {
        let ap = a.drop_last();
        let bp = b.drop_last();
        assert(seq_wf(ap) && seq_wf(bp)) by {
            assert(forall|i: int| 0 <= i < ap.len() ==> ap[i] == a[i]);
            assert(forall|i: int| 0 <= i < bp.len() ==> bp[i] == b[i]);
        }
        lemma_cauchy_schwarz(ap, bp);
        lemma_sums_wf(ap, bp);
        if pair_valid(a, b, a.len() - 1) {
            let x = a.last();
            let y = b.last();
            lemma_term_facts(x.frac(), y.frac());
            let d = frac_sub(y.frac(), x.frac());
            let t = frac_abs(d);
            let n = count_valid(ap, bp) as int;
            let sa = sum_abs_diff(ap, bp).num;
            let p = sum_abs_diff(ap, bp).den;
            let ss = sum_sq_diff(ap, bp).num;
            let q = sum_sq_diff(ap, bp).den;
            let tn = t.num;
            let td = t.den;
            // the squared term has the shape of the squared difference
            assert(sq_diff_term(x, y).num == tn * tn) by (nonlinear_arith)
                requires
                    sq_diff_term(x, y).num == d.num * d.num,
                    tn == (if d.num >= 0 {
                        d.num
                    } else {
                        -d.num
                    }),
            ;
            assert(sq_diff_term(x, y).den == td * td);
            lemma_cs_step(sa, p, ss, q, tn, td, n);
            assert(sum_abs_diff(a, b) == frac_add(sum_abs_diff(ap, bp), t));
            assert(sum_abs_diff(a, b).num == sa * td + tn * p);
            assert(sum_abs_diff(a, b).den == p * td);
            assert(sum_sq_diff(a, b).num == ss * (td * td) + (tn * tn) * q);
            assert(sum_sq_diff(a, b).den == q * (td * td));
            assert(count_valid(a, b) == n + 1);
        }
    }
}

/// Root-mean-square error dominates mean absolute error (by Jensen's
/// inequality): over the same valid pairs, with at least one of them,
/// any value the RMSE computation may return is at least the exact mean
/// absolute error.
pub proof fn lemma_rmse_ge_abserr(a: Seq<Val>, b: Seq<Val>, c: Frac)
    requires
        seq_wf(a),
        seq_wf(b),
        a.len() == b.len(),
        count_valid(a, b) > 0,
        frac_wf(c),
        rmse_of(a, b, c),
    ensures
        frac_le(abserr_spec(a, b), c),
{
    let n = count_valid(a, b) as int;
    let sa = sum_abs_diff(a, b).num;
    let p = sum_abs_diff(a, b).den;
    let ss = sum_sq_diff(a, b).num;
    let q = sum_sq_diff(a, b).den;
    lemma_sums_wf(a, b);
    lemma_cauchy_schwarz(a, b);
    let ab = abserr_spec(a, b);
    let ms = mse_spec(a, b);
    // abserr^2 <= mse, from Cauchy-Schwarz
    assert(ab.num == sa * 1 && ab.den == p * n);
    assert(ms.num == ss * 1 && ms.den == q * n);
    assert(frac_le(frac_mul(ab, ab), ms)) by (nonlinear_arith)
        requires
            ab.num == sa * 1,
            ab.den == p * n,
            ms.num == ss * 1,
            ms.den == q * n,
            (sa * sa) * (1 * q) <= (n * ss) * (p * p),
            n >= 1,
            q >= 1,
            p >= 1,
            frac_le(frac_mul(ab, ab), ms) == (frac_mul(ab, ab).num * ms.den <= ms.num * frac_mul(
                ab,
                ab,
            ).den),
            frac_mul(ab, ab).num == ab.num * ab.num,
            frac_mul(ab, ab).den == ab.den * ab.den,
    ;
    // the RMSE witness squares to at least the mean squared error
    let m = choose|m: Frac|
        frac_wf(m) && #[trigger] frac_eq(m, mse_spec(a, b)) && crate::rational::sqrt_ceil_rel(
            m,
            c,
        );
    assert(frac_wf(ab) && frac_wf(ms)) by (nonlinear_arith)
        requires
            ab.den == p * n,
            ms.den == q * n,
            p >= 1,
            q >= 1,
            n >= 1,
    ;
    lemma_mul_wf(ab, ab);
    lemma_mul_wf(c, c);
    assert(frac_le(ms, frac_mul(c, c))) by {
        lemma_le_cong(m, frac_mul(c, c), ms, frac_mul(c, c));
    }
    lemma_le_trans(frac_mul(ab, ab), ms, frac_mul(c, c));
    assert(ab.num >= 0);
    assert(c.num >= 0);
    lemma_sqrt_mono(ab, c);
}

/// Adding two integer-valued fractions gives their integer sum.
pub(crate) proof fn lemma_add_int(a: Frac, b: Frac)
    requires
        a.den == 1,
        b.den == 1,
    ensures
        frac_add(a, b).den == 1,
        frac_add(a, b).num == a.num + b.num,
{
    assert(frac_add(a, b).den == 1 && frac_add(a, b).num == a.num + b.num) by (nonlinear_arith)
        requires
            frac_add(a, b).num == a.num * b.den + b.num * a.den,
            frac_add(a, b).den == a.den * b.den,
            a.den == 1,
            b.den == 1,
    ;
}

} // verus!
