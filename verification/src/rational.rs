//! Exact rational values with a missing/not-a-number marker.
//!
//! Every data value in the library is either missing (`Val::NaN`) or an
//! exact rational number (`Val::Num`).  Arithmetic is exact: whenever an
//! operation returns a number, that number denotes the true rational
//! result.  An operation whose reduced result leaves the representable
//! range, or a division by zero, yields `Val::NaN`, mirroring how
//! floating-point arithmetic reports its degenerate cases with a single
//! non-finite marker.

use vstd::arithmetic::div_mod::{
    lemma_div_pos_is_pos, lemma_fundamental_div_mod, lemma_mod_multiples_basic,
};
use vstd::prelude::*;

verus! {

/// Mathematical rational number, used only in specifications.
/// The value denoted is `num / den`; `den > 0` for well-formed fractions.
pub struct Frac {
    pub num: int,
    pub den: int,
}

/// Well-formed specification fraction: positive denominator.
pub open spec fn frac_wf(f: Frac) -> bool {
    f.den > 0
}

/// Equality of the denoted rational values, by cross multiplication.
pub open spec fn frac_eq(a: Frac, b: Frac) -> bool {
    a.num * b.den == b.num * a.den
}

/// `a <= b` on the denoted values (meaningful for well-formed fractions).
pub open spec fn frac_le(a: Frac, b: Frac) -> bool {
    a.num * b.den <= b.num * a.den
}

/// `a < b` on the denoted values (meaningful for well-formed fractions).
pub open spec fn frac_lt(a: Frac, b: Frac) -> bool {
    a.num * b.den < b.num * a.den
}

pub open spec fn frac_zero() -> Frac {
    Frac { num: 0, den: 1 }
}

pub open spec fn frac_one() -> Frac {
    Frac { num: 1, den: 1 }
}

pub open spec fn frac_add(a: Frac, b: Frac) -> Frac {
    Frac { num: a.num * b.den + b.num * a.den, den: a.den * b.den }
}

pub open spec fn frac_sub(a: Frac, b: Frac) -> Frac {
    Frac { num: a.num * b.den - b.num * a.den, den: a.den * b.den }
}

pub open spec fn frac_mul(a: Frac, b: Frac) -> Frac {
    Frac { num: a.num * b.num, den: a.den * b.den }
}

/// Division; meaningful only when `b.num != 0`.  The sign is moved into
/// the numerator so that the result stays well-formed.
pub open spec fn frac_div(a: Frac, b: Frac) -> Frac {
    if b.num >= 0 {
        Frac { num: a.num * b.den, den: a.den * b.num }
    } else {
        Frac { num: -(a.num * b.den), den: -(a.den * b.num) }
    }
}

pub open spec fn frac_neg(a: Frac) -> Frac {
    Frac { num: -a.num, den: a.den }
}

pub open spec fn frac_abs(a: Frac) -> Frac {
    if a.num >= 0 {
        a
    } else {
        frac_neg(a)
    }
}

/// Absolute value of an integer.
pub open spec fn abs_int(x: int) -> int {
    if x >= 0 {
        x
    } else {
        -x
    }
}

/// The fraction has a representation with both parts within `i64` range.
pub open spec fn frac_fits(f: Frac) -> bool {
    &&& -(i64::MAX as int) <= f.num <= i64::MAX as int
    &&& 1 <= f.den <= i64::MAX as int
}

/// Executable rational number: `num / den` with `den >= 1`.
/// `num > i64::MIN` keeps negation and absolute value total.
#[derive(Clone, Copy, Debug, PartialEq, Eq, Structural)]
pub struct Rat {
    pub num: i64,
    pub den: i64,
}

impl Rat {
    /// The denoted mathematical fraction.
    pub open spec fn frac(self) -> Frac {
        Frac { num: self.num as int, den: self.den as int }
    }

    /// Internal invariant of an executable rational.
    pub open spec fn wf(self) -> bool {
        self.den >= 1 && self.num > i64::MIN
    }

    /// Build a rational from an integer numerator and positive denominator.
    pub fn new(num: i64, den: i64) -> (r: Rat)
        requires
            den >= 1,
            num > i64::MIN,
        ensures
            r.wf(),
            r.num == num,
            r.den == den,
    {
        Rat { num, den }
    }

    /// The rational representing a plain integer.
    pub fn from_int(num: i64) -> (r: Rat)
        requires
            num > i64::MIN,
        ensures
            r.wf(),
            r.frac() == (Frac { num: num as int, den: 1 }),
    {
        Rat { num, den: 1 }
    }
}

/// A data value: missing / not-a-number, or an exact rational.
#[derive(Clone, Copy, Debug, PartialEq, Eq, Structural)]
pub enum Val {
    NaN,
    Num(Rat),
}

impl Val {
    pub open spec fn wf(self) -> bool {
        match self {
            Val::NaN => true,
            Val::Num(r) => r.wf(),
        }
    }

    pub open spec fn is_num(self) -> bool {
        self is Num
    }

    /// The denoted fraction of a numeric value.
    pub open spec fn frac(self) -> Frac
        recommends
            self.is_num(),
    {
        self->Num_0.frac()
    }

    pub fn is_number(&self) -> (r: bool)
        ensures
            r == self.is_num(),
    {
        match self {
            Val::Num(_) => true,
            Val::NaN => false,
        }
    }

    /// The exact zero value.
    pub fn zero() -> (r: Val)
        ensures
            r == Val::Num(Rat { num: 0, den: 1 }),
    {
        Val::Num(Rat { num: 0, den: 1 })
    }

    /// A numeric value for a plain integer.
    pub fn from_int(num: i64) -> (r: Val)
        requires
            num > i64::MIN,
        ensures
            r.wf(),
            r.is_num(),
            r.frac() == (Frac { num: num as int, den: 1 }),
    {
        Val::Num(Rat { num, den: 1 })
    }
}

/// What every arithmetic operation guarantees about its numeric result
/// `r` relative to the exact fraction `ex` it stands for:
/// an exact-zero result is returned as `0/1`; a result whose unreduced
/// form already fits `i64` is always returned as a number; and any
/// number returned denotes `ex` exactly, with a representation no larger
/// than the unreduced one.
pub open spec fn result_of(r: Val, ex: Frac) -> bool {
    &&& r.wf()
    &&& (ex.num == 0 ==> r == Val::Num(Rat { num: 0, den: 1 }))
    &&& (frac_fits(ex) ==> r.is_num())
    &&& (r.is_num() ==> {
        &&& frac_eq(r.frac(), ex)
        &&& 1 <= r.frac().den <= ex.den
        &&& abs_int(r.frac().num) <= abs_int(ex.num)
    })
}

/// Multiplying both sides of a cross equality by matching extra factors.
proof fn lemma_scale_eq(x: int, y: int, u: int, v: int, s: int, t: int)
    requires
        x * y == u * v,
    ensures
        (x * s) * (y * t) == (u * s) * (v * t),
{
    assert((x * s) * (y * t) == (x * y) * (s * t)) by (nonlinear_arith);
    assert((u * s) * (v * t) == (u * v) * (s * t)) by (nonlinear_arith);
}

/// Denoted-value equality is preserved by addition.
pub proof fn lemma_add_cong(a: Frac, b: Frac, a2: Frac, b2: Frac)
    requires
        frac_wf(a),
        frac_wf(b),
        frac_wf(a2),
        frac_wf(b2),
        frac_eq(a, a2),
        frac_eq(b, b2),
    ensures
        frac_eq(frac_add(a, b), frac_add(a2, b2)),
{
    lemma_scale_eq(a.num, a2.den, a2.num, a.den, b.den, b2.den);
    assert((a2.num * b.den) * (a.den * b2.den) == (a2.num * b2.den) * (a.den * b.den))
        by (nonlinear_arith);
    assert((a.num * b.den) * (a2.den * b2.den) == (a2.num * b2.den) * (a.den * b.den));
    lemma_scale_eq(b.num, b2.den, b2.num, b.den, a.den, a2.den);
    assert((b.num * a.den) * (a2.den * b2.den) == (b.num * a.den) * (b2.den * a2.den))
        by (nonlinear_arith);
    assert((b2.num * a.den) * (b.den * a2.den) == (b2.num * a2.den) * (a.den * b.den))
        by (nonlinear_arith);
    assert((b.num * a.den) * (a2.den * b2.den) == (b2.num * a2.den) * (a.den * b.den));
    assert((a.num * b.den + b.num * a.den) * (a2.den * b2.den) == (a.num * b.den) * (a2.den
        * b2.den) + (b.num * a.den) * (a2.den * b2.den)) by (nonlinear_arith);
    assert((a2.num * b2.den + b2.num * a2.den) * (a.den * b.den) == (a2.num * b2.den) * (a.den
        * b.den) + (b2.num * a2.den) * (a.den * b.den)) by (nonlinear_arith);
}

/// Denoted-value equality is preserved by subtraction.
pub proof fn lemma_sub_cong(a: Frac, b: Frac, a2: Frac, b2: Frac)
    requires
        frac_wf(a),
        frac_wf(b),
        frac_wf(a2),
        frac_wf(b2),
        frac_eq(a, a2),
        frac_eq(b, b2),
    ensures
        frac_eq(frac_sub(a, b), frac_sub(a2, b2)),
{
    assert(frac_eq(frac_neg(b), frac_neg(b2))) by (nonlinear_arith)
        requires
            b.num * b2.den == b2.num * b.den,
    ;
    lemma_add_cong(a, frac_neg(b), a2, frac_neg(b2));
    assert((-b.num) * a.den == -(b.num * a.den)) by (nonlinear_arith);
    assert((-b2.num) * a2.den == -(b2.num * a2.den)) by (nonlinear_arith);
    assert(frac_add(a, frac_neg(b)).num == frac_sub(a, b).num);
    assert(frac_add(a2, frac_neg(b2)).num == frac_sub(a2, b2).num);
}

/// Denoted-value equality is preserved by multiplication.
pub proof fn lemma_mul_cong(a: Frac, b: Frac, a2: Frac, b2: Frac)
    requires
        frac_wf(a),
        frac_wf(b),
        frac_wf(a2),
        frac_wf(b2),
        frac_eq(a, a2),
        frac_eq(b, b2),
    ensures
        frac_eq(frac_mul(a, b), frac_mul(a2, b2)),
{
    assert((a.num * b.num) * (a2.den * b2.den) == (a2.num * b2.num) * (a.den * b.den))
        by (nonlinear_arith)
        requires
            a.num * a2.den == a2.num * a.den,
            b.num * b2.den == b2.num * b.den,
    ;
}

/// Equal values have equally-signed numerators.
pub proof fn lemma_eq_sign(a: Frac, b: Frac)
    requires
        frac_wf(a),
        frac_wf(b),
        frac_eq(a, b),
    ensures
        a.num > 0 <==> b.num > 0,
        a.num == 0 <==> b.num == 0,
        a.num < 0 <==> b.num < 0,
{
    assert((a.num > 0 <==> b.num > 0) && (a.num == 0 <==> b.num == 0) && (a.num < 0 <==> b.num
        < 0)) by (nonlinear_arith)
        requires
            a.den > 0,
            b.den > 0,
            a.num * b.den == b.num * a.den,
    ;
}

/// Denoted-value equality is preserved by the absolute value.
pub proof fn lemma_abs_cong(a: Frac, b: Frac)
    requires
        frac_wf(a),
        frac_wf(b),
        frac_eq(a, b),
    ensures
        frac_eq(frac_abs(a), frac_abs(b)),
{
    lemma_eq_sign(a, b);
    if a.num < 0 {
        assert((-a.num) * b.den == (-b.num) * a.den) by (nonlinear_arith)
            requires
                a.num * b.den == b.num * a.den,
        ;
    }
}

/// Denoted-value equality is preserved by division (by a nonzero value).
pub proof fn lemma_div_cong(a: Frac, b: Frac, a2: Frac, b2: Frac)
    requires
        frac_wf(a),
        frac_wf(b),
        frac_wf(a2),
        frac_wf(b2),
        frac_eq(a, a2),
        frac_eq(b, b2),
        b.num != 0,
    ensures
        frac_eq(frac_div(a, b), frac_div(a2, b2)),
{
    lemma_eq_sign(b, b2);
    lemma_scale_eq(a.num, a2.den, a2.num, a.den, b.den, b2.num);
    assert((a2.num * b.den) * (a.den * b2.num) == (a2.num * a.den) * (b2.num * b.den))
        by (nonlinear_arith);
    assert((a2.num * a.den) * (b2.num * b.den) == (a2.num * a.den) * (b.num * b2.den));
    assert((a2.num * a.den) * (b.num * b2.den) == (a2.num * b2.den) * (a.den * b.num))
        by (nonlinear_arith);
    assert((a.num * b.den) * (a2.den * b2.num) == (a2.num * b2.den) * (a.den * b.num));
    if b.num > 0 {
        assert(frac_eq(frac_div(a, b), frac_div(a2, b2)));
    } else {
        assert((-(a.num * b.den)) * (-(a2.den * b2.num)) == (a.num * b.den) * (a2.den * b2.num))
            by (nonlinear_arith);
        assert((-(a2.num * b2.den)) * (-(a.den * b.num)) == (a2.num * b2.den) * (a.den * b.num))
            by (nonlinear_arith);
        assert(frac_eq(frac_div(a, b), frac_div(a2, b2)));
    }
}

/// `<=` on denoted values is independent of the representation.
pub proof fn lemma_le_cong(a: Frac, b: Frac, a2: Frac, b2: Frac)
    requires
        frac_wf(a),
        frac_wf(b),
        frac_wf(a2),
        frac_wf(b2),
        frac_eq(a, a2),
        frac_eq(b, b2),
        frac_le(a, b),
    ensures
        frac_le(a2, b2),
{
    assert(a2.num * b2.den <= b2.num * a2.den) by (nonlinear_arith)
        requires
            a.den > 0,
            b.den > 0,
            a2.den > 0,
            b2.den > 0,
            a.num * a2.den == a2.num * a.den,
            b.num * b2.den == b2.num * b.den,
            a.num * b.den <= b.num * a.den,
    ;
}

/// Transitivity of denoted-value equality.
pub proof fn lemma_eq_trans(a: Frac, b: Frac, c: Frac)
    requires
        frac_wf(a),
        frac_wf(b),
        frac_wf(c),
        frac_eq(a, b),
        frac_eq(b, c),
    ensures
        frac_eq(a, c),
{
    assert(a.num * c.den == c.num * a.den) by (nonlinear_arith)
        requires
            b.den > 0,
            a.num * b.den == b.num * a.den,
            b.num * c.den == c.num * b.den,
    ;
}

/// `(k * y) % d == 0` when `y % d == 0`.
proof fn lemma_mod_mul_vanish(k: int, y: int, d: int)
    requires
        d >= 1,
        y % d == 0,
    ensures
        (k * y) % d == 0,
{
    lemma_fundamental_div_mod(y, d);
    assert(y == d * (y / d));
    assert(k * y == (k * (y / d)) * d) by (nonlinear_arith)
        requires
            y == d * (y / d),
    ;
    lemma_mod_multiples_basic(k * (y / d), d);
}

/// `(a + b) % d == 0` when both summands are multiples of `d`.
proof fn lemma_mod_add_vanish(a: int, b: int, d: int)
    requires
        d >= 1,
        a % d == 0,
        b % d == 0,
    ensures
        (a + b) % d == 0,
{
    lemma_fundamental_div_mod(a, d);
    lemma_fundamental_div_mod(b, d);
    assert(a + b == (a / d + b / d) * d) by (nonlinear_arith)
        requires
            a == d * (a / d),
            b == d * (b / d),
    ;
    lemma_mod_multiples_basic(a / d + b / d, d);
}

/// Greatest common divisor by Euclid's algorithm.  The contract only
/// states that the result is a positive common divisor, which is all
/// that exact reduction of a fraction needs.
fn gcd_u128(a: u128, b: u128) -> (g: u128)
    requires
        a > 0 || b > 0,
    ensures
        g >= 1,
        (a as int) % (g as int) == 0,
        (b as int) % (g as int) == 0,
{
    let mut x = a;
    let mut y = b;
    while y != 0
        invariant
            x > 0 || y > 0,
            forall|d: int|
                1 <= d && #[trigger] ((x as int) % d) == 0 && (y as int) % d == 0 ==> (a as int) % d
                    == 0 && (b as int) % d == 0,
        decreases y,
    {
        let t = x % y;
        proof {
            assert forall|d: int|
                1 <= d && #[trigger] ((y as int) % d) == 0 && (t as int) % d == 0 implies (a as int)
                % d == 0 && (b as int) % d == 0 by {
                lemma_fundamental_div_mod(x as int, y as int);
                lemma_mod_mul_vanish((x as int) / (y as int), y as int, d);
                lemma_mod_add_vanish(
                    ((x as int) / (y as int)) * (y as int),
                    (x as int) % (y as int),
                    d,
                );
                assert((y as int) * ((x as int) / (y as int)) == ((x as int) / (y as int)) * (
                y as int)) by (nonlinear_arith);
                assert((x as int) % d == 0);
            }
        }
        x = y;
        y = t;
    }
    proof {
        assert((x as int) % (x as int) == 0) by {
            lemma_mod_multiples_basic(1, x as int);
        }
        assert((y as int) % (x as int) == 0) by {
            lemma_mod_multiples_basic(0, x as int);
        }
    }
    x
}

/// Reduce the exact fraction `n / d` and box it as a value.
/// Returns `Val::NaN` only when even the reduced fraction does not fit
/// the `i64`-backed representation.
fn reduce(n: i128, d: i128) -> (v: Val)
    requires
        1 <= d,
        n > i128::MIN,
    ensures
        result_of(v, Frac { num: n as int, den: d as int }),
{
    if n == 0 {
        let v = Val::Num(Rat { num: 0, den: 1 });
        proof {
            assert(0 * (d as int) == (n as int) * 1) by (nonlinear_arith)
                requires
                    n as int == 0,
            ;
            assert(frac_eq(v.frac(), Frac { num: n as int, den: d as int }));
            assert(result_of(v, Frac { num: n as int, den: d as int }));
        }
        return v;
    }
    let na: u128 = if n >= 0 {
        n as u128
    } else {
        (-n) as u128
    };
    let du: u128 = d as u128;
    let g = gcd_u128(na, du);
    let nr: u128 = na / g;
    let dr: u128 = du / g;
    proof {
        lemma_fundamental_div_mod(na as int, g as int);
        lemma_fundamental_div_mod(du as int, g as int);
        lemma_div_pos_is_pos(na as int, g as int);
        lemma_div_pos_is_pos(du as int, g as int);
        // value preservation of exact division by a common divisor
        assert(nr as int * (du as int) == na as int * (dr as int)) by (nonlinear_arith)
            requires
                na as int == (g as int) * (nr as int),
                du as int == (g as int) * (dr as int),
        ;
        // a positive multiple of g has a positive cofactor, no larger than itself
        assert(dr as int >= 1 && dr as int <= du as int && nr as int >= 1 && nr as int <= na as int)
            by (nonlinear_arith)
            requires
                na as int == (g as int) * (nr as int),
                du as int == (g as int) * (dr as int),
                g as int >= 1,
                na as int >= 1,
                du as int >= 1,
                nr as int >= 0,
                dr as int >= 0,
        ;
    }
    if nr <= (i64::MAX as u128) && dr <= (i64::MAX as u128) {
        let num: i64 = if n >= 0 {
            nr as i64
        } else {
            -(nr as i64)
        };
        proof {
            if n < 0 {
                assert((-(nr as int)) * (d as int) == (n as int) * (dr as int))
                    by (nonlinear_arith)
                    requires
                        (nr as int) * (du as int) == (na as int) * (dr as int),
                        na as int == -(n as int),
                        du as int == d as int,
                ;
            }
        }
        Val::Num(Rat { num, den: dr as i64 })
    } else {
        Val::NaN
    }
}

/// Exact addition; missing values propagate.
pub fn val_add(a: Val, b: Val) -> (r: Val)
    requires
        a.wf(),
        b.wf(),
    ensures
        r.wf(),
        !(a.is_num() && b.is_num()) ==> r is NaN,
        a.is_num() && b.is_num() ==> result_of(r, frac_add(a.frac(), b.frac())),
{
    match (a, b) {
        (Val::Num(x), Val::Num(y)) => {
            proof {
                lemma_prod_bound(x.num as int, y.den as int);
                lemma_prod_bound(y.num as int, x.den as int);
                lemma_den_bound(x.den as int, y.den as int);
            }
            let n = (x.num as i128) * (y.den as i128) + (y.num as i128) * (x.den as i128);
            let d = (x.den as i128) * (y.den as i128);
            reduce(n, d)
        },
        _ => Val::NaN,
    }
}

/// Exact subtraction; missing values propagate.
pub fn val_sub(a: Val, b: Val) -> (r: Val)
    requires
        a.wf(),
        b.wf(),
    ensures
        r.wf(),
        !(a.is_num() && b.is_num()) ==> r is NaN,
        a.is_num() && b.is_num() ==> result_of(r, frac_sub(a.frac(), b.frac())),
{
    match (a, b) {
        (Val::Num(x), Val::Num(y)) => {
            proof {
                lemma_prod_bound(x.num as int, y.den as int);
                lemma_prod_bound(y.num as int, x.den as int);
                lemma_den_bound(x.den as int, y.den as int);
            }
            let n = (x.num as i128) * (y.den as i128) - (y.num as i128) * (x.den as i128);
            let d = (x.den as i128) * (y.den as i128);
            reduce(n, d)
        },
        _ => Val::NaN,
    }
}

/// Exact multiplication; missing values propagate.
pub fn val_mul(a: Val, b: Val) -> (r: Val)
    requires
        a.wf(),
        b.wf(),
    ensures
        r.wf(),
        !(a.is_num() && b.is_num()) ==> r is NaN,
        a.is_num() && b.is_num() ==> result_of(r, frac_mul(a.frac(), b.frac())),
{
    match (a, b) {
        (Val::Num(x), Val::Num(y)) => {
            proof {
                lemma_prod_bound(x.num as int, y.num as int);
                lemma_den_bound(x.den as int, y.den as int);
            }
            let n = (x.num as i128) * (y.num as i128);
            let d = (x.den as i128) * (y.den as i128);
            reduce(n, d)
        },
        _ => Val::NaN,
    }
}

/// Everything division guarantees: a missing operand or an exact-zero
/// divisor gives the missing marker, anything else the exact quotient.
pub open spec fn div_rel(a: Val, b: Val, r: Val) -> bool {
    &&& r.wf()
    &&& (!(a.is_num() && b.is_num() && b.frac().num != 0) ==> r is NaN)
    &&& (a.is_num() && b.is_num() && b.frac().num != 0 ==> result_of(
        r,
        frac_div(a.frac(), b.frac()),
    ))
}

/// Exact division.  Division by an exact zero, like any operation on a
/// missing value, yields the missing marker.
pub fn val_div(a: Val, b: Val) -> (r: Val)
    requires
        a.wf(),
        b.wf(),
    ensures
        div_rel(a, b, r),
{
    match (a, b) {
        (Val::Num(x), Val::Num(y)) => {
            if y.num == 0 {
                Val::NaN
            } else if y.num > 0 {
                proof {
                    lemma_prod_bound(x.num as int, y.den as int);
                    lemma_den_bound(x.den as int, y.num as int);
                }
                let n = (x.num as i128) * (y.den as i128);
                let d = (x.den as i128) * (y.num as i128);
                reduce(n, d)
            } else {
                proof {
                    lemma_prod_bound(x.num as int, y.den as int);
                    lemma_den_bound(x.den as int, -(y.num as int));
                }
                let n = -((x.num as i128) * (y.den as i128));
                let d = (x.den as i128) * (-(y.num as i128));
                proof {
                    assert((x.den as int) * (-(y.num as int)) == -((x.den as int) * (
                    y.num as int))) by (nonlinear_arith);
                }
                reduce(n, d)
            }
        },
        _ => Val::NaN,
    }
}

/// Exact absolute value; total on numbers.
pub fn val_abs(a: Val) -> (r: Val)
    requires
        a.wf(),
    ensures
        r.wf(),
        a is NaN ==> r is NaN,
        a.is_num() ==> r.is_num() && r.frac() == frac_abs(a.frac()),
{
    match a {
        Val::Num(x) => {
            if x.num >= 0 {
                Val::Num(x)
            } else {
                Val::Num(Rat { num: -x.num, den: x.den })
            }
        },
        Val::NaN => Val::NaN,
    }
}

/// `|p * q| <= (i64::MAX)^2` for factors within `i64` magnitude.
proof fn lemma_prod_bound(p: int, q: int)
    requires
        -(i64::MAX as int) <= p <= i64::MAX as int,
        -(i64::MAX as int) <= q <= i64::MAX as int,
    ensures
        -((i64::MAX as int) * (i64::MAX as int)) <= p * q <= (i64::MAX as int) * (i64::MAX as int),
{
    assert(-((i64::MAX as int) * (i64::MAX as int)) <= p * q <= (i64::MAX as int) * (
    i64::MAX as int)) by (nonlinear_arith)
        requires
            -(i64::MAX as int) <= p <= i64::MAX as int,
            -(i64::MAX as int) <= q <= i64::MAX as int,
    ;
}

/// The product of two positive `i64`-sized factors is positive and
/// bounded by `(i64::MAX)^2`.
proof fn lemma_den_bound(p: int, q: int)
    requires
        1 <= p <= i64::MAX as int,
        1 <= q <= i64::MAX as int,
    ensures
        1 <= p * q <= (i64::MAX as int) * (i64::MAX as int),
{
    assert(1 <= p * q <= (i64::MAX as int) * (i64::MAX as int)) by (nonlinear_arith)
        requires
            1 <= p <= i64::MAX as int,
            1 <= q <= i64::MAX as int,
    ;
}

/// Integer square root: the greatest `r` with `r * r <= x`.
fn isqrt_u128(x: u128) -> (r: u128)
    ensures
        (r as int) * (r as int) <= x as int,
        (x as int) < (r as int + 1) * (r as int + 1),
{
    let mut lo: u128 = 0;
    let mut hi: u128 = 0x1_0000_0000_0000_0000;
    proof {
        assert((hi as int) * (hi as int) > x as int) by (nonlinear_arith)
            requires
                hi as int == 0x1_0000_0000_0000_0000,
                x as int <= u128::MAX as int,
        ;
    }
    while lo + 1 < hi
        invariant
            lo < hi <= 0x1_0000_0000_0000_0000,
            (lo as int) * (lo as int) <= x as int,
            (x as int) < (hi as int) * (hi as int),
        decreases hi - lo,
    {
        let mid = lo + (hi - lo) / 2;
        proof {
            assert((mid as int) * (mid as int) <= u128::MAX as int) by (nonlinear_arith)
                requires
                    0 <= (mid as int) && (mid as int) < 0x1_0000_0000_0000_0000,
            ;
        }
        if mid * mid <= x {
            lo = mid;
        } else {
            hi = mid;
        }
    }
    lo
}

/// The ceiling square root of a nonnegative value: the least number `c`
/// with denominator `x.den` whose square is at least `x`; exact zero for
/// an exact zero.  The square root of a negative or missing value is
/// missing.
pub open spec fn sqrt_ceil_rel(x: Frac, c: Frac) -> bool {
    &&& c.num >= 0
    &&& c.den == x.den
    &&& frac_le(x, frac_mul(c, c))
    &&& (c.num >= 1 ==> frac_lt(frac_mul(Frac { num: c.num - 1, den: c.den }, Frac { num: c.num - 1, den: c.den }), x))
    &&& (x.num == 0 ==> c.num == 0)
}

/// Square root, rounded up to the representation grid of its argument.
pub fn val_sqrt_ceil(a: Val) -> (r: Val)
    requires
        a.wf(),
    ensures
        r.wf(),
        !(a.is_num() && a.frac().num >= 0) ==> r is NaN,
        a.is_num() && a.frac().num >= 0 ==> r.is_num() && sqrt_ceil_rel(a.frac(), r.frac()),
{
    match a {
        Val::Num(x) => {
            if x.num < 0 {
                return Val::NaN;
            }
            proof {
                lemma_prod_bound(x.num as int, x.den as int);
            }
            let pq: u128 = (x.num as u128) * (x.den as u128);
            let s0 = isqrt_u128(pq);
            let s: u128 = if s0 * s0 == pq {
                s0
            } else {
                proof {
                    lemma_sqrt_fits(pq as int, s0 as int);
                }
                s0 + 1
            };
            proof {
                lemma_sqrt_fits(pq as int, s0 as int);
                lemma_sqrt_ceil_ok(
                    x.num as int,
                    x.den as int,
                    pq as int,
                    s0 as int,
                    s as int,
                );
            }
            Val::Num(Rat { num: s as i64, den: x.den })
        },
        Val::NaN => Val::NaN,
    }
}

/// A floor square root of a product of two `i64`-sized factors fits in
/// `i64`; so does its successor unless the product is the largest
/// perfect square.
proof fn lemma_sqrt_fits(pq: int, s0: int)
    requires
        0 <= pq <= (i64::MAX as int) * (i64::MAX as int),
        s0 >= 0,
        s0 * s0 <= pq,
        pq < (s0 + 1) * (s0 + 1),
    ensures
        s0 <= i64::MAX as int,
        s0 * s0 != pq ==> s0 + 1 <= i64::MAX as int,
{
    assert(s0 <= i64::MAX as int) by (nonlinear_arith)
        requires
            s0 >= 0,
            s0 * s0 <= (i64::MAX as int) * (i64::MAX as int),
    ;
    if s0 * s0 != pq && s0 + 1 > i64::MAX as int {
        assert(false) by (nonlinear_arith)
            requires
                s0 == i64::MAX as int,
                s0 * s0 < pq,
                pq <= (i64::MAX as int) * (i64::MAX as int),
        ;
    }
}

/// The ceiling square root on the scaled grid satisfies `sqrt_ceil_rel`.
proof fn lemma_sqrt_ceil_ok(p: int, q: int, pq: int, s0: int, s: int)
    requires
        p >= 0,
        q >= 1,
        pq == p * q,
        s0 >= 0,
        s0 * s0 <= pq,
        pq < (s0 + 1) * (s0 + 1),
        s == if s0 * s0 == pq {
            s0
        } else {
            s0 + 1
        },
    ensures
        sqrt_ceil_rel(Frac { num: p, den: q }, Frac { num: s, den: q }),
{
    // s * s >= pq in both cases
    assert(s * s >= pq);
    // frac_le(p/q, s^2/q^2) <=> p * (q*q) <= (s*s) * q
    assert(p * (q * q) <= (s * s) * q) by (nonlinear_arith)
        requires
            q >= 1,
            s * s >= p * q,
            pq == p * q,
    ;
    // minimality: (s-1)^2 < pq when s >= 1
    if s >= 1 {
        if s == s0 {
            assert((s0 - 1) * (s0 - 1) < s0 * s0) by (nonlinear_arith)
                requires
                    s0 >= 1,
            ;
        } else {
            assert((s - 1) * (s - 1) == s0 * s0);
            assert(s0 * s0 < pq);
        }
        assert((s - 1) * (s - 1) < pq);
        assert((s - 1) * (s - 1) * q < p * (q * q)) by (nonlinear_arith)
            requires
                q >= 1,
                (s - 1) * (s - 1) < p * q,
        ;
    }
    if p == 0 {
        assert(s0 * s0 <= 0) by (nonlinear_arith)
            requires
                s0 * s0 <= p * q,
                p == 0,
        ;
        assert(s0 == 0) by (nonlinear_arith)
            requires
                s0 >= 0,
                s0 * s0 <= 0,
        ;
        assert(pq == 0) by (nonlinear_arith)
            requires
                pq == p * q,
                p == 0,
        ;
    }
}

} // verus!
