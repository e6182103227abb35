//! The gap-filling strategies.
//!
//! Every strategy is a pure function from a partially masked column (and,
//! for the ratio strategies, neighbour columns and a scale) to a full
//! reconstructed column of the same length.  A value a strategy cannot
//! reconstruct stays missing and is later ignored by the scorer's
//! pairwise masking.

use crate::errors::DataFillError;
use crate::metrics::{modest_val, seq_wf};
use crate::rational::{
    abs_int, frac_add, frac_eq, frac_fits, frac_mul, frac_sub, frac_wf, frac_zero, lemma_add_cong,
    lemma_eq_trans, lemma_mul_cong, result_of, val_add, val_mul, val_sub, Frac, Rat, Val,
};
use crate::text::str_eq;
use vstd::prelude::*;
use vstd::string::StrSliceExecFns;

verus! {

/// The index of the nearest numeric entry at or before `i`; `-1` if
/// every entry up to `i` is missing.
pub open spec fn prev_num(s: Seq<Val>, i: int) -> int
    decreases i + 1,
{
    if i < 0 {
        -1
    } else if s[i].is_num() {
        i
    } else {
        prev_num(s, i - 1)
    }
}

/// The index of the nearest numeric entry at or after `i`; `s.len()` if
/// every entry from `i` on is missing.
pub open spec fn next_num(s: Seq<Val>, i: int) -> int
    decreases s.len() - i,
{
    if i < 0 || i >= s.len() {
        s.len() as int
    } else if s[i].is_num() {
        i
    } else {
        next_num(s, i + 1)
    }
}

/// What forward filling yields at one index: the value itself, else the
/// nearest prior number, else still missing.
pub open spec fn ffill_at(s: Seq<Val>, i: int) -> Val {
    if s[i].is_num() {
        s[i]
    } else if prev_num(s, i) >= 0 {
        s[prev_num(s, i)]
    } else {
        Val::NaN
    }
}

/// What backward filling yields at one index: the value itself, else the
/// nearest following number, else still missing.
pub open spec fn bfill_at(s: Seq<Val>, i: int) -> Val {
    if s[i].is_num() {
        s[i]
    } else if next_num(s, i) < s.len() {
        s[next_num(s, i)]
    } else {
        Val::NaN
    }
}

/// The exact linear interpolation value between the nearest numbers on
/// each side of a missing entry, with row-index spacing.
pub open spec fn interp_frac(s: Seq<Val>, i: int) -> Frac {
    let p = prev_num(s, i);
    let q = next_num(s, i);
    frac_add(
        s[p].frac(),
        frac_mul(
            frac_sub(s[q].frac(), s[p].frac()),
            Frac { num: i - p, den: q - p },
        ),
    )
}

/// Replace each missing value with the nearest prior number.
pub fn forward_fill(col: &Vec<Val>) -> (r: Vec<Val>)
    requires
        seq_wf(col@),
    ensures
        r@.len() == col@.len(),
        seq_wf(r@),
        forall|i: int| 0 <= i < col@.len() ==> r@[i] == ffill_at(col@, i),
        (forall|i: int| 0 <= i < col@.len() ==> (#[trigger] col@[i]).is_num()) ==> r@ == col@,
{
    let n = col.len();
    let mut r: Vec<Val> = Vec::new();
    let mut last: Val = Val::NaN;
    let mut i: usize = 0;
    while i < n
        invariant
            n == col@.len(),
            i <= n,
            seq_wf(col@),
            r@.len() == i,
            forall|j: int| 0 <= j < i ==> r@[j] == ffill_at(col@, j),
            prev_num(col@, i as int - 1) >= 0 ==> last == col@[prev_num(col@, i as int - 1)],
            prev_num(col@, i as int - 1) < 0 ==> last == Val::NaN,
        decreases n - i,
    {
        let c = col[i];
        if c.is_number() {
            last = c;
            r.push(c);
        } else {
            r.push(last);
        }
        proof {
            assert(prev_num(col@, i as int) == (if col@[i as int].is_num() {
                i as int
            } else {
                prev_num(col@, i as int - 1)
            }));
        }
        i = i + 1;
    }
    proof {
        if forall|i: int| 0 <= i < col@.len() ==> (#[trigger] col@[i]).is_num() {
            assert(r@ =~= col@);
        }
        assert forall|j: int| 0 <= j < n implies (#[trigger] r@[j]).wf() by {
            assert(r@[j] == ffill_at(col@, j));
            if col@[j].is_num() {
            } else if prev_num(col@, j) >= 0 {
                lemma_prev_num_range(col@, j);
            }
        }
    }
    r
}

/// `prev_num` stays within bounds and lands on a number.
proof fn lemma_prev_num_range(s: Seq<Val>, i: int)
    requires
        0 <= i < s.len(),
    ensures
        -1 <= prev_num(s, i) <= i,
        prev_num(s, i) >= 0 ==> s[prev_num(s, i)].is_num(),
    decreases i + 1,
{
    if s[i].is_num() {
    } else if i > 0 {
        lemma_prev_num_range(s, i - 1);
    } else {
        assert(prev_num(s, -1) == -1);
    }
}

/// `next_num` stays within bounds and lands on a number.
proof fn lemma_next_num_range(s: Seq<Val>, i: int)
    requires
        0 <= i < s.len(),
    ensures
        i <= next_num(s, i) <= s.len(),
        next_num(s, i) < s.len() ==> s[next_num(s, i)].is_num(),
    decreases s.len() - i,
{
    if s[i].is_num() {
    } else if i + 1 < s.len() {
        lemma_next_num_range(s, i + 1);
    } else {
        assert(next_num(s, i + 1) == s.len());
    }
}

/// Replace each missing value with the nearest following number.
pub fn backward_fill(col: &Vec<Val>) -> (r: Vec<Val>)
    requires
        seq_wf(col@),
    ensures
        r@.len() == col@.len(),
        seq_wf(r@),
        forall|i: int| 0 <= i < col@.len() ==> r@[i] == bfill_at(col@, i),
        (forall|i: int| 0 <= i < col@.len() ==> (#[trigger] col@[i]).is_num()) ==> r@ == col@,
{
    let n = col.len();
    let mut r: Vec<Val> = Vec::new();
    let mut i: usize = 0;
    while i < n
        invariant
            n == col@.len(),
            i <= n,
            seq_wf(col@),
            r@.len() == i,
            forall|j: int| 0 <= j < i ==> r@[j] == col@[j],
        decreases n - i,
    {
        r.push(col[i]);
        i = i + 1;
    }
    let mut next: Val = Val::NaN;
    let mut k: usize = n;
    while k > 0
        invariant
            n == col@.len(),
            k <= n,
            r@.len() == n,
            seq_wf(col@),
            forall|j: int| 0 <= j < k ==> r@[j] == col@[j],
            forall|j: int| k <= j < n ==> r@[j] == bfill_at(col@, j),
            next_num(col@, k as int) < n ==> next == col@[next_num(col@, k as int)],
            next_num(col@, k as int) >= n ==> next == Val::NaN,
        decreases k,
    {
        k = k - 1;
        let c = r[k];
        proof {
            assert(c == col@[k as int]);
            assert(next_num(col@, k as int) == (if col@[k as int].is_num() {
                k as int
            } else {
                next_num(col@, k as int + 1)
            }));
        }
        if c.is_number() {
            next = c;
        } else {
            r.set(k, next);
        }
    }
    proof {
        if forall|i: int| 0 <= i < col@.len() ==> (#[trigger] col@[i]).is_num() {
            assert(r@ =~= col@);
        }
        assert forall|j: int| 0 <= j < n implies (#[trigger] r@[j]).wf() by {
            assert(r@[j] == bfill_at(col@, j));
            if col@[j].is_num() {
            } else if next_num(col@, j) < n {
                lemma_next_num_range(col@, j);
            }
        }
    }
    r
}

/// The closed set of gap-filling strategies.
#[derive(Clone, Debug)]
pub enum DataFillMethod {
    ForwardFill,
    BackwardFill,
    LinearInterpolate,
    /// Scale the row-sum of the upstream inputs by the named attribute's
    /// target-to-inputs ratio.
    InputRatio(String),
    /// Scale the downstream output's value by the named attribute's
    /// target-to-output ratio.
    OutputRatio(String),
}

/// The position of the first colon, or the length if there is none.
pub open spec fn colon_pos(s: Seq<char>, i: int) -> int
    decreases s.len() - i,
{
    if i < 0 || i >= s.len() {
        s.len() as int
    } else if s[i] == ':' {
        i
    } else {
        colon_pos(s, i + 1)
    }
}

/// The method a strategy string names: the part before the first colon
/// picks the variant, the part after it is the attribute name that the
/// ratio strategies require and the others refuse.
pub open spec fn method_named(name: Seq<char>, data: Seq<char>, m: DataFillMethod) -> bool {
    match m {
        DataFillMethod::ForwardFill => name == "forward"@ && data.len() == 0,
        DataFillMethod::BackwardFill => name == "backward"@ && data.len() == 0,
        DataFillMethod::LinearInterpolate => name == "linear"@ && data.len() == 0,
        DataFillMethod::InputRatio(v) => (name == "input_ratio"@ || name == "iratio"@)
            && data.len() > 0 && v@ == data,
        DataFillMethod::OutputRatio(v) => (name == "output_ratio"@ || name == "oratio"@)
            && data.len() > 0 && v@ == data,
    }
}

/// Some strategy is named by the split string.
pub open spec fn method_recognized(name: Seq<char>, data: Seq<char>) -> bool {
    ||| name == "forward"@ && data.len() == 0
    ||| name == "backward"@ && data.len() == 0
    ||| name == "linear"@ && data.len() == 0
    ||| (name == "input_ratio"@ || name == "iratio"@) && data.len() > 0
    ||| (name == "output_ratio"@ || name == "oratio"@) && data.len() > 0
}

impl DataFillMethod {
    /// Parse a strategy from its configuration string, such as
    /// `"linear"` or `"iratio:drainage_area"`.  An unrecognized name, a
    /// ratio strategy without an attribute, or a leftover part after the
    /// colon is rejected.
    pub fn try_from_attr(value: &str) -> (r: Result<DataFillMethod, DataFillError>)
        ensures
            ({
                let p = colon_pos(value@, 0);
                let name = value@.take(p);
                let data = if p < value@.len() {
                    value@.skip(p + 1)
                } else {
                    Seq::<char>::empty()
                };
                &&& (r matches Ok(m) ==> method_named(name, data, m))
                &&& (r is Ok <==> method_recognized(name, data))
                &&& (r matches Err(e) ==> e matches DataFillError::UnknownStrategy(s) && s@
                    == value@)
            }),
    {
        let n = value.unicode_len();
        let mut p: usize = 0;
        while p < n && value.get_char(p) != ':'
            invariant
                n == value@.len(),
                0 <= p <= n,
                colon_pos(value@, 0) == colon_pos(value@, p as int),
            decreases n - p,
        {
            proof {
                assert(colon_pos(value@, p as int) == colon_pos(value@, p as int + 1));
            }
            p = p + 1;
        }
        proof {
            if p < n {
                assert(colon_pos(value@, p as int) == p as int);
            } else {
                assert(colon_pos(value@, p as int) == n as int);
            }
        }
        let name = value.substring_char(0, p);
        let data = if p < n {
            value.substring_char(p + 1, n)
        } else {
            value.substring_char(n, n)
        };
        proof {
            assert(value@.take(p as int) =~= value@.subrange(0, p as int));
            if (p as int) < n {
                assert(value@.skip(p as int + 1) =~= value@.subrange(p as int + 1, n as int));
            } else {
                assert(value@.subrange(n as int, n as int) =~= Seq::<char>::empty());
            }
            reveal_strlit("forward");
            reveal_strlit("backward");
            reveal_strlit("linear");
            reveal_strlit("input_ratio");
            reveal_strlit("iratio");
            reveal_strlit("output_ratio");
            reveal_strlit("oratio");
        }
        let empty_data = data.unicode_len() == 0;
        if str_eq(name, "forward") && empty_data {
            Ok(DataFillMethod::ForwardFill)
        } else if str_eq(name, "backward") && empty_data {
            Ok(DataFillMethod::BackwardFill)
        } else if str_eq(name, "linear") && empty_data {
            Ok(DataFillMethod::LinearInterpolate)
        } else if (str_eq(name, "input_ratio") || str_eq(name, "iratio")) && !empty_data {
            Ok(DataFillMethod::InputRatio(data.to_owned()))
        } else if (str_eq(name, "output_ratio") || str_eq(name, "oratio")) && !empty_data {
            Ok(DataFillMethod::OutputRatio(data.to_owned()))
        } else {
            Err(DataFillError::UnknownStrategy(value.to_owned()))
        }
    }
}

/// The position of each strategy in the emitted series order.
pub open spec fn method_index(m: DataFillMethod) -> int {
    match m {
        DataFillMethod::ForwardFill => 0,
        DataFillMethod::BackwardFill => 1,
        DataFillMethod::LinearInterpolate => 2,
        DataFillMethod::InputRatio(_) => 3,
        DataFillMethod::OutputRatio(_) => 4,
    }
}

/// Everything linear interpolation promises about one output entry.
pub open spec fn interp_ok(s: Seq<Val>, i: int, v: Val) -> bool {
    &&& (s[i].is_num() ==> v == s[i])
    &&& (!s[i].is_num() ==> {
        let p = prev_num(s, i);
        let q = next_num(s, i);
        &&& ((p < 0 || q >= s.len()) ==> v is NaN)
        &&& (p >= 0 && q < s.len() ==> {
            &&& (v.is_num() ==> frac_eq(v.frac(), interp_frac(s, i)))
            &&& (modest_val(s[p]) && modest_val(s[q]) && q - p <= 65536 ==> v.is_num()
                && v.frac().den <= 65536 && abs_int(v.frac().num) <= 206158430208)
        })
    })
}

/// Well-formedness of the binary fraction operations.
proof fn lemma_ops_wf(a: Frac, b: Frac)
    requires
        frac_wf(a),
        frac_wf(b),
    ensures
        frac_wf(frac_add(a, b)),
        frac_wf(frac_sub(a, b)),
        frac_wf(frac_mul(a, b)),
{
    assert(a.den * b.den > 0) by (nonlinear_arith)
        requires
            a.den > 0,
            b.den > 0,
    ;
}

/// Replace each missing value with the linear interpolation of the
/// nearest numbers before and after it, spaced by row index.
pub fn linear_interpolate(col: &Vec<Val>) -> (r: Vec<Val>)
    requires
        seq_wf(col@),
        col@.len() <= 0x7fffffffffffffff,
    ensures
        r@.len() == col@.len(),
        seq_wf(r@),
        forall|i: int| 0 <= i < col@.len() ==> interp_ok(col@, i, r@[i]),
        (forall|i: int| 0 <= i < col@.len() ==> (#[trigger] col@[i]).is_num()) ==> r@ == col@,
{
    let n = col.len();
    let mut r: Vec<Val> = Vec::new();
    let mut last: Val = Val::NaN;
    let ghost mut gp: int = -1;
    let mut p: usize = 0;
    let mut have_prev: bool = false;
    let mut i: usize = 0;
    while i < n
        invariant
            n == col@.len(),
            n <= 0x7fffffffffffffff,
            i <= n,
            seq_wf(col@),
            r@.len() == i,
            forall|j: int| 0 <= j < i ==> interp_ok(col@, j, r@[j]),
            forall|j: int| 0 <= j < i ==> (#[trigger] r@[j]).wf(),
            forall|j: int|
                0 <= j < i && (#[trigger] col@[j]).is_num() ==> r@[j] == col@[j],
            gp == prev_num(col@, i as int - 1),
            gp >= 0 ==> have_prev && gp == p < i && last == col@[gp] && last.is_num(),
            gp < 0 ==> !have_prev,
        decreases n - i,
    {
        let c = col[i];
        proof {
            assert(prev_num(col@, i as int) == (if col@[i as int].is_num() {
                i as int
            } else {
                prev_num(col@, i as int - 1)
            }));
        }
        if c.is_number() {
            r.push(c);
            last = c;
            p = i;
            have_prev = true;
            proof {
                gp = i as int;
            }
        } else {
            // find the nearest number after `i`
            let mut j: usize = i + 1;
            proof {
                assert(next_num(col@, i as int) == next_num(col@, i as int + 1));
            }
            while j < n && !col[j].is_number()
                invariant
                    n == col@.len(),
                    seq_wf(col@),
                    i < j <= n,
                    next_num(col@, i as int) == next_num(col@, j as int),
                decreases n - j,
            {
                proof {
                    assert(next_num(col@, j as int) == next_num(col@, j as int + 1));
                }
                j = j + 1;
            }
            proof {
                if j < n {
                    assert(next_num(col@, j as int) == j as int);
                } else {
                    assert(next_num(col@, j as int) == n as int);
                }
            }
            if !have_prev || j >= n {
                r.push(Val::NaN);
            } else {
                let vq = col[j];
                let dv = val_sub(vq, last);
                let off = Val::Num(Rat::new((i - p) as i64, (j - p) as i64));
                let prod = val_mul(dv, off);
                let v = val_add(last, prod);
                proof {
                    lemma_interp_step(
                        col@,
                        i as int,
                        gp,
                        j as int,
                        last,
                        vq,
                        dv,
                        off,
                        prod,
                        v,
                    );
                }
                r.push(v);
            }
        }
        i = i + 1;
    }
    proof {
        if forall|i: int| 0 <= i < col@.len() ==> (#[trigger] col@[i]).is_num() {
            assert(r@ =~= col@);
        }
    }
    r
}

/// The interpolation arithmetic chain denotes the exact interpolation
/// value and stays representable for modest neighbours.
proof fn lemma_interp_step(
    s: Seq<Val>,
    i: int,
    p: int,
    q: int,
    vp: Val,
    vq: Val,
    dv: Val,
    off: Val,
    prod: Val,
    v: Val,
)
    requires
        seq_wf(s),
        0 <= i < s.len(),
        !s[i].is_num(),
        p == prev_num(s, i),
        q == next_num(s, i),
        0 <= p < i < q < s.len(),
        s.len() <= 0x7fffffffffffffff,
        vp == s[p],
        vq == s[q],
        vp.is_num(),
        vq.is_num(),
        dv.wf(),
        off.is_num() && off.frac() == (Frac { num: i - p, den: q - p }),
        result_of(dv, frac_sub(vq.frac(), vp.frac())),
        dv.is_num() ==> result_of(prod, frac_mul(dv.frac(), off.frac())),
        dv is NaN ==> prod is NaN,
        prod.wf(),
        prod.is_num() ==> result_of(v, frac_add(vp.frac(), prod.frac())),
        prod is NaN ==> v is NaN,
        v.wf(),
    ensures
        interp_ok(s, i, v),
        v.wf(),
{
    let sub = frac_sub(vq.frac(), vp.frac());
    let ratio = Frac { num: i - p, den: q - p };
    lemma_ops_wf(vq.frac(), vp.frac());
    lemma_ops_wf(sub, ratio);
    if v.is_num() {
        assert(prod.is_num() && dv.is_num());
        lemma_mul_cong(dv.frac(), off.frac(), sub, ratio);
        lemma_ops_wf(dv.frac(), off.frac());
        lemma_eq_trans(prod.frac(), frac_mul(dv.frac(), off.frac()), frac_mul(sub, ratio));
        lemma_add_cong(vp.frac(), prod.frac(), vp.frac(), frac_mul(sub, ratio));
        lemma_ops_wf(vp.frac(), prod.frac());
        lemma_ops_wf(vp.frac(), frac_mul(sub, ratio));
        lemma_eq_trans(
            v.frac(),
            frac_add(vp.frac(), prod.frac()),
            frac_add(vp.frac(), frac_mul(sub, ratio)),
        );
    }
    if modest_val(s[p]) && modest_val(s[q]) && q - p <= 65536 {
        assert(sub.den == 1 && -2097152 <= sub.num <= 2097152) by (nonlinear_arith)
            requires
                sub.num == vq.frac().num * vp.frac().den - vp.frac().num * vq.frac().den,
                sub.den == vq.frac().den * vp.frac().den,
                vp.frac().den == 1,
                vq.frac().den == 1,
                -1048576 <= vp.frac().num <= 1048576,
                -1048576 <= vq.frac().num <= 1048576,
        ;
        assert(frac_fits(sub));
        assert(dv.is_num());
        assert(dv.frac().den == 1);
        assert(dv.frac().num == sub.num) by (nonlinear_arith)
            requires
                dv.frac().num * sub.den == sub.num * dv.frac().den,
                sub.den == 1,
                dv.frac().den == 1,
        ;
        let px = frac_mul(dv.frac(), off.frac());
        assert(px.den == off.frac().den && -137438953472 <= px.num <= 137438953472)
            by (nonlinear_arith)
            requires
                px.num == dv.frac().num * off.frac().num,
                px.den == dv.frac().den * off.frac().den,
                dv.frac().den == 1,
                -2097152 <= dv.frac().num <= 2097152,
                0 <= off.frac().num <= 65536,
        ;
        assert(frac_fits(px));
        assert(prod.is_num());
        assert(1 <= prod.frac().den <= 65536);
        assert(abs_int(prod.frac().num) <= abs_int(px.num));
        let ax = frac_add(vp.frac(), prod.frac());
        assert(ax.den == prod.frac().den && -206158430208 <= ax.num <= 206158430208)
            by (nonlinear_arith)
            requires
                ax.num == vp.frac().num * prod.frac().den + prod.frac().num * vp.frac().den,
                ax.den == vp.frac().den * prod.frac().den,
                vp.frac().den == 1,
                -1048576 <= vp.frac().num <= 1048576,
                1 <= prod.frac().den <= 65536,
                -137438953472 <= prod.frac().num <= 137438953472,
        ;
        assert(frac_fits(ax));
        assert(v.is_num());
    }
}

/// Every column of the row holds a number at index `i`.
pub open spec fn row_all_num(cols: Seq<Seq<Val>>, i: int) -> bool {
    forall|k: int| 0 <= k < cols.len() ==> (#[trigger] cols[k])[i].is_num()
}

/// The exact sum of the row across the columns.
pub open spec fn row_sum(cols: Seq<Seq<Val>>, i: int) -> Frac
    decreases cols.len(),
{
    if cols.len() == 0 {
        frac_zero()
    } else {
        frac_add(row_sum(cols.drop_last(), i), cols.last()[i].frac())
    }
}

/// Everything the input-ratio strategy promises about one output entry:
/// unmasked entries pass through; a masked entry becomes the sum of the
/// upstream inputs at that row scaled by the ratio, is exact whenever it
/// is a number, and is missing whenever the scale or any input is.
pub open spec fn iratio_ok(m: Seq<Val>, cols: Seq<Seq<Val>>, scale: Val, i: int, v: Val) -> bool {
    &&& (m[i].is_num() ==> v == m[i])
    &&& (!m[i].is_num() ==> {
        &&& (v.is_num() ==> scale.is_num() && row_all_num(cols, i) && frac_eq(
            v.frac(),
            frac_mul(row_sum(cols, i), scale.frac()),
        ))
        &&& (!scale.is_num() ==> v is NaN)
        &&& (!row_all_num(cols, i) ==> v is NaN)
        &&& (scale.is_num() && row_all_num(cols, i) && cols.len() <= 16 && (forall|k: int|
            0 <= k < cols.len() ==> modest_val(#[trigger] cols[k][i])) && abs_int(
            scale.frac().num,
        ) <= 1048576 && scale.frac().den <= 1048576 ==> v.is_num())
    })
}

/// Everything the output-ratio strategy promises about one output entry.
pub open spec fn oratio_ok(m: Seq<Val>, o: Seq<Val>, scale: Val, i: int, v: Val) -> bool {
    &&& (m[i].is_num() ==> v == m[i])
    &&& (!m[i].is_num() ==> {
        &&& (v.is_num() ==> scale.is_num() && o[i].is_num() && frac_eq(
            v.frac(),
            frac_mul(o[i].frac(), scale.frac()),
        ))
        &&& (!scale.is_num() || !o[i].is_num() ==> v is NaN)
        &&& (scale.is_num() && modest_val(o[i]) && abs_int(scale.frac().num) <= 1048576
            && scale.frac().den <= 1048576 ==> v.is_num())
    })
}

/// One column is usable at row `i`: the index is in range and the value
/// there is a well-formed number.
pub open spec fn col_ok(cols: Seq<Seq<Val>>, i: int, j: int) -> bool {
    0 <= i < cols[j].len() && cols[j][i].wf() && cols[j][i].is_num()
}

/// One step of the row sum.
proof fn lemma_row_sum_step(cols: Seq<Seq<Val>>, i: int, k: int)
    requires
        0 <= k < cols.len(),
    ensures
        row_sum(cols.take(k + 1), i) == frac_add(row_sum(cols.take(k), i), cols[k][i].frac()),
{
    let c1 = cols.take(k + 1);
    assert(c1.drop_last() =~= cols.take(k));
    assert(c1.last() == cols[k]);
}

/// The row sum over well-formed numeric columns is well-formed.
proof fn lemma_row_sum_wf(cols: Seq<Seq<Val>>, i: int)
    requires
        forall|j: int| 0 <= j < cols.len() ==> #[trigger] col_ok(cols, i, j),
    ensures
        frac_wf(row_sum(cols, i)),
{
    lemma_row_sum_wf_upto(cols, i, cols.len() as int);
    assert(cols.take(cols.len() as int) =~= cols);
}

/// The row sum over a prefix of well-formed numeric columns is
/// well-formed.
proof fn lemma_row_sum_wf_upto(cols: Seq<Seq<Val>>, i: int, k: int)
    requires
        0 <= k <= cols.len(),
        forall|j: int| 0 <= j < k ==> #[trigger] col_ok(cols, i, j),
    ensures
        frac_wf(row_sum(cols.take(k), i)),
    decreases k,
{
    if k == 0 {
        assert(cols.take(0).len() == 0);
    } else {
        lemma_row_sum_wf_upto(cols, i, k - 1);
        lemma_row_sum_step(cols, i, k - 1);
        assert(col_ok(cols, i, k - 1));
        lemma_ops_wf(row_sum(cols.take(k - 1), i), cols[k - 1][i].frac());
    }
}

/// Reconstruct a masked column as the row-wise sum of the input
/// neighbours' columns, scaled by the target-to-inputs attribute ratio.
pub fn input_ratio_fill(masked: &Vec<Val>, inputs: &Vec<Vec<Val>>, scale: Val) -> (r: Vec<Val>)
    requires
        seq_wf(masked@),
        scale.wf(),
        forall|k: int|
            0 <= k < inputs@.len() ==> (#[trigger] inputs@[k])@.len() == masked@.len() && seq_wf(
                inputs@[k]@,
            ),
    ensures
        r@.len() == masked@.len(),
        seq_wf(r@),
        forall|i: int|
            0 <= i < masked@.len() ==> iratio_ok(
                masked@,
                inputs@.map_values(|c: Vec<Val>| c@),
                scale,
                i,
                r@[i],
            ),
        (forall|i: int| 0 <= i < masked@.len() ==> (#[trigger] masked@[i]).is_num()) ==> r@
            == masked@,
{
    let ghost gcols = inputs@.map_values(|c: Vec<Val>| c@);
    let n = masked.len();
    let mut r: Vec<Val> = Vec::new();
    let mut i: usize = 0;
    while i < n
        invariant
            n == masked@.len(),
            i <= n,
            seq_wf(masked@),
            scale.wf(),
            gcols == inputs@.map_values(|c: Vec<Val>| c@),
            gcols.len() == inputs@.len(),
            forall|k: int|
                0 <= k < inputs@.len() ==> (#[trigger] inputs@[k])@.len() == masked@.len()
                    && seq_wf(inputs@[k]@),
            forall|k: int| 0 <= k < gcols.len() ==> #[trigger] gcols[k] == inputs@[k]@,
            r@.len() == i,
            forall|j: int| 0 <= j < i ==> iratio_ok(masked@, gcols, scale, j, r@[j]),
            forall|j: int| 0 <= j < i ==> (#[trigger] r@[j]).wf(),
        decreases n - i,
    {
        let c = masked[i];
        if c.is_number() {
            r.push(c);
        } else {
            let mut acc = Val::zero();
            let mut k: usize = 0;
            while k < inputs.len()
                invariant
                    n == masked@.len(),
                    0 <= i < n,
                    gcols == inputs@.map_values(|c: Vec<Val>| c@),
                    gcols.len() == inputs@.len(),
                    forall|kk: int|
                        0 <= kk < inputs@.len() ==> (#[trigger] inputs@[kk])@.len()
                            == masked@.len() && seq_wf(inputs@[kk]@),
                    forall|kk: int| 0 <= kk < gcols.len() ==> #[trigger] gcols[kk] == inputs@[kk]@,
                    k <= inputs@.len(),
                    acc.wf(),
                    acc.is_num() ==> frac_eq(acc.frac(), row_sum(gcols.take(k as int), i as int))
                        && row_all_num(gcols.take(k as int), i as int),
                    !row_all_num(gcols.take(k as int), i as int) ==> acc is NaN,
                    (forall|kk: int|
                        0 <= kk < gcols.len() ==> modest_val(#[trigger] gcols[kk][i as int]))
                        && gcols.len() <= 16 ==> acc.is_num() && acc.frac().den == 1 && abs_int(
                        acc.frac().num,
                    ) <= k * 1048576,
                decreases inputs@.len() - k,
            {
                let x = inputs[k][i];
                let acc2 = val_add(acc, x);
                proof {
                    lemma_iratio_acc(gcols, i as int, k as int, acc, x, acc2);
                }
                acc = acc2;
                k = k + 1;
            }
            proof {
                assert(gcols.take(gcols.len() as int) =~= gcols);
            }
            let v = val_mul(acc, scale);
            proof {
                if v.is_num() {
                    assert(acc.is_num() && scale.is_num());
                    assert forall|kk: int|
                        0 <= kk < gcols.len() implies #[trigger] col_ok(gcols, i as int, kk) by {
                        assert(seq_wf(gcols[kk]));
                        assert(row_all_num(gcols, i as int));
                        assert(gcols[kk][i as int].is_num());
                    }
                    lemma_row_sum_wf(gcols, i as int);
                    lemma_mul_cong(acc.frac(), scale.frac(), row_sum(gcols, i as int), scale.frac());
                    lemma_ops_wf(acc.frac(), scale.frac());
                    lemma_ops_wf(row_sum(gcols, i as int), scale.frac());
                    lemma_eq_trans(
                        v.frac(),
                        frac_mul(acc.frac(), scale.frac()),
                        frac_mul(row_sum(gcols, i as int), scale.frac()),
                    );
                }
                if scale.is_num() && row_all_num(gcols, i as int) && gcols.len() <= 16 && (
                forall|kk: int|
                    0 <= kk < gcols.len() ==> modest_val(#[trigger] gcols[kk][i as int]))
                    && abs_int(scale.frac().num) <= 1048576 && scale.frac().den <= 1048576 {
                    let mx = frac_mul(acc.frac(), scale.frac());
                    assert(abs_int(mx.num) <= 17592186044416 && 1 <= mx.den <= 1048576)
                        by (nonlinear_arith)
                        requires
                            mx.num == acc.frac().num * scale.frac().num,
                            mx.den == acc.frac().den * scale.frac().den,
                            acc.frac().den == 1,
                            abs_int(acc.frac().num) <= 16 * 1048576,
                            abs_int(scale.frac().num) <= 1048576,
                            1 <= scale.frac().den <= 1048576,
                    ;
                    assert(frac_fits(mx));
                    assert(v.is_num());
                }
            }
            r.push(v);
        }
        i = i + 1;
    }
    proof {
        if forall|i: int| 0 <= i < masked@.len() ==> (#[trigger] masked@[i]).is_num() {
            assert(r@ =~= masked@);
        }
    }
    r
}

/// Folding one input column's row value into the accumulator.
proof fn lemma_iratio_acc(gcols: Seq<Seq<Val>>, i: int, k: int, acc: Val, x: Val, acc2: Val)
    requires
        0 <= k < gcols.len(),
        forall|kk: int|
            0 <= kk < gcols.len() ==> 0 <= i < (#[trigger] gcols[kk]).len() && seq_wf(gcols[kk]),
        x == gcols[k][i],
        acc.wf(),
        acc2.wf(),
        acc.is_num() ==> frac_eq(acc.frac(), row_sum(gcols.take(k), i)) && row_all_num(
            gcols.take(k),
            i,
        ),
        !row_all_num(gcols.take(k), i) ==> acc is NaN,
        !(acc.is_num() && x.is_num()) ==> acc2 is NaN,
        acc.is_num() && x.is_num() ==> result_of(acc2, frac_add(acc.frac(), x.frac())),
        (forall|kk: int| 0 <= kk < gcols.len() ==> modest_val(#[trigger] gcols[kk][i]))
            && gcols.len() <= 16 ==> acc.is_num() && acc.frac().den == 1 && abs_int(acc.frac().num)
            <= k * 1048576,
    ensures
        acc2.is_num() ==> frac_eq(acc2.frac(), row_sum(gcols.take(k + 1), i)) && row_all_num(
            gcols.take(k + 1),
            i,
        ),
        !row_all_num(gcols.take(k + 1), i) ==> acc2 is NaN,
        (forall|kk: int| 0 <= kk < gcols.len() ==> modest_val(#[trigger] gcols[kk][i]))
            && gcols.len() <= 16 ==> acc2.is_num() && acc2.frac().den == 1 && abs_int(
            acc2.frac().num,
        ) <= (k + 1) * 1048576,
{
    lemma_row_sum_step(gcols, i, k);
    assert(forall|kk: int| 0 <= kk < k ==> gcols.take(k)[kk] == gcols[kk]);
    assert(forall|kk: int| 0 <= kk < k + 1 ==> gcols.take(k + 1)[kk] == gcols[kk]);
    if acc2.is_num() {
        assert(acc.is_num() && x.is_num());
        assert(seq_wf(gcols[k]));
        assert(x.wf());
        assert forall|j: int| 0 <= j < k implies #[trigger] col_ok(gcols, i, j) by {
            assert(seq_wf(gcols[j]));
            assert(gcols.take(k)[j] == gcols[j]);
            assert(gcols.take(k)[j][i].is_num());
        }
        lemma_row_sum_wf_upto(gcols, i, k);
        lemma_add_cong(acc.frac(), x.frac(), row_sum(gcols.take(k), i), x.frac());
        lemma_ops_wf(acc.frac(), x.frac());
        lemma_ops_wf(row_sum(gcols.take(k), i), x.frac());
        lemma_eq_trans(
            acc2.frac(),
            frac_add(acc.frac(), x.frac()),
            frac_add(row_sum(gcols.take(k), i), x.frac()),
        );
        assert(row_all_num(gcols.take(k + 1), i)) by {
            assert(forall|kk: int|
                0 <= kk < k + 1 ==> (#[trigger] gcols.take(k + 1)[kk])[i] == gcols[kk][i]);
        }
    }
    if !row_all_num(gcols.take(k + 1), i) {
        if row_all_num(gcols.take(k), i) {
            assert(!x.is_num()) by {
                if x.is_num() {
                    assert forall|kk: int|
                        0 <= kk < k + 1 implies (#[trigger] gcols.take(k + 1)[kk])[i].is_num() by {
                        if kk < k {
                            assert(gcols.take(k)[kk][i].is_num());
                        }
                    }
                }
            }
        }
    }
    if (forall|kk: int| 0 <= kk < gcols.len() ==> modest_val(#[trigger] gcols[kk][i]))
        && gcols.len() <= 16 {
        assert(modest_val(x));
        let ex = frac_add(acc.frac(), x.frac());
        assert(ex.den == 1 && abs_int(ex.num) <= (k + 1) * 1048576 && abs_int(ex.num)
            <= 17825792) by (nonlinear_arith)
            requires
                ex.num == acc.frac().num * x.frac().den + x.frac().num * acc.frac().den,
                ex.den == acc.frac().den * x.frac().den,
                acc.frac().den == 1,
                x.frac().den == 1,
                abs_int(acc.frac().num) <= k * 1048576,
                abs_int(x.frac().num) <= 1048576,
                0 <= k < 17,
        ;
        assert(frac_fits(ex));
        assert(acc2.is_num());
        assert(acc2.frac().den == 1);
        assert(abs_int(acc2.frac().num) <= abs_int(ex.num));
    }
}

/// What the strategy at position `m` promises of its reconstruction,
/// entry by entry.
pub open spec fn recon_ok(
    m: int,
    masked: Seq<Val>,
    cols: Seq<Seq<Val>>,
    out: Seq<Val>,
    iscale: Val,
    oscale: Val,
    r: Seq<Val>,
) -> bool {
    &&& r.len() == masked.len()
    &&& if m == 0 {
        forall|i: int| 0 <= i < masked.len() ==> r[i] == ffill_at(masked, i)
    } else if m == 1 {
        forall|i: int| 0 <= i < masked.len() ==> r[i] == bfill_at(masked, i)
    } else if m == 2 {
        forall|i: int| 0 <= i < masked.len() ==> interp_ok(masked, i, #[trigger] r[i])
    } else if m == 3 {
        forall|i: int| 0 <= i < masked.len() ==> iratio_ok(masked, cols, iscale, i, #[trigger] r[i])
    } else {
        forall|i: int| 0 <= i < masked.len() ==> oratio_ok(masked, out, oscale, i, #[trigger] r[i])
    }
}

/// Apply one strategy to the masked target column: the single dispatch
/// point over the closed strategy set.
pub fn reconstruct(
    method: &DataFillMethod,
    masked: &Vec<Val>,
    inputs: &Vec<Vec<Val>>,
    out_col: &Vec<Val>,
    iscale: Val,
    oscale: Val,
) -> (r: Vec<Val>)
    requires
        seq_wf(masked@),
        masked@.len() <= 0x7fffffffffffffff,
        forall|k: int|
            0 <= k < inputs@.len() ==> (#[trigger] inputs@[k])@.len() == masked@.len() && seq_wf(
                inputs@[k]@,
            ),
        out_col@.len() == masked@.len(),
        seq_wf(out_col@),
        iscale.wf(),
        oscale.wf(),
    ensures
        r@.len() == masked@.len(),
        seq_wf(r@),
        recon_ok(
            method_index(*method),
            masked@,
            inputs@.map_values(|c: Vec<Val>| c@),
            out_col@,
            iscale,
            oscale,
            r@,
        ),
{
    match method {
        DataFillMethod::ForwardFill => forward_fill(masked),
        DataFillMethod::BackwardFill => backward_fill(masked),
        DataFillMethod::LinearInterpolate => linear_interpolate(masked),
        DataFillMethod::InputRatio(_) => input_ratio_fill(masked, inputs, iscale),
        DataFillMethod::OutputRatio(_) => output_ratio_fill(masked, out_col, oscale),
    }
}

/// Reconstruct a masked column from the downstream output neighbour's
/// column, scaled by the target-to-output attribute ratio.
pub fn output_ratio_fill(masked: &Vec<Val>, out_col: &Vec<Val>, scale: Val) -> (r: Vec<Val>)
    requires
        seq_wf(masked@),
        seq_wf(out_col@),
        out_col@.len() == masked@.len(),
        scale.wf(),
    ensures
        r@.len() == masked@.len(),
        seq_wf(r@),
        forall|i: int| 0 <= i < masked@.len() ==> oratio_ok(masked@, out_col@, scale, i, r@[i]),
        (forall|i: int| 0 <= i < masked@.len() ==> (#[trigger] masked@[i]).is_num()) ==> r@
            == masked@,
{
    let n = masked.len();
    let mut r: Vec<Val> = Vec::new();
    let mut i: usize = 0;
    while i < n
        invariant
            n == masked@.len(),
            out_col@.len() == n,
            i <= n,
            seq_wf(masked@),
            seq_wf(out_col@),
            scale.wf(),
            r@.len() == i,
            forall|j: int| 0 <= j < i ==> oratio_ok(masked@, out_col@, scale, j, r@[j]),
            forall|j: int| 0 <= j < i ==> (#[trigger] r@[j]).wf(),
        decreases n - i,
    {
        let c = masked[i];
        if c.is_number() {
            r.push(c);
        } else {
            let v = val_mul(out_col[i], scale);
            proof {
                if scale.is_num() && modest_val(out_col@[i as int]) && abs_int(scale.frac().num)
                    <= 1048576 && scale.frac().den <= 1048576 {
                    let mx = frac_mul(out_col@[i as int].frac(), scale.frac());
                    assert(abs_int(mx.num) <= 1099511627776 && 1 <= mx.den <= 1048576)
                        by (nonlinear_arith)
                        requires
                            mx.num == out_col@[i as int].frac().num * scale.frac().num,
                            mx.den == out_col@[i as int].frac().den * scale.frac().den,
                            out_col@[i as int].frac().den == 1,
                            abs_int(out_col@[i as int].frac().num) <= 1048576,
                            abs_int(scale.frac().num) <= 1048576,
                            1 <= scale.frac().den <= 1048576,
                    ;
                    assert(frac_fits(mx));
                    assert(v.is_num());
                }
            }
            r.push(v);
        }
        i = i + 1;
    }
    proof {
        if forall|i: int| 0 <= i < masked@.len() ==> (#[trigger] masked@[i]).is_num() {
            assert(r@ =~= masked@);
        }
    }
    r
}

} // verus!
