//! The experiment orchestrator: repeated gap simulation, reconstruction
//! by every strategy, and scoring with every metric.
//!
//! Each trial draws a fresh withheld mask, masks the target column,
//! reconstructs it with all five strategies, and scores each
//! reconstruction against the withheld ground truth with all four
//! metrics.  A trial that produces a degenerate score records a missing
//! value and never aborts: every configured trial completes for every
//! strategy.

use crate::fill::{method_index, recon_ok, reconstruct, DataFillMethod};
use crate::mask::{
    apply_mask, distinct_indices, extract_rows, masked_of, rows_at, sample_indices,
};
use crate::metrics::{
    calc_abserr, calc_nrmse, calc_nse, calc_rmse, metric_result, seq_wf,
};
use crate::rational::{div_rel, frac_add, frac_eq, frac_wf, frac_zero, val_add, val_div, Frac, Val};
use crate::table::{build_table, is_joined_table, joined_count, RawSeries};
use crate::text::u64_to_string;
use vstd::prelude::*;
use vstd::string::StringExecFns;

verus! {

/// The recognized configuration of one experiment run.
pub struct ExperimentConfig {
    /// How many trials to run.
    pub experiments: usize,
    /// How many rows to withhold in each trial.
    pub samples: usize,
}

impl Default for ExperimentConfig {
    /// The defaults of the configuration surface: ten trials of one
    /// hundred withheld rows each.
    fn default() -> (r: ExperimentConfig)
        ensures
            r.experiments == 10,
            r.samples == 100,
    {
        ExperimentConfig { experiments: 10, samples: 100 }
    }
}

/// How one node's experiment ended: skipped for want of joined rows
/// (a warning, not a failure), or completed with one value series per
/// (strategy, metric) pair.
pub enum ExperimentOutcome {
    Skipped { rows: usize, required: usize },
    Completed(Vec<(String, Vec<Val>)>),
}

/// The strategy key at position `m` of the emitted series names.
pub open spec fn method_key(m: int) -> Seq<char> {
    if m == 0 {
        "forward"@
    } else if m == 1 {
        "backward"@
    } else if m == 2 {
        "linear"@
    } else if m == 3 {
        "iratio"@
    } else {
        "oratio"@
    }
}

/// The metric key at position `e` of the emitted series names.
pub open spec fn metric_key(e: int) -> Seq<char> {
    if e == 0 {
        "rmse"@
    } else if e == 1 {
        "nrmse"@
    } else if e == 2 {
        "abserr"@
    } else {
        "nse"@
    }
}

/// The deterministic name of one output series.
pub open spec fn series_name_spec(prefix: Seq<char>, m: int, e: int) -> Seq<char> {
    prefix + "_"@ + method_key(m) + "_"@ + metric_key(e)
}

/// Format `{prefix}_{method}_{metric}`.
pub fn series_name(prefix: &str, method: &str, metric: &str) -> (r: String)
    ensures
        r@ == prefix@ + "_"@ + method@ + "_"@ + metric@,
{
    let mut s = prefix.to_owned();
    s.append("_");
    s.append(method);
    s.append("_");
    s.append(metric);
    proof {
        assert(s@ =~= prefix@ + "_"@ + method@ + "_"@ + metric@);
    }
    s
}

/// The exact sum of a list of values; missing if any of them is.
pub open spec fn vals_sum(s: Seq<Val>) -> Frac
    decreases s.len(),
{
    if s.len() == 0 {
        frac_zero()
    } else {
        frac_add(vals_sum(s.drop_last()), s.last().frac())
    }
}

/// Sum attribute values, as the input-ratio denominator does over the
/// upstream neighbours' attributes.
pub fn sum_vals(vals: &Vec<Val>) -> (r: Val)
    requires
        seq_wf(vals@),
    ensures
        r.wf(),
        r.is_num() ==> frac_eq(r.frac(), vals_sum(vals@)),
        (exists|i: int| 0 <= i < vals@.len() && !(#[trigger] vals@[i]).is_num()) ==> r is NaN,
        crate::metrics::modest_seq(vals@) && vals@.len() <= 256 ==> r.is_num() && r.frac().den
            == 1 && r.frac().num == vals_sum(vals@).num,
{
    let mut acc = Val::zero();
    let mut i: usize = 0;
    while i < vals.len()
        invariant
            seq_wf(vals@),
            i <= vals@.len(),
            acc.wf(),
            acc.is_num() ==> frac_eq(acc.frac(), vals_sum(vals@.take(i as int))),
            (exists|j: int| 0 <= j < i && !(#[trigger] vals@[j]).is_num()) ==> acc is NaN,
            crate::metrics::modest_seq(vals@) && vals@.len() <= 256 ==> acc.is_num()
                && acc.frac().den == 1 && acc.frac().num == vals_sum(vals@.take(i as int)).num
                && -(i * 1048576) <= acc.frac().num <= i * 1048576
                && vals_sum(vals@.take(i as int)).den == 1,
        decreases vals@.len() - i,
    {
        let x = vals[i];
        let acc2 = val_add(acc, x);
        proof {
            assert(vals@.take(i as int + 1).drop_last() =~= vals@.take(i as int));
            assert(vals@.take(i as int + 1).last() == vals@[i as int]);
            if acc2.is_num() {
                assert(acc.is_num() && x.is_num());
                lemma_vals_sum_wf(vals@.take(i as int));
                crate::rational::lemma_add_cong(
                    acc.frac(),
                    x.frac(),
                    vals_sum(vals@.take(i as int)),
                    x.frac(),
                );
                crate::metrics::lemma_frac_add_wf(acc.frac(), x.frac());
                crate::metrics::lemma_frac_add_wf(vals_sum(vals@.take(i as int)), x.frac());
                crate::rational::lemma_eq_trans(
                    acc2.frac(),
                    frac_add(acc.frac(), x.frac()),
                    frac_add(vals_sum(vals@.take(i as int)), x.frac()),
                );
            }
        }
        proof {
            if crate::metrics::modest_seq(vals@) && vals@.len() <= 256 {
                assert(crate::metrics::modest_val(vals@[i as int]));
                crate::metrics::lemma_add_int(acc.frac(), x.frac());
                assert(-((i + 1) * 1048576) <= acc.frac().num + x.frac().num <= (i + 1)
                    * 1048576) by (nonlinear_arith)
                    requires
                        -(i * 1048576) <= acc.frac().num <= i * 1048576,
                        -1048576 <= x.frac().num <= 1048576,
                        i >= 0,
                ;
                assert((i + 1) * 1048576 <= 257 * 1048576) by (nonlinear_arith)
                    requires
                        0 <= i + 1 <= 257,
                ;
                crate::metrics::lemma_int_pin(acc2, frac_add(acc.frac(), x.frac()));
            }
        }
        acc = acc2;
        i = i + 1;
    }
    proof {
        assert(vals@.take(vals@.len() as int) =~= vals@);
    }
    acc
}

/// The sum of numeric values is well-formed.
proof fn lemma_vals_sum_wf(s: Seq<Val>)
    requires
        seq_wf(s),
        forall|i: int| 0 <= i < s.len() ==> (#[trigger] s[i]).is_num(),
    ensures
        frac_wf(vals_sum(s)),
    decreases s.len(),
{
    if s.len() == 0 {
    } else {
        let sp = s.drop_last();
        assert(forall|i: int| 0 <= i < sp.len() ==> sp[i] == s[i]);
        lemma_vals_sum_wf(sp);
        crate::metrics::lemma_frac_add_wf(vals_sum(sp), s.last().frac());
    }
}

/// Copy a column.
fn copy_col(src: &Vec<Val>) -> (r: Vec<Val>)
    ensures
        r@ == src@,
{
    let mut r: Vec<Val> = Vec::new();
    let mut i: usize = 0;
    while i < src.len()
        invariant
            i <= src@.len(),
            r@ == src@.take(i as int),
        decreases src@.len() - i,
    {
        r.push(src[i]);
        proof {
            assert(src@.take(i as int + 1) =~= src@.take(i as int).push(src@[i as int]));
        }
        i = i + 1;
    }
    proof {
        assert(src@.take(src@.len() as int) =~= src@);
    }
    r
}

/// The neighbour list of the aligned table: the upstream inputs,
/// followed by the downstream output when there is one.
pub open spec fn with_output(inputs: Seq<RawSeries>, output: Option<RawSeries>) -> Seq<
    RawSeries,
> {
    match output {
        Some(o) => inputs.push(o),
        None => inputs,
    }
}

/// A column with every entry missing, handed to the output-ratio
/// strategy when the target has no downstream output.
pub open spec fn nan_col(n: int) -> Seq<Val> {
    Seq::new(n as nat, |i: int| Val::NaN)
}

/// The output column of the aligned table: the last one when a
/// downstream output took part, an all-missing column otherwise.
pub open spec fn ocol_of(cols: Seq<Seq<Val>>, times_len: int, nb_len: int, n_inputs: int) -> Seq<
    Val,
> {
    if nb_len > n_inputs {
        cols[n_inputs + 1]
    } else {
        nan_col(times_len)
    }
}

/// Trial slot `t` of the emitted series holds one trial's twenty
/// scores.
pub open spec fn trial_slot_ok(
    tcol: Seq<Val>,
    icols: Seq<Seq<Val>>,
    ocol: Seq<Val>,
    iscale: Val,
    oscale: Val,
    samples: int,
    series: Seq<(String, Vec<Val>)>,
    t: int,
) -> bool {
    exists|scores: Seq<Val>|
        #![trigger scores.len()]
        {
            &&& trial_scores_ok(tcol, icols, ocol, iscale, oscale, samples, scores)
            &&& forall|m: int, e: int|
                0 <= m < 5 && 0 <= e < 4 ==> (#[trigger] series[m * 4 + e]).1@[t] == scores[m * 4
                    + e]
        }
}

/// What a completed run guarantees beyond its shape: the aligned table
/// of the given series exists, the ratio scales are the attribute
/// quotients, and each stored value is one trial's score for its
/// strategy and metric over that table.
pub open spec fn completed_ok(
    target: RawSeries,
    neighbors: Seq<RawSeries>,
    n_inputs: int,
    val: Val,
    ival: Val,
    oval: Val,
    samples: int,
    experiments: int,
    series: Seq<(String, Vec<Val>)>,
) -> bool {
    exists|times: Seq<i64>, cols: Seq<Seq<Val>>, iscale: Val, oscale: Val|
        #![trigger is_joined_table(target, neighbors, times, cols), div_rel(val, ival, iscale), div_rel(val, oval, oscale)]
        {
            &&& is_joined_table(target, neighbors, times, cols)
            &&& div_rel(val, ival, iscale)
            &&& div_rel(val, oval, oscale)
            &&& forall|t: int|
                0 <= t < experiments ==> #[trigger] trial_slot_ok(
                    cols[0],
                    cols.subrange(1, n_inputs + 1),
                    ocol_of(cols, times.len() as int, neighbors.len() as int, n_inputs),
                    iscale,
                    oscale,
                    samples,
                    series,
                    t,
                )
        }
}

/// Two neighbour lists with the same timelines and values agree on
/// which timestamps every series holds a number at.
proof fn lemma_same_views_have_num(
    target: RawSeries,
    a: Seq<RawSeries>,
    b: Seq<RawSeries>,
    t: i64,
)
    requires
        a.len() == b.len(),
        forall|k: int|
            0 <= k < a.len() ==> (#[trigger] a[k]).times@ == b[k].times@ && a[k].values@
                == b[k].values@,
    ensures
        crate::table::all_have_num(target, a, t) == crate::table::all_have_num(target, b, t),
{
    if crate::table::all_have_num(target, a, t) {
        assert forall|k: int|
            0 <= k < b.len() implies crate::table::series_has_num(
            (#[trigger] b[k]).times@,
            b[k].values@,
            t,
        ) by {
            assert(crate::table::series_has_num(a[k].times@, a[k].values@, t));
        }
    }
    if crate::table::all_have_num(target, b, t) {
        assert forall|k: int|
            0 <= k < a.len() implies crate::table::series_has_num(
            (#[trigger] a[k]).times@,
            a[k].values@,
            t,
        ) by {
            assert(crate::table::series_has_num(b[k].times@, b[k].values@, t));
        }
    }
}

/// The joined-row count only reads the neighbours' timelines and values.
proof fn lemma_same_views_count(target: RawSeries, a: Seq<RawSeries>, b: Seq<RawSeries>, n: int)
    requires
        a.len() == b.len(),
        forall|k: int|
            0 <= k < a.len() ==> (#[trigger] a[k]).times@ == b[k].times@ && a[k].values@
                == b[k].values@,
    ensures
        joined_count(target, a, n) == joined_count(target, b, n),
    decreases n,
{
    if n > 0 {
        lemma_same_views_count(target, a, b, n - 1);
        lemma_same_views_have_num(target, a, b, target.times@[n - 1]);
    }
}

/// The aligned-table relation only reads the neighbours' timelines and
/// values.
proof fn lemma_same_views_table(
    target: RawSeries,
    a: Seq<RawSeries>,
    b: Seq<RawSeries>,
    times: Seq<i64>,
    cols: Seq<Seq<Val>>,
)
    requires
        a.len() == b.len(),
        forall|k: int|
            0 <= k < a.len() ==> (#[trigger] a[k]).times@ == b[k].times@ && a[k].values@
                == b[k].values@,
        is_joined_table(target, a, times, cols),
    ensures
        is_joined_table(target, b, times, cols),
{
    lemma_same_views_count(target, a, b, target.times@.len() as int);
    assert forall|j: int|
        0 <= j < times.len() implies crate::table::all_have_num(
        target,
        b,
        #[trigger] times[j],
    ) by {
        lemma_same_views_have_num(target, a, b, times[j]);
    }
    assert forall|i: int|
        0 <= i < target.times@.len() && crate::table::all_have_num(
            target,
            b,
            #[trigger] target.times@[i],
        ) implies crate::table::ts_contains(times, target.times@[i]) by {
        lemma_same_views_have_num(target, a, b, target.times@[i]);
    }
    assert forall|k: int, j: int|
        0 <= k < b.len() && 0 <= j < times.len() implies crate::table::series_value_is(
        b[k].times@,
        b[k].values@,
        times[j],
        #[trigger] cols[k + 1][j],
    ) && cols[k + 1][j].is_num() by {
        assert(crate::table::series_value_is(a[k].times@, a[k].values@, times[j], cols[k + 1][j]));
    }
}

/// Run the full gap-filling experiment for one target node.
///
/// The aligned table keeps the timestamps at which the target, every
/// upstream input, and the downstream output (when there is one) all
/// hold a number.  The experiment completes exactly when at least
/// `samples` rows survive; with fewer (in particular below the
/// `samples / 10` warning threshold) the node is skipped rather than
/// failed.  A completed run holds one series per (strategy, metric)
/// pair, named `{prefix}_{strategy}_{metric}`, with exactly one score
/// per trial in trial order, each tied to its trial's withheld mask by
/// `completed_ok`.  `ratio_var` names the attribute whose target,
/// input-sum, and output values arrive as `val`, `ival` and `oval`.
pub fn datafill_experiment(
    target: &RawSeries,
    inputs: &Vec<RawSeries>,
    output: &Option<RawSeries>,
    val: Val,
    ival: Val,
    oval: Val,
    ratio_var: &str,
    prefix: &str,
    experiments: usize,
    samples: usize,
) -> (r: ExperimentOutcome)
    requires
        target.wf(),
        forall|k: int| 0 <= k < inputs@.len() ==> (#[trigger] inputs@[k]).wf(),
        output matches Some(o) ==> o.wf(),
        val.wf(),
        ival.wf(),
        oval.wf(),
        samples >= 1,
        target.times@.len() <= 0x7fffffffffffffff,
        inputs@.len() < 0xffff,
    ensures
        r is Completed <==> samples as int <= joined_count(
            *target,
            with_output(inputs@, *output),
            target.times@.len() as int,
        ),
        r matches ExperimentOutcome::Skipped { rows, required } ==> rows == joined_count(
            *target,
            with_output(inputs@, *output),
            target.times@.len() as int,
        ) && rows < required && required == samples,
        r matches ExperimentOutcome::Completed(series) ==> {
            &&& series@.len() == 20
            &&& forall|m: int, e: int|
                0 <= m < 5 && 0 <= e < 4 ==> (#[trigger] series@[m * 4 + e]).0@
                    == series_name_spec(prefix@, m, e) && series@[m * 4 + e].1@.len()
                    == experiments && seq_wf(series@[m * 4 + e].1@)
            &&& completed_ok(
                *target,
                with_output(inputs@, *output),
                inputs@.len() as int,
                val,
                ival,
                oval,
                samples as int,
                experiments as int,
                series@,
            )
        },
{
    let ghost combined = with_output(inputs@, *output);
    // assemble the neighbour list: inputs first, then the output
    let mut neighbors: Vec<RawSeries> = Vec::new();
    let mut k: usize = 0;
    while k < inputs.len()
        invariant
            k <= inputs@.len(),
            neighbors@.len() == k,
            forall|q: int| 0 <= q < inputs@.len() ==> (#[trigger] inputs@[q]).wf(),
            forall|q: int| 0 <= q < k ==> (#[trigger] neighbors@[q]).wf(),
            forall|q: int|
                0 <= q < k ==> (#[trigger] neighbors@[q]).times@ == inputs@[q].times@
                    && neighbors@[q].values@ == inputs@[q].values@,
        decreases inputs@.len() - k,
    {
        neighbors.push(RawSeries {
            name: inputs[k].name.clone(),
            times: copy_times(&inputs[k].times),
            values: copy_col(&inputs[k].values),
        });
        k = k + 1;
    }
    let n_inputs = inputs.len();
    let has_output = match output {
        Some(o) => {
            neighbors.push(RawSeries {
                name: o.name.clone(),
                times: copy_times(&o.times),
                values: copy_col(&o.values),
            });
            true
        },
        None => false,
    };
    proof {
        assert(neighbors@.len() == combined.len());
        assert(forall|q: int|
            0 <= q < neighbors@.len() ==> (#[trigger] neighbors@[q]).times@ == combined[q].times@
                && neighbors@[q].values@ == combined[q].values@);
        lemma_same_views_count(*target, neighbors@, combined, target.times@.len() as int);
    }
    let table = build_table(target, &neighbors);
    let ht = table.row_count();
    if ht < samples {
        return ExperimentOutcome::Skipped { rows: ht, required: samples };
    }
    // the five strategies, dispatched per trial through `reconstruct`
    let mut methods: Vec<DataFillMethod> = Vec::new();
    methods.push(DataFillMethod::ForwardFill);
    methods.push(DataFillMethod::BackwardFill);
    methods.push(DataFillMethod::LinearInterpolate);
    methods.push(DataFillMethod::InputRatio(ratio_var.to_owned()));
    methods.push(DataFillMethod::OutputRatio(ratio_var.to_owned()));
    proof {
        assert forall|m: int| 0 <= m < 5 implies method_index(#[trigger] methods@[m]) == m by {
            if m == 0 {
                assert(methods@[0] is ForwardFill);
            } else if m == 1 {
                assert(methods@[1] is BackwardFill);
            } else if m == 2 {
                assert(methods@[2] is LinearInterpolate);
            } else if m == 3 {
                assert(methods@[3] is InputRatio);
            } else {
                assert(methods@[4] is OutputRatio);
            }
        }
    }
    // ratio scales
    let iscale = val_div(val, ival);
    let oscale = val_div(val, oval);
    // split the table into the target column, input columns, output column
    let target_col = copy_col(&table.cols[0]);
    let mut input_cols: Vec<Vec<Val>> = Vec::new();
    let mut q: usize = 0;
    while q < n_inputs
        invariant
            table.wf(),
            table.cols@.len() == neighbors@.len() + 1,
            n_inputs + 1 <= table.cols@.len(),
            q <= n_inputs,
            input_cols@.len() == q,
            forall|z: int|
                0 <= z < q ==> (#[trigger] input_cols@[z])@ == table.cols@[z + 1]@,
        decreases n_inputs - q,
    {
        input_cols.push(copy_col(&table.cols[q + 1]));
        q = q + 1;
    }
    let out_col: Vec<Val> = if has_output {
        copy_col(&table.cols[n_inputs + 1])
    } else {
        // without a downstream output the output-ratio strategy cannot
        // reconstruct anything: give it an all-missing column
        let mut c: Vec<Val> = Vec::new();
        let mut z: usize = 0;
        while z < ht
            invariant
                z <= ht,
                c@.len() == z,
                forall|y: int| 0 <= y < z ==> c@[y] == Val::NaN,
            decreases ht - z,
        {
            c.push(Val::NaN);
            z = z + 1;
        }
        c
    };
    proof {
        assert(seq_wf(target_col@));
        assert(seq_wf(out_col@)) by {
            if has_output {
                assert(out_col@ == table.cols@[n_inputs as int + 1]@);
            } else {
                assert forall|y: int| 0 <= y < out_col@.len() implies (#[trigger] out_col@[y]).wf()
                    by {
                    assert(out_col@[y] == Val::NaN);
                }
            }
        }
        assert(forall|z: int|
            0 <= z < input_cols@.len() ==> (#[trigger] input_cols@[z])@.len() == ht && seq_wf(
                input_cols@[z]@,
            ));
        assert(out_col@.len() == ht);
    }
    let ghost gicols = input_cols@.map_values(|c: Vec<Val>| c@);
    // the trial loop: one row of twenty scores per trial
    let mut trials: Vec<Vec<Val>> = Vec::new();
    let mut e: usize = 0;
    while e < experiments
        invariant
            methods@.len() == 5,
            forall|z: int| 0 <= z < 5 ==> method_index(#[trigger] methods@[z]) == z,
            seq_wf(target_col@),
            target_col@.len() == ht,
            ht <= 0x7fffffffffffffff,
            1 <= samples <= ht,
            out_col@.len() == ht,
            seq_wf(out_col@),
            forall|z: int|
                0 <= z < input_cols@.len() ==> (#[trigger] input_cols@[z])@.len() == ht && seq_wf(
                    input_cols@[z]@,
                ),
            gicols == input_cols@.map_values(|c: Vec<Val>| c@),
            iscale.wf(),
            oscale.wf(),
            e <= experiments,
            trials@.len() == e,
            forall|t: int| 0 <= t < e ==> (#[trigger] trials@[t])@.len() == 20,
            forall|t: int| 0 <= t < e ==> seq_wf((#[trigger] trials@[t])@),
            forall|t: int|
                0 <= t < e ==> trial_scores_ok(
                    target_col@,
                    gicols,
                    out_col@,
                    iscale,
                    oscale,
                    samples as int,
                    (#[trigger] trials@[t])@,
                ),
        decreases experiments - e,
    {
        let row = run_trial(&methods, &target_col, &input_cols, &out_col, iscale, oscale, samples);
        trials.push(row);
        e = e + 1;
    }
    // transpose trial rows into per-(strategy, metric) series
    let mut series: Vec<(String, Vec<Val>)> = Vec::new();
    let mut m: usize = 0;
    while m < 5
        invariant
            trials@.len() == experiments,
            forall|t: int| 0 <= t < experiments ==> (#[trigger] trials@[t])@.len() == 20,
            forall|t: int| 0 <= t < experiments ==> seq_wf((#[trigger] trials@[t])@),
            m <= 5,
            series@.len() == m * 4,
            forall|m2: int, e2: int|
                0 <= m2 < m && 0 <= e2 < 4 ==> (#[trigger] series@[m2 * 4 + e2]).0@
                    == series_name_spec(prefix@, m2, e2) && series@[m2 * 4 + e2].1@.len()
                    == experiments && seq_wf(series@[m2 * 4 + e2].1@) && (forall|t: int|
                    0 <= t < experiments ==> series@[m2 * 4 + e2].1@[t] == (#[trigger] trials@[t])@[
                        m2 * 4 + e2
                    ]),
        decreases 5 - m,
    {
        let mname: &str = if m == 0 {
            "forward"
        } else if m == 1 {
            "backward"
        } else if m == 2 {
            "linear"
        } else if m == 3 {
            "iratio"
        } else {
            "oratio"
        };
        let mut e2: usize = 0;
        while e2 < 4
            invariant
                trials@.len() == experiments,
                forall|t: int| 0 <= t < experiments ==> (#[trigger] trials@[t])@.len() == 20,
                forall|t: int| 0 <= t < experiments ==> seq_wf((#[trigger] trials@[t])@),
                m < 5,
                mname@ == method_key(m as int),
                e2 <= 4,
                series@.len() == m * 4 + e2,
                forall|m2: int, z: int|
                    0 <= m2 < m && 0 <= z < 4 ==> (#[trigger] series@[m2 * 4 + z]).0@
                        == series_name_spec(prefix@, m2, z) && series@[m2 * 4 + z].1@.len()
                        == experiments && seq_wf(series@[m2 * 4 + z].1@) && (forall|t: int|
                        0 <= t < experiments ==> series@[m2 * 4 + z].1@[t] == (#[trigger] trials@[
                            t
                        ])@[m2 * 4 + z]),
                forall|z: int|
                    0 <= z < e2 ==> (#[trigger] series@[m * 4 + z]).0@ == series_name_spec(
                        prefix@,
                        m as int,
                        z,
                    ) && series@[m * 4 + z].1@.len() == experiments && seq_wf(
                        series@[m * 4 + z].1@,
                    ) && (forall|t: int|
                        0 <= t < experiments ==> series@[m * 4 + z].1@[t] == (#[trigger] trials@[
                            t
                        ])@[m * 4 + z]),
            decreases 4 - e2,
        {
            let ename: &str = if e2 == 0 {
                "rmse"
            } else if e2 == 1 {
                "nrmse"
            } else if e2 == 2 {
                "abserr"
            } else {
                "nse"
            };
            let name = series_name(prefix, mname, ename);
            let mut vals: Vec<Val> = Vec::new();
            let mut t: usize = 0;
            while t < experiments
                invariant
                    trials@.len() == experiments,
                    forall|z: int| 0 <= z < experiments ==> (#[trigger] trials@[z])@.len() == 20,
                    forall|z: int| 0 <= z < experiments ==> seq_wf((#[trigger] trials@[z])@),
                    m < 5,
                    e2 < 4,
                    t <= experiments,
                    vals@.len() == t,
                    forall|z: int| 0 <= z < t ==> (#[trigger] vals@[z]).wf(),
                    forall|z: int|
                        0 <= z < t ==> #[trigger] vals@[z] == trials@[z]@[m * 4 + e2],
                decreases experiments - t,
            {
                let v = trials[t][m * 4 + e2];
                proof {
                    assert(trials@[t as int]@[m as int * 4 + e2 as int].wf());
                }
                vals.push(v);
                t = t + 1;
            }
            series.push((name, vals));
            e2 = e2 + 1;
        }
        m = m + 1;
    }
    proof {
        assert forall|m2: int, e2: int|
            0 <= m2 < 5 && 0 <= e2 < 4 implies (#[trigger] series@[m2 * 4 + e2]).0@
            == series_name_spec(prefix@, m2, e2) && series@[m2 * 4 + e2].1@.len() == experiments
            && seq_wf(series@[m2 * 4 + e2].1@) by {}
        // assemble the completed-run witness: the table built above
        let gtimes = table.times@;
        let gcols = table.cols@.map_values(|c: Vec<Val>| c@);
        lemma_same_views_table(*target, neighbors@, combined, gtimes, gcols);
        assert(gcols[0] == target_col@);
        assert(gicols =~= gcols.subrange(1, n_inputs as int + 1)) by {
            assert forall|z: int| 0 <= z < n_inputs implies gicols[z] == gcols.subrange(
                1,
                n_inputs as int + 1,
            )[z] by {
                assert(gicols[z] == input_cols@[z]@);
                assert(gcols.subrange(1, n_inputs as int + 1)[z] == gcols[z + 1]);
            }
        }
        if has_output {
            assert(combined.len() > n_inputs);
            assert(out_col@ == gcols[n_inputs as int + 1]);
        } else {
            assert(combined.len() == n_inputs as int);
            assert(out_col@ =~= nan_col(gtimes.len() as int));
        }
        let gocol = ocol_of(gcols, gtimes.len() as int, combined.len() as int, n_inputs as int);
        assert(gocol == out_col@);
        assert forall|t: int|
            0 <= t < experiments as int implies #[trigger] trial_slot_ok(
            gcols[0],
            gcols.subrange(1, n_inputs as int + 1),
            gocol,
            iscale,
            oscale,
            samples as int,
            series@,
            t,
        ) by {
            let ws = trials@[t]@;
            assert(ws.len() == 20);
            assert(trial_scores_ok(
                gcols[0],
                gcols.subrange(1, n_inputs as int + 1),
                gocol,
                iscale,
                oscale,
                samples as int,
                ws,
            ));
            assert(forall|m: int, e: int|
                0 <= m < 5 && 0 <= e < 4 ==> (#[trigger] series@[m * 4 + e]).1@[t] == ws[m * 4
                    + e]);
        }
        assert(completed_ok(
            *target,
            combined,
            inputs@.len() as int,
            val,
            ival,
            oval,
            samples as int,
            experiments as int,
            series@,
        ));
    }
    ExperimentOutcome::Completed(series)
}

/// Copy a timeline.
fn copy_times(src: &Vec<i64>) -> (r: Vec<i64>)
    ensures
        r@ == src@,
{
    let mut r: Vec<i64> = Vec::new();
    let mut i: usize = 0;
    while i < src.len()
        invariant
            i <= src@.len(),
            r@ == src@.take(i as int),
        decreases src@.len() - i,
    {
        r.push(src[i]);
        proof {
            assert(src@.take(i as int + 1) =~= src@.take(i as int).push(src@[i as int]));
        }
        i = i + 1;
    }
    proof {
        assert(src@.take(src@.len() as int) =~= src@);
    }
    r
}

/// The header of the flattened experiments table: the requested
/// attribute names, the trial index and strategy columns, and the
/// requested error-metric names.
pub fn experiments_csv_header(attrs: &Vec<String>, errors: &Vec<String>) -> (r: String)
    ensures
        r@ == crate::text::joined(attrs@.map_values(|p: String| p@), ","@) + (if attrs@.len() > 0
            && errors@.len() > 0 {
            ","@
        } else {
            Seq::<char>::empty()
        }) + "experiment,method,"@ + crate::text::joined(
            errors@.map_values(|p: String| p@),
            ","@,
        ),
{
    let mut s = crate::text::join_strings(attrs, ",");
    if attrs.len() > 0 && errors.len() > 0 {
        s.append(",");
    }
    s.append("experiment,method,");
    let tail = crate::text::join_strings(errors, ",");
    s.append(tail.as_str());
    proof {
        assert(s@ =~= crate::text::joined(attrs@.map_values(|p: String| p@), ","@) + (
        if attrs@.len() > 0 && errors@.len() > 0 {
            ","@
        } else {
            Seq::<char>::empty()
        }) + "experiment,method,"@ + crate::text::joined(
            errors@.map_values(|p: String| p@),
            ","@,
        ));
    }
    s
}

/// The text of one flattened row: the node's attribute values, the
/// trial index, the strategy key, and one score per metric.
pub open spec fn csv_row_spec(
    attrs: Seq<Seq<char>>,
    trial: nat,
    method: Seq<char>,
    cells: Seq<Seq<char>>,
) -> Seq<char> {
    crate::text::joined(attrs, ","@) + (if attrs.len() > 0 {
        ","@
    } else {
        Seq::<char>::empty()
    }) + dec_digits_of(trial) + ","@ + method + ","@ + crate::text::joined(cells, ","@)
}

/// The decimal digits of a trial index (re-exported for the row spec).
pub open spec fn dec_digits_of(n: nat) -> Seq<char> {
    crate::text::dec_digits(n)
}

/// Assemble the flattened rows for one strategy's result series: one
/// row per trial, each carrying the node's attribute values, the trial
/// index, the strategy key, and every metric's score.  Series of
/// unequal length are rejected rather than silently truncated.
pub fn experiments_csv_rows(
    attr_vals: &Vec<String>,
    method: &str,
    metric_series: &Vec<Vec<String>>,
) -> (r: Result<Vec<String>, crate::errors::DataFillError>)
    ensures
        r is Ok <==> (forall|k: int|
            0 <= k < metric_series@.len() ==> (#[trigger] metric_series@[k])@.len()
                == metric_series@[0]@.len()),
        metric_series@.len() == 0 ==> (r matches Ok(rows) && rows@.len() == 1 && rows@[0]@
            == crate::text::joined(attr_vals@.map_values(|p: String| p@), ","@)),
        metric_series@.len() > 0 ==> (r matches Ok(rows) ==> {
            &&& rows@.len() == metric_series@[0]@.len()
            &&& forall|i: int|
                0 <= i < rows@.len() ==> (#[trigger] rows@[i])@ == csv_row_spec(
                    attr_vals@.map_values(|p: String| p@),
                    i as nat,
                    method@,
                    metric_series@.map_values(|col: Vec<String>| col@[i]@),
                )
        }),
        r matches Err(e) ==> e is Data,
{
    if metric_series.len() == 0 {
        // no metrics requested: one row with only the attribute values
        let mut rows: Vec<String> = Vec::new();
        rows.push(crate::text::join_strings(attr_vals, ","));
        return Ok(rows);
    }
    let nrows = metric_series[0].len();
    let mut k: usize = 1;
    while k < metric_series.len()
        invariant
            metric_series@.len() > 0,
            nrows == metric_series@[0]@.len(),
            1 <= k <= metric_series@.len(),
            forall|z: int| 0 <= z < k ==> (#[trigger] metric_series@[z])@.len() == nrows,
        decreases metric_series@.len() - k,
    {
        if metric_series[k].len() != nrows {
            return Err(crate::errors::DataFillError::Data(String::from_str(
                "series lengths do not match",
            )));
        }
        k = k + 1;
    }
    let attr_part = crate::text::join_strings(attr_vals, ",");
    let mut rows: Vec<String> = Vec::new();
    let mut i: usize = 0;
    while i < nrows
        invariant
            metric_series@.len() > 0,
            nrows == metric_series@[0]@.len(),
            forall|z: int|
                0 <= z < metric_series@.len() ==> (#[trigger] metric_series@[z])@.len() == nrows,
            attr_part@ == crate::text::joined(attr_vals@.map_values(|p: String| p@), ","@),
            i <= nrows,
            rows@.len() == i,
            forall|j: int|
                0 <= j < i ==> (#[trigger] rows@[j])@ == csv_row_spec(
                    attr_vals@.map_values(|p: String| p@),
                    j as nat,
                    method@,
                    metric_series@.map_values(|col: Vec<String>| col@[j]@),
                ),
        decreases nrows - i,
    {
        let mut cells: Vec<String> = Vec::new();
        let mut z: usize = 0;
        while z < metric_series.len()
            invariant
                nrows == metric_series@[0]@.len(),
                metric_series@.len() > 0,
                i < nrows,
                forall|y: int|
                    0 <= y < metric_series@.len() ==> (#[trigger] metric_series@[y])@.len()
                        == nrows,
                z <= metric_series@.len(),
                cells@.len() == z,
                forall|y: int|
                    0 <= y < z ==> (#[trigger] cells@[y])@ == metric_series@[y]@[i as int]@,
            decreases metric_series@.len() - z,
        {
            cells.push(metric_series[z][i].clone());
            z = z + 1;
        }
        let cell_part = crate::text::join_strings(&cells, ",");
        let mut line = attr_part.clone();
        if attr_vals.len() > 0 {
            line.append(",");
        }
        line.append(u64_to_string(i as u64).as_str());
        line.append(",");
        line.append(method);
        line.append(",");
        line.append(cell_part.as_str());
        proof {
            assert(cells@.map_values(|p: String| p@) =~= metric_series@.map_values(
                |col: Vec<String>| col@[i as int]@,
            ));
            assert(line@ =~= csv_row_spec(
                attr_vals@.map_values(|p: String| p@),
                i as nat,
                method@,
                metric_series@.map_values(|col: Vec<String>| col@[i as int]@),
            ));
        }
        rows.push(line);
        i = i + 1;
    }
    Ok(rows)
}

/// All that one trial's twenty scores satisfy: some withheld mask of
/// `samples` distinct in-range indices exists such that, for every
/// strategy and metric, the stored score meets that metric's contract on
/// the withheld ground truth and that strategy's reconstruction of the
/// masked column, both taken at the mask's rows.
pub open spec fn trial_scores_ok(
    tcol: Seq<Val>,
    icols: Seq<Seq<Val>>,
    ocol: Seq<Val>,
    iscale: Val,
    oscale: Val,
    samples: int,
    scores: Seq<Val>,
) -> bool {
    &&& scores.len() == 20
    &&& exists|mask: Seq<usize>, recons: Seq<Seq<Val>>|
        #![trigger mask.len(), recons.len()]
        {
            &&& mask.len() == samples
            &&& distinct_indices(mask)
            &&& (forall|j: int| 0 <= j < mask.len() ==> (#[trigger] mask[j]) < tcol.len())
            &&& recons.len() == 5
            &&& (forall|m: int|
                0 <= m < 5 ==> recon_ok(
                    m,
                    masked_of(tcol, mask),
                    icols,
                    ocol,
                    iscale,
                    oscale,
                    #[trigger] recons[m],
                ))
            &&& (forall|m: int, e: int|
                0 <= m < 5 && 0 <= e < 4 ==> metric_result(
                    rows_at(tcol, mask),
                    rows_at(recons[m], mask),
                    metric_key(e),
                    #[trigger] scores[m * 4 + e],
                ))
        }
}

/// One trial: draw a mask, reconstruct with all five strategies, score
/// each reconstruction with all four metrics at the withheld rows only.
fn run_trial(
    methods: &Vec<DataFillMethod>,
    target_col: &Vec<Val>,
    input_cols: &Vec<Vec<Val>>,
    out_col: &Vec<Val>,
    iscale: Val,
    oscale: Val,
    samples: usize,
) -> (r: Vec<Val>)
    requires
        methods@.len() == 5,
        forall|m: int| 0 <= m < 5 ==> method_index(#[trigger] methods@[m]) == m,
        seq_wf(target_col@),
        target_col@.len() <= 0x7fffffffffffffff,
        1 <= samples <= target_col@.len(),
        out_col@.len() == target_col@.len(),
        seq_wf(out_col@),
        forall|z: int|
            0 <= z < input_cols@.len() ==> (#[trigger] input_cols@[z])@.len()
                == target_col@.len() && seq_wf(input_cols@[z]@),
        iscale.wf(),
        oscale.wf(),
    ensures
        r@.len() == 20,
        seq_wf(r@),
        trial_scores_ok(
            target_col@,
            input_cols@.map_values(|c: Vec<Val>| c@),
            out_col@,
            iscale,
            oscale,
            samples as int,
            r@,
        ),
{
    let ghost gicols = input_cols@.map_values(|c: Vec<Val>| c@);
    let ht = target_col.len();
    let mask = sample_indices(ht, samples);
    let masked = apply_mask(target_col, &mask);
    let obs = extract_rows(target_col, &mask);
    let ghost mut grecons: Seq<Seq<Val>> = Seq::empty();
    let mut scores: Vec<Val> = Vec::new();
    let mut m: usize = 0;
    while m < 5
        invariant
            methods@.len() == 5,
            forall|z: int| 0 <= z < 5 ==> method_index(#[trigger] methods@[z]) == z,
            seq_wf(target_col@),
            target_col@.len() == ht <= 0x7fffffffffffffff,
            1 <= samples <= ht,
            out_col@.len() == ht,
            seq_wf(out_col@),
            forall|z: int|
                0 <= z < input_cols@.len() ==> (#[trigger] input_cols@[z])@.len() == ht && seq_wf(
                    input_cols@[z]@,
                ),
            gicols == input_cols@.map_values(|c: Vec<Val>| c@),
            iscale.wf(),
            oscale.wf(),
            mask@.len() == samples,
            distinct_indices(mask@),
            forall|j: int| 0 <= j < mask@.len() ==> (#[trigger] mask@[j]) < ht,
            masked@ == masked_of(target_col@, mask@),
            masked@.len() == ht,
            seq_wf(masked@),
            obs@ == rows_at(target_col@, mask@),
            obs@.len() == samples,
            seq_wf(obs@),
            m <= 5,
            grecons.len() == m,
            scores@.len() == 4 * m,
            forall|z: int|
                0 <= z < m ==> recon_ok(
                    z,
                    masked@,
                    gicols,
                    out_col@,
                    iscale,
                    oscale,
                    #[trigger] grecons[z],
                ),
            forall|z: int, e: int|
                0 <= z < m && 0 <= e < 4 ==> metric_result(
                    obs@,
                    rows_at(grecons[z], mask@),
                    metric_key(e),
                    #[trigger] scores@[z * 4 + e],
                ),
        decreases 5 - m,
    {
        let recon = reconstruct(&methods[m], &masked, input_cols, out_col, iscale, oscale);
        let sim = extract_rows(&recon, &mask);
        let v0 = calc_rmse(&obs, &sim);
        let v1 = calc_nrmse(&obs, &sim);
        let v2 = calc_abserr(&obs, &sim);
        let v3 = calc_nse(&obs, &sim);
        let ghost old_scores = scores@;
        scores.push(v0);
        scores.push(v1);
        scores.push(v2);
        scores.push(v3);
        proof {
            reveal_strlit("rmse");
            reveal_strlit("nrmse");
            reveal_strlit("abserr");
            reveal_strlit("nse");
            assert("rmse"@.len() == 4);
            assert("nrmse"@.len() == 5);
            assert("abserr"@.len() == 6);
            assert("nse"@.len() == 3);
            assert(metric_result(obs@, sim@, "rmse"@, v0));
            assert(metric_result(obs@, sim@, "nrmse"@, v1));
            assert(metric_result(obs@, sim@, "abserr"@, v2));
            assert(metric_result(obs@, sim@, "nse"@, v3));
            assert(recon_ok(m as int, masked@, gicols, out_col@, iscale, oscale, recon@));
            grecons = grecons.push(recon@);
            assert(grecons[m as int] == recon@);
            assert(sim@ == rows_at(recon@, mask@));
            assert forall|z: int, e: int|
                0 <= z < m + 1 && 0 <= e < 4 implies metric_result(
                obs@,
                rows_at(grecons[z], mask@),
                metric_key(e),
                #[trigger] scores@[z * 4 + e],
            ) by {
                if z < m {
                    assert(grecons[z] == grecons.drop_last()[z]);
                    assert(scores@[z * 4 + e] == old_scores[z * 4 + e]);
                } else {
                    assert(scores@[z * 4 + e] == scores@[4 * m + e]);
                }
            }
            assert forall|z: int|
                0 <= z < m + 1 implies recon_ok(
                z,
                masked@,
                gicols,
                out_col@,
                iscale,
                oscale,
                #[trigger] grecons[z],
            ) by {
                if z < m {
                    assert(grecons[z] == grecons.drop_last()[z]);
                }
            }
        }
        m = m + 1;
    }
    proof {
        assert(grecons.len() == 5);
        assert(mask@.len() == samples as int);
        assert(trial_scores_ok(
            target_col@,
            gicols,
            out_col@,
            iscale,
            oscale,
            samples as int,
            scores@,
        ));
        assert forall|i: int| 0 <= i < scores@.len() implies (#[trigger] scores@[i]).wf() by {
            let z = i / 4;
            let e = i % 4;
            assert(0 <= z < 5 && 0 <= e < 4 && i == z * 4 + e);
            assert(metric_result(obs@, rows_at(grecons[z], mask@), metric_key(e), scores@[z * 4
                + e]));
        }
    }
    scores
}

} // verus!
