//! Tests of the gap-simulation, fill, and scoring engine.

use datafill::errors::DataFillError;
use datafill::experiment::{
    datafill_experiment, experiments_csv_header, experiments_csv_rows, series_name, sum_vals,
    ExperimentConfig, ExperimentOutcome,
};
use datafill::fancy::FancyPrint;
use datafill::fill::{
    backward_fill, forward_fill, input_ratio_fill, linear_interpolate, output_ratio_fill,
    reconstruct, DataFillMethod,
};
use datafill::mask::{apply_mask, extract_rows, sample_indices};
use datafill::metrics::{calc_abserr, calc_error, calc_errors, calc_nrmse, calc_nse, calc_rmse};
use datafill::rational::{val_add, val_div, val_mul, val_sub, Rat, Val};
use datafill::table::{build_table, RawSeries};
use datafill::text::{join_strings, sanitize_key, str_eq, u64_to_string};

fn num(n: i64) -> Val {
    Val::Num(Rat { num: n, den: 1 })
}

fn rat(n: i64, d: i64) -> Val {
    Val::Num(Rat { num: n, den: d })
}

fn ints(vs: &[i64]) -> Vec<Val> {
    vs.iter().map(|v| num(*v)).collect()
}

#[test]
fn rational_arithmetic_is_exact() {
    assert_eq!(val_add(rat(1, 2), rat(1, 3)), rat(5, 6));
    assert_eq!(val_sub(num(3), rat(1, 2)), rat(5, 2));
    assert_eq!(val_mul(rat(2, 3), rat(3, 4)), rat(1, 2));
    assert_eq!(val_div(num(4), num(6)), rat(2, 3));
}

#[test]
fn division_by_zero_is_missing() {
    assert_eq!(val_div(num(1), num(0)), Val::NaN);
    assert_eq!(val_div(Val::NaN, num(2)), Val::NaN);
    assert_eq!(val_add(num(1), Val::NaN), Val::NaN);
}

#[test]
fn overflow_is_reported_as_missing() {
    let huge = num(i64::MAX);
    assert_eq!(val_mul(huge, huge), Val::NaN);
    assert_eq!(val_add(huge, huge), Val::NaN);
}

#[test]
fn rmse_exact_value() {
    let obs = ints(&[1, 2, 3]);
    let sim = ints(&[1, 2, 5]);
    // mse = 4/3; the ceiling square root on the thirds grid is 4/3
    assert_eq!(calc_rmse(&obs, &sim), rat(4, 3));
}

#[test]
fn abserr_exact_value() {
    let obs = ints(&[1, 2, 3]);
    let sim = ints(&[1, 2, 5]);
    assert_eq!(calc_abserr(&obs, &sim), rat(2, 3));
}

#[test]
fn nse_exact_value() {
    let obs = ints(&[1, 2, 3]);
    let sim = ints(&[1, 2, 5]);
    // 1 - 3*4 / (3*14 - 36) = 1 - 2 = -1
    assert_eq!(calc_nse(&obs, &sim), num(-1));
}

#[test]
fn nrmse_exact_value() {
    let obs = ints(&[1, 2, 3]);
    let sim = ints(&[1, 2, 5]);
    // rmse 4/3 divided by the mean 2
    assert_eq!(calc_nrmse(&obs, &sim), rat(2, 3));
}

#[test]
fn nse_is_one_exactly_on_equal_sequences() {
    let obs = ints(&[1, 5, 2, 9]);
    let sim = ints(&[1, 5, 2, 9]);
    assert_eq!(calc_nse(&obs, &sim), num(1));
    let sim2 = ints(&[1, 5, 2, 8]);
    assert_ne!(calc_nse(&obs, &sim2), num(1));
}

#[test]
fn nrmse_degenerates_on_zero_mean() {
    let obs = ints(&[-1, 1]);
    let sim = ints(&[0, 0]);
    assert_eq!(calc_nrmse(&obs, &sim), Val::NaN);
}

#[test]
fn nse_degenerates_on_constant_truth() {
    let obs = ints(&[5, 5, 5]);
    let sim = ints(&[4, 5, 6]);
    assert_eq!(calc_nse(&obs, &sim), Val::NaN);
}

#[test]
fn metrics_on_empty_pairs_are_missing() {
    let obs = vec![Val::NaN, num(2)];
    let sim = vec![num(1), Val::NaN];
    assert_eq!(calc_rmse(&obs, &sim), Val::NaN);
    assert_eq!(calc_abserr(&obs, &sim), Val::NaN);
    assert_eq!(calc_nse(&obs, &sim), Val::NaN);
    assert_eq!(calc_nrmse(&obs, &sim), Val::NaN);
}

#[test]
fn pairwise_masking_removes_exactly_one_pair() {
    let obs = ints(&[1, 2, 3, 4]);
    let sim = ints(&[1, 3, 3, 5]);
    // mask index 1 on the reconstruction side
    let mut sim_masked = sim.clone();
    sim_masked[1] = Val::NaN;
    let obs_removed = ints(&[1, 3, 4]);
    let sim_removed = ints(&[1, 3, 5]);
    assert_eq!(calc_rmse(&obs, &sim_masked), calc_rmse(&obs_removed, &sim_removed));
    assert_eq!(calc_abserr(&obs, &sim_masked), calc_abserr(&obs_removed, &sim_removed));
    assert_eq!(calc_nse(&obs, &sim_masked), calc_nse(&obs_removed, &sim_removed));
    assert_eq!(calc_nrmse(&obs, &sim_masked), calc_nrmse(&obs_removed, &sim_removed));
    // mask index 1 on the ground-truth side instead
    let mut obs_masked = obs.clone();
    obs_masked[1] = Val::NaN;
    assert_eq!(calc_rmse(&obs_masked, &sim), calc_rmse(&obs_removed, &sim_removed));
    assert_eq!(calc_nse(&obs_masked, &sim), calc_nse(&obs_removed, &sim_removed));
}

#[test]
fn unknown_metric_is_rejected() {
    let obs = ints(&[1, 2]);
    let sim = ints(&[1, 2]);
    let r = calc_error(&obs, &sim, "mape");
    assert!(matches!(r, Err(DataFillError::UnknownMetric(ref s)) if s == "mape"));
    assert!(calc_error(&obs, &sim, "rmse").is_ok());
    assert!(calc_error(&obs, &sim, "nrmse").is_ok());
    assert!(calc_error(&obs, &sim, "abserr").is_ok());
    assert!(calc_error(&obs, &sim, "nse").is_ok());
}

#[test]
fn calc_errors_scores_every_named_metric() {
    let obs = ints(&[1, 2, 3]);
    let sim = ints(&[1, 2, 5]);
    let names = vec!["rmse".to_string(), "abserr".to_string()];
    let r = calc_errors(&obs, &sim, &names).unwrap();
    assert_eq!(r, vec![rat(4, 3), rat(2, 3)]);
    let bad = vec!["rmse".to_string(), "mape".to_string()];
    assert!(matches!(calc_errors(&obs, &sim, &bad), Err(DataFillError::UnknownMetric(_))));
}

#[test]
fn temporal_fills_are_idempotent_on_complete_columns() {
    let col = ints(&[3, 1, 4, 1, 5]);
    assert_eq!(forward_fill(&col), col);
    assert_eq!(backward_fill(&col), col);
    assert_eq!(linear_interpolate(&col), col);
}

#[test]
fn forward_fill_uses_nearest_prior_value() {
    let col = vec![Val::NaN, num(2), Val::NaN, Val::NaN, num(7), Val::NaN];
    let filled = forward_fill(&col);
    assert_eq!(filled, vec![Val::NaN, num(2), num(2), num(2), num(7), num(7)]);
}

#[test]
fn backward_fill_uses_nearest_following_value() {
    let col = vec![Val::NaN, num(2), Val::NaN, Val::NaN, num(7), Val::NaN];
    let filled = backward_fill(&col);
    assert_eq!(filled, vec![num(2), num(2), num(7), num(7), num(7), Val::NaN]);
}

#[test]
fn linear_interpolation_is_exact_between_neighbours() {
    let col = vec![num(1), Val::NaN, Val::NaN, num(7), Val::NaN];
    let filled = linear_interpolate(&col);
    assert_eq!(filled[0], num(1));
    assert_eq!(filled[1], num(3));
    assert_eq!(filled[2], num(5));
    assert_eq!(filled[3], num(7));
    // no following value: stays missing
    assert_eq!(filled[4], Val::NaN);
}

#[test]
fn input_ratio_scales_the_sibling_sum() {
    let masked = vec![num(10), Val::NaN];
    let inputs = vec![ints(&[4, 6]), ints(&[2, 4])];
    // val = 5, ival = 10: scale 1/2
    let scale = val_div(num(5), num(10));
    let filled = input_ratio_fill(&masked, &inputs, scale);
    assert_eq!(filled[0], num(10));
    assert_eq!(filled[1], num(5));
}

#[test]
fn output_ratio_scales_the_output_column() {
    let masked = vec![Val::NaN, num(3)];
    let out_col = ints(&[8, 12]);
    let scale = val_div(num(1), num(2));
    let filled = output_ratio_fill(&masked, &out_col, scale);
    assert_eq!(filled[0], num(4));
    assert_eq!(filled[1], num(3));
}

#[test]
fn zero_input_ratio_denominator_gives_missing_scores() {
    // ival = 0 makes the scale missing, so every masked row stays
    // missing and the scores must be missing, never a finite number
    let masked = vec![num(1), Val::NaN, num(3), Val::NaN];
    let truth = ints(&[1, 2, 3, 4]);
    let inputs = vec![ints(&[1, 1, 1, 1])];
    let scale = val_div(num(5), num(0));
    assert_eq!(scale, Val::NaN);
    let filled = input_ratio_fill(&masked, &inputs, scale);
    assert_eq!(filled[1], Val::NaN);
    assert_eq!(filled[3], Val::NaN);
    let mask = vec![1usize, 3usize];
    let obs = extract_rows(&truth, &mask);
    let sim = extract_rows(&filled, &mask);
    assert_eq!(calc_rmse(&obs, &sim), Val::NaN);
    assert_eq!(calc_nrmse(&obs, &sim), Val::NaN);
    assert_eq!(calc_nse(&obs, &sim), Val::NaN);
}

#[test]
fn linear_reconstruction_of_linear_data_is_perfect() {
    // ten timestamps, target 1..=10, three withheld rows: a linear
    // sequence is reconstructed exactly, so RMSE=0, AbsErr=0, NSE=1
    let truth = ints(&[1, 2, 3, 4, 5, 6, 7, 8, 9, 10]);
    let mask = vec![2usize, 5usize, 7usize];
    let masked = apply_mask(&truth, &mask);
    assert_eq!(masked[2], Val::NaN);
    assert_eq!(masked[5], Val::NaN);
    assert_eq!(masked[0], num(1));
    let recon = linear_interpolate(&masked);
    let obs = extract_rows(&truth, &mask);
    let sim = extract_rows(&recon, &mask);
    assert_eq!(sim, obs);
    assert_eq!(calc_rmse(&obs, &sim), rat(0, 1));
    assert_eq!(calc_abserr(&obs, &sim), rat(0, 1));
    assert_eq!(calc_nse(&obs, &sim), num(1));
}

#[test]
fn withheld_mask_has_exact_size_and_distinct_indices() {
    for _ in 0..10 {
        let mask = sample_indices(50, 10);
        assert_eq!(mask.len(), 10);
        for &i in mask.iter() {
            assert!(i < 50);
        }
        let mut seen = vec![false; 50];
        for &i in mask.iter() {
            assert!(!seen[i]);
            seen[i] = true;
        }
    }
    // two draws have identical size whatever the randomness does
    let a = sample_indices(200, 100);
    let b = sample_indices(200, 100);
    assert_eq!(a.len(), b.len());
}

#[test]
fn method_parsing_recognizes_the_closed_strategy_set() {
    assert!(matches!(DataFillMethod::try_from_attr("forward"), Ok(DataFillMethod::ForwardFill)));
    assert!(matches!(DataFillMethod::try_from_attr("backward"), Ok(DataFillMethod::BackwardFill)));
    assert!(matches!(
        DataFillMethod::try_from_attr("linear"),
        Ok(DataFillMethod::LinearInterpolate)
    ));
    assert!(matches!(
        DataFillMethod::try_from_attr("iratio:area"),
        Ok(DataFillMethod::InputRatio(ref s)) if s == "area"
    ));
    assert!(matches!(
        DataFillMethod::try_from_attr("input_ratio:area"),
        Ok(DataFillMethod::InputRatio(ref s)) if s == "area"
    ));
    assert!(matches!(
        DataFillMethod::try_from_attr("oratio:flow"),
        Ok(DataFillMethod::OutputRatio(ref s)) if s == "flow"
    ));
    // a ratio strategy needs its attribute; the others refuse one
    assert!(matches!(
        DataFillMethod::try_from_attr("iratio"),
        Err(DataFillError::UnknownStrategy(_))
    ));
    assert!(matches!(
        DataFillMethod::try_from_attr("forward:x"),
        Err(DataFillError::UnknownStrategy(_))
    ));
    assert!(matches!(
        DataFillMethod::try_from_attr("nearest"),
        Err(DataFillError::UnknownStrategy(_))
    ));
}

#[test]
fn series_validation_rejects_malformed_input() {
    let good = RawSeries { name: "a".to_string(), times: vec![1, 2, 3], values: ints(&[1, 2, 3]) };
    assert!(good.validate().is_ok());
    let short = RawSeries { name: "a".to_string(), times: vec![1, 2], values: ints(&[1]) };
    assert!(matches!(short.validate(), Err(DataFillError::Data(_))));
    let unsorted =
        RawSeries { name: "a".to_string(), times: vec![2, 1], values: ints(&[1, 2]) };
    assert!(matches!(unsorted.validate(), Err(DataFillError::Data(_))));
}

#[test]
fn table_join_keeps_shared_numeric_rows() {
    let target = RawSeries {
        name: "t".to_string(),
        times: vec![1, 2, 3, 4],
        values: vec![num(10), num(20), Val::NaN, num(40)],
    };
    let n1 = RawSeries {
        name: "u".to_string(),
        times: vec![2, 3, 4, 5],
        values: ints(&[200, 300, 400, 500]),
    };
    let table = build_table(&target, &vec![n1]);
    // timestamp 1 is absent upstream, 3 is missing at the target
    assert_eq!(table.times, vec![2, 4]);
    assert_eq!(table.names.len(), 2);
    assert_eq!(table.cols[0], vec![num(20), num(40)]);
    assert_eq!(table.cols[1], vec![num(200), num(400)]);
}

#[test]
fn experiment_is_skipped_without_enough_rows() {
    let target =
        RawSeries { name: "t".to_string(), times: vec![1, 2, 3], values: ints(&[1, 2, 3]) };
    let r = datafill_experiment(
        &target,
        &Vec::new(),
        &None,
        num(1),
        num(1),
        num(1),
        "area",
        "pfx",
        2,
        100,
    );
    assert!(matches!(r, ExperimentOutcome::Skipped { rows: 3, required: 100 }));
}

#[test]
fn experiment_completes_exactly_when_samples_fit() {
    // five joined rows: five withheld samples complete, six skip
    let target =
        RawSeries { name: "t".to_string(), times: vec![1, 2, 3, 4, 5], values: ints(&[1, 2, 3, 4, 5]) };
    let done = datafill_experiment(
        &target,
        &Vec::new(),
        &None,
        num(1),
        num(1),
        num(1),
        "area",
        "pfx",
        1,
        5,
    );
    assert!(matches!(done, ExperimentOutcome::Completed(_)));
    let skipped = datafill_experiment(
        &target,
        &Vec::new(),
        &None,
        num(1),
        num(1),
        num(1),
        "area",
        "pfx",
        1,
        6,
    );
    assert!(matches!(skipped, ExperimentOutcome::Skipped { rows: 5, required: 6 }));
}

#[test]
fn experiment_emits_every_strategy_metric_series() {
    let times: Vec<i64> = (0..20).collect();
    let vals = ints(&[1, 2, 3, 4, 5, 6, 7, 8, 9, 10, 11, 12, 13, 14, 15, 16, 17, 18, 19, 20]);
    let target = RawSeries { name: "t".to_string(), times: times.clone(), values: vals.clone() };
    let input = RawSeries { name: "u".to_string(), times: times.clone(), values: vals.clone() };
    let output = RawSeries { name: "o".to_string(), times, values: vals };
    let r = datafill_experiment(
        &target,
        &vec![input],
        &Some(output),
        num(2),
        num(1),
        num(4),
        "area",
        "pfx",
        3,
        5,
    );
    let series = match r {
        ExperimentOutcome::Completed(s) => s,
        _ => panic!("experiment should complete"),
    };
    assert_eq!(series.len(), 20);
    let names: Vec<&str> = series.iter().map(|(n, _)| n.as_str()).collect();
    assert_eq!(names[0], "pfx_forward_rmse");
    assert_eq!(names[1], "pfx_forward_nrmse");
    assert_eq!(names[2], "pfx_forward_abserr");
    assert_eq!(names[3], "pfx_forward_nse");
    assert_eq!(names[4], "pfx_backward_rmse");
    assert_eq!(names[8], "pfx_linear_rmse");
    assert_eq!(names[12], "pfx_iratio_rmse");
    assert_eq!(names[19], "pfx_oratio_nse");
    for (_, vals) in series.iter() {
        assert_eq!(vals.len(), 3);
    }
}

#[test]
fn sum_vals_adds_exactly_and_propagates_missing() {
    assert_eq!(sum_vals(&ints(&[1, 2, 3])), num(6));
    assert_eq!(sum_vals(&vec![num(1), Val::NaN]), Val::NaN);
    assert_eq!(sum_vals(&Vec::new()), rat(0, 1));
}

#[test]
fn experiment_config_defaults() {
    let c = ExperimentConfig::default();
    assert_eq!(c.experiments, 10);
    assert_eq!(c.samples, 100);
}

#[test]
fn text_helpers() {
    assert!(str_eq("abc", "abc"));
    assert!(!str_eq("abc", "abd"));
    assert!(!str_eq("abc", "ab"));
    assert_eq!(sanitize_key("Year Completed"), "Year_Completed");
    assert_eq!(sanitize_key("plain"), "plain");
    assert_eq!(u64_to_string(0), "0");
    assert_eq!(u64_to_string(1234), "1234");
    assert_eq!(
        join_strings(&vec!["a".to_string(), "b".to_string(), "c".to_string()], ","),
        "a,b,c"
    );
    assert_eq!(join_strings(&Vec::new(), ","), "");
}

#[test]
fn series_names_are_deterministic() {
    assert_eq!(series_name("pfx", "linear", "rmse"), "pfx_linear_rmse");
}

#[test]
fn csv_header_and_rows() {
    let attrs = vec!["basin".to_string()];
    let errs = vec!["rmse".to_string(), "nse".to_string()];
    assert_eq!(experiments_csv_header(&attrs, &errs), "basin,experiment,method,rmse,nse");
    let rows = experiments_csv_rows(
        &attrs,
        "linear",
        &vec![
            vec!["0.5".to_string(), "0.25".to_string()],
            vec!["1".to_string(), "0.9".to_string()],
        ],
    )
    .unwrap();
    assert_eq!(rows, vec!["basin,0,linear,0.5,1", "basin,1,linear,0.25,0.9"]);
    let bad = experiments_csv_rows(
        &attrs,
        "linear",
        &vec![vec!["0.5".to_string()], vec![]],
    );
    assert!(matches!(bad, Err(DataFillError::Data(_))));
}

#[test]
fn fancy_print_renders_the_listing() {
    let fp = FancyPrint;
    assert_eq!(fp.name(), "fancy_print");
    assert_eq!(fp.args().len(), 0);
    let nodes = vec![
        ("upstream".to_string(), Some("outlet".to_string())),
        ("outlet".to_string(), None),
    ];
    let lines = fp.format_network(&nodes);
    assert_eq!(lines, vec!["[0] upstream -> outlet", "[1] outlet"]);
}

#[test]
fn reconstruct_dispatches_on_the_method() {
    let masked = vec![num(1), Val::NaN, num(5)];
    let inputs = vec![ints(&[2, 4, 6])];
    let out_col = ints(&[10, 20, 30]);
    let half = val_div(num(1), num(2));
    let r = reconstruct(&DataFillMethod::ForwardFill, &masked, &inputs, &out_col, half, half);
    assert_eq!(r, vec![num(1), num(1), num(5)]);
    let r = reconstruct(&DataFillMethod::BackwardFill, &masked, &inputs, &out_col, half, half);
    assert_eq!(r, vec![num(1), num(5), num(5)]);
    let r =
        reconstruct(&DataFillMethod::LinearInterpolate, &masked, &inputs, &out_col, half, half);
    assert_eq!(r, vec![num(1), num(3), num(5)]);
    let r = reconstruct(
        &DataFillMethod::InputRatio("area".to_string()),
        &masked,
        &inputs,
        &out_col,
        half,
        half,
    );
    assert_eq!(r, vec![num(1), num(2), num(5)]);
    let r = reconstruct(
        &DataFillMethod::OutputRatio("area".to_string()),
        &masked,
        &inputs,
        &out_col,
        half,
        half,
    );
    assert_eq!(r, vec![num(1), num(10), num(5)]);
}

#[test]
fn csv_rows_without_metrics_keep_the_attribute_row() {
    let rows = experiments_csv_rows(&vec!["basin".to_string()], "linear", &Vec::new()).unwrap();
    assert_eq!(rows, vec!["basin"]);
}

#[test]
fn error_messages_name_the_problem() {
    let e = DataFillError::UnknownMetric("mape".to_string());
    assert_eq!(e.message(), "unknown error metric: mape");
    let e = DataFillError::InsufficientData { rows: 3, required: 100 };
    assert_eq!(e.message(), "insufficient data: 3 rows, 100 required");
    let e = DataFillError::UnknownStrategy("nearest".to_string());
    assert_eq!(e.message(), "unknown data fill strategy: nearest");
    let e = DataFillError::Data("bad column".to_string());
    assert_eq!(e.message(), "data error: bad column");
}
