use saccade::commands::evaluate::{
    bin_series, evaluate, normalize_timestamps, plan_evaluation, plan_event, sort_by_key,
    zero_coverage_count, EventPlan,
};
use saccade::commands::report::{print_json, print_text, EventReport, Report};
use saccade::perfetto::reader::RateSeries;
use saccade::perfetto::trace::{PerfettoWriter, RawSeries, ThreadInfo};
use saccade::perfetto_trace::{CounterState, PerfettoWriter as CounterWriter};
use std::collections::HashMap;

fn bits(points: &[(u64, f64)]) -> Vec<(u64, u64)> {
    points.iter().map(|&(t, r)| (t, r.to_bits())).collect()
}

fn mean(values: &[u64]) -> f64 {
    values.iter().map(|&v| f64::from_bits(v)).sum::<f64>() / values.len() as f64
}

fn bin_avg(points: &[(u64, f64)], width: u64) -> HashMap<u64, f64> {
    bin_series(&bits(points), width)
        .iter()
        .map(|b| (b.index, mean(&b.values)))
        .collect()
}

fn single_series(rate: f64, bins: &[u64], bin_width_ns: u64) -> Vec<(u64, f64)> {
    bins.iter()
        .map(|&b| (b * bin_width_ns + bin_width_ns / 2, rate))
        .collect()
}

fn series(name: &str, tid: u32, points: &[(u64, f64)]) -> RateSeries {
    RateSeries {
        event_name: name.to_string(),
        tid,
        points: bits(points),
    }
}

fn planned(gt: &[(u64, f64)], est: &[(u64, f64)], width: u64) -> EventPlan {
    plan_event(
        &series("e", 1, gt),
        &vec![series("e", 1, est)],
        &Vec::new(),
        width,
    )
}

fn nrmse(plan: &EventPlan) -> Option<f64> {
    let gt: Vec<f64> = plan.gt.iter().map(|b| mean(&b.values)).collect();
    let mean_gt = gt.iter().sum::<f64>() / gt.len() as f64;
    if plan.scored.is_empty() || mean_gt <= 0.0 {
        return None;
    }
    let sum: f64 = plan
        .scored
        .iter()
        .map(|s| {
            let est = s.est.map(|i| mean(&plan.est[i].values)).unwrap_or(0.0);
            let err = (est - gt[s.gt]) / mean_gt;
            err * err
        })
        .sum();
    Some((sum / plan.scored.len() as f64).sqrt())
}

#[test]
fn bin_avg_averages_within_bin() {
    let points = vec![(0u64, 1.0f64), (50_000_000, 3.0)];
    let bins = bin_avg(&points, 100_000_000);
    assert_eq!(bins.len(), 1);
    assert!((bins[&0] - 2.0).abs() < 1e-12);
}

#[test]
fn bin_avg_separates_bins() {
    let points = vec![(50_000_000u64, 1.0f64), (150_000_000, 5.0)];
    let bins = bin_avg(&points, 100_000_000);
    assert_eq!(bins.len(), 2);
    assert!((bins[&0] - 1.0).abs() < 1e-12);
    assert!((bins[&1] - 5.0).abs() < 1e-12);
}

#[test]
fn coverage_full_when_all_bins_covered() {
    let bw = 100_000_000u64;
    let gt_pts = single_series(1.0, &[0, 1, 2], bw);
    let est_pts = single_series(1.0, &[0, 1, 2], bw);
    let plan = planned(&gt_pts, &est_pts, bw);
    assert_eq!(plan.covered as f64 / plan.gt.len() as f64, 1.0);
}

#[test]
fn coverage_zero_nrmse_is_none_when_no_est_bins() {
    let bw = 100_000_000u64;
    let gt_pts = single_series(1.0, &[0, 1, 2], bw);
    let plan = planned(&gt_pts, &[], bw);
    assert!(plan.est.is_empty(), "est_bins should be empty");
    assert_eq!(plan.covered, 0);
    assert!(
        nrmse(&plan).is_none(),
        "nrmse should be None when est_bins is empty"
    );
}

#[test]
fn nrmse_zero_when_exact_match() {
    let bw = 100_000_000u64;
    let pts = single_series(2.5e-6, &[0, 1, 2], bw);
    let plan = planned(&pts, &pts, bw);
    assert_eq!(plan.scored.len(), 3);
    assert!(nrmse(&plan).unwrap() < 1e-20);
}

#[test]
fn nrmse_excludes_pre_first_observation_bins() {
    let bw = 100_000_000u64;
    let gt_pts = single_series(1.0, &[0, 1, 2], bw);
    let est_pts = single_series(1.0, &[1, 2], bw);
    let plan = planned(&gt_pts, &est_pts, bw);
    let first_est_bin = plan.est.iter().map(|b| b.index).min().unwrap();
    assert_eq!(first_est_bin, 1, "first estimated bin should be 1");
    assert_eq!(plan.scored.len(), 2);
    let coverage = plan.covered as f64 / plan.gt.len() as f64;
    assert!(
        nrmse(&plan).unwrap() < 1e-12,
        "nrmse should be 0 for exact match within scored window"
    );
    assert!((coverage - 2.0 / 3.0).abs() < 1e-12, "coverage=2/3");
}

#[test]
fn nrmse_penalizes_uncovered_bins_within_scored_window() {
    let bw = 100_000_000u64;
    let gt_pts = single_series(1.0, &[0, 1, 2], bw);
    let est_pts = single_series(1.0, &[1], bw);
    let plan = planned(&gt_pts, &est_pts, bw);
    let nrmse = nrmse(&plan).unwrap();
    assert!((nrmse - 0.5f64.sqrt()).abs() < 1e-10, "nrmse={nrmse}");
}

#[test]
fn nrmse_dimensionless_across_magnitudes() {
    let bw = 100_000_000u64;
    for &rate in &[1.0f64, 1e-4] {
        let gt_pts = single_series(rate, &[0, 1, 2], bw);
        let est_pts = single_series(rate * 2.0, &[0, 1, 2], bw);
        let nrmse = nrmse(&planned(&gt_pts, &est_pts, bw)).unwrap();
        assert!((nrmse - 1.0).abs() < 1e-12, "nrmse={nrmse}");
    }
}

#[test]
fn normalize_timestamps_shifts_to_zero() {
    let mut list = vec![series("e", 0, &[(1_000_000_000, 1.0), (2_000_000_000, 2.0)])];
    normalize_timestamps(&mut list);
    assert_eq!(list[0].points[0].0, 0);
    assert_eq!(list[0].points[1].0, 1_000_000_000);
}

#[test]
fn normalize_timestamps_noop_when_already_zero() {
    let mut list = vec![series("e", 0, &[(0, 1.0), (1_000_000_000, 2.0)])];
    normalize_timestamps(&mut list);
    assert_eq!(list[0].points[0].0, 0);
    assert_eq!(list[0].points[1].0, 1_000_000_000);
}

#[test]
fn normalize_timestamps_aligns_multi_series() {
    let mut list = vec![
        series("e", 0, &[(500_000_000, 1.0), (1_500_000_000, 2.0)]),
        series("e", 1, &[(1_000_000_000, 3.0), (2_000_000_000, 4.0)]),
    ];
    normalize_timestamps(&mut list);
    assert_eq!(list[0].points[0].0, 0);
    assert_eq!(list[0].points[1].0, 1_000_000_000);
    assert_eq!(list[1].points[0].0, 500_000_000);
    assert_eq!(list[1].points[1].0, 1_500_000_000);
}

#[test]
fn misaligned_timestamps_produce_nonzero_coverage() {
    let bw = 100_000_000u64;
    let offset = 1_000_000_000_000u64;
    let mut gt = vec![series(
        "e",
        0,
        &[
            (offset + bw / 2, 1.0),
            (offset + bw + bw / 2, 1.0),
            (offset + 2 * bw + bw / 2, 1.0),
        ],
    )];
    let mut est = vec![series(
        "e",
        0,
        &[(bw / 2, 1.0), (bw + bw / 2, 1.0), (2 * bw + bw / 2, 1.0)],
    )];
    normalize_timestamps(&mut gt);
    normalize_timestamps(&mut est);
    let plan = plan_event(&gt[0], &est, &Vec::new(), bw);
    assert_eq!(
        plan.covered, 3,
        "all GT bins should be covered after normalization"
    );
}

#[test]
fn keys_go_by_name_and_then_by_thread() {
    let list = vec![
        series("b", 1, &[]),
        series("a", 7, &[]),
        series("aa", 0, &[]),
        series("a", 2, &[]),
    ];
    assert_eq!(sort_by_key(&list), vec![3, 1, 2, 0]);
}

#[test]
fn spurious_tracks_are_listed_and_empty_ones_skipped() {
    let gt = vec![series("x", 1, &[(0, 1.0)]), series("empty", 1, &[])];
    let est = vec![
        series("z", 2, &[(0, 1.0)]),
        series("y", 9, &[(0, 1.0)]),
        series("x", 1, &[(0, 1.0)]),
    ];
    let r = plan_evaluation(&gt, &est, &Vec::new(), 100);
    assert_eq!(r.spurious.len(), 2);
    assert_eq!(r.spurious[0].event_name, "y");
    assert_eq!(r.spurious[1].event_name, "z");
    assert_eq!(r.plans.len(), 1);
    assert_eq!(r.plans[0].event_name, "x");
    assert_eq!(zero_coverage_count(&r.plans), 0);
}

#[test]
fn uncertainty_bins_stand_beside_scored_ones() {
    let bw = 100_000_000u64;
    let plan = plan_event(
        &series("e", 1, &single_series(1.0, &[0, 1], bw)),
        &vec![series("e", 1, &single_series(1.0, &[0], bw))],
        &vec![series("e", 1, &single_series(0.25, &[1], bw))],
        bw,
    );
    assert_eq!(plan.scored.len(), 2);
    let mut by_bin: Vec<(u64, bool, bool)> = plan
        .scored
        .iter()
        .map(|s| (plan.gt[s.gt].index, s.est.is_some(), s.unc.is_some()))
        .collect();
    by_bin.sort();
    assert_eq!(by_bin, vec![(0, true, false), (1, false, true)]);
}

fn trace_of(points: &[(u64, f64)]) -> Vec<u8> {
    let mut w = PerfettoWriter::new(vec!["cycles".to_string()]);
    let mut meta = HashMap::new();
    meta.insert(
        5,
        ThreadInfo {
            tgid: 5,
            task: "main".to_string(),
        },
    );
    let raw = vec![RawSeries {
        event_id: 0,
        tid: 5,
        points: bits(points),
    }];
    assert!(w.write_raw_series(&raw, &meta).is_ok());
    w.take_bytes()
}

#[test]
fn traces_are_compared_from_their_own_start() {
    let ms = 1_000_000u64;
    let gt = trace_of(&[(500 * ms, 1.0), (650 * ms, 2.0)]);
    let est = trace_of(&[(0, 1.0)]);
    let r = evaluate(&gt, &est, 100).ok().unwrap();
    assert_eq!(r.plans.len(), 1);
    assert_eq!(r.plans[0].event_name, "cycles");
    assert_eq!(r.plans[0].tid, 5);
    assert_eq!(r.plans[0].gt.len(), 2);
    assert_eq!(r.plans[0].covered, 1);
    assert_eq!(r.plans[0].scored.len(), 2);
    assert!(evaluate(&[0x0B], &est, 100).is_err());
}

fn estimated_trace(points: &[(u64, f64, f64)]) -> Vec<u8> {
    let mut w = CounterWriter::new(vec!["cycles".to_string()]);
    assert!(w.register_tracks().is_ok());
    for &(timestamp_ns, rate, uncertainty) in points {
        let counters = vec![CounterState {
            rate: rate.to_bits(),
            uncertainty: uncertainty.to_bits(),
            sample_count: 1,
        }];
        assert!(w.emit_step(timestamp_ns, &counters).is_ok());
    }
    w.take_bytes()
}

#[test]
fn uncertainty_is_read_and_binned() {
    let ms = 1_000_000u64;
    let gt = estimated_trace(&[(0, 1.0, 0.5), (150 * ms, 2.0, 0.5), (250 * ms, 4.0, 0.5)]);
    let est = estimated_trace(&[(700 * ms, 1.1, 0.25), (850 * ms, 3.0, 0.125)]);
    let r = evaluate(&gt, &est, 100).ok().unwrap();
    assert_eq!(r.plans.len(), 1);
    let plan = &r.plans[0];
    assert_eq!((plan.event_name.as_str(), plan.tid), ("cycles", 0));
    assert_eq!(plan.covered, 2);
    let mut unc: Vec<(u64, f64)> = plan
        .unc
        .iter()
        .map(|b| (b.index, mean(&b.values)))
        .collect();
    unc.sort_by_key(|b| b.0);
    assert_eq!(unc, vec![(0, 0.25), (1, 0.125)]);
    let in_band = plan
        .scored
        .iter()
        .filter(|s| {
            let gt_rate = mean(&plan.gt[s.gt].values);
            let est_rate = s.est.map_or(0.0, |i| mean(&plan.est[i].values));
            let u = s.unc.map_or(1.0, |i| mean(&plan.unc[i].values));
            gt_rate >= est_rate * (1.0 - u) && gt_rate <= est_rate * (1.0 + u)
        })
        .count();
    assert_eq!((in_band, plan.scored.len()), (1, 3));
}

fn event_report(full: bool) -> EventReport {
    EventReport {
        event_name: "ev\"1".to_string(),
        tid: 42,
        nrmse: if full { Some("1.000e0".to_string()) } else { None },
        coverage: "50.0".to_string(),
        mean_gt_rate: "2.000e-3".to_string(),
        calibration: if full { Some("75.0".to_string()) } else { None },
        gt_cv: if full { Some("1.500e-1".to_string()) } else { None },
    }
}

fn report(full: bool) -> Report {
    Report {
        ground_truth: "gt.perfetto".to_string(),
        estimated: "est.perfetto".to_string(),
        bin_ms: 100,
        events: vec![event_report(full), event_report(full)],
        mean_nrmse: if full { Some("1.000e0".to_string()) } else { None },
        zero_coverage_count: if full { 0 } else { 2 },
        mean_coverage: if full { Some("50.0".to_string()) } else { None },
        mean_calibration: if full { Some("75.0".to_string()) } else { None },
    }
}

#[test]
fn text_report_lines_up() {
    let text = print_text(&report(true));
    let lines: Vec<&str> = text.lines().collect();
    assert_eq!(lines[0], "Evaluation Report");
    assert_eq!(lines[4], "Bin width:    100 ms");
    assert_eq!(
        lines[6],
        format!(
            "{:<32} {:>5}  {:<12}  {:<16}  Coverage  Calibration  GT-CV",
            "Event", "TID", "nRMSE", "Mean GT (ev/ns)"
        )
    );
    assert_eq!(lines[7], "-".repeat(100));
    assert_eq!(
        lines[8],
        format!(
            "{:<32} {:>5}  {:<12}  {:<16}  {}%      {:<13}  {:<10}",
            "ev\"1", 42, "1.000e0", "2.000e-3", "50.0", "75.0%", "1.500e-1"
        )
    );
    assert_eq!(
        lines[11],
        "Mean nRMSE (headline):         1.000e0  [lower is better; 0=perfect, >=1=null scheduler]"
    );
    assert_eq!(lines[12], "Mean coverage:                 50.0%");
    assert_eq!(lines[13], "Mean calibration:              75.0%");
    assert_eq!(lines.len(), 14);
}

#[test]
fn text_report_marks_what_is_missing() {
    let text = print_text(&report(false));
    let lines: Vec<&str> = text.lines().collect();
    assert_eq!(
        lines[8],
        format!(
            "{:<32} {:>5}  {:<12}  {:<16}  {}%      {:<13}  {:<10}",
            "ev\"1", 42, "—", "2.000e-3", "50.0", "—", "—"
        )
    );
    assert_eq!(lines[11], "Mean nRMSE (headline):         N/A");
    assert_eq!(
        lines[12],
        "Mean coverage:                 N/A  [2 event(s) with zero coverage]"
    );
}

#[test]
fn json_report_is_valid_json() {
    let value: serde_json::Value = serde_json::from_str(&print_json(&report(false))).unwrap();
    assert_eq!(value["ground_truth"], "gt.perfetto");
    assert_eq!(value["bin_width_ms"], 100);
    assert_eq!(value["per_event"].as_array().unwrap().len(), 2);
    assert_eq!(value["per_event"][0]["event"], "ev\"1");
    assert!(value["per_event"][1]["nrmse"].is_null());
    assert!(value["mean_calibration"].is_null());
    assert_eq!(value["events_with_zero_coverage"], 2);
    let empty = Report {
        events: Vec::new(),
        ..report(true)
    };
    let text = print_json(&empty);
    assert!(text.contains("\"per_event\": [\n\n  ],"));
}

#[test]
fn plans_do_not_depend_on_when_recording_began() {
    let ms = 1_000_000u64;
    let at = |d: u64| trace_of(&[(d, 1.0), (d + 120 * ms, 2.0), (d + 350 * ms, 3.0)]);
    let est = trace_of(&[(7, 1.0), (7 + 130 * ms, 2.5)]);
    let shape = |gt: Vec<u8>| {
        let r = evaluate(&gt, &est, 100).ok().unwrap();
        assert_eq!(r.plans.len(), 1);
        let plan = &r.plans[0];
        let mut bins: Vec<(u64, Vec<u64>)> =
            plan.gt.iter().map(|b| (b.index, b.values.clone())).collect();
        bins.sort();
        (bins, plan.covered, plan.scored.len())
    };
    assert_eq!(shape(at(0)), shape(at(1_700_000_000_000_000_003)));
}

#[test]
fn control_characters_stay_valid_json() {
    let name = "nul\0 bell\u{7} tab\t line\n back\\slash \"quote\" é \u{200b} \u{7f}";
    let mut odd = report(true);
    odd.ground_truth = name.to_string();
    odd.events[0].event_name = name.to_string();
    let text = print_json(&odd);
    assert!(text.contains("nul\\u0000 bell\\u0007 tab\\t line\\n"));
    let value: serde_json::Value = serde_json::from_str(&text).unwrap();
    assert_eq!(value["ground_truth"], name);
    assert_eq!(value["per_event"][0]["event"], name);
}
