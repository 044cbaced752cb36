//! End-to-end checks: reconciliation, trace building and ranges.

use benchplot::criterion::{reconcile, Benchmark, BenchmarkInfo, ConfidenceInterval, Estimate,
    Estimates, RawEntry, RecordPayload, Throughput, ThroughputType};
use benchplot::error::Error;
use benchplot::filter::GroupFilter;
use benchplot::trace::{MeasurementDisplay, TraceInput, Traces};

fn meta_entry(group_dir: &str, value_dir: &str, group_id: &str, value_str: &str,
    tp: Throughput) -> RawEntry {
    RawEntry {
        group_dir: group_dir.to_string(),
        value_dir: value_dir.to_string(),
        payload: RecordPayload::Metadata(Benchmark {
            group_id: group_id.to_string(),
            value_str: value_str.to_string(),
            throughput: tp,
        }),
    }
}

fn stats_entry(group_dir: &str, value_dir: &str, pe: f32, lb: f32, ub: f32) -> RawEntry {
    RawEntry {
        group_dir: group_dir.to_string(),
        value_dir: value_dir.to_string(),
        payload: RecordPayload::Statistics(make_estimates(pe, lb, ub, 0.95)),
    }
}

fn make_estimates(pe: f32, lb: f32, ub: f32, cl: f32) -> Estimates {
    Estimates {
        median: Estimate {
            confidence_interval: ConfidenceInterval {
                confidence_level: cl.to_bits(),
                lower_bound: lb.to_bits(),
                upper_bound: ub.to_bits(),
            },
            point_estimate: pe.to_bits(),
            standard_error: 0.0f32.to_bits(),
        },
    }
}

fn make_info(group_id: &str, value_str: &str, tp: Throughput, pe: f32, lb: f32,
    ub: f32) -> BenchmarkInfo {
    BenchmarkInfo {
        benchmark: Benchmark {
            group_id: group_id.to_string(),
            value_str: value_str.to_string(),
            throughput: tp,
        },
        estimates: make_estimates(pe, lb, ub, 0.95),
    }
}

/// The time-to-throughput conversion the host performs before trace
/// building: raw count over seconds, with the bounds swapped.
fn to_throughput(info: &BenchmarkInfo) -> MeasurementDisplay {
    let (_, n) = benchplot::split_throughput(info.benchmark.throughput);
    let n = n as f32;
    let pe = f32::from_bits(info.estimates.median.point_estimate);
    let lb = f32::from_bits(info.estimates.median.confidence_interval.lower_bound);
    let ub = f32::from_bits(info.estimates.median.confidence_interval.upper_bound);
    MeasurementDisplay {
        point_estimate: (n / (pe * 1e-9)).to_bits(),
        lower_bound: (n / (ub * 1e-9)).to_bits(),
        upper_bound: (n / (lb * 1e-9)).to_bits(),
    }
}

fn input(info: BenchmarkInfo) -> TraceInput {
    let measurement = to_throughput(&info);
    TraceInput { info, measurement }
}

#[test]
fn reconcile_pairs_records() {
    let f = GroupFilter::new(".*").unwrap();
    let out = reconcile(
        vec![
            meta_entry("foo", "1024", "foo", "1024", Throughput::Bytes(1024)),
            stats_entry("foo", "1024", 512.0, 500.0, 520.0),
        ],
        &f,
    )
    .unwrap();
    assert_eq!(out.len(), 1);
    assert_eq!(out[0].benchmark.group_id, "foo");
    assert_eq!(
        f32::from_bits(out[0].estimates.median.point_estimate),
        512.0
    );
}

#[test]
fn reconcile_missing_estimates_fails() {
    let f = GroupFilter::new(".*").unwrap();
    let r = reconcile(
        vec![meta_entry("foo", "1024", "foo", "1024", Throughput::Bytes(1024))],
        &f,
    );
    assert_eq!(r.unwrap_err(), Error::MissingCompanion);
}

#[test]
fn reconcile_missing_metadata_fails() {
    let f = GroupFilter::new(".*").unwrap();
    let r = reconcile(vec![stats_entry("foo", "1024", 512.0, 500.0, 520.0)], &f);
    assert_eq!(r.unwrap_err(), Error::MissingCompanion);
}

#[test]
fn reconcile_checks_directory_name_against_group_id() {
    let f = GroupFilter::new(".*").unwrap();
    let r = reconcile(
        vec![
            meta_entry("foo", "1024", "bar", "1024", Throughput::Bytes(1024)),
            stats_entry("foo", "1024", 512.0, 500.0, 520.0),
        ],
        &f,
    );
    assert_eq!(r.unwrap_err(), Error::GroupNameMismatch);
}

#[test]
fn reconcile_recovers_slashed_names() {
    let f = GroupFilter::new(".*").unwrap();
    let out = reconcile(
        vec![
            meta_entry("alg_v1", "10", "alg/v1", "10", Throughput::Elements(10)),
            stats_entry("alg_v1", "10", 2.0, 1.0, 3.0),
        ],
        &f,
    )
    .unwrap();
    assert_eq!(out[0].benchmark.group_id, "alg/v1");
}

#[test]
fn reconcile_checks_group_id_against_regex() {
    let f = GroupFilter::new("^x").unwrap();
    let r = reconcile(
        vec![
            meta_entry("foo", "1024", "foo", "1024", Throughput::Bytes(1024)),
            stats_entry("foo", "1024", 512.0, 500.0, 520.0),
        ],
        &f,
    );
    assert_eq!(r.unwrap_err(), Error::RegexGroupMismatch);
}

#[test]
fn single_benchmark_single_point() {
    // one benchmark with a 1024-byte workload measured at 512 ns
    let info = make_info("foo", "1024", Throughput::Bytes(1024), 512.0, 500.0, 520.0);
    let traces = Traces::new(vec![input(info)]).unwrap();
    assert_eq!(traces.throughput, Some(ThroughputType::Bytes));
    assert_eq!(traces.len(), 1);
    assert!(!traces.is_empty());
    let t = &traces.per_trace_data[0];
    assert_eq!(t.name, "foo");
    assert_eq!(t.data.len(), 1);
    assert_eq!(t.data[0].0, 1024);
    let m = t.data[0].1;
    assert_eq!(f32::from_bits(m.point_estimate), 2.0e9);
    assert_eq!(f32::from_bits(m.upper_bound), 2.048e9);
    let lb = f32::from_bits(m.lower_bound);
    assert!((lb - 1.9692e9).abs() < 1.0e6);
    assert!(lb <= f32::from_bits(m.point_estimate));
    assert!(f32::from_bits(m.point_estimate) <= f32::from_bits(m.upper_bound));
}

#[test]
fn conversion_law_on_sample_values() {
    // out.pe == n * 1e9 / pe, with the bounds swapped, and the result ordered
    let info = make_info("foo", "1", Throughput::Elements(3), 7.0, 6.0, 8.0);
    let m = to_throughput(&info);
    let close = |a: f32, b: f32| (a - b).abs() <= b.abs() * 1e-6;
    assert!(close(f32::from_bits(m.point_estimate), 3.0 * 1e9 / 7.0));
    assert!(close(f32::from_bits(m.lower_bound), 3.0 * 1e9 / 8.0));
    assert!(close(f32::from_bits(m.upper_bound), 3.0 * 1e9 / 6.0));
    assert!(f32::from_bits(m.lower_bound) <= f32::from_bits(m.point_estimate));
    assert!(f32::from_bits(m.point_estimate) <= f32::from_bits(m.upper_bound));
}

#[test]
fn two_traces_sorted_with_ranges() {
    let mk = |name: &str, v: &str, n: u64| {
        input(make_info(name, v, Throughput::Elements(n), 2.0, 1.0, 3.0))
    };
    let traces = Traces::new(vec![
        mk("slow", "200", 1),
        mk("fast", "100", 2),
        mk("slow", "100", 3),
        mk("fast", "200", 4),
    ])
    .unwrap();
    assert_eq!(traces.len(), 2);
    assert_eq!(traces.per_trace_data[0].name, "fast");
    assert_eq!(traces.per_trace_data[1].name, "slow");
    for t in &traces.per_trace_data {
        assert_eq!(t.data.len(), 2);
        assert_eq!(t.data[0].0, 100);
        assert_eq!(t.data[1].0, 200);
    }
    let ((x0, x1), (y0, y1)) = traces.xy_range();
    assert_eq!((x0, x1), (100, 200));
    // lowest lower bound: count 1 over 3 ns; highest upper bound: count 4 over 1 ns
    assert_eq!(f32::from_bits(y0), 1.0 * 1e9 / 3.0);
    assert_eq!(f32::from_bits(y1), 4.0 * 1e9 / 1.0);
}

#[test]
fn traces_in_natural_name_order() {
    let mk = |name: &str| input(make_info(name, "1", Throughput::Elements(1), 2.0, 1.0, 3.0));
    let traces = Traces::new(vec![mk("alg/v10"), mk("alg/v1"), mk("alg/v2")]).unwrap();
    let names: Vec<&str> = traces.per_trace_data.iter().map(|t| t.name.as_str()).collect();
    assert_eq!(names, ["alg/v1", "alg/v2", "alg/v10"]);
}

#[test]
fn trace_numbers_order_naturally() {
    let mk = |name: &str| input(make_info(name, "1", Throughput::Elements(1), 2.0, 1.0, 3.0));
    let traces = Traces::new(vec![mk("trace2"), mk("trace10"), mk("trace1")]).unwrap();
    let names: Vec<&str> = traces.per_trace_data.iter().map(|t| t.name.as_str()).collect();
    assert_eq!(names, ["trace1", "trace2", "trace10"]);
}

#[test]
fn mixed_throughput_reports_both_variants() {
    let traces = Traces::new(vec![
        input(make_info("a", "1", Throughput::Bytes(1024), 2.0, 1.0, 3.0)),
        input(make_info("b", "1", Throughput::Elements(10), 2.0, 1.0, 3.0)),
    ]);
    assert_eq!(
        traces.unwrap_err(),
        Error::MixedThroughput {
            expected: ThroughputType::Bytes,
            found: ThroughputType::Elements,
        }
    );
}

#[test]
fn nonstandard_confidence_level_fails() {
    let mut info = make_info("foo", "1", Throughput::Bytes(1), 2.0, 1.0, 3.0);
    info.estimates = make_estimates(2.0, 1.0, 3.0, 0.9);
    let measurement = to_throughput(&info);
    let r = Traces::new(vec![TraceInput { info, measurement }]);
    assert_eq!(r.unwrap_err(), Error::ConfidenceLevelMismatch);
}

#[test]
fn duplicate_problem_size_fails() {
    let r = Traces::new(vec![
        input(make_info("foo", "7", Throughput::Bytes(1), 2.0, 1.0, 3.0)),
        input(make_info("foo", "7", Throughput::Bytes(1), 4.0, 3.0, 5.0)),
    ]);
    assert_eq!(r.unwrap_err(), Error::DuplicatePoint { value: 7 });
}

#[test]
fn non_integer_label_fails() {
    let r = Traces::new(vec![
        input(make_info("foo", "big", Throughput::Bytes(1), 2.0, 1.0, 3.0)),
    ]);
    assert_eq!(r.unwrap_err(), Error::ValueNotInteger);
}

#[test]
fn equivalent_names_share_one_trace() {
    // "a01" and "a1" compare equal in natural order, so they merge
    let traces = Traces::new(vec![
        input(make_info("a01", "1", Throughput::Bytes(1), 2.0, 1.0, 3.0)),
        input(make_info("a1", "2", Throughput::Bytes(1), 2.0, 1.0, 3.0)),
    ])
    .unwrap();
    assert_eq!(traces.len(), 1);
    assert_eq!(traces.per_trace_data[0].data.len(), 2);
}

#[test]
fn empty_selection_builds_empty_traces() {
    let traces = Traces::new(vec![]).unwrap();
    assert!(traces.is_empty());
    assert_eq!(traces.throughput, None);
}
