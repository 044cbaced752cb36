//! Unit-level checks of parsing, filtering and ordering.

use benchplot::criterion::{Benchmark, Throughput, ThroughputType, split_throughput,
    CONFIDENCE_LEVEL_BITS, ConfidenceInterval, Estimate};
use benchplot::error::Error;
use benchplot::filter::{guess_benchmark_name, keep_entry, GroupFilter};
use benchplot::order::{natural_cmp, Rel, TextAndNumbers, TextOrNumber};
use benchplot::trace::{f32_bits_le, MeasurementDisplay};

fn bench(group: &str, value: &str, tp: Throughput) -> Benchmark {
    Benchmark {
        group_id: group.to_string(),
        value_str: value.to_string(),
        throughput: tp,
    }
}

#[test]
fn value_parses_plain_integer() {
    let b = bench("foo", "1024", Throughput::Bytes(1));
    assert_eq!(b.value_usize().unwrap(), 1024);
}

#[test]
fn value_parses_leading_plus() {
    let b = bench("foo", "+42", Throughput::Bytes(1));
    assert_eq!(b.value_usize().unwrap(), 42);
}

#[test]
fn value_rejects_text() {
    let b = bench("foo", "abc", Throughput::Bytes(1));
    assert_eq!(b.value_usize().unwrap_err(), Error::ValueNotInteger);
}

#[test]
fn value_rejects_empty_and_sign_only() {
    assert!(bench("f", "", Throughput::Bytes(1)).value_usize().is_err());
    assert!(bench("f", "+", Throughput::Bytes(1)).value_usize().is_err());
}

#[test]
fn value_rejects_trailing_garbage() {
    assert!(bench("f", "12x", Throughput::Bytes(1)).value_usize().is_err());
}

#[test]
fn value_rejects_overflow() {
    let b = bench("f", "99999999999999999999999999", Throughput::Bytes(1));
    assert_eq!(b.value_usize().unwrap_err(), Error::ValueNotInteger);
}

#[test]
fn split_throughput_tags_and_counts() {
    assert_eq!(
        split_throughput(Throughput::Bytes(7)),
        (ThroughputType::Bytes, 7)
    );
    assert_eq!(
        split_throughput(Throughput::BytesDecimal(8)),
        (ThroughputType::BytesDecimal, 8)
    );
    assert_eq!(
        split_throughput(Throughput::Elements(9)),
        (ThroughputType::Elements, 9)
    );
}

#[test]
fn group_name_recovery() {
    assert_eq!(guess_benchmark_name("alg_v1"), "alg/v1");
    assert_eq!(guess_benchmark_name("plain"), "plain");
    assert_eq!(guess_benchmark_name("a_b_c"), "a/b/c");
}

#[test]
fn group_name_recovery_round_trip() {
    // masking a name free of underscores and recovering it is the identity
    let name = "alg/v1";
    let dir = name.replace('/', "_");
    assert_eq!(guess_benchmark_name(&dir), name);
}

#[test]
fn filter_compiles_and_matches() {
    let f = GroupFilter::new("^a.*$").unwrap();
    assert!(f.is_match("abc"));
    assert!(!f.is_match("b"));
    assert_eq!(f.pattern(), "^a.*$");
}

#[test]
fn filter_rejects_bad_pattern() {
    assert!(GroupFilter::new("(").is_err());
}

fn comps(parts: &[&str]) -> Vec<String> {
    parts.iter().map(|p| p.to_string()).collect()
}

#[test]
fn keep_entry_accepts_data_files() {
    let f = GroupFilter::new(".*").unwrap();
    assert!(keep_entry(&comps(&["foo", "1024", "new", "benchmark.json"]), &f));
    assert!(keep_entry(&comps(&["foo", "1024", "new", "estimates.json"]), &f));
}

#[test]
fn keep_entry_keeps_ancestors() {
    let f = GroupFilter::new(".*").unwrap();
    assert!(keep_entry(&comps(&[]), &f));
    assert!(keep_entry(&comps(&["foo"]), &f));
    assert!(keep_entry(&comps(&["foo", "1024"]), &f));
    assert!(keep_entry(&comps(&["foo", "1024", "new"]), &f));
}

#[test]
fn keep_entry_prunes_reports_and_old_data() {
    let f = GroupFilter::new(".*").unwrap();
    assert!(!keep_entry(&comps(&["report"]), &f));
    assert!(!keep_entry(&comps(&["foo", "report"]), &f));
    assert!(!keep_entry(&comps(&["foo", "1024", "base"]), &f));
    assert!(!keep_entry(&comps(&["foo", "1024", "new", "other.json"]), &f));
}

#[test]
fn keep_entry_ignores_foreign_file_names() {
    // names without the `.json` extension are dropped, not treated as errors
    let f = GroupFilter::new(".*").unwrap();
    assert!(!keep_entry(&comps(&["foo", "1024", "new", "raw.csv"]), &f));
    assert!(!keep_entry(&comps(&["foo", "1024", "new", "x"]), &f));
}

#[test]
fn keep_entry_applies_regex_to_recovered_name() {
    let f = GroupFilter::new("^alg/v1$").unwrap();
    assert!(keep_entry(&comps(&["alg_v1"]), &f));
    assert!(!keep_entry(&comps(&["alg_v2"]), &f));
}

#[test]
fn keep_entry_rejects_everything_for_unmatched_regex() {
    let f = GroupFilter::new("^nonexistent$").unwrap();
    assert!(!keep_entry(&comps(&["foo"]), &f));
}

#[test]
fn natural_order_numeric_runs() {
    assert!(matches!(natural_cmp("trace1", "trace2"), Rel::Less));
    assert!(matches!(natural_cmp("trace2", "trace10"), Rel::Less));
    assert!(matches!(natural_cmp("trace10", "trace1"), Rel::Greater));
    assert!(matches!(natural_cmp("trace2", "trace2"), Rel::Equal));
}

#[test]
fn natural_order_leading_zeros_compare_by_value() {
    assert!(matches!(natural_cmp("a01", "a1"), Rel::Equal));
    assert!(matches!(natural_cmp("a02", "a1"), Rel::Greater));
}

#[test]
fn natural_order_segments_and_prefixes() {
    assert!(matches!(natural_cmp("a", "a/b"), Rel::Less));
    assert!(matches!(natural_cmp("alg/v2", "alg/v10"), Rel::Less));
    assert!(matches!(natural_cmp("b", "a/b"), Rel::Greater));
}

#[test]
fn natural_order_text_before_numbers() {
    assert!(matches!(natural_cmp("x", "1"), Rel::Less));
    assert!(matches!(natural_cmp("2", "y"), Rel::Greater));
}

#[test]
fn text_and_numbers_decomposition() {
    let mut it = TextAndNumbers::new("abc123def");
    assert!(matches!(it.next(), Some(TextOrNumber::Text(t)) if t == "abc"));
    assert!(matches!(it.next(), Some(TextOrNumber::Number(n)) if n == "123"));
    assert!(matches!(it.next(), Some(TextOrNumber::Text(t)) if t == "def"));
    assert!(it.next().is_none());
}

#[test]
fn text_and_numbers_empty_source() {
    let mut it = TextAndNumbers::new("");
    assert!(it.next().is_none());
}

#[test]
fn confidence_level_bits_are_standard() {
    assert_eq!(CONFIDENCE_LEVEL_BITS, 0.95f32.to_bits());
}

#[test]
fn from_estimate_checks_confidence_level() {
    let good = Estimate {
        confidence_interval: ConfidenceInterval {
            confidence_level: 0.95f32.to_bits(),
            lower_bound: 500.0f32.to_bits(),
            upper_bound: 520.0f32.to_bits(),
        },
        point_estimate: 512.0f32.to_bits(),
        standard_error: 0.0f32.to_bits(),
    };
    let m = MeasurementDisplay::from_estimate(&good).unwrap();
    assert_eq!(f32::from_bits(m.point_estimate), 512.0);
    assert_eq!(f32::from_bits(m.lower_bound), 500.0);
    assert_eq!(f32::from_bits(m.upper_bound), 520.0);

    let mut bad = good;
    bad.confidence_interval.confidence_level = 0.9f32.to_bits();
    assert_eq!(
        MeasurementDisplay::from_estimate(&bad).unwrap_err(),
        Error::ConfidenceLevelMismatch
    );
}

#[test]
fn float_total_order_on_bits() {
    let b = |x: f32| x.to_bits();
    assert!(f32_bits_le(b(1.0), b(2.0)));
    assert!(!f32_bits_le(b(2.0), b(1.0)));
    assert!(f32_bits_le(b(-1.0), b(1.0)));
    assert!(f32_bits_le(b(-2.0), b(-1.0)));
    assert!(f32_bits_le(b(-0.0), b(0.0)));
    assert!(f32_bits_le(b(f32::INFINITY), b(f32::NAN)));
    assert!(f32_bits_le(b(1.0e30), b(f32::INFINITY)));
}
