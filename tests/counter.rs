use metrics::attributes::{calculate_hash, sorted_by_key, MetricAttributes};
use metrics::common::{display_array_str, Array, Key, KeyValue, StringValue, Value};
use metrics::counter::{Counter, CounterInner};
use metrics::meter::Meter;
use metrics::meter_provider::MeterProvider;
use metrics::metric::Metric;
use metrics::metricpoint::MetricPoint;

fn kv(k: &str, v: &str) -> KeyValue {
    Key::new(k).string(StringValue::new(v))
}

fn keys(attributes: &[KeyValue]) -> Vec<String> {
    attributes.iter().map(|a| a.key.as_str().to_string()).collect()
}

fn zero_row(metric: &Metric) -> u64 {
    let last = metric.metric_points.last().expect("a zero-attribute row");
    assert!(last.0.is_empty());
    last.1
}

fn labelled_rows(metric: &Metric) -> Vec<(Vec<String>, u64)> {
    let n = metric.metric_points.len();
    metric.metric_points[..n - 1].iter().map(|(a, s)| (keys(a), *s)).collect()
}

#[test]
fn it_works() {}

#[test]
fn same_set_in_two_orders_totals_thirty() {
    let mut counter = Counter::new("c".to_string());
    counter.add(10, &[kv("k1", "v1"), kv("k2", "v2")]);
    counter.add(10, &[kv("k2", "v2"), kv("k1", "v1")]);
    counter.add(10, &[kv("k1", "v1"), kv("k2", "v2")]);
    let metric = counter.collect();
    assert_eq!(metric.name, "c");
    let rows = labelled_rows(&metric);
    assert!(!rows.is_empty() && rows.len() <= 2);
    for (_, sum) in &rows {
        assert_eq!(*sum, 30);
    }
    assert_eq!(zero_row(&metric), 0);
}

#[test]
fn unsorted_first_order_gives_two_aliased_rows() {
    let mut counter = Counter::new("c".to_string());
    counter.add(10, &[kv("k2", "v2"), kv("k1", "v1")]);
    counter.add(10, &[kv("k1", "v1"), kv("k2", "v2")]);
    counter.add(5, &[kv("k2", "v2"), kv("k1", "v1")]);
    let rows = labelled_rows(&counter.collect());
    assert_eq!(
        rows,
        vec![
            (vec!["k2".to_string(), "k1".to_string()], 25),
            (vec!["k1".to_string(), "k2".to_string()], 25),
        ]
    );
}

#[test]
fn three_orders_share_one_accumulator() {
    let mut counter = Counter::new("c".to_string());
    counter.add(1, &[kv("key2", "value2"), kv("key1", "value1"), kv("key3", "value3")]);
    counter.add(2, &[kv("key1", "value1"), kv("key2", "value2"), kv("key3", "value3")]);
    counter.add(3, &[kv("key1", "value1"), kv("key3", "value3"), kv("key2", "value2")]);
    counter.add(4, &[kv("key2", "value2"), kv("key1", "value1"), kv("key3", "value3")]);
    let rows = labelled_rows(&counter.collect());
    assert_eq!(rows.len(), 2);
    for (_, sum) in &rows {
        assert_eq!(*sum, 10);
    }
}

#[test]
fn zero_attribute_rows_drain() {
    let mut counter = Counter::new("c".to_string());
    counter.add(5, &[]);
    counter.add(5, &[]);
    let first = counter.collect();
    assert_eq!(first.metric_points.len(), 1);
    assert_eq!(zero_row(&first), 10);
    let second = counter.collect();
    assert_eq!(second.metric_points.len(), 1);
    assert_eq!(zero_row(&second), 0);
}

#[test]
fn zero_attribute_isolated_from_labels() {
    let mut counter = Counter::new("c".to_string());
    counter.add(7, &[kv("a", "1")]);
    counter.add(3, &[]);
    counter.add(4, &[kv("a", "1")]);
    let metric = counter.collect();
    assert_eq!(zero_row(&metric), 3);
    assert_eq!(labelled_rows(&metric), vec![(vec!["a".to_string()], 11)]);
}

#[test]
fn collect_after_collect_has_only_zero_row() {
    let mut counter = Counter::new("c".to_string());
    counter.add(1, &[kv("a", "1"), kv("b", "2")]);
    counter.add(2, &[]);
    let _ = counter.collect();
    let again = counter.collect();
    assert_eq!(again.metric_points.len(), 1);
    assert_eq!(zero_row(&again), 0);
}

#[test]
fn series_restart_from_zero_after_collect() {
    let mut counter = Counter::new("c".to_string());
    counter.add(8, &[kv("a", "1")]);
    let _ = counter.collect();
    counter.add(2, &[kv("a", "1")]);
    assert_eq!(labelled_rows(&counter.collect()), vec![(vec!["a".to_string()], 2)]);
}

#[test]
fn distinct_sets_stay_apart() {
    let mut counter = Counter::new("c".to_string());
    counter.add(1, &[kv("a", "1")]);
    counter.add(2, &[kv("a", "2")]);
    counter.add(4, &[Key::new("a").i64(1)]);
    let metric = counter.collect();
    let sums: Vec<u64> = labelled_rows(&metric).into_iter().map(|r| r.1).collect();
    assert_eq!(sums, vec![1, 2, 4]);
}

#[test]
fn snapshot_leaves_counter_as_is() {
    let mut counter = Counter::new("c".to_string());
    counter.add(6, &[kv("a", "1")]);
    let peek = counter.snapshot();
    assert_eq!(labelled_rows(&peek), vec![(vec!["a".to_string()], 6)]);
    let metric = counter.collect();
    assert_eq!(labelled_rows(&metric), vec![(vec!["a".to_string()], 6)]);
}

#[test]
fn counter_inner_add_and_collect() {
    let mut inner = CounterInner::new("inner".to_string());
    inner.add(3, &[kv("x", "y")]);
    inner.add(4, &[]);
    let metric = inner.collect();
    assert_eq!(metric.name, "inner");
    assert_eq!(labelled_rows(&metric), vec![(vec!["x".to_string()], 3)]);
    assert_eq!(zero_row(&metric), 4);
}

#[test]
fn sums_wrap_at_u64() {
    let mut counter = Counter::new("c".to_string());
    counter.add(u32::MAX, &[]);
    counter.add(1, &[]);
    assert_eq!(zero_row(&counter.collect()), u32::MAX as u64 + 1);
}

#[test]
fn create_counter_is_idempotent() {
    let mut meter = Meter::new("m");
    let first = meter.create_counter("x");
    let second = meter.create_counter("x");
    assert_eq!(first, second);
    assert_eq!(meter.len(), 1);
    meter.add(first, 3, &[kv("a", "1")]);
    meter.add(second, 4, &[kv("a", "1")]);
    let other = meter.create_counter("y");
    assert_ne!(other, first);
    let metrics = meter.collect();
    assert_eq!(metrics.len(), 2);
    assert_eq!(metrics[0].name, "x");
    assert_eq!(labelled_rows(&metrics[0]), vec![(vec!["a".to_string()], 7)]);
    assert_eq!(metrics[1].name, "y");
    assert_eq!(metrics[1].metric_points.len(), 1);
}

#[test]
fn get_meter_is_idempotent() {
    let mut provider = MeterProvider::new();
    let m1 = provider.get_meter("meter");
    let m2 = provider.get_meter("meter");
    assert_eq!(m1, m2);
    let c1 = provider.create_counter(m1, "counter");
    let c2 = provider.create_counter(m2, "counter");
    assert_eq!(c1, c2);
    provider.add(m1, c1, 2, &[]);
    provider.add(m2, c2, 3, &[]);
    assert_eq!(provider.meter(m1).counter(c1).name(), "counter");
    let batch = provider.collect();
    assert_eq!(batch.len(), 1);
    assert_eq!(zero_row(&batch[0]), 5);
}

#[test]
fn provider_collect_concatenates_meters() {
    let mut provider = MeterProvider::new();
    let a = provider.get_meter("a");
    let b = provider.get_meter("b");
    let ca = provider.create_counter(a, "ca");
    let cb1 = provider.create_counter(b, "cb1");
    let cb2 = provider.create_counter(b, "cb2");
    provider.add(a, ca, 1, &[]);
    provider.add(b, cb1, 2, &[]);
    provider.add(b, cb2, 3, &[]);
    let batch = provider.collect();
    let names: Vec<&str> = batch.iter().map(|m| m.name.as_str()).collect();
    assert_eq!(names, vec!["ca", "cb1", "cb2"]);
    let sums: Vec<u64> = batch.iter().map(zero_row).collect();
    assert_eq!(sums, vec![1, 2, 3]);
    let again = provider.collect();
    assert!(again.iter().all(|m| zero_row(m) == 0 && m.metric_points.len() == 1));
}

#[test]
fn metric_point_add_reset() {
    let mut p = MetricPoint::new();
    assert_eq!(p.get_sum(), 0);
    p.add(4);
    p.add(6);
    assert_eq!(p.get_sum(), 10);
    assert_eq!(p.take_sum(), 10);
    assert_eq!(p.get_sum(), 0);
    p.add(1);
    p.reset();
    assert_eq!(p.get_sum(), 0);
}

#[test]
fn sort_is_stable_by_key() {
    let attrs = [kv("b", "1"), kv("a", "2"), kv("b", "0"), kv("ab", "3"), kv("", "4")];
    let sorted = sorted_by_key(&attrs);
    let got: Vec<(String, String)> = sorted
        .iter()
        .map(|a| match &a.value {
            Value::String(s) => (a.key.as_str().to_string(), s.as_str().to_string()),
            _ => panic!("string value expected"),
        })
        .collect();
    let want: Vec<(String, String)> = [("", "4"), ("a", "2"), ("ab", "3"), ("b", "1"), ("b", "0")]
        .iter()
        .map(|(k, v)| (k.to_string(), v.to_string()))
        .collect();
    assert_eq!(got, want);
}

#[test]
fn key_order_is_by_utf8_bytes() {
    let attrs = [kv("é", "1"), kv("z", "2"), kv("Z", "3")];
    let sorted = sorted_by_key(&attrs);
    assert_eq!(keys(&sorted), vec!["Z", "z", "é"]);
}

#[test]
fn identity_equality_needs_equal_sequences() {
    let a = MetricAttributes::new(&[kv("k1", "v1"), kv("k2", "v2")]);
    let b = MetricAttributes::new(&[kv("k1", "v1"), kv("k2", "v2")]);
    let c = MetricAttributes::new(&[kv("k2", "v2"), kv("k1", "v1")]);
    assert!(a.same_as(&b));
    assert!(!a.same_as(&c));
    assert_eq!(a.hash_value(), b.hash_value());
    assert_ne!(a.hash_value(), c.hash_value());
    assert_eq!(a.hash_value(), calculate_hash(&[kv("k1", "v1"), kv("k2", "v2")]));
}

#[test]
fn hash_of_empty_sequence_is_the_offset() {
    assert_eq!(calculate_hash(&[]), 0xcbf29ce484222325);
}

#[test]
fn floats_compare_by_bit_pattern() {
    let nan = f64::NAN.to_bits();
    let a = MetricAttributes::new(&[Key::new("f").f64_bits(nan)]);
    let b = MetricAttributes::new(&[Key::new("f").f64_bits(nan)]);
    assert!(a.same_as(&b));
    let zero = MetricAttributes::new(&[Key::new("f").f64_bits(0.0f64.to_bits())]);
    let neg_zero = MetricAttributes::new(&[Key::new("f").f64_bits((-0.0f64).to_bits())]);
    assert!(!zero.same_as(&neg_zero));
}

#[test]
fn values_of_other_kinds_differ() {
    let b = KeyValue::new(Key::new("k"), Value::Bool(true));
    let i = KeyValue::new(Key::new("k"), Value::I64(1));
    assert!(!(b == i));
    assert!(b == Key::new("k").bool(true));
    let arr1 = Key::new("k").array(Array::String(vec![StringValue::new("x")]));
    let arr2 = Key::new("k").array(Array::String(vec![StringValue::new("x")]));
    let arr3 = Key::new("k").array(Array::String(vec![StringValue::new("y")]));
    assert!(arr1 == arr2);
    assert!(!(arr1 == arr3));
    let ints = Key::new("k").array(Array::I64(vec![1, 2]));
    assert!(ints.duplicate() == ints);
}

#[test]
fn keys_from_strings() {
    let k = Key::from("owned".to_string());
    assert_eq!(k.as_str(), "owned");
    assert!(k == Key::from_static_str("owned"));
    assert_eq!(StringValue::from("v".to_string()).as_str(), "v");
}

#[test]
fn arrays_render_with_commas_and_quotes() {
    let items = vec!["a".to_string(), "b c".to_string()];
    assert_eq!(display_array_str(&items, true), "[\"a\",\"b c\"]");
    let nums = vec!["1".to_string(), "-2".to_string(), "3".to_string()];
    assert_eq!(display_array_str(&nums, false), "[1,-2,3]");
    assert_eq!(display_array_str(&[], false), "[]");
}

#[test]
fn keys_and_values_convert_back_to_strings() {
    assert_eq!(String::from(Key::new("k")), "k");
    assert_eq!(String::from(StringValue::new("v")), "v");
}

#[test]
fn array_elements_enter_the_hash() {
    let a = MetricAttributes::new(&[Key::new("k").array(Array::I64(vec![1, 2]))]);
    let b = MetricAttributes::new(&[Key::new("k").array(Array::I64(vec![2, 1]))]);
    let c = MetricAttributes::new(&[Key::new("k").array(Array::I64(vec![1, 2]))]);
    assert_ne!(a.hash_value(), b.hash_value());
    assert_eq!(a.hash_value(), c.hash_value());
    assert!(!a.same_as(&b));
    let s1 = MetricAttributes::new(&[Key::new("k").array(Array::String(vec![StringValue::new("ab")]))]);
    let s2 = MetricAttributes::new(&[Key::new("k")
        .array(Array::String(vec![StringValue::new("a"), StringValue::new("b")]))]);
    assert_ne!(s1.hash_value(), s2.hash_value());
}
