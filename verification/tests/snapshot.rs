use std::collections::HashMap;

use metrics::{Key, Label};
use metrics_exporter_csv::histogram::{group_samples, histogram_stats, Spread};
use metrics_exporter_csv::key::{metric_key, with_label, LabelEntry};
use metrics_exporter_csv::recorder::header_record;
use metrics_exporter_csv::snapshot::{
    collect_samples, format_label_entries, format_labels, format_name, format_stat_labels,
    sort_samples, sorted_samples, take_snapshot, GaugeValue, HistogramValue, MetricSample,
};
use metrics_exporter_csv::CsvRecorder;
use metrics_util::storage::Summary;

fn float_text(bits: u64) -> String {
    format!("{:.6}", f64::from_bits(bits))
}

fn summarize(samples: Vec<u64>) -> Spread {
    let mut summary = Summary::with_defaults();
    for bits in samples {
        summary.add(f64::from_bits(bits));
    }
    Spread {
        min: format!("{:.6}", summary.min()),
        quantiles: [0.5, 0.9, 0.95, 0.99, 0.999]
            .iter()
            .map(|quantile| summary.quantile(*quantile).map(|value| format!("{value:.6}")))
            .collect(),
        max: format!("{:.6}", summary.max()),
    }
}

fn samples(recorder: &CsvRecorder) -> Vec<MetricSample> {
    collect_samples(recorder.registry(), &float_text, &summarize)
}

fn stats(values: &[f64]) -> Vec<(&'static str, String)> {
    let bits: Vec<u64> = values.iter().map(|value| value.to_bits()).collect();
    histogram_stats(&bits, &summarize).into_iter().map(|stat| (stat.name, stat.value)).collect()
}

fn label(key: &str, value: &str) -> LabelEntry {
    LabelEntry { key: key.to_string(), value: value.to_string() }
}

fn sample(name: &str, kind: &'static str, labels: &str, value: &str) -> MetricSample {
    MetricSample {
        name: name.to_string(),
        kind,
        labels: labels.to_string(),
        value: value.to_string(),
    }
}

#[test]
fn format_name_without_labels() {
    let key = Key::from_name("HTTP Requests");
    assert_eq!(format_name(&key), "http_requests");
}

#[test]
fn format_labels_sanitizes_labels() {
    let labels = vec![
        Label::new("status|code", "2=00"),
        Label::new("method", "GET"),
    ];
    let key = Key::from_parts("HTTP Requests", labels);
    let formatted = format_labels(&key);
    let parts: Vec<_> = formatted.split('|').collect();
    assert_eq!(parts.len(), 2, "expected two label parts");
    assert!(parts.contains(&"status_code=2_00"), "status label missing");
    assert!(parts.contains(&"method=get"), "method label missing");
}

#[test]
fn labels_keep_their_order() {
    let key = Key::from_parts("n", vec![Label::new("b", "2"), Label::new("a", "1")]);
    assert_eq!(format_labels(&key), "b=2|a=1");
    assert_eq!(format_labels(&Key::from_name("n")), "");
    assert_eq!(format_label_entries(&vec![label("X", "Y Z")]), "x=y_z");
}

#[test]
fn keys_hold_their_parts() {
    let key = metric_key("Some Name".to_string(), vec![label("b", "2"), label("a", "1")]);
    assert_eq!(key.name(), "Some Name");
    assert_eq!(format_name(&key), "some_name");
    assert_eq!(format_labels(&key), "b=2|a=1");
    let extended = with_label(&key, label("stat", "count"));
    assert_eq!(extended.name(), "Some Name");
    assert_eq!(format_labels(&extended), "b=2|a=1|stat=count");
}

#[test]
fn the_statistic_is_written_like_the_last_label() {
    for labels in [vec![], vec![label("a", "1")], vec![label("A", "1"), label("b|", "=")]] {
        let written = format_stat_labels(&format_label_entries(&labels), "q50");
        let key = with_label(&metric_key("n".to_string(), labels), label("stat", "q50"));
        assert_eq!(written, format_labels(&key));
    }
    assert_eq!(format_stat_labels("", "count"), "stat=count");
    assert_eq!(format_stat_labels("a=1", "count"), "a=1|stat=count");
}

#[test]
fn labels_that_differ_are_written_differently() {
    let one = format_label_entries(&vec![label("a", "1|b=2")]);
    let two = format_label_entries(&vec![label("a", "1"), label("b", "2")]);
    assert_eq!(one, "a=1_b_2");
    assert_eq!(two, "a=1|b=2");
}

#[test]
fn collect_samples_emits_expected_values() {
    let recorder = CsvRecorder::new();
    let counter_key = Key::from_name("counter_total");
    let gauge_key = Key::from_name("temperature");
    let hist_key = Key::from_name("latency");

    let counter = recorder.register_counter(&counter_key);
    let gauge = recorder.register_gauge(&gauge_key);
    let histogram = recorder.register_histogram(&hist_key);

    counter.increment(5);
    gauge.set(3.5);
    histogram.record(1.0);
    histogram.record(2.0);
    histogram.record(3.0);

    let collected = samples(&recorder);

    let counter = collected
        .iter()
        .find(|sample| sample.name == "counter_total")
        .expect("counter sample");
    assert_eq!(
        (counter.kind, counter.labels.as_str(), counter.value.as_str()),
        ("counter", "", "5")
    );

    let gauge = collected
        .iter()
        .find(|sample| sample.name == "temperature")
        .expect("gauge sample");
    assert_eq!(
        (gauge.kind, gauge.labels.as_str(), gauge.value.as_str()),
        ("gauge", "", "3.500000")
    );

    let histogram: HashMap<String, String> = collected
        .iter()
        .filter(|sample| sample.name == "latency")
        .map(|sample| {
            assert_eq!(sample.kind, "histogram");
            (sample.labels.clone(), sample.value.clone())
        })
        .collect();
    assert_eq!(histogram.get("stat=count").map(String::as_str), Some("3"));
    assert_eq!(histogram.get("stat=min").map(String::as_str), Some("1.000000"));
    assert_eq!(histogram.get("stat=max").map(String::as_str), Some("3.000000"));
    assert!(histogram.contains_key("stat=q50"), "q50 row missing");
    assert!(histogram.contains_key("stat=q99"), "q99 row missing");

    let again = samples(&recorder);
    let left: Vec<(&str, &str)> = again
        .iter()
        .filter(|sample| sample.name == "latency")
        .map(|sample| (sample.labels.as_str(), sample.value.as_str()))
        .collect();
    assert_eq!(left, vec![("stat=count", "0")], "histogram bucket should be cleared");
}

#[test]
fn collect_samples_emits_empty_histogram_count() {
    let recorder = CsvRecorder::new();
    let hist_key = Key::from_name("latency");
    recorder.register_histogram(&hist_key);

    let collected = samples(&recorder);
    let rows: Vec<_> = collected.iter().filter(|sample| sample.name == "latency").collect();

    assert_eq!(rows.len(), 1, "empty histogram should emit only a count row");
    assert_eq!(rows[0].kind, "histogram");
    assert_eq!(rows[0].labels, "stat=count");
    assert_eq!(rows[0].value, "0");
}

#[test]
fn histogram_stats_clears_bucket() {
    let recorder = CsvRecorder::new();
    let histogram = recorder.register_histogram(&Key::from_name("latency"));
    histogram.record(10.0);
    histogram.record(20.0);

    let stats: HashMap<String, String> =
        samples(&recorder).into_iter().map(|sample| (sample.labels, sample.value)).collect();
    assert_eq!(stats.get("stat=count").map(String::as_str), Some("2"));
    assert_eq!(stats.get("stat=min").map(String::as_str), Some("10.000000"));
    assert_eq!(stats.get("stat=max").map(String::as_str), Some("20.000000"));

    let second: Vec<(String, String)> =
        samples(&recorder).into_iter().map(|sample| (sample.labels, sample.value)).collect();
    assert_eq!(second, vec![("stat=count".to_string(), "0".to_string())]);
}

#[test]
fn a_second_snapshot_repeats_values_and_finds_histograms_cleared() {
    let recorder = CsvRecorder::new();
    recorder.register_counter(&Key::from_name("requests")).increment(4);
    recorder.register_gauge(&Key::from_name("temperature")).set(-1.5);
    let histogram = recorder.register_histogram(&Key::from_name("latency"));
    recorder.register_histogram(&Key::from_name("size"));
    histogram.record(1.0);
    let rows = |collected: Vec<MetricSample>, scalar: bool| -> Vec<(String, String, String)> {
        collected
            .into_iter()
            .filter(|sample| (sample.kind != "histogram") == scalar)
            .map(|sample| (sample.name, sample.labels, sample.value))
            .collect()
    };
    let first = rows(samples(&recorder), true);
    assert_eq!(rows(samples(&recorder), true), first);
    let count = |name: &str, value: &str| {
        (name.to_string(), "stat=count".to_string(), value.to_string())
    };
    assert_eq!(rows(samples(&recorder), false), vec![count("latency", "0"), count("size", "0")]);
}

#[test]
fn every_sample_is_counted_in_one_interval() {
    let recorder = CsvRecorder::new();
    let histogram = recorder.register_histogram(&Key::from_name("latency"));
    let counted = || -> u64 {
        samples(&recorder)
            .into_iter()
            .filter(|sample| {
                ["stat=count", "stat=-inf", "stat=inf", "stat=nan"].contains(&sample.labels.as_str())
            })
            .map(|sample| sample.value.parse::<u64>().expect("count"))
            .sum()
    };
    for n in 0..200 {
        histogram.record([1.0, f64::NAN, f64::INFINITY, f64::NEG_INFINITY][n % 4]);
    }
    assert_eq!(counted(), 200);
    for _ in 0..3 {
        histogram.record(2.0);
    }
    assert_eq!(counted(), 3);
    assert_eq!(counted(), 0);
}

#[test]
fn histogram_stats_reports_non_finite() {
    let stats: HashMap<&str, String> =
        stats(&[f64::INFINITY, f64::NEG_INFINITY, f64::NAN, 2.0, 1.0, 2.0]).into_iter().collect();
    assert_eq!(stats.get("count").map(String::as_str), Some("3"));
    assert_eq!(stats.get("min").map(String::as_str), Some("1.000000"));
    assert_eq!(stats.get("max").map(String::as_str), Some("2.000000"));
    assert_eq!(stats.get("-inf").map(String::as_str), Some("1"));
    assert_eq!(stats.get("inf").map(String::as_str), Some("1"));
    assert_eq!(stats.get("nan").map(String::as_str), Some("1"));
}

#[test]
fn statistics_come_in_their_order() {
    let names: Vec<&str> =
        stats(&[f64::NAN, 1.0, f64::INFINITY, f64::NEG_INFINITY]).iter().map(|stat| stat.0).collect();
    assert_eq!(
        names,
        vec!["count", "min", "q50", "q90", "q95", "q99", "q999", "max", "-inf", "inf", "nan"]
    );
    assert_eq!(stats(&[]), vec![("count", "0".to_string())]);
    assert_eq!(
        stats(&[f64::NAN, f64::NAN]),
        vec![("count", "0".to_string()), ("nan", "2".to_string())]
    );
}

#[test]
fn quantiles_without_an_estimate_are_left_out() {
    let partial = |_: Vec<u64>| Spread {
        min: "lo".to_string(),
        quantiles: vec![Some("a".to_string()), None, None, Some("b".to_string()), None],
        max: "hi".to_string(),
    };
    let values: Vec<(&str, String)> = histogram_stats(&vec![1.0_f64.to_bits()], &partial)
        .into_iter()
        .map(|stat| (stat.name, stat.value))
        .collect();
    let expected = [("count", "1"), ("min", "lo"), ("q50", "a"), ("q99", "b"), ("max", "hi")];
    assert_eq!(values, expected.map(|(name, value)| (name, value.to_string())));
}

#[test]
fn samples_are_grouped_by_class() {
    let values = [
        0.0,
        -0.0,
        f64::MAX,
        f64::MIN,
        f64::MIN_POSITIVE / 2.0,
        f64::NAN,
        -f64::NAN,
        f64::INFINITY,
        f64::NEG_INFINITY,
        f64::NEG_INFINITY,
    ];
    let bits: Vec<u64> = values.iter().map(|value| value.to_bits()).collect();
    let groups = group_samples(&bits);
    assert_eq!(groups.finite, bits[..5].to_vec());
    assert_eq!(groups.nan, 2);
    assert_eq!(groups.positive_infinite, 1);
    assert_eq!(groups.negative_infinite, 2);
    let counted = groups.finite.len() as u64
        + groups.nan
        + groups.positive_infinite
        + groups.negative_infinite;
    assert_eq!(counted, bits.len() as u64);
}

#[test]
fn rows_are_sorted_by_name_labels_and_kind() {
    let unsorted = vec![
        sample("b", "gauge", "", "1"),
        sample("a", "gauge", "x=2", "2"),
        sample("a", "gauge", "x=1", "3"),
        sample("a", "counter", "x=1", "4"),
        sample("a", "counter", "x=1", "5"),
        sample("a", "counter", "", "6"),
    ];
    let sorted: Vec<String> =
        sort_samples(&unsorted).into_iter().map(|sample| sample.value).collect();
    assert_eq!(sorted, vec!["6", "4", "5", "3", "2", "1"]);
}

#[test]
fn the_order_of_arrival_does_not_matter() {
    let rows = [
        sample("a", "gauge", "", "1"),
        sample("b", "counter", "k=v", "2"),
        sample("b", "counter", "", "3"),
    ];
    for order in [[0, 1, 2], [2, 1, 0], [1, 2, 0]] {
        let arrived: Vec<MetricSample> = order.iter().map(|i| rows[*i].clone()).collect();
        let sorted: Vec<String> =
            sort_samples(&arrived).into_iter().map(|sample| sample.value).collect();
        assert_eq!(sorted, vec!["1", "3", "2"]);
    }
}

#[test]
fn values_of_all_kinds_are_listed() {
    let gauges = vec![GaugeValue { key: Key::from_name("B"), value: "2.5".to_string() }];
    let histograms = vec![HistogramValue {
        key: Key::from_name("A"),
        stats: histogram_stats(&Vec::new(), &summarize),
    }];
    let listed: Vec<(String, &str, String, String)> = sorted_samples(&Vec::new(), &gauges, &histograms)
        .into_iter()
        .map(|sample| (sample.name, sample.kind, sample.labels, sample.value))
        .collect();
    assert_eq!(
        listed,
        vec![
            ("a".to_string(), "histogram", "stat=count".to_string(), "0".to_string()),
            ("b".to_string(), "gauge", "".to_string(), "2.5".to_string()),
        ]
    );
}

fn exported(recorder: &CsvRecorder) -> Vec<Vec<String>> {
    let mut rows = vec![header_record()];
    rows.extend(take_snapshot(recorder.registry(), &float_text, &summarize));
    rows
}

fn assert_timestamp_format(timestamp: &str) {
    assert!(timestamp.ends_with('Z'), "timestamp missing Z suffix");
    let Some(dot) = timestamp.rfind('.') else {
        panic!("timestamp missing milliseconds");
    };
    let millis = &timestamp[dot + 1..timestamp.len() - 1];
    assert_eq!(millis.len(), 3, "timestamp millis length");
}

#[test]
fn write_row_with_no_metrics_writes_only_header() {
    let rows = exported(&CsvRecorder::new());
    assert_eq!(rows.len(), 1);
    assert_eq!(
        rows[0],
        vec![
            "timestamp_rfc3339".to_string(),
            "name".to_string(),
            "kind".to_string(),
            "labels".to_string(),
            "value".to_string()
        ]
    );
}

#[test]
fn write_row_writes_header_and_values() {
    let recorder = CsvRecorder::new();
    let counter = recorder.register_counter(&Key::from_name("counter_total"));
    let gauge = recorder.register_gauge(&Key::from_name("temperature"));
    let bucket = recorder.register_histogram(&Key::from_name("latency"));
    counter.increment(2);
    gauge.set(1.25);
    bucket.record(10.0);
    bucket.record(20.0);

    let rows = exported(&recorder);
    assert_eq!(
        rows[0],
        vec![
            "timestamp_rfc3339".to_string(),
            "name".to_string(),
            "kind".to_string(),
            "labels".to_string(),
            "value".to_string()
        ]
    );

    let mut scalars: HashMap<String, (String, String, String)> = HashMap::new();
    let mut histogram: HashMap<String, String> = HashMap::new();
    for row in rows.iter().skip(1) {
        assert_eq!(row.len(), 5);
        assert!(!row[0].is_empty(), "timestamp missing");
        if row[1] == "latency" {
            assert_eq!(row[2], "histogram");
            histogram.insert(row[3].clone(), row[4].clone());
        } else {
            scalars.insert(row[1].clone(), (row[2].clone(), row[3].clone(), row[4].clone()));
        }
    }

    assert_eq!(
        scalars.get("counter_total"),
        Some(&("counter".to_string(), "".to_string(), "2".to_string()))
    );
    assert_eq!(
        scalars.get("temperature"),
        Some(&("gauge".to_string(), "".to_string(), "1.250000".to_string()))
    );
    assert_eq!(histogram.get("stat=count").map(String::as_str), Some("2"));
    assert_eq!(histogram.get("stat=min").map(String::as_str), Some("10.000000"));
    assert_eq!(histogram.get("stat=max").map(String::as_str), Some("20.000000"));
    assert!(histogram.contains_key("stat=q50"), "q50 row missing");

    let again = exported(&recorder);
    let left: Vec<&Vec<String>> = again.iter().filter(|row| row[1] == "latency").collect();
    assert_eq!(left.len(), 1, "histogram bucket should be cleared");
    assert_eq!(left[0][4], "0", "histogram bucket should be cleared");
}

#[test]
fn writes_header_and_timestamp() {
    let recorder = CsvRecorder::new();
    let req = recorder
        .register_counter(&Key::from_parts("request rate", vec![Label::new("method", "GET")]));
    req.increment(1);
    let cpu = recorder.register_gauge(&Key::from_name("cpu usage"));
    cpu.set(42.5);

    let rows = exported(&recorder);
    assert!(rows.len() >= 3);
    let header = &rows[0];
    assert_eq!(
        header,
        &vec![
            "timestamp_rfc3339".to_string(),
            "name".to_string(),
            "kind".to_string(),
            "labels".to_string(),
            "value".to_string()
        ]
    );

    let mut saw_counter = false;
    let mut saw_gauge = false;
    for row in rows.iter().skip(1) {
        assert_eq!(row.len(), 5);
        assert_timestamp_format(&row[0]);
        if row[1] == "request_rate" && row[2] == "counter" && row[3] == "method=get" {
            assert_eq!(row[4], "1");
            saw_counter = true;
        }
        if row[1] == "cpu_usage" && row[2] == "gauge" && row[3].is_empty() {
            assert_eq!(row[4], "42.500000");
            saw_gauge = true;
        }
    }
    assert!(saw_counter, "counter row missing");
    assert!(saw_gauge, "gauge row missing");
}

#[test]
fn writes_multiple_metrics_to_single_file() {
    let recorder = CsvRecorder::new();
    recorder.register_counter(&Key::from_name("first_metric")).increment(1);
    recorder.register_counter(&Key::from_name("first_metric")).increment(1);
    recorder.register_gauge(&Key::from_name("second_metric")).set(std::f64::consts::PI);

    let rows = exported(&recorder);
    assert!(!rows.is_empty());
    assert_eq!(
        rows[0],
        vec![
            "timestamp_rfc3339".to_string(),
            "name".to_string(),
            "kind".to_string(),
            "labels".to_string(),
            "value".to_string()
        ]
    );

    let mut saw_first = false;
    let mut saw_second = false;
    for row in rows.iter().skip(1) {
        if row[1] == "first_metric" {
            assert_eq!(row[4], "2");
            saw_first = true;
        }
        if row[1] == "second_metric" {
            saw_second = true;
        }
    }

    assert!(saw_first, "first_metric row missing");
    assert!(saw_second, "second_metric row missing");
}

#[test]
fn labels_affect_labels() {
    let recorder = CsvRecorder::new();
    let labels = vec![Label::new("b", "2"), Label::new("a", "1")];
    recorder.register_counter(&Key::from_parts("ordered_labels", labels)).increment(1);

    let rows = exported(&recorder);
    let mut saw_label = false;
    for row in rows.iter().skip(1) {
        if row[1] == "ordered_labels" && (row[3] == "a=1|b=2" || row[3] == "b=2|a=1") {
            assert_eq!(row[2], "counter");
            assert_eq!(row[4], "1");
            saw_label = true;
        }
    }
    assert!(saw_label, "labeled row missing");
}

#[test]
fn histogram_values_are_encoded() {
    let recorder = CsvRecorder::new();
    let hist = recorder.register_histogram(&Key::from_name("latency"));
    hist.record(1.0);
    hist.record(3.0);

    let rows = exported(&recorder);
    let mut histogram = HashMap::new();
    for row in rows.iter().skip(1) {
        if row[1] == "latency" && row[2] == "histogram" {
            histogram.insert(row[3].clone(), row[4].clone());
        }
    }
    assert_eq!(histogram.get("stat=count").map(String::as_str), Some("2"));
    assert_eq!(histogram.get("stat=min").map(String::as_str), Some("1.000000"));
    assert_eq!(histogram.get("stat=max").map(String::as_str), Some("3.000000"));
    assert!(histogram.contains_key("stat=q50"), "q50 row missing");
}
