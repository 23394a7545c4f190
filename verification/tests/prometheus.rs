use metrics_exporter_csv::key::LabelEntry;
use metrics_exporter_csv::prometheus::{
    collect_samples, histogram_values, FloatText, HistogramReadout, MetricFamily, Series,
};

fn float(value: f64) -> FloatText {
    FloatText { bits: value.to_bits(), text: value.to_string() }
}

fn empty_histogram() -> HistogramReadout {
    HistogramReadout {
        sample_count: 0,
        sample_count_float: float(0.0),
        sample_sum: "0".to_string(),
        schema: 0,
        zero_threshold: "0".to_string(),
        zero_count: 0,
        zero_count_float: float(0.0),
        buckets: "[]".to_string(),
        positive_spans: "[]".to_string(),
        positive_deltas: vec![],
        positive_counts: "[]".to_string(),
        negative_spans: "[]".to_string(),
        negative_deltas: vec![],
        negative_counts: "[]".to_string(),
    }
}

fn family(name: &str, metric_type: i32, metric: Vec<Series>) -> MetricFamily {
    MetricFamily { name: name.to_string(), metric_type, metric }
}

fn full_series() -> Series {
    Series {
        labels: vec![LabelEntry { key: "Method".to_string(), value: "GET x".to_string() }],
        counter: Some("3.5".to_string()),
        gauge: Some("-2".to_string()),
        histogram: Some(empty_histogram()),
    }
}

fn rows(families: Vec<MetricFamily>) -> Vec<(String, String, String, String)> {
    collect_samples(&families)
        .into_iter()
        .map(|sample| (sample.name, sample.kind.to_string(), sample.labels, sample.value))
        .collect()
}

#[test]
fn floating_counts_take_precedence() {
    let histogram = HistogramReadout {
        sample_count: 9,
        sample_count_float: float(2.5),
        zero_count: 8,
        zero_count_float: float(1.5),
        ..empty_histogram()
    };
    let values = histogram_values(&histogram);
    assert_eq!((values[0].name, values[0].value.as_str()), ("count", "2.5"));
    assert_eq!((values[4].name, values[4].value.as_str()), ("zero_count", "1.5"));
}

#[test]
fn integer_counts_stand_in_for_missing_floating_ones() {
    for value in [0.0, -0.0, -1.0, f64::NAN, -f64::NAN, f64::NEG_INFINITY] {
        let histogram = HistogramReadout {
            sample_count: 9,
            sample_count_float: float(value),
            zero_count: 8,
            zero_count_float: float(value),
            ..empty_histogram()
        };
        let values = histogram_values(&histogram);
        assert_eq!(values[0].value, "9");
        assert_eq!(values[4].value, "8");
    }
    let histogram = HistogramReadout {
        sample_count: 9,
        sample_count_float: float(f64::INFINITY),
        zero_count: 8,
        zero_count_float: float(f64::MIN_POSITIVE / 4.0),
        ..empty_histogram()
    };
    let values = histogram_values(&histogram);
    assert_eq!(values[0].value, "inf");
    assert_eq!(values[4].value, (f64::MIN_POSITIVE / 4.0).to_string());
}

#[test]
fn histograms_have_twelve_statistics() {
    let histogram = HistogramReadout {
        schema: -4,
        sample_sum: "12.5".to_string(),
        zero_threshold: "0.001".to_string(),
        buckets: "b".to_string(),
        positive_spans: "ps".to_string(),
        positive_deltas: vec![1, -2, 30],
        positive_counts: "pc".to_string(),
        negative_spans: "ns".to_string(),
        negative_deltas: vec![i64::MIN],
        negative_counts: "nc".to_string(),
        ..empty_histogram()
    };
    let values: Vec<(&str, String)> =
        histogram_values(&histogram).into_iter().map(|stat| (stat.name, stat.value)).collect();
    let expected = [
        ("count", "0"),
        ("sum", "12.5"),
        ("schema", "-4"),
        ("zero_threshold", "0.001"),
        ("zero_count", "0"),
        ("buckets", "b"),
        ("positive_spans", "ps"),
        ("positive_deltas", "[1, -2, 30]"),
        ("positive_counts", "pc"),
        ("negative_spans", "ns"),
        ("negative_deltas", "[-9223372036854775808]"),
        ("negative_counts", "nc"),
    ];
    assert_eq!(values, expected.map(|(name, value)| (name, value.to_string())));
}

#[test]
fn the_kind_of_a_family_selects_the_value() {
    let counter = rows(vec![family("Requests Total", 0, vec![full_series()])]);
    assert_eq!(
        counter,
        vec![(
            "requests_total".to_string(),
            "counter".to_string(),
            "method=get_x".to_string(),
            "3.5".to_string()
        )]
    );
    let gauge = rows(vec![family("temperature", 1, vec![full_series()])]);
    assert_eq!(gauge.len(), 1);
    assert_eq!((gauge[0].1.as_str(), gauge[0].3.as_str()), ("gauge", "-2"));
    let histogram = rows(vec![family("latency", 4, vec![full_series()])]);
    assert_eq!(histogram.len(), 12);
    assert_eq!(histogram[0].2, "method=get_x|stat=count");
    assert_eq!(histogram[3].2, "method=get_x|stat=zero_threshold");
    assert!(histogram.iter().all(|row| row.1 == "histogram"));
}

#[test]
fn other_kinds_and_missing_values_have_no_rows() {
    for metric_type in [-1, 2, 3, 5, 6, 2147483647] {
        assert!(rows(vec![family("other", metric_type, vec![full_series()])]).is_empty());
    }
    for metric_type in [0, 1, 4] {
        let series = Series { labels: Vec::new(), counter: None, gauge: None, histogram: None };
        assert!(rows(vec![family("missing", metric_type, vec![series])]).is_empty());
    }
}

#[test]
fn families_and_series_keep_their_order() {
    let bare = |value: &str| Series {
        labels: Vec::new(),
        counter: Some(value.to_string()),
        gauge: None,
        histogram: None,
    };
    let rows = rows(vec![
        family("z", 0, vec![bare("2"), bare("1")]),
        family("a", 0, vec![bare("3")]),
    ]);
    let listed: Vec<(&str, &str)> =
        rows.iter().map(|row| (row.0.as_str(), row.3.as_str())).collect();
    assert_eq!(listed, vec![("z", "2"), ("z", "1"), ("a", "3")]);
    assert_eq!(rows[0].2, "");
}
