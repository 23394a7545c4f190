//! Rows of metrics that come from Prometheus clients.
use metrics::Key;
use prometheus_client::encoding::prometheus_protobuf::prometheus_data_model::MetricType;
use vstd::prelude::*;

use crate::histogram::{stat_views, Stat, INFINITY_BITS};
use crate::key::{key_labels, key_name, label_views, metric_key, with_label, LabelEntry};
use crate::snapshot::{
    format_labels, format_name, labels_text, sample_views, MetricSample, SampleRow,
};
use crate::text::{
    bracketed, decimal, decimal_text, list_text, signed_decimal, signed_decimal_text,
};
use crate::util::sanitized;

verus! {

/// What the metrics of a family are.
#[derive(Clone, Copy, Debug, PartialEq, Eq, Structural)]
pub enum FamilyKind {
    Counter,
    Gauge,
    Summary,
    Untyped,
    Histogram,
    GaugeHistogram,
}

/// A double: its bits, and how it is written.
pub struct FloatText {
    pub bits: u64,
    pub text: String,
}

/// The state of a native or classic histogram.
pub struct HistogramReadout {
    pub sample_count: u64,
    pub sample_count_float: FloatText,
    pub sample_sum: String,
    pub schema: i32,
    pub zero_threshold: String,
    pub zero_count: u64,
    pub zero_count_float: FloatText,
    pub buckets: String,
    pub positive_spans: String,
    pub positive_deltas: Vec<i64>,
    pub positive_counts: String,
    pub negative_spans: String,
    pub negative_deltas: Vec<i64>,
    pub negative_counts: String,
}

/// One series of a family: its labels, and its value as each kind of metric.
pub struct Series {
    pub labels: Vec<LabelEntry>,
    pub counter: Option<String>,
    pub gauge: Option<String>,
    pub histogram: Option<HistogramReadout>,
}

/// A family of metrics that share a name and a kind.
pub struct MetricFamily {
    pub name: String,
    /// The number of the kind.
    pub metric_type: i32,
    pub metric: Vec<Series>,
}

/// Supplies current aggregates; repeated snapshots do not accumulate.
pub trait SnapshotSource: Send + Sync {
    /// The present state of all families.
    fn snapshot(&self) -> Vec<MetricFamily>;
}

/// The kind of that number.
pub open spec fn family_kind(number: i32) -> Option<FamilyKind> {
    if number == 0 {
        Some(FamilyKind::Counter)
    } else if number == 1 {
        Some(FamilyKind::Gauge)
    } else if number == 2 {
        Some(FamilyKind::Summary)
    } else if number == 3 {
        Some(FamilyKind::Untyped)
    } else if number == 4 {
        Some(FamilyKind::Histogram)
    } else if number == 5 {
        Some(FamilyKind::GaugeHistogram)
    } else {
        None
    }
}

/// `MetricType::try_from` of `prometheus_client`: the numbers from 0 to 5 stand for the kinds in
/// the order of the protocol, and no other number stands for one.
#[verifier::external_body]
fn kind_of_number(number: i32) -> (kind: Option<FamilyKind>)
    ensures
        kind == family_kind(number),
{
    match MetricType::try_from(number) {
        Ok(MetricType::Counter) => Some(FamilyKind::Counter),
        Ok(MetricType::Gauge) => Some(FamilyKind::Gauge),
        Ok(MetricType::Summary) => Some(FamilyKind::Summary),
        Ok(MetricType::Untyped) => Some(FamilyKind::Untyped),
        Ok(MetricType::Histogram) => Some(FamilyKind::Histogram),
        Ok(MetricType::GaugeHistogram) => Some(FamilyKind::GaugeHistogram),
        Err(_) => None,
    }
}

/// Whether a double with these bits is greater than zero.
pub open spec fn is_positive(bits: u64) -> bool {
    0 < bits <= INFINITY_BITS
}

/// How a count is written that may be given as a double: as the double, where that is greater
/// than zero.
pub open spec fn count_text(count: u64, float: FloatText) -> Seq<char> {
    if is_positive(float.bits) {
        float.text@
    } else {
        decimal(count as nat)
    }
}

/// The statistics of a histogram, each with its name.
pub open spec fn readout_stats(histogram: HistogramReadout) -> Seq<(Seq<char>, Seq<char>)> {
    seq![
        ("count"@, count_text(histogram.sample_count, histogram.sample_count_float)),
        ("sum"@, histogram.sample_sum@),
        ("schema"@, signed_decimal(histogram.schema as int)),
        ("zero_threshold"@, histogram.zero_threshold@),
        ("zero_count"@, count_text(histogram.zero_count, histogram.zero_count_float)),
        ("buckets"@, histogram.buckets@),
        ("positive_spans"@, histogram.positive_spans@),
        ("positive_deltas"@, bracketed(histogram.positive_deltas@)),
        ("positive_counts"@, histogram.positive_counts@),
        ("negative_spans"@, histogram.negative_spans@),
        ("negative_deltas"@, bracketed(histogram.negative_deltas@)),
        ("negative_counts"@, histogram.negative_counts@),
    ]
}

/// The row of one value.
pub open spec fn value_row(
    name: Seq<char>,
    labels: Seq<(Seq<char>, Seq<char>)>,
    kind: Seq<char>,
    value: Seq<char>,
) -> SampleRow {
    SampleRow { name: sanitized(name), kind, labels: labels_text(labels), value }
}

/// The rows of one series of a family of that name and kind: one for a counter or gauge, one for
/// each statistic of a histogram, and none for other kinds or where the value is missing.
pub open spec fn series_rows(name: Seq<char>, kind: Option<FamilyKind>, series: Series) -> Seq<
    SampleRow,
> {
    let labels = label_views(series.labels@);
    match kind {
        Some(FamilyKind::Counter) => match series.counter {
            Some(value) => seq![value_row(name, labels, "counter"@, value@)],
            None => Seq::empty(),
        },
        Some(FamilyKind::Gauge) => match series.gauge {
            Some(value) => seq![value_row(name, labels, "gauge"@, value@)],
            None => Seq::empty(),
        },
        Some(FamilyKind::Histogram) => match series.histogram {
            Some(histogram) => readout_stats(histogram).map_values(
                |stat: (Seq<char>, Seq<char>)|
                    value_row(name, labels.push(("stat"@, stat.0)), "histogram"@, stat.1),
            ),
            None => Seq::empty(),
        },
        _ => Seq::empty(),
    }
}

/// The rows of the first `n` series of a family.
pub open spec fn family_rows(family: MetricFamily, n: int) -> Seq<SampleRow>
    decreases n,
{
    if n <= 0 {
        Seq::empty()
    } else {
        family_rows(family, n - 1) + series_rows(
            family.name@,
            family_kind(family.metric_type),
            family.metric@[n - 1],
        )
    }
}

/// The rows of the first `n` families, in order.
pub open spec fn families_rows(families: Seq<MetricFamily>, n: int) -> Seq<SampleRow>
    decreases n,
{
    if n <= 0 {
        Seq::empty()
    } else {
        families_rows(families, n - 1) + family_rows(
            families[n - 1],
            families[n - 1].metric@.len() as int,
        )
    }
}

/// Writes a count that may be given as a double.
fn write_count(count: u64, float: &FloatText) -> (text: String)
    ensures
        text@ == count_text(count, *float),
{
    if 0 < float.bits && float.bits <= INFINITY_BITS {
        float.text.clone()
    } else {
        decimal_text(count)
    }
}

/// Lists the statistics of a histogram.
pub fn histogram_values(histogram: &HistogramReadout) -> (stats: Vec<Stat>)
    ensures
        stat_views(stats@) == readout_stats(*histogram),
{
    let count = write_count(histogram.sample_count, &histogram.sample_count_float);
    let zero_count = write_count(histogram.zero_count, &histogram.zero_count_float);
    let mut stats: Vec<Stat> = Vec::new();
    stats.push(Stat { name: "count", value: count });
    stats.push(Stat { name: "sum", value: histogram.sample_sum.clone() });
    stats.push(Stat { name: "schema", value: signed_decimal_text(histogram.schema as i64) });
    stats.push(Stat { name: "zero_threshold", value: histogram.zero_threshold.clone() });
    stats.push(Stat { name: "zero_count", value: zero_count });
    stats.push(Stat { name: "buckets", value: histogram.buckets.clone() });
    stats.push(Stat { name: "positive_spans", value: histogram.positive_spans.clone() });
    stats.push(Stat { name: "positive_deltas", value: list_text(&histogram.positive_deltas) });
    stats.push(Stat { name: "positive_counts", value: histogram.positive_counts.clone() });
    stats.push(Stat { name: "negative_spans", value: histogram.negative_spans.clone() });
    stats.push(Stat { name: "negative_deltas", value: list_text(&histogram.negative_deltas) });
    stats.push(Stat { name: "negative_counts", value: histogram.negative_counts.clone() });
    assert(stat_views(stats@) =~= readout_stats(*histogram));
    stats
}

/// The sample of one value of the metric of that key.
fn sample(key: &Key, kind: &'static str, value: String) -> (sample: MetricSample)
    ensures
        sample@ == value_row(key_name(*key), key_labels(*key), kind@, value@),
{
    MetricSample { name: format_name(key), kind, labels: format_labels(key), value }
}

/// Copies labels.
fn copy_labels(labels: &Vec<LabelEntry>) -> (copy: Vec<LabelEntry>)
    ensures
        label_views(copy@) == label_views(labels@),
{
    let ghost all = label_views(labels@);
    let mut copy: Vec<LabelEntry> = Vec::new();
    let mut i: usize = 0;
    assert(label_views(copy@) =~= all.take(0));
    while i < labels.len()
        invariant
            i <= labels@.len(),
            all == label_views(labels@),
            label_views(copy@) == all.take(i as int),
        decreases labels.len() - i,
    {
        let ghost before = copy@;
        let label = LabelEntry { key: labels[i].key.clone(), value: labels[i].value.clone() };
        assert(label@ == all[i as int]);
        copy.push(label);
        i = i + 1;
        assert(label_views(copy@) =~= label_views(before).push(label@));
        assert(all.take(i as int) =~= all.take(i - 1).push(all[i - 1]));
    }
    assert(all.take(all.len() as int) =~= all);
    copy
}

/// Appends the rows of the statistics of a histogram.
fn push_stats(samples: &mut Vec<MetricSample>, key: &Key, histogram: &HistogramReadout)
    ensures
        sample_views(final(samples)@) == sample_views(old(samples)@) + readout_stats(
            *histogram,
        ).map_values(
            |stat: (Seq<char>, Seq<char>)|
                value_row(
                    key_name(*key),
                    key_labels(*key).push(("stat"@, stat.0)),
                    "histogram"@,
                    stat.1,
                ),
        ),
{
    let stats = histogram_values(histogram);
    let ghost start = sample_views(samples@);
    let ghost rows = readout_stats(*histogram).map_values(
        |stat: (Seq<char>, Seq<char>)|
            value_row(
                key_name(*key),
                key_labels(*key).push(("stat"@, stat.0)),
                "histogram"@,
                stat.1,
            ),
    );
    let mut i: usize = 0;
    assert(stats@.len() == rows.len()) by {
        assert(stat_views(stats@).len() == stats@.len());
    }
    assert(sample_views(samples@) =~= start + rows.take(0));
    while i < stats.len()
        invariant
            i <= stats@.len(),
            stats@.len() == rows.len(),
            stat_views(stats@) == readout_stats(*histogram),
            rows == readout_stats(*histogram).map_values(
                |stat: (Seq<char>, Seq<char>)|
                    value_row(
                        key_name(*key),
                        key_labels(*key).push(("stat"@, stat.0)),
                        "histogram"@,
                        stat.1,
                    ),
            ),
            sample_views(samples@) == start + rows.take(i as int),
        decreases stats.len() - i,
    {
        let ghost earlier = samples@;
        let label = LabelEntry {
            key: "stat".to_string(),
            value: stats[i].name.to_string(),
        };
        let extended = with_label(key, label);
        let row = sample(&extended, "histogram", stats[i].value.clone());
        proof {
            assert(stat_views(stats@)[i as int] == stats@[i as int]@);
            assert(row@ == rows[i as int]);
        }
        samples.push(row);
        i = i + 1;
        assert(sample_views(samples@) =~= sample_views(earlier).push(row@));
        assert(rows.take(i as int) =~= rows.take(i - 1).push(rows[i - 1]));
        assert(sample_views(samples@) =~= start + rows.take(i as int));
    }
    assert(rows.take(rows.len() as int) =~= rows);
}

/// Appends the rows of one series.
fn push_series(
    samples: &mut Vec<MetricSample>,
    name: &String,
    kind: Option<FamilyKind>,
    series: &Series,
)
    ensures
        sample_views(final(samples)@) == sample_views(old(samples)@) + series_rows(
            name@,
            kind,
            *series,
        ),
{
    let ghost earlier = samples@;
    let key = metric_key(name.clone(), copy_labels(&series.labels));
    match kind {
        Some(FamilyKind::Counter) => {
            if let Some(value) = &series.counter {
                samples.push(sample(&key, "counter", value.clone()));
            }
        },
        Some(FamilyKind::Gauge) => {
            if let Some(value) = &series.gauge {
                samples.push(sample(&key, "gauge", value.clone()));
            }
        },
        Some(FamilyKind::Histogram) => {
            if let Some(histogram) = &series.histogram {
                push_stats(samples, &key, histogram);
            }
        },
        _ => {},
    }
    assert(sample_views(samples@) =~= sample_views(earlier) + series_rows(name@, kind, *series));
}

/// Lists the rows of families, in their order.
pub fn collect_samples(metrics: &Vec<MetricFamily>) -> (samples: Vec<MetricSample>)
    ensures
        sample_views(samples@) == families_rows(metrics@, metrics@.len() as int),
{
    let mut samples: Vec<MetricSample> = Vec::new();
    let mut i: usize = 0;
    assert(sample_views(samples@) =~= families_rows(metrics@, 0));
    while i < metrics.len()
        invariant
            i <= metrics@.len(),
            sample_views(samples@) == families_rows(metrics@, i as int),
        decreases metrics.len() - i,
    {
        let family = &metrics[i];
        let kind = kind_of_number(family.metric_type);
        let ghost start = sample_views(samples@);
        let mut j: usize = 0;
        assert(sample_views(samples@) =~= start + family_rows(*family, 0));
        while j < family.metric.len()
            invariant
                j <= family.metric@.len(),
                kind == family_kind(family.metric_type),
                sample_views(samples@) == start + family_rows(*family, j as int),
            decreases family.metric.len() - j,
        {
            push_series(&mut samples, &family.name, kind, &family.metric[j]);
            j = j + 1;
            assert(sample_views(samples@) =~= start + family_rows(*family, j as int));
        }
        i = i + 1;
    }
    samples
}

/// A count that may be given as a double is so exactly if the double is greater than zero: without
/// the sign, not zero, and a number.
pub proof fn positive_doubles_are_told_by_their_bits(bits: u64)
    ensures
        is_positive(bits) <==> bits >> 63 == 0 && bits != 0 && !((bits >> 52) & 0x7ff == 0x7ff
            && bits & 0xf_ffff_ffff_ffff != 0),
{
    assert(0 < bits <= 0x7ff0_0000_0000_0000u64 <==> bits >> 63 == 0 && bits != 0 && !((bits >> 52)
        & 0x7ff == 0x7ff && bits & 0xf_ffff_ffff_ffff != 0)) by (bit_vector);
}

/// The rows of families are those of their series, one after the other, in the order of the families
/// and of the series in each.
pub proof fn families_are_told_in_order(metrics: Seq<MetricFamily>)
    ensures
        families_rows(metrics, metrics.len() as int) == metrics.map_values(
            |family: MetricFamily|
                family.metric@.map_values(
                    |series: Series|
                        series_rows(family.name@, family_kind(family.metric_type), series),
                ).flatten(),
        ).flatten(),
{
    families_are_flattened(metrics, metrics.len() as int);
    assert(metrics.take(metrics.len() as int) =~= metrics);
}

proof fn families_are_flattened(metrics: Seq<MetricFamily>, n: int)
    requires
        0 <= n <= metrics.len(),
    ensures
        families_rows(metrics, n) == metrics.take(n).map_values(
            |family: MetricFamily|
                family.metric@.map_values(
                    |series: Series|
                        series_rows(family.name@, family_kind(family.metric_type), series),
                ).flatten(),
        ).flatten(),
    decreases n,
{
    let list = |family: MetricFamily|
        family.metric@.map_values(
            |series: Series| series_rows(family.name@, family_kind(family.metric_type), series),
        ).flatten();
    let lists = metrics.take(n).map_values(list);
    lists.lemma_flatten_and_flatten_alt_are_equivalent();
    if n > 0 {
        families_are_flattened(metrics, n - 1);
        let fewer = metrics.take(n - 1).map_values(list);
        fewer.lemma_flatten_and_flatten_alt_are_equivalent();
        assert(lists.drop_last() =~= fewer);
        let family = metrics[n - 1];
        series_are_flattened(family, family.metric@.len() as int);
        assert(family.metric@.take(family.metric@.len() as int) =~= family.metric@);
        assert(lists.last() == list(family));
    } else {
        assert(lists =~= Seq::empty());
    }
}

proof fn series_are_flattened(family: MetricFamily, n: int)
    requires
        0 <= n <= family.metric@.len(),
    ensures
        family_rows(family, n) == family.metric@.take(n).map_values(
            |series: Series| series_rows(family.name@, family_kind(family.metric_type), series),
        ).flatten(),
    decreases n,
{
    let list = |series: Series|
        series_rows(family.name@, family_kind(family.metric_type), series);
    let lists = family.metric@.take(n).map_values(list);
    lists.lemma_flatten_and_flatten_alt_are_equivalent();
    if n > 0 {
        series_are_flattened(family, n - 1);
        let fewer = family.metric@.take(n - 1).map_values(list);
        fewer.lemma_flatten_and_flatten_alt_are_equivalent();
        assert(lists.drop_last() =~= fewer);
        assert(lists.last() == list(family.metric@[n - 1]));
    } else {
        assert(lists =~= Seq::empty());
    }
}

/// Whether rows are the row of one value, if there is a value.
pub open spec fn tell_value(
    rows: Seq<SampleRow>,
    name: Seq<char>,
    labels: Seq<(Seq<char>, Seq<char>)>,
    kind: Seq<char>,
    value: Option<String>,
) -> bool {
    match value {
        None => rows.len() == 0,
        Some(value) => rows == seq![
            SampleRow { name: sanitized(name), kind, labels: labels_text(labels), value: value@ },
        ],
    }
}

/// Whether row `i` tells the statistic of that name, whose label comes last.
pub open spec fn tells_stat(
    rows: Seq<SampleRow>,
    i: int,
    name: Seq<char>,
    labels: Seq<(Seq<char>, Seq<char>)>,
    stat: Seq<char>,
    value: Seq<char>,
) -> bool {
    rows[i] == SampleRow {
        name: sanitized(name),
        kind: "histogram"@,
        labels: labels_text(labels.push(("stat"@, stat))),
        value,
    }
}

/// How a count is told: as the double that stands for it, where that is greater than zero.
pub open spec fn told_count(count: u64, float: FloatText) -> Seq<char> {
    if float.bits > 0 && float.bits <= 0x7ff0_0000_0000_0000 {
        float.text@
    } else {
        decimal(count as nat)
    }
}

/// Whether rows tell a histogram: twelve statistics, each under its own name.
pub open spec fn tell_histogram(
    rows: Seq<SampleRow>,
    name: Seq<char>,
    labels: Seq<(Seq<char>, Seq<char>)>,
    h: HistogramReadout,
) -> bool {
    let count = told_count(h.sample_count, h.sample_count_float);
    let zero_count = told_count(h.zero_count, h.zero_count_float);
    let schema = signed_decimal(h.schema as int);
    let positive = bracketed(h.positive_deltas@);
    let negative = bracketed(h.negative_deltas@);
    &&& rows.len() == 12
    &&& tells_stat(rows, 0, name, labels, "count"@, count)
    &&& tells_stat(rows, 1, name, labels, "sum"@, h.sample_sum@)
    &&& tells_stat(rows, 2, name, labels, "schema"@, schema)
    &&& tells_stat(rows, 3, name, labels, "zero_threshold"@, h.zero_threshold@)
    &&& tells_stat(rows, 4, name, labels, "zero_count"@, zero_count)
    &&& tells_stat(rows, 5, name, labels, "buckets"@, h.buckets@)
    &&& tells_stat(rows, 6, name, labels, "positive_spans"@, h.positive_spans@)
    &&& tells_stat(rows, 7, name, labels, "positive_deltas"@, positive)
    &&& tells_stat(rows, 8, name, labels, "positive_counts"@, h.positive_counts@)
    &&& tells_stat(rows, 9, name, labels, "negative_spans"@, h.negative_spans@)
    &&& tells_stat(rows, 10, name, labels, "negative_deltas"@, negative)
    &&& tells_stat(rows, 11, name, labels, "negative_counts"@, h.negative_counts@)
}

/// A series is told by the value that the kind of its family asks for: a counter or a gauge by one
/// row, a histogram by all its statistics. Other kinds, and missing values, have no rows.
pub proof fn series_are_told_by_their_kind(name: Seq<char>, number: i32, series: Series)
    ensures
        ({
            let rows = series_rows(name, family_kind(number), series);
            let labels = label_views(series.labels@);
            &&& number == 0 ==> tell_value(rows, name, labels, "counter"@, series.counter)
            &&& number == 1 ==> tell_value(rows, name, labels, "gauge"@, series.gauge)
            &&& number == 4 ==> match series.histogram {
                None => rows.len() == 0,
                Some(histogram) => tell_histogram(rows, name, labels, histogram),
            }
            &&& number != 0 && number != 1 && number != 4 ==> rows.len() == 0
        }),
{
}

} // verus!
