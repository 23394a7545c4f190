//! Snapshots: the rows that the present state of all metrics is written as.
use metrics::Key;
use vstd::prelude::*;

use crate::histogram::{
    are_stats_of, count_is_always_present, finite_samples, histogram_stats, stat_views, Spread, Stat,
};
use crate::key::{key_labels, key_name, label_views, labels_of, name_of, LabelEntry};
use crate::order::{compare_text, key_lt, Order};
use crate::registry::{
    counter_list, counter_readings, counter_visits, gauge_list, gauge_readings, gauge_visits,
    histogram_list, histogram_visits, initial_metrics, take_histogram_readings, CounterReading,
    GaugeReading, HistogramReading, MetricRegistry, Reading, Round, Visit,
};
use crate::sorting::{
    arranged, indices, is_stable_sort, keys_of, sort_order, sorts, stable_sort_ignores_arrival_order,
    stable_sort_keeps_items, Keyed,
};
use crate::text::{
    concat3, decimal, decimal_text, free_of, joined, joined_is_injective, record_views,
    split_at_first_is_unique, views,
};
use crate::clock::was_shown;
use crate::timestamp::{current_timestamp, is_clock_time, is_timestamp_at};
use crate::util::{
    sanitize_component, sanitized, sanitized_is_clean, sanitized_preserves_other_characters,
    write_sanitized_component,
};

verus! {

/// One row of a snapshot, without its timestamp.
pub struct MetricSample {
    pub name: String,
    pub kind: &'static str,
    pub labels: String,
    pub value: String,
}

/// What a row of a snapshot says.
pub struct SampleRow {
    pub name: Seq<char>,
    pub kind: Seq<char>,
    pub labels: Seq<char>,
    pub value: Seq<char>,
}

impl SampleRow {
    /// The texts by which rows are sorted.
    pub open spec fn key(self) -> Seq<Seq<char>> {
        seq![self.name, self.labels, self.kind]
    }
}

impl View for MetricSample {
    type V = SampleRow;

    open spec fn view(&self) -> SampleRow {
        SampleRow {
            name: self.name@,
            kind: self.kind@,
            labels: self.labels@,
            value: self.value@,
        }
    }
}

/// What a list of rows says.
pub open spec fn sample_views(samples: Seq<MetricSample>) -> Seq<SampleRow> {
    samples.map_values(|sample: MetricSample| sample@)
}

/// The texts by which each of these rows is sorted.
pub open spec fn row_keys(rows: Seq<SampleRow>) -> Seq<Seq<Seq<char>>> {
    rows.map_values(|row: SampleRow| row.key())
}

impl Clone for MetricSample {
    fn clone(&self) -> (copy: Self)
        ensures
            copy == *self,
    {
        MetricSample {
            name: self.name.clone(),
            kind: self.kind,
            labels: self.labels.clone(),
            value: self.value.clone(),
        }
    }
}

impl Keyed for MetricSample {
    open spec fn key(&self) -> Seq<Seq<char>> {
        self@.key()
    }

    fn compare(&self, other: &Self) -> (order: Order) {
        let ghost a = self@.key();
        let ghost b = other@.key();
        proof {
            reveal_with_fuel(key_lt, 4);
            assert(a.drop_first() =~= seq![self@.labels, self@.kind]);
            assert(b.drop_first() =~= seq![other@.labels, other@.kind]);
            assert(a.drop_first().drop_first() =~= seq![self@.kind]);
            assert(b.drop_first().drop_first() =~= seq![other@.kind]);
            assert(a == b ==> a[0] == b[0] && a[1] == b[1] && a[2] == b[2]);
            if a[0] == b[0] && a[1] == b[1] && a[2] == b[2] {
                assert(a =~= b);
            }
        }
        match compare_text(self.name.as_str(), other.name.as_str()) {
            Order::Equal => match compare_text(self.labels.as_str(), other.labels.as_str()) {
                Order::Equal => compare_text(self.kind, other.kind),
                order => order,
            },
            order => order,
        }
    }
}

/// What one label is written as.
pub open spec fn label_text(label: (Seq<char>, Seq<char>)) -> Seq<char> {
    sanitized(label.0).push('=') + sanitized(label.1)
}

/// What a list of labels is written as.
pub open spec fn labels_text(labels: Seq<(Seq<char>, Seq<char>)>) -> Seq<char> {
    joined(labels.map_values(|label: (Seq<char>, Seq<char>)| label_text(label)), '|')
}

/// What the labels of a histogram row are written as: those of the histogram, then the statistic.
pub open spec fn stat_labels(labels: Seq<char>, stat: Seq<char>) -> Seq<char> {
    if labels.len() == 0 {
        "stat="@ + stat
    } else {
        labels + "|stat="@ + stat
    }
}

impl LabelEntry {
    /// Appends the label as it is written.
    pub fn write_to(&self, out: &mut String)
        ensures
            final(out)@ == old(out)@ + label_text(self@),
    {
        let ghost before = out@;
        write_sanitized_component(out, self.key.as_str());
        out.push('=');
        write_sanitized_component(out, self.value.as_str());
        assert(out@ =~= before + label_text(self@));
    }
}

/// Writes the name of a metric.
pub fn format_name(key: &Key) -> (text: String)
    ensures
        text@ == sanitized(key_name(*key)),
{
    sanitize_component(name_of(key).as_str())
}

/// Writes a list of labels.
pub fn format_label_entries(labels: &Vec<LabelEntry>) -> (text: String)
    ensures
        text@ == labels_text(label_views(labels@)),
{
    let mut text = String::new();
    let ghost all = label_views(labels@).map_values(
        |label: (Seq<char>, Seq<char>)| label_text(label),
    );
    let mut i: usize = 0;
    assert(all.take(0) =~= Seq::<Seq<char>>::empty());
    while i < labels.len()
        invariant
            i <= labels@.len(),
            all == label_views(labels@).map_values(
                |label: (Seq<char>, Seq<char>)| label_text(label),
            ),
            text@ == joined(all.take(i as int), '|'),
        decreases labels.len() - i,
    {
        let ghost before = text@;
        if i > 0 {
            text.push('|');
        }
        labels[i].write_to(&mut text);
        i = i + 1;
        proof {
            assert(all.take(i as int).drop_last() =~= all.take(i - 1));
            assert(all.take(i as int).last() == label_text(labels@[i - 1]@));
            assert(text@ =~= joined(all.take(i as int), '|'));
        }
    }
    assert(all.take(labels@.len() as int) =~= all);
    text
}

/// Writes the labels of a metric, in the order in which its key holds them.
pub fn format_labels(key: &Key) -> (text: String)
    ensures
        text@ == labels_text(key_labels(*key)),
{
    format_label_entries(&labels_of(key))
}

/// Writes the labels of a histogram row.
pub fn format_stat_labels(labels: &str, stat: &str) -> (text: String)
    ensures
        text@ == stat_labels(labels@, stat@),
{
    if labels.is_empty() {
        let mut text = "stat=".to_string();
        text.append(stat);
        text
    } else {
        concat3(labels, "|stat=", stat)
    }
}

/// The value of a gauge, as it is written.
pub struct GaugeValue {
    pub key: Key,
    pub value: String,
}

/// The statistics of a histogram, as they are written.
pub struct HistogramValue {
    pub key: Key,
    pub stats: Vec<Stat>,
}

/// The row of a counter.
pub open spec fn counter_row(counter: CounterReading) -> SampleRow {
    SampleRow {
        name: sanitized(key_name(counter.key)),
        kind: "counter"@,
        labels: labels_text(key_labels(counter.key)),
        value: decimal(counter.value as nat),
    }
}

/// The row of a gauge.
pub open spec fn gauge_row(gauge: GaugeValue) -> SampleRow {
    SampleRow {
        name: sanitized(key_name(gauge.key)),
        kind: "gauge"@,
        labels: labels_text(key_labels(gauge.key)),
        value: gauge.value@,
    }
}

/// The row of one statistic of the histogram of that key.
pub open spec fn stat_row(key: Key, stat: (Seq<char>, Seq<char>)) -> SampleRow {
    SampleRow {
        name: sanitized(key_name(key)),
        kind: "histogram"@,
        labels: stat_labels(labels_text(key_labels(key)), stat.0),
        value: stat.1,
    }
}

/// The rows of a histogram: one for each statistic.
pub open spec fn histogram_value_rows(histogram: HistogramValue) -> Seq<SampleRow> {
    stat_views(histogram.stats@).map_values(
        |stat: (Seq<char>, Seq<char>)| stat_row(histogram.key, stat),
    )
}

/// The rows of all these histograms, one after the other.
pub open spec fn all_histogram_rows(histograms: Seq<HistogramValue>) -> Seq<SampleRow>
    decreases histograms.len(),
{
    if histograms.len() == 0 {
        Seq::empty()
    } else {
        all_histogram_rows(histograms.drop_last()) + histogram_value_rows(histograms.last())
    }
}

/// All rows of a snapshot, before they are sorted.
pub open spec fn unsorted_rows(
    counters: Seq<CounterReading>,
    gauges: Seq<GaugeValue>,
    histograms: Seq<HistogramValue>,
) -> Seq<SampleRow> {
    counters.map_values(|counter: CounterReading| counter_row(counter)) + gauges.map_values(
        |gauge: GaugeValue| gauge_row(gauge),
    ) + all_histogram_rows(histograms)
}

/// Appends the rows of the counters.
fn push_counters(samples: &mut Vec<MetricSample>, counters: &Vec<CounterReading>)
    ensures
        sample_views(final(samples)@) == sample_views(old(samples)@) + counters@.map_values(
            |counter: CounterReading| counter_row(counter),
        ),
{
    let ghost start = sample_views(samples@);
    let ghost rows = counters@.map_values(|counter: CounterReading| counter_row(counter));
    let mut i: usize = 0;
    assert(sample_views(samples@) =~= start + rows.take(0));
    while i < counters.len()
        invariant
            i <= counters@.len(),
            rows == counters@.map_values(|counter: CounterReading| counter_row(counter)),
            sample_views(samples@) == start + rows.take(i as int),
        decreases counters.len() - i,
    {
        let ghost earlier = samples@;
        let sample = MetricSample {
            name: format_name(&counters[i].key),
            kind: "counter",
            labels: format_labels(&counters[i].key),
            value: decimal_text(counters[i].value),
        };
        assert(sample@ == rows[i as int]);
        samples.push(sample);
        i = i + 1;
        assert(sample_views(samples@) =~= sample_views(earlier).push(sample@));
        assert(rows.take(i as int) =~= rows.take(i - 1).push(rows[i - 1]));
        assert(sample_views(samples@) =~= start + rows.take(i as int));
    }
    assert(rows.take(rows.len() as int) =~= rows);
}

/// Appends the rows of the gauges.
fn push_gauges(samples: &mut Vec<MetricSample>, gauges: &Vec<GaugeValue>)
    ensures
        sample_views(final(samples)@) == sample_views(old(samples)@) + gauges@.map_values(
            |gauge: GaugeValue| gauge_row(gauge),
        ),
{
    let ghost start = sample_views(samples@);
    let ghost rows = gauges@.map_values(|gauge: GaugeValue| gauge_row(gauge));
    let mut i: usize = 0;
    assert(sample_views(samples@) =~= start + rows.take(0));
    while i < gauges.len()
        invariant
            i <= gauges@.len(),
            rows == gauges@.map_values(|gauge: GaugeValue| gauge_row(gauge)),
            sample_views(samples@) == start + rows.take(i as int),
        decreases gauges.len() - i,
    {
        let ghost earlier = samples@;
        let sample = MetricSample {
            name: format_name(&gauges[i].key),
            kind: "gauge",
            labels: format_labels(&gauges[i].key),
            value: gauges[i].value.clone(),
        };
        assert(sample@ == rows[i as int]);
        samples.push(sample);
        i = i + 1;
        assert(sample_views(samples@) =~= sample_views(earlier).push(sample@));
        assert(rows.take(i as int) =~= rows.take(i - 1).push(rows[i - 1]));
        assert(sample_views(samples@) =~= start + rows.take(i as int));
    }
    assert(rows.take(rows.len() as int) =~= rows);
}

/// Appends the rows of one histogram.
fn push_histogram(samples: &mut Vec<MetricSample>, histogram: &HistogramValue)
    ensures
        sample_views(final(samples)@) == sample_views(old(samples)@) + histogram_value_rows(
            *histogram,
        ),
{
    let ghost start = sample_views(samples@);
    let ghost rows = histogram_value_rows(*histogram);
    let name = format_name(&histogram.key);
    let labels = format_labels(&histogram.key);
    let mut i: usize = 0;
    assert(sample_views(samples@) =~= start + rows.take(0));
    while i < histogram.stats.len()
        invariant
            i <= histogram.stats@.len(),
            name@ == sanitized(key_name(histogram.key)),
            labels@ == labels_text(key_labels(histogram.key)),
            rows == histogram_value_rows(*histogram),
            sample_views(samples@) == start + rows.take(i as int),
        decreases histogram.stats.len() - i,
    {
        let ghost earlier = samples@;
        let sample = MetricSample {
            name: name.clone(),
            kind: "histogram",
            labels: format_stat_labels(labels.as_str(), histogram.stats[i].name),
            value: histogram.stats[i].value.clone(),
        };
        assert(sample@ == rows[i as int]);
        samples.push(sample);
        i = i + 1;
        assert(sample_views(samples@) =~= sample_views(earlier).push(sample@));
        assert(rows.take(i as int) =~= rows.take(i - 1).push(rows[i - 1]));
        assert(sample_views(samples@) =~= start + rows.take(i as int));
    }
    assert(rows.take(rows.len() as int) =~= rows);
}

/// Appends the rows of the histograms.
fn push_histograms(samples: &mut Vec<MetricSample>, histograms: &Vec<HistogramValue>)
    ensures
        sample_views(final(samples)@) == sample_views(old(samples)@) + all_histogram_rows(
            histograms@,
        ),
{
    let ghost start = sample_views(samples@);
    let mut i: usize = 0;
    assert(histograms@.take(0) =~= Seq::<HistogramValue>::empty());
    assert(sample_views(samples@) =~= start + all_histogram_rows(histograms@.take(0)));
    while i < histograms.len()
        invariant
            i <= histograms@.len(),
            sample_views(samples@) == start + all_histogram_rows(histograms@.take(i as int)),
        decreases histograms.len() - i,
    {
        push_histogram(samples, &histograms[i]);
        i = i + 1;
        assert(histograms@.take(i as int).drop_last() =~= histograms@.take(i - 1));
        assert(sample_views(samples@) =~= start + all_histogram_rows(histograms@.take(i as int)));
    }
    assert(histograms@.take(histograms@.len() as int) =~= histograms@);
}

/// Sorts rows by name, then labels, then kind; equal ones stay in their order.
pub fn sort_samples(samples: &Vec<MetricSample>) -> (sorted: Vec<MetricSample>)
    ensures
        is_stable_sort(
            row_keys(sample_views(samples@)),
            sample_views(samples@),
            sample_views(sorted@),
        ),
{
    let order = sort_order(samples);
    let ghost rows = sample_views(samples@);
    assert(keys_of(samples@) =~= row_keys(rows));
    let mut sorted: Vec<MetricSample> = Vec::new();
    let mut i: usize = 0;
    while i < order.len()
        invariant
            i <= order@.len(),
            rows == sample_views(samples@),
            sorts(indices(order@), row_keys(rows)),
            sorted@.len() == i,
            forall|a: int| 0 <= a < i ==> (#[trigger] sorted@[a])@ == rows[order@[a] as int],
        decreases order.len() - i,
    {
        let at: usize = order[i];
        assert(indices(order@)[i as int] == at);
        sorted.push(samples[at].clone());
        i = i + 1;
    }
    assert(sample_views(sorted@) =~= arranged(rows, indices(order@)));
    sorted
}

/// Lists the rows of these values, sorted by name, then labels, then kind.
pub fn sorted_samples(
    counters: &Vec<CounterReading>,
    gauges: &Vec<GaugeValue>,
    histograms: &Vec<HistogramValue>,
) -> (samples: Vec<MetricSample>)
    ensures
        is_stable_sort(
            row_keys(unsorted_rows(counters@, gauges@, histograms@)),
            unsorted_rows(counters@, gauges@, histograms@),
            sample_views(samples@),
        ),
{
    let mut samples: Vec<MetricSample> = Vec::new();
    push_counters(&mut samples, counters);
    push_gauges(&mut samples, gauges);
    push_histograms(&mut samples, histograms);
    assert(sample_views(samples@) =~= unsorted_rows(counters@, gauges@, histograms@));
    sort_samples(&samples)
}

/// Whether `values` are `readings` with each value written as `float_text` may answer for it.
pub open spec fn are_gauge_values<F: Fn(u64) -> String>(
    readings: Seq<GaugeReading>,
    float_text: F,
    values: Seq<GaugeValue>,
) -> bool {
    &&& values.len() == readings.len()
    &&& forall|i: int|
        0 <= i < values.len() ==> (#[trigger] values[i]).key == readings[i].key && call_ensures(
            float_text,
            (readings[i].bits,),
            values[i].value,
        )
}

/// Whether `values` are `readings` with the samples of each summed up as `summarize` may answer
/// for them.
pub open spec fn are_histogram_values<S: Fn(Vec<u64>) -> Spread>(
    readings: Seq<HistogramReading>,
    summarize: S,
    values: Seq<HistogramValue>,
) -> bool {
    &&& values.len() == readings.len()
    &&& forall|i: int|
        0 <= i < values.len() ==> (#[trigger] values[i]).key == readings[i].key && are_stats_of(
            readings[i].samples@,
            summarize,
            stat_views(values[i].stats@),
        )
}

/// Whether `rows` is a snapshot of these readings: a row for each counter and gauge and for each
/// statistic of each histogram, sorted by name, then labels, then kind.
pub open spec fn is_snapshot<F: Fn(u64) -> String, S: Fn(Vec<u64>) -> Spread>(
    counters: Seq<CounterReading>,
    gauges: Seq<GaugeReading>,
    histograms: Seq<HistogramReading>,
    float_text: F,
    summarize: S,
    rows: Seq<SampleRow>,
) -> bool {
    exists|gauge_values: Seq<GaugeValue>, histogram_values: Seq<HistogramValue>| #[trigger]
        are_gauge_values(gauges, float_text, gauge_values) && #[trigger] are_histogram_values(
            histograms,
            summarize,
            histogram_values,
        ) && is_stable_sort(
            row_keys(unsorted_rows(counters, gauge_values, histogram_values)),
            unsorted_rows(counters, gauge_values, histogram_values),
            rows,
        )
}

/// The gauges and histograms of a snapshot, as they are written.
pub proof fn values_behind<F: Fn(u64) -> String, S: Fn(Vec<u64>) -> Spread>(
    counters: Seq<CounterReading>,
    gauges: Seq<GaugeReading>,
    histograms: Seq<HistogramReading>,
    float_text: F,
    summarize: S,
    rows: Seq<SampleRow>,
) -> (values: (Seq<GaugeValue>, Seq<HistogramValue>))
    requires
        is_snapshot(counters, gauges, histograms, float_text, summarize, rows),
    ensures
        are_gauge_values(gauges, float_text, values.0),
        are_histogram_values(histograms, summarize, values.1),
        is_stable_sort(
            row_keys(unsorted_rows(counters, values.0, values.1)),
            unsorted_rows(counters, values.0, values.1),
            rows,
        ),
{
    choose|gauge_values: Seq<GaugeValue>, histogram_values: Seq<HistogramValue>| #[trigger]
        are_gauge_values(gauges, float_text, gauge_values) && #[trigger] are_histogram_values(
            histograms,
            summarize,
            histogram_values,
        ) && is_stable_sort(
            row_keys(unsorted_rows(counters, gauge_values, histogram_values)),
            unsorted_rows(counters, gauge_values, histogram_values),
            rows,
        )
}

/// Whether `rows` is a snapshot of what was read.
pub open spec fn is_snapshot_of<F: Fn(u64) -> String, S: Fn(Vec<u64>) -> Spread>(
    reading: Reading,
    float_text: F,
    summarize: S,
    rows: Seq<SampleRow>,
) -> bool {
    is_snapshot(
        reading.counters,
        reading.gauges,
        reading.histograms,
        float_text,
        summarize,
        rows,
    )
}

/// Writes the values of gauges.
fn gauge_values<F: Fn(u64) -> String>(readings: Vec<GaugeReading>, float_text: &F) -> (values: Vec<
    GaugeValue,
>)
    requires
        forall|bits: u64| #[trigger] call_requires(*float_text, (bits,)),
    ensures
        are_gauge_values(readings@, *float_text, values@),
{
    let mut values: Vec<GaugeValue> = Vec::new();
    for reading in it: readings
        invariant
            it.seq() == readings@,
            forall|bits: u64| #[trigger] call_requires(*float_text, (bits,)),
            are_gauge_values(readings@.take(it.index() as int), *float_text, values@),
    {
        let value = float_text(reading.bits);
        values.push(GaugeValue { key: reading.key, value });
        assert(readings@.take(it.index() as int + 1).drop_last() =~= readings@.take(
            it.index() as int,
        ));
    }
    assert(readings@.take(readings@.len() as int) =~= readings@);
    values
}

/// Sums up the samples of histograms.
fn histogram_values<S: Fn(Vec<u64>) -> Spread>(
    readings: Vec<HistogramReading>,
    summarize: &S,
) -> (values: Vec<HistogramValue>)
    requires
        forall|finite: Vec<u64>|
            finite@.len() > 0 ==> #[trigger] call_requires(*summarize, (finite,)),
    ensures
        are_histogram_values(readings@, *summarize, values@),
{
    let mut values: Vec<HistogramValue> = Vec::new();
    for reading in it: readings
        invariant
            it.seq() == readings@,
            forall|finite: Vec<u64>|
                finite@.len() > 0 ==> #[trigger] call_requires(*summarize, (finite,)),
            are_histogram_values(readings@.take(it.index() as int), *summarize, values@),
    {
        let stats = histogram_stats(&reading.samples, summarize);
        values.push(HistogramValue { key: reading.key, stats });
        assert(readings@.take(it.index() as int + 1).drop_last() =~= readings@.take(
            it.index() as int,
        ));
    }
    assert(readings@.take(readings@.len() as int) =~= readings@);
    values
}

/// Lists the rows of a snapshot of these readings. `float_text` writes a double, given by its
/// bits; `summarize` computes the order statistics of finite samples.
pub fn samples_of_readings<F: Fn(u64) -> String, S: Fn(Vec<u64>) -> Spread>(
    counters: &Vec<CounterReading>,
    gauges: Vec<GaugeReading>,
    histograms: Vec<HistogramReading>,
    float_text: &F,
    summarize: &S,
) -> (samples: Vec<MetricSample>)
    requires
        forall|bits: u64| #[trigger] call_requires(*float_text, (bits,)),
        forall|finite: Vec<u64>|
            finite@.len() > 0 ==> #[trigger] call_requires(*summarize, (finite,)),
    ensures
        is_snapshot(
            counters@,
            gauges@,
            histograms@,
            *float_text,
            *summarize,
            sample_views(samples@),
        ),
{
    let gauges = gauge_values(gauges, float_text);
    let histograms = histogram_values(histograms, summarize);
    sorted_samples(counters, &gauges, &histograms)
}

/// Lists the rows of all metrics that are read in a round. Whatever the registry holds, the rows are
/// those of what was read from it; the samples that are taken out of the histograms are those that
/// the rows count, since a round takes them out once.
pub fn samples_of_round<F: Fn(u64) -> String, S: Fn(Vec<u64>) -> Spread>(
    round: Round<'_>,
    float_text: &F,
    summarize: &S,
) -> (samples: Vec<MetricSample>)
    requires
        forall|bits: u64| #[trigger] call_requires(*float_text, (bits,)),
        forall|finite: Vec<u64>|
            finite@.len() > 0 ==> #[trigger] call_requires(*summarize, (finite,)),
    ensures
        exists|reading: Reading| #[trigger]
            reading.was_read(round.registry()) && is_snapshot_of(
                reading,
                *float_text,
                *summarize,
                sample_views(samples@),
            ),
{
    let ghost registry = round.registry();
    let counters = counter_readings(&round);
    let gauges = gauge_readings(&round);
    let histograms = take_histogram_readings(round);
    let ghost reading = Reading {
        counters: counters@,
        gauges: gauges@,
        histograms: histograms@,
        counter_visit: choose|visit: Visit<u64>| #[trigger]
            counter_visits(registry).contains(visit) && visit.sampled(
                counter_list(counters@),
                initial_metrics(registry),
            ),
        gauge_visit: choose|visit: Visit<u64>| #[trigger]
            gauge_visits(registry).contains(visit) && visit.sampled(
                gauge_list(gauges@),
                initial_metrics(registry),
            ),
        histogram_visit: choose|visit: Visit<Seq<u64>>| #[trigger]
            histogram_visits(registry).contains(visit) && visit.drained(
                histogram_list(histograms@),
                initial_metrics(registry),
            ),
    };
    assert(reading.was_read(registry));
    samples_of_readings(&counters, gauges, histograms, float_text, summarize)
}

/// Takes a snapshot of all metrics: counters and gauges as they are, histograms by the samples
/// that were recorded since the last snapshot. Whatever the registry holds, the rows are those of
/// what was read from it.
pub fn collect_samples<F: Fn(u64) -> String, S: Fn(Vec<u64>) -> Spread>(
    registry: &MetricRegistry,
    float_text: &F,
    summarize: &S,
) -> (samples: Vec<MetricSample>)
    requires
        forall|bits: u64| #[trigger] call_requires(*float_text, (bits,)),
        forall|finite: Vec<u64>|
            finite@.len() > 0 ==> #[trigger] call_requires(*summarize, (finite,)),
    ensures
        exists|reading: Reading| #[trigger]
            reading.was_read(*registry) && is_snapshot_of(
                reading,
                *float_text,
                *summarize,
                sample_views(samples@),
            ),
{
    samples_of_round(Round::start(registry), float_text, summarize)
}

/// The cells of a row that is written at that time.
pub open spec fn record_of(timestamp: Seq<char>, row: SampleRow) -> Seq<Seq<char>> {
    seq![timestamp, row.name, row.kind, row.labels, row.value]
}

/// Lists the records of a snapshot that is written at that time: one for each row.
pub fn snapshot_records(timestamp: &str, samples: &Vec<MetricSample>) -> (records: Vec<Vec<String>>)
    ensures
        record_views(records@) == sample_views(samples@).map_values(
            |row: SampleRow| record_of(timestamp@, row),
        ),
{
    let mut records: Vec<Vec<String>> = Vec::new();
    let ghost rows = sample_views(samples@);
    let mut i: usize = 0;
    while i < samples.len()
        invariant
            i <= samples@.len(),
            rows == sample_views(samples@),
            records@.len() == i,
            forall|a: int|
                0 <= a < i ==> views((#[trigger] records@[a])@) == record_of(timestamp@, rows[a]),
        decreases samples.len() - i,
    {
        let sample = &samples[i];
        let mut record: Vec<String> = Vec::new();
        record.push(timestamp.to_string());
        record.push(sample.name.clone());
        record.push(sample.kind.to_string());
        record.push(sample.labels.clone());
        record.push(sample.value.clone());
        assert(views(record@) =~= record_of(timestamp@, rows[i as int]));
        records.push(record);
        i = i + 1;
    }
    assert(record_views(records@) =~= rows.map_values(|row: SampleRow| record_of(timestamp@, row)));
    records
}

/// Whether `records` are the records of these rows, all with the timestamp of one moment that the
/// clock showed. Without rows there are none.
pub open spec fn are_records_of(records: Seq<Vec<String>>, rows: Seq<SampleRow>) -> bool {
    if rows.len() == 0 {
        records.len() == 0
    } else {
        exists|timestamp: Seq<char>, seconds: i64, nanos: u32|
            was_shown(seconds, nanos) && is_clock_time(seconds, nanos)
                && #[trigger] is_timestamp_at(timestamp, seconds, nanos) && record_views(records) == rows.map_values(
                |row: SampleRow| record_of(timestamp, row),
            )
    }
}

/// Takes a snapshot of all metrics and lists its records, which all carry the time at which it
/// was taken. Without metrics there are none.
pub fn take_snapshot<F: Fn(u64) -> String, S: Fn(Vec<u64>) -> Spread>(
    registry: &MetricRegistry,
    float_text: &F,
    summarize: &S,
) -> (records: Vec<Vec<String>>)
    requires
        forall|bits: u64| #[trigger] call_requires(*float_text, (bits,)),
        forall|finite: Vec<u64>|
            finite@.len() > 0 ==> #[trigger] call_requires(*summarize, (finite,)),
    ensures
        exists|reading: Reading, rows: Seq<SampleRow>|
            reading.was_read(*registry) && #[trigger] is_snapshot_of(
                reading,
                *float_text,
                *summarize,
                rows,
            ) && are_records_of(records@, rows),
{
    let samples = collect_samples(registry, float_text, summarize);
    let ghost rows = sample_views(samples@);
    let ghost reading = choose|reading: Reading| #[trigger]
        reading.was_read(*registry) && is_snapshot_of(reading, *float_text, *summarize, rows);
    assert(is_snapshot_of(reading, *float_text, *summarize, rows));
    if samples.len() == 0 {
        return Vec::new();
    }
    let timestamp = current_timestamp();
    let records = snapshot_records(timestamp.as_str(), &samples);
    proof {
        let (seconds, nanos) = choose|seconds: i64, nanos: u32| #[trigger]
            was_shown(seconds, nanos) && is_clock_time(seconds, nanos) && is_timestamp_at(
                timestamp@,
                seconds,
                nanos,
            );
        assert(is_timestamp_at(timestamp@, seconds, nanos));
        assert(are_records_of(records@, rows));
    }
    records
}

/// The labels that are written can be told apart: two lists of labels are written as the same text
/// only if their sanitized keys and values are the same.
pub proof fn labels_text_is_injective(
    a: Seq<(Seq<char>, Seq<char>)>,
    b: Seq<(Seq<char>, Seq<char>)>,
)
    requires
        labels_text(a) == labels_text(b),
    ensures
        a.len() == b.len(),
        forall|i: int|
            0 <= i < a.len() ==> sanitized((#[trigger] a[i]).0) == sanitized(b[i].0) && sanitized(
                a[i].1,
            ) == sanitized(b[i].1),
{
    let left = a.map_values(|label: (Seq<char>, Seq<char>)| label_text(label));
    let right = b.map_values(|label: (Seq<char>, Seq<char>)| label_text(label));
    label_texts_are_free_of_bars(a);
    label_texts_are_free_of_bars(b);
    joined_is_injective(left, right, '|');
    assert forall|i: int| 0 <= i < a.len() implies sanitized((#[trigger] a[i]).0) == sanitized(
        b[i].0,
    ) && sanitized(a[i].1) == sanitized(b[i].1) by {
        assert(left[i] == label_text(a[i]) && right[i] == label_text(b[i]));
        sanitized_is_clean(a[i].0);
        sanitized_is_clean(b[i].0);
        split_at_first_is_unique(
            sanitized(a[i].0),
            sanitized(a[i].1),
            sanitized(b[i].0),
            sanitized(b[i].1),
            '=',
        );
    }
}

proof fn label_texts_are_free_of_bars(labels: Seq<(Seq<char>, Seq<char>)>)
    ensures
        free_of(labels.map_values(|label: (Seq<char>, Seq<char>)| label_text(label)), '|'),
        labels.len() > 0 ==> labels_text(labels).len() > 0,
    decreases labels.len(),
{
    let texts = labels.map_values(|label: (Seq<char>, Seq<char>)| label_text(label));
    assert forall|i: int| 0 <= i < texts.len() implies !(#[trigger] texts[i]).contains('|') by {
        let label = labels[i];
        sanitized_is_clean(label.0);
        sanitized_is_clean(label.1);
        assert(texts[i] == label_text(label));
        assert forall|k: int| 0 <= k < texts[i].len() implies texts[i][k] != '|' by {
            let n = sanitized(label.0).len();
            if k < n {
                assert(texts[i][k] == sanitized(label.0)[k]);
            } else if k > n {
                assert(texts[i][k] == sanitized(label.1)[k - n - 1]);
            }
        }
    }
    if labels.len() > 0 {
        assert(texts.last() == label_text(labels.last()));
        assert(texts.last().len() > 0);
    }
}

/// The statistic of a histogram row is written like one more label, which comes last.
pub proof fn stat_is_the_last_label(labels: Seq<(Seq<char>, Seq<char>)>, stat: Seq<char>)
    requires
        sanitized(stat) == stat,
    ensures
        stat_labels(labels_text(labels), stat) == labels_text(labels.push(("stat"@, stat))),
{
    reveal_strlit("stat");
    reveal_strlit("stat=");
    reveal_strlit("|stat=");
    let texts = labels.map_values(|label: (Seq<char>, Seq<char>)| label_text(label));
    let more = labels.push(("stat"@, stat)).map_values(
        |label: (Seq<char>, Seq<char>)| label_text(label),
    );
    let last = label_text(("stat"@, stat));
    assert(more =~= texts.push(last));
    assert(more.drop_last() =~= texts);
    sanitized_preserves_other_characters("stat"@);
    assert(last =~= "stat="@ + stat);
    label_texts_are_free_of_bars(labels);
    if labels.len() == 0 {
        assert(more[0] == last);
    } else {
        assert(joined(texts, '|').push('|') + last =~= labels_text(labels) + "|stat="@ + stat);
    }
}

/// A snapshot has exactly the rows of what was read: sorting neither adds nor drops one.
pub proof fn snapshot_has_exactly_the_rows(rows: Seq<SampleRow>, sorted: Seq<SampleRow>)
    requires
        is_stable_sort(row_keys(rows), rows, sorted),
    ensures
        sorted.len() == rows.len(),
        sorted.to_multiset() == rows.to_multiset(),
{
    stable_sort_keeps_items(row_keys(rows), rows, sorted);
}

proof fn sorted_rows_are_found(rows: Seq<SampleRow>, sorted: Seq<SampleRow>, row: SampleRow)
    requires
        is_stable_sort(row_keys(rows), rows, sorted),
        rows.contains(row),
    ensures
        sorted.contains(row),
{
    broadcast use vstd::seq_lib::group_to_multiset_ensures;

    snapshot_has_exactly_the_rows(rows, sorted);
    assert(rows.to_multiset().contains(row));
    assert(sorted.to_multiset().contains(row));
}

/// Whether a row says that the gauge of that key has the value with these bits.
pub open spec fn is_gauge_row<F: Fn(u64) -> String>(
    row: SampleRow,
    gauge: GaugeReading,
    float_text: F,
) -> bool {
    exists|value: String| #[trigger]
        call_ensures(float_text, (gauge.bits,), value) && row == gauge_row(
            GaugeValue { key: gauge.key, value },
        )
}

/// Every metric that was read is in the snapshot: a counter and a gauge by its value, a histogram
/// at least by the number of its samples.
pub proof fn every_metric_has_a_row<F: Fn(u64) -> String, S: Fn(Vec<u64>) -> Spread>(
    counters: Seq<CounterReading>,
    gauges: Seq<GaugeReading>,
    histograms: Seq<HistogramReading>,
    float_text: F,
    summarize: S,
    rows: Seq<SampleRow>,
)
    requires
        is_snapshot(counters, gauges, histograms, float_text, summarize, rows),
    ensures
        forall|i: int|
            0 <= i < counters.len() ==> rows.contains(counter_row(#[trigger] counters[i])),
        forall|i: int|
            0 <= i < gauges.len() ==> exists|row: SampleRow| #[trigger]
                rows.contains(row) && is_gauge_row(row, #[trigger] gauges[i], float_text),
        forall|i: int|
            0 <= i < histograms.len() ==> rows.contains(
                stat_row(
                    (#[trigger] histograms[i]).key,
                    ("count"@, decimal(finite_samples(histograms[i].samples@).len())),
                ),
            ),
{
    let (gauge_values, histogram_values) = values_behind(
        counters,
        gauges,
        histograms,
        float_text,
        summarize,
        rows,
    );
    let unsorted = unsorted_rows(counters, gauge_values, histogram_values);
    assert forall|i: int| 0 <= i < counters.len() implies rows.contains(
        counter_row(#[trigger] counters[i]),
    ) by {
        assert(unsorted[i] == counter_row(counters[i]));
        sorted_rows_are_found(unsorted, rows, counter_row(counters[i]));
    }
    assert forall|i: int| 0 <= i < gauges.len() implies exists|row: SampleRow| #[trigger]
        rows.contains(row) && is_gauge_row(row, #[trigger] gauges[i], float_text) by {
        let row = gauge_row(gauge_values[i]);
        assert(unsorted[counters.len() + i] == row);
        sorted_rows_are_found(unsorted, rows, row);
        assert(call_ensures(float_text, (gauges[i].bits,), gauge_values[i].value));
        assert(row == gauge_row(GaugeValue { key: gauges[i].key, value: gauge_values[i].value }));
        assert(is_gauge_row(row, gauges[i], float_text));
    }
    assert forall|i: int| 0 <= i < histograms.len() implies rows.contains(
        stat_row(
            (#[trigger] histograms[i]).key,
            ("count"@, decimal(finite_samples(histograms[i].samples@).len())),
        ),
    ) by {
        let stats = stat_views(histogram_values[i].stats@);
        assert(histogram_values[i].key == histograms[i].key);
        count_is_always_present(histograms[i].samples@, summarize, stats);
        let row = stat_row(histograms[i].key, stats[0]);
        assert(histogram_value_rows(histogram_values[i])[0] == row);
        histogram_rows_are_listed(histogram_values, i, 0);
        let all = all_histogram_rows(histogram_values);
        let k = choose|k: int| 0 <= k < all.len() && all[k] == row;
        assert(unsorted[counters.len() + gauge_values.len() + k] == row);
        sorted_rows_are_found(unsorted, rows, row);
    }
}

proof fn histogram_rows_are_listed(histograms: Seq<HistogramValue>, i: int, k: int)
    requires
        0 <= i < histograms.len(),
        0 <= k < histogram_value_rows(histograms[i]).len(),
    ensures
        all_histogram_rows(histograms).contains(histogram_value_rows(histograms[i])[k]),
    decreases histograms.len(),
{
    let before = all_histogram_rows(histograms.drop_last());
    let row = histogram_value_rows(histograms[i])[k];
    if i < histograms.len() - 1 {
        histogram_rows_are_listed(histograms.drop_last(), i, k);
        let j = choose|j: int| 0 <= j < before.len() && before[j] == row;
        assert(all_histogram_rows(histograms)[j] == row);
    } else {
        assert(all_histogram_rows(histograms)[before.len() + k] == row);
    }
}

/// The order in which metrics are read does not matter: the same rows in another order give the
/// same snapshot, if no two of them have the same name, labels and kind.
pub proof fn snapshot_ignores_reading_order(
    first: Seq<SampleRow>,
    second: Seq<SampleRow>,
    first_sorted: Seq<SampleRow>,
    second_sorted: Seq<SampleRow>,
)
    requires
        first.to_multiset() == second.to_multiset(),
        row_keys(first).no_duplicates(),
        is_stable_sort(row_keys(first), first, first_sorted),
        is_stable_sort(row_keys(second), second, second_sorted),
    ensures
        first_sorted == second_sorted,
{
    let key = |row: SampleRow| row.key();
    assert(row_keys(first) =~= first.map_values(key));
    assert(row_keys(second) =~= second.map_values(key));
    stable_sort_ignores_arrival_order(key, first, second, first_sorted, second_sorted);
}

} // verus!
