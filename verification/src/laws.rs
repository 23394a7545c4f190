//! What holds of snapshots over time.
use vstd::prelude::*;

use crate::histogram::{
    are_stats_of, count_is_always_present, finite_samples, group_rows, groups_count_every_sample,
    is_spread_of, stat_views, SampleGroups, Spread,
};
use crate::key::{metric_of, Metric};
use crate::registry::{
    counter_list, gauge_list, histogram_list, initial_metrics, is_listed, lists_all, lists_once,
    CounterReading, GaugeReading, HistogramReading, MetricRegistry, Reading,
};
use crate::snapshot::{
    all_histogram_rows, are_gauge_values, are_histogram_values, counter_row, every_metric_has_a_row,
    gauge_row, histogram_value_rows, is_gauge_row, is_snapshot_of, labels_text, row_keys,
    snapshot_has_exactly_the_rows, stat_labels, stat_row, unsorted_rows, values_behind, GaugeValue,
    HistogramValue, SampleRow,
};
use crate::sorting::is_stable_sort;
use crate::text::decimal;
use crate::util::sanitized;

verus! {

/// Whether a row is of that metric and that kind; the rows of a histogram carry more labels.
pub open spec fn is_scalar_row_of(row: SampleRow, metric: Metric, kind: Seq<char>) -> bool {
    &&& row.name == sanitized(metric.name)
    &&& row.labels == labels_text(metric.labels)
    &&& row.kind == kind
}

/// Whether a row holds the count of the samples of that histogram.
pub open spec fn is_count_row_of(row: SampleRow, metric: Metric) -> bool {
    &&& row.name == sanitized(metric.name)
    &&& row.labels == stat_labels(labels_text(metric.labels), "count"@)
    &&& row.kind == "histogram"@
}

/// A snapshot is one of all known metrics: every counter and gauge that was registered before it
/// has a row, and every histogram has one of its count, whatever other threads do meanwhile.
pub proof fn every_known_metric_has_a_row<F: Fn(u64) -> String, S: Fn(Vec<u64>) -> Spread>(
    registry: MetricRegistry,
    reading: Reading,
    float_text: F,
    summarize: S,
    rows: Seq<SampleRow>,
    metric: Metric,
)
    requires
        reading.was_read(registry),
        is_snapshot_of(reading, float_text, summarize, rows),
    ensures
        reading.counter_visit.before.contains_key(metric) ==> exists|row: SampleRow| #[trigger]
            rows.contains(row) && is_scalar_row_of(row, metric, "counter"@),
        reading.gauge_visit.before.contains_key(metric) ==> exists|row: SampleRow| #[trigger]
            rows.contains(row) && is_scalar_row_of(row, metric, "gauge"@),
        reading.histogram_visit.before.contains_key(metric) ==> exists|row: SampleRow| #[trigger]
            rows.contains(row) && is_count_row_of(row, metric),
{
    every_metric_has_a_row(
        reading.counters,
        reading.gauges,
        reading.histograms,
        float_text,
        summarize,
        rows,
    );
    if reading.counter_visit.before.contains_key(metric) {
        let list = counter_list(reading.counters);
        assert(is_listed(list, metric));
        let i = choose|i: int| 0 <= i < list.len() && (#[trigger] list[i]).0 == metric;
        assert(list[i].0 == metric_of(reading.counters[i].key));
        let row = counter_row(reading.counters[i]);
        assert(rows.contains(row) && is_scalar_row_of(row, metric, "counter"@));
    }
    if reading.gauge_visit.before.contains_key(metric) {
        let list = gauge_list(reading.gauges);
        assert(is_listed(list, metric));
        let i = choose|i: int| 0 <= i < list.len() && (#[trigger] list[i]).0 == metric;
        assert(list[i].0 == metric_of(reading.gauges[i].key));
        let gauge = reading.gauges[i];
        let row = choose|row: SampleRow| #[trigger]
            rows.contains(row) && is_gauge_row(row, gauge, float_text);
        assert(rows.contains(row) && is_scalar_row_of(row, metric, "gauge"@));
    }
    if reading.histogram_visit.before.contains_key(metric) {
        let list = histogram_list(reading.histograms);
        assert(is_listed(list, metric));
        let i = choose|i: int| 0 <= i < list.len() && (#[trigger] list[i]).0 == metric;
        assert(list[i].0 == metric_of(reading.histograms[i].key));
        let histogram = reading.histograms[i];
        let row = stat_row(
            histogram.key,
            ("count"@, decimal(finite_samples(histogram.samples@).len())),
        );
        assert(rows.contains(row) && is_count_row_of(row, metric));
    }
}

/// A recorder that was made without metrics, and with which none was registered, has no rows.
pub proof fn unused_recorder_has_no_rows<F: Fn(u64) -> String, S: Fn(Vec<u64>) -> Spread>(
    registry: MetricRegistry,
    reading: Reading,
    float_text: F,
    summarize: S,
    rows: Seq<SampleRow>,
)
    requires
        initial_metrics(registry) == Set::<Metric>::empty(),
        reading.was_read(registry),
        reading.counter_visit.unused,
        reading.gauge_visit.unused,
        reading.histogram_visit.unused,
        is_snapshot_of(reading, float_text, summarize, rows),
    ensures
        rows.len() == 0,
{
    let initial = initial_metrics(registry);
    if reading.counters.len() > 0 {
        assert(initial.contains(counter_list(reading.counters)[0].0));
    }
    if reading.gauges.len() > 0 {
        assert(initial.contains(gauge_list(reading.gauges)[0].0));
    }
    if reading.histograms.len() > 0 {
        assert(initial.contains(histogram_list(reading.histograms)[0].0));
    }
    let (gauges, histograms) = values_behind(
        reading.counters,
        reading.gauges,
        reading.histograms,
        float_text,
        summarize,
        rows,
    );
    let unsorted = unsorted_rows(reading.counters, gauges, histograms);
    snapshot_has_exactly_the_rows(unsorted, rows);
    assert(unsorted.len() == 0);
}

/// The rows of that kind.
pub open spec fn rows_of_kind(rows: Seq<SampleRow>, kind: Seq<char>) -> Seq<SampleRow> {
    rows.filter(|row: SampleRow| row.kind == kind)
}

/// Filtering a list is filtering what it holds.
proof fn filter_keeps_multiset<T>(list: Seq<T>, pred: spec_fn(T) -> bool)
    ensures
        list.filter(pred).to_multiset() == list.to_multiset().filter(pred),
    decreases list.len(),
{
    broadcast use {vstd::multiset::group_multiset_axioms, vstd::seq_lib::group_to_multiset_ensures};

    reveal(Seq::filter);
    if list.len() > 0 {
        let fewer = list.drop_last();
        filter_keeps_multiset(fewer, pred);
        assert(list =~= fewer.push(list.last()));
    } else {
        assert(list.to_multiset() =~= vstd::multiset::Multiset::empty());
    }
    assert(list.filter(pred).to_multiset() =~= list.to_multiset().filter(pred));
}

proof fn filter_keeps_all<T>(list: Seq<T>, pred: spec_fn(T) -> bool)
    requires
        forall|i: int| 0 <= i < list.len() ==> pred(#[trigger] list[i]),
    ensures
        list.filter(pred) == list,
    decreases list.len(),
{
    reveal(Seq::filter);
    if list.len() > 0 {
        filter_keeps_all(list.drop_last(), pred);
        assert(pred(list[list.len() - 1]));
    }
    assert(list.filter(pred) =~= list);
}

proof fn filter_keeps_none<T>(list: Seq<T>, pred: spec_fn(T) -> bool)
    requires
        forall|i: int| 0 <= i < list.len() ==> !pred(#[trigger] list[i]),
    ensures
        list.filter(pred) == Seq::<T>::empty(),
    decreases list.len(),
{
    reveal(Seq::filter);
    if list.len() > 0 {
        filter_keeps_none(list.drop_last(), pred);
        assert(!pred(list[list.len() - 1]));
    }
    assert(list.filter(pred) =~= Seq::<T>::empty());
}

/// Mapping two lists that hold the same gives two lists that hold the same.
proof fn map_keeps_multiset<T, U>(first: Seq<T>, second: Seq<T>, f: spec_fn(T) -> U)
    requires
        first.to_multiset() == second.to_multiset(),
    ensures
        first.map_values(f).to_multiset() == second.map_values(f).to_multiset(),
    decreases first.len(),
{
    broadcast use vstd::seq_lib::group_to_multiset_ensures;

    assert(first.len() == first.to_multiset().len());
    assert(second.len() == second.to_multiset().len());
    if first.len() > 0 {
        let last = first.last();
        assert(first.contains(last));
        assert(first.to_multiset().contains(last));
        assert(second.contains(last));
        let p = choose|p: int| 0 <= p < second.len() && second[p] == last;
        let fewer = first.drop_last();
        let rest = second.remove(p);
        assert(first =~= fewer.push(last));
        assert(fewer.to_multiset() =~= first.to_multiset().remove(last));
        map_keeps_multiset(fewer, rest, f);
        assert(first.map_values(f) =~= fewer.map_values(f).push(f(last)));
        assert(second.map_values(f) =~= rest.map_values(f).insert(p, f(last)));
    } else {
        assert(first.map_values(f) =~= second.map_values(f));
    }
}

/// Two lists of exactly what is held hold the same.
proof fn full_lists_are_alike<V>(
    first: Seq<(Metric, V)>,
    second: Seq<(Metric, V)>,
    held: Map<Metric, V>,
)
    requires
        lists_all(first, held),
        lists_all(second, held),
    ensures
        first.to_multiset() == second.to_multiset(),
{
    broadcast use vstd::seq_lib::group_to_multiset_ensures;

    full_list_holds_all(first, second, held);
    full_list_holds_all(second, first, held);
    listed_once_is_distinct(first);
    listed_once_is_distinct(second);
    first.lemma_multiset_has_no_duplicates();
    second.lemma_multiset_has_no_duplicates();
    assert forall|entry: (Metric, V)| #[trigger]
        first.to_multiset().count(entry) == second.to_multiset().count(entry) by {
        if first.contains(entry) {
            assert(first.to_multiset().contains(entry));
            assert(second.to_multiset().contains(entry));
        } else {
            assert(!second.contains(entry));
            assert(!first.to_multiset().contains(entry));
            assert(!second.to_multiset().contains(entry));
        }
    }
    assert(first.to_multiset() =~= second.to_multiset());
}

proof fn full_list_holds_all<V>(
    first: Seq<(Metric, V)>,
    second: Seq<(Metric, V)>,
    held: Map<Metric, V>,
)
    requires
        lists_all(first, held),
        lists_all(second, held),
    ensures
        forall|entry: (Metric, V)| #[trigger] first.contains(entry) ==> second.contains(entry),
{
    assert forall|entry: (Metric, V)| #[trigger] first.contains(entry) implies second.contains(
        entry,
    ) by {
        let i = choose|i: int| 0 <= i < first.len() && first[i] == entry;
        assert(held.contains_pair(first[i].0, first[i].1));
        assert(is_listed(second, entry.0));
        let j = choose|j: int| 0 <= j < second.len() && (#[trigger] second[j]).0 == entry.0;
        assert(held.contains_pair(second[j].0, second[j].1));
        assert(second[j] == entry);
    }
}

proof fn listed_once_is_distinct<V>(list: Seq<(Metric, V)>)
    requires
        lists_once(list),
    ensures
        list.no_duplicates(),
{
    assert forall|i: int, j: int| 0 <= i < list.len() && 0 <= j < list.len() && i != j implies list[i]
        != list[j] by {
        if i < j {
            assert(list[i].0 != list[j].0);
        } else {
            assert(list[j].0 != list[i].0);
        }
    }
}

/// The kinds of rows are different.
proof fn kinds_differ()
    ensures
        "counter"@ != "gauge"@,
        "counter"@ != "histogram"@,
        "gauge"@ != "histogram"@,
{
    reveal_strlit("counter");
    reveal_strlit("gauge");
    reveal_strlit("histogram");
    assert("counter"@[0] == 'c');
    assert("gauge"@[0] == 'g');
    assert("histogram"@[0] == 'h');
}

proof fn histogram_rows_are_of_their_kind(histograms: Seq<HistogramValue>)
    ensures
        forall|i: int|
            0 <= i < all_histogram_rows(histograms).len() ==> (#[trigger] all_histogram_rows(
                histograms,
            )[i]).kind == "histogram"@,
    decreases histograms.len(),
{
    if histograms.len() > 0 {
        histogram_rows_are_of_their_kind(histograms.drop_last());
        let before = all_histogram_rows(histograms.drop_last());
        let last = histogram_value_rows(histograms.last());
        assert forall|i: int| 0 <= i < all_histogram_rows(histograms).len() implies (
        #[trigger] all_histogram_rows(histograms)[i]).kind == "histogram"@ by {
            if i < before.len() {
                assert(all_histogram_rows(histograms)[i] == before[i]);
            } else {
                assert(all_histogram_rows(histograms)[i] == last[i - before.len()]);
            }
        }
    }
}

/// The rows of a snapshot, by kind.
proof fn snapshot_rows_by_kind(
    counters: Seq<CounterReading>,
    gauges: Seq<GaugeValue>,
    histograms: Seq<HistogramValue>,
    rows: Seq<SampleRow>,
)
    requires
        is_stable_sort(
            row_keys(unsorted_rows(counters, gauges, histograms)),
            unsorted_rows(counters, gauges, histograms),
            rows,
        ),
    ensures
        rows_of_kind(rows, "counter"@).to_multiset() == counters.map_values(
            |counter: CounterReading| counter_row(counter),
        ).to_multiset(),
        rows_of_kind(rows, "gauge"@).to_multiset() == gauges.map_values(
            |gauge: GaugeValue| gauge_row(gauge),
        ).to_multiset(),
        rows_of_kind(rows, "histogram"@).to_multiset() == all_histogram_rows(
            histograms,
        ).to_multiset(),
{
    let unsorted = unsorted_rows(counters, gauges, histograms);
    let a = counters.map_values(|counter: CounterReading| counter_row(counter));
    let b = gauges.map_values(|gauge: GaugeValue| gauge_row(gauge));
    let c = all_histogram_rows(histograms);
    snapshot_has_exactly_the_rows(unsorted, rows);
    kinds_differ();
    histogram_rows_are_of_their_kind(histograms);
    assert(unsorted =~= a + b + c);
    assert forall|i: int| 0 <= i < a.len() implies (#[trigger] a[i]).kind == "counter"@ by {}
    assert forall|i: int| 0 <= i < b.len() implies (#[trigger] b[i]).kind == "gauge"@ by {}
    parts_by_kind(rows, a, b, c, "counter"@);
    parts_by_kind(rows, a, b, c, "gauge"@);
    parts_by_kind(rows, a, b, c, "histogram"@);
    rows_of_one_kind(a, "counter"@, "counter"@);
    rows_of_one_kind(b, "gauge"@, "counter"@);
    rows_of_one_kind(c, "histogram"@, "counter"@);
    rows_of_one_kind(a, "counter"@, "gauge"@);
    rows_of_one_kind(b, "gauge"@, "gauge"@);
    rows_of_one_kind(c, "histogram"@, "gauge"@);
    rows_of_one_kind(a, "counter"@, "histogram"@);
    rows_of_one_kind(b, "gauge"@, "histogram"@);
    rows_of_one_kind(c, "histogram"@, "histogram"@);
    assert(a + Seq::<SampleRow>::empty() + Seq::<SampleRow>::empty() =~= a);
    assert(Seq::<SampleRow>::empty() + b + Seq::<SampleRow>::empty() =~= b);
    assert(Seq::<SampleRow>::empty() + Seq::<SampleRow>::empty() + c =~= c);
}

/// The rows of one kind among rows that are made of three parts.
proof fn parts_by_kind(
    rows: Seq<SampleRow>,
    a: Seq<SampleRow>,
    b: Seq<SampleRow>,
    c: Seq<SampleRow>,
    kind: Seq<char>,
)
    requires
        rows.to_multiset() == (a + b + c).to_multiset(),
    ensures
        rows_of_kind(rows, kind).to_multiset() == (rows_of_kind(a, kind) + rows_of_kind(b, kind)
            + rows_of_kind(c, kind)).to_multiset(),
{
    let pred = |row: SampleRow| row.kind == kind;
    filter_keeps_multiset(rows, pred);
    filter_keeps_multiset(a + b + c, pred);
    Seq::filter_distributes_over_add(a + b, c, pred);
    Seq::filter_distributes_over_add(a, b, pred);
}

proof fn rows_of_one_kind(rows: Seq<SampleRow>, own: Seq<char>, kind: Seq<char>)
    requires
        forall|i: int| 0 <= i < rows.len() ==> (#[trigger] rows[i]).kind == own,
    ensures
        rows_of_kind(rows, kind) == (if own == kind {
            rows
        } else {
            Seq::empty()
        }),
{
    let pred = |row: SampleRow| row.kind == kind;
    if own == kind {
        filter_keeps_all(rows, pred);
    } else {
        filter_keeps_none(rows, pred);
    }
}

/// Whether a function that writes doubles writes each in one way only.
pub open spec fn is_deterministic<F: Fn(u64) -> String>(float_text: F) -> bool {
    forall|bits: u64, first: String, second: String|
        #![trigger call_ensures(float_text, (bits,), first), call_ensures(float_text, (bits,), second)]
        call_ensures(float_text, (bits,), first) && call_ensures(float_text, (bits,), second)
            ==> first == second
}

/// The row of a histogram without samples.
pub open spec fn drained_row(histogram: HistogramReading) -> SampleRow {
    stat_row(histogram.key, ("count"@, "0"@))
}

/// A second snapshot with no update in between repeats the rows of counters and gauges, since
/// sampling does not reset them, and has one row for each registered histogram, which counts no
/// sample, since the first snapshot cleared them.
pub proof fn second_snapshot_repeats_values_and_finds_histograms_cleared<
    F: Fn(u64) -> String,
    S: Fn(Vec<u64>) -> Spread,
>(
    registry: MetricRegistry,
    first: Reading,
    second: Reading,
    float_text: F,
    summarize: S,
    first_rows: Seq<SampleRow>,
    second_rows: Seq<SampleRow>,
)
    requires
        first.was_read(registry),
        second.was_read(registry),
        first.is_undisturbed(),
        second.is_undisturbed(),
        first.is_followed_by(second),
        is_deterministic(float_text),
        is_snapshot_of(first, float_text, summarize, first_rows),
        is_snapshot_of(second, float_text, summarize, second_rows),
    ensures
        rows_of_kind(second_rows, "counter"@).to_multiset() == rows_of_kind(
            first_rows,
            "counter"@,
        ).to_multiset(),
        rows_of_kind(second_rows, "gauge"@).to_multiset() == rows_of_kind(
            first_rows,
            "gauge"@,
        ).to_multiset(),
        rows_of_kind(second_rows, "histogram"@).to_multiset() == second.histograms.map_values(
            |histogram: HistogramReading| drained_row(histogram),
        ).to_multiset(),
        lists_all(histogram_list(second.histograms), first.histogram_visit.after),
{
    let (gauges_1, histograms_1) = values_behind(
        first.counters,
        first.gauges,
        first.histograms,
        float_text,
        summarize,
        first_rows,
    );
    let (gauges_2, histograms_2) = values_behind(
        second.counters,
        second.gauges,
        second.histograms,
        float_text,
        summarize,
        second_rows,
    );
    snapshot_rows_by_kind(first.counters, gauges_1, histograms_1, first_rows);
    snapshot_rows_by_kind(second.counters, gauges_2, histograms_2, second_rows);
    full_lists_are_alike(
        counter_list(second.counters),
        counter_list(first.counters),
        first.counter_visit.before,
    );
    counter_rows_follow_the_list(second.counters, first.counters);
    full_lists_are_alike(
        gauge_list(second.gauges),
        gauge_list(first.gauges),
        first.gauge_visit.before,
    );
    gauge_rows_follow_the_list(second.gauges, gauges_2, first.gauges, gauges_1, float_text);
    let held = first.histogram_visit.after;
    assert forall|i: int| 0 <= i < second.histograms.len() implies (
    #[trigger] second.histograms[i]).samples@.len() == 0 by {
        let list = histogram_list(second.histograms);
        assert(held.contains_pair(list[i].0, list[i].1));
        assert(held.contains_key(list[i].0));
    }
    drained_histograms_have_one_row(second.histograms, histograms_2, summarize);
}

proof fn counter_rows_follow_the_list(first: Seq<CounterReading>, second: Seq<CounterReading>)
    requires
        counter_list(first).to_multiset() == counter_list(second).to_multiset(),
    ensures
        first.map_values(|counter: CounterReading| counter_row(counter)).to_multiset()
            == second.map_values(|counter: CounterReading| counter_row(counter)).to_multiset(),
{
    let f = |entry: (Metric, u64)|
        SampleRow {
            name: sanitized(entry.0.name),
            kind: "counter"@,
            labels: labels_text(entry.0.labels),
            value: decimal(entry.1 as nat),
        };
    map_keeps_multiset(counter_list(first), counter_list(second), f);
    assert(first.map_values(|counter: CounterReading| counter_row(counter)) =~= counter_list(
        first,
    ).map_values(f));
    assert(second.map_values(|counter: CounterReading| counter_row(counter)) =~= counter_list(
        second,
    ).map_values(f));
}

proof fn gauge_rows_follow_the_list<F: Fn(u64) -> String>(
    first: Seq<GaugeReading>,
    first_values: Seq<GaugeValue>,
    second: Seq<GaugeReading>,
    second_values: Seq<GaugeValue>,
    float_text: F,
)
    requires
        gauge_list(first).to_multiset() == gauge_list(second).to_multiset(),
        are_gauge_values(first, float_text, first_values),
        are_gauge_values(second, float_text, second_values),
        is_deterministic(float_text),
    ensures
        first_values.map_values(|gauge: GaugeValue| gauge_row(gauge)).to_multiset()
            == second_values.map_values(|gauge: GaugeValue| gauge_row(gauge)).to_multiset(),
{
    let text = |bits: u64| choose|text: String| call_ensures(float_text, (bits,), text);
    let f = |entry: (Metric, u64)|
        SampleRow {
            name: sanitized(entry.0.name),
            kind: "gauge"@,
            labels: labels_text(entry.0.labels),
            value: text(entry.1)@,
        };
    map_keeps_multiset(gauge_list(first), gauge_list(second), f);
    assert forall|i: int| 0 <= i < first.len() implies gauge_row(#[trigger] first_values[i]) == f(
        gauge_list(first)[i],
    ) by {
        assert(call_ensures(float_text, (first[i].bits,), first_values[i].value));
        assert(call_ensures(float_text, (first[i].bits,), text(first[i].bits)));
    }
    assert forall|i: int| 0 <= i < second.len() implies gauge_row(#[trigger] second_values[i]) == f(
        gauge_list(second)[i],
    ) by {
        assert(call_ensures(float_text, (second[i].bits,), second_values[i].value));
        assert(call_ensures(float_text, (second[i].bits,), text(second[i].bits)));
    }
    assert(first_values.map_values(|gauge: GaugeValue| gauge_row(gauge)) =~= gauge_list(
        first,
    ).map_values(f));
    assert(second_values.map_values(|gauge: GaugeValue| gauge_row(gauge)) =~= gauge_list(
        second,
    ).map_values(f));
}

/// Histograms without samples have one row each, which counts none.
proof fn drained_histograms_have_one_row<S: Fn(Vec<u64>) -> Spread>(
    readings: Seq<HistogramReading>,
    values: Seq<HistogramValue>,
    summarize: S,
)
    requires
        are_histogram_values(readings, summarize, values),
        forall|i: int| 0 <= i < readings.len() ==> (#[trigger] readings[i]).samples@.len() == 0,
    ensures
        all_histogram_rows(values) == readings.map_values(
            |histogram: HistogramReading| drained_row(histogram),
        ),
    decreases values.len(),
{
    let expected = readings.map_values(|histogram: HistogramReading| drained_row(histogram));
    if values.len() > 0 {
        let n = values.len() - 1;
        drained_histograms_have_one_row(readings.drop_last(), values.drop_last(), summarize);
        assert(values[n].key == readings[n].key);
        let stats = stat_views(values[n].stats@);
        count_is_always_present(readings[n].samples@, summarize, stats);
        reveal(Seq::filter);
        reveal_strlit("0");
        assert(decimal(0) =~= "0"@);
        assert(histogram_value_rows(values[n]) =~= seq![drained_row(readings[n])]);
        assert(values.last() == values[n]);
        assert(expected =~= readings.drop_last().map_values(
            |histogram: HistogramReading| drained_row(histogram),
        ).push(drained_row(readings[n])));
    }
    assert(all_histogram_rows(values) =~= expected);
}

/// Whether these are the statistics of these samples, and the counts among them, of finite samples,
/// of both infinities and of those that are no number, add up to the number of samples.
pub open spec fn stats_count_all(
    stats: Seq<(Seq<char>, Seq<char>)>,
    samples: Seq<u64>,
) -> bool {
    exists|groups: SampleGroups, spread: Option<Spread>|
        groups.partition(samples) && stats == #[trigger] group_rows(groups, spread)
            && groups.finite@.len() + groups.negative_infinite + groups.positive_infinite
            + groups.nan == samples.len()
}

/// Every sample is counted once, in one class and in one interval: the first of two snapshots counts
/// what a histogram holds, and the second counts just the samples that were recorded in between, as
/// if the histogram had held no others.
pub proof fn every_sample_is_counted_in_one_interval<S: Fn(Vec<u64>) -> Spread>(
    registry: MetricRegistry,
    first: Reading,
    second: Reading,
    i: int,
    j: int,
    recorded: Seq<u64>,
    summarize: S,
    first_stats: Seq<(Seq<char>, Seq<char>)>,
    second_stats: Seq<(Seq<char>, Seq<char>)>,
)
    requires
        first.was_read(registry),
        second.was_read(registry),
        first.histogram_visit.undisturbed,
        second.histogram_visit.undisturbed,
        0 <= i < first.histograms.len(),
        0 <= j < second.histograms.len(),
        metric_of(first.histograms[i].key) == metric_of(second.histograms[j].key),
        ({
            let metric = metric_of(first.histograms[i].key);
            second.histogram_visit.before[metric] == first.histogram_visit.after[metric] + recorded
        }),
        are_stats_of(first.histograms[i].samples@, summarize, first_stats),
        are_stats_of(second.histograms[j].samples@, summarize, second_stats),
    ensures
        ({
            let held = first.histogram_visit.before[metric_of(first.histograms[i].key)];
            &&& first.histograms[i].samples@ == held
            &&& second.histograms[j].samples@ == recorded
            &&& are_stats_of(recorded, summarize, second_stats)
            &&& stats_count_all(first_stats, held)
            &&& stats_count_all(second_stats, recorded)
        }),
{
    let metric = metric_of(first.histograms[i].key);
    let first_list = histogram_list(first.histograms);
    let second_list = histogram_list(second.histograms);
    assert(first_list[i].0 == metric && second_list[j].0 == metric);
    assert(first.histogram_visit.before.contains_pair(first_list[i].0, first_list[i].1));
    assert(second.histogram_visit.before.contains_pair(second_list[j].0, second_list[j].1));
    assert(first.histogram_visit.after.contains_key(metric));
    assert(second.histograms[j].samples@ =~= recorded);
    stats_add_up(first.histograms[i].samples@, summarize, first_stats);
    stats_add_up(recorded, summarize, second_stats);
}

proof fn stats_add_up<S: Fn(Vec<u64>) -> Spread>(
    samples: Seq<u64>,
    summarize: S,
    stats: Seq<(Seq<char>, Seq<char>)>,
)
    requires
        are_stats_of(samples, summarize, stats),
    ensures
        stats_count_all(stats, samples),
{
    let (groups, spread) = choose|groups: SampleGroups, spread: Option<Spread>|
        groups.partition(samples) && is_spread_of(samples, summarize, spread) && stats
            == #[trigger] group_rows(groups, spread);
    groups_count_every_sample(samples, groups);
    assert(stats == group_rows(groups, spread));
}

} // verus!
