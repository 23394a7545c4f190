//! What holds of the rows and records of a snapshot.
use vstd::prelude::*;

use crate::clock::was_shown;
use crate::histogram::{stat_views, statistics_stand_under_their_names, tell_of, Spread};
use crate::key::{key_labels, metric_of, Metric};
use crate::order::{
    key_lt, key_lt_goes_text_by_text, key_lt_irreflexive, key_lt_transitive, text_lt,
};
use crate::registry::{
    counter_list, gauge_list, histogram_list, is_listed, CounterReading, GaugeReading,
    HistogramReading, MetricRegistry, Reading,
};
use crate::snapshot::{
    all_histogram_rows, are_records_of, histogram_value_rows, is_snapshot, is_snapshot_of,
    label_text, labels_text, row_keys, snapshot_has_exactly_the_rows, unsorted_rows, values_behind,
    HistogramValue, SampleRow,
};
use crate::sorting::{arranged, before, sorts};
use crate::text::{decimal, record_views, views};
use crate::timestamp::{
    is_timestamp_at, is_timestamp_shaped, rfc3339_reading, timestamps_read_back_to_the_millisecond,
    whole_millis, LAST_FOUR_DIGIT_MILLIS,
};
use crate::util::sanitized;

verus! {

/// Labels are written one by one, in their order: key and value sanitized, with `=` between them,
/// and a `|` before each label but the first.
pub proof fn labels_are_written_one_by_one(
    labels: Seq<(Seq<char>, Seq<char>)>,
    next: (Seq<char>, Seq<char>),
)
    ensures
        labels_text(Seq::empty()) == Seq::<char>::empty(),
        labels_text(labels.push(next)) == (if labels.len() == 0 {
            Seq::empty()
        } else {
            labels_text(labels).push('|')
        }) + sanitized(next.0) + seq!['='] + sanitized(next.1),
{
    let write = |label: (Seq<char>, Seq<char>)| label_text(label);
    let texts = labels.map_values(write);
    let more = labels.push(next).map_values(write);
    assert(Seq::<(Seq<char>, Seq<char>)>::empty().map_values(write) =~= Seq::empty());
    assert(more =~= texts.push(label_text(next)));
    assert(more.drop_last() =~= texts);
    assert(labels_text(labels.push(next)) =~= (if labels.len() == 0 {
        Seq::empty()
    } else {
        labels_text(labels).push('|')
    }) + sanitized(next.0) + seq!['='] + sanitized(next.1));
}

/// The row that tells a value of a metric of that kind.
pub open spec fn told(metric: Metric, kind: Seq<char>, value: Seq<char>) -> SampleRow {
    SampleRow { name: sanitized(metric.name), kind, labels: labels_text(metric.labels), value }
}

/// The row that tells a statistic of a histogram: its labels end in the name of the statistic.
pub open spec fn told_stat(metric: Metric, stat: (Seq<char>, Seq<char>)) -> SampleRow {
    SampleRow {
        name: sanitized(metric.name),
        kind: "histogram"@,
        labels: if metric.labels.len() == 0 {
            "stat="@ + stat.0
        } else {
            labels_text(metric.labels) + "|stat="@ + stat.0
        },
        value: stat.1,
    }
}

/// The rows that tell the values of counters.
pub open spec fn told_counters(counters: Seq<CounterReading>) -> Seq<SampleRow> {
    counters.map_values(
        |counter: CounterReading|
            told(metric_of(counter.key), "counter"@, decimal(counter.value as nat)),
    )
}

/// The rows that tell the values of gauges, which are written as these texts.
pub open spec fn told_gauges(gauges: Seq<GaugeReading>, texts: Seq<String>) -> Seq<SampleRow> {
    Seq::new(
        gauges.len(),
        |i: int| told(metric_of(gauges[i].key), "gauge"@, texts[i]@),
    )
}

/// The rows that tell these statistics of histograms.
pub open spec fn told_histograms(
    histograms: Seq<HistogramReading>,
    stats: Seq<Seq<(Seq<char>, Seq<char>)>>,
) -> Seq<SampleRow> {
    Seq::new(
        histograms.len(),
        |i: int|
            stats[i].map_values(
                |stat: (Seq<char>, Seq<char>)| told_stat(metric_of(histograms[i].key), stat),
            ),
    ).flatten()
}

/// Whether rows tell of what was read, and of nothing else: each counter by its value, each gauge by
/// its value as `float_text` writes it, and each histogram by statistics that tell of all its
/// samples.
pub open spec fn tell_all<F: Fn(u64) -> String, S: Fn(Vec<u64>) -> Spread>(
    rows: Seq<SampleRow>,
    reading: (Seq<CounterReading>, Seq<GaugeReading>, Seq<HistogramReading>),
    texts: Seq<String>,
    stats: Seq<Seq<(Seq<char>, Seq<char>)>>,
    float_text: F,
    summarize: S,
) -> bool {
    &&& texts.len() == reading.1.len()
    &&& forall|i: int|
        0 <= i < texts.len() ==> call_ensures(
            float_text,
            (reading.1[i].bits,),
            #[trigger] texts[i],
        )
    &&& stats.len() == reading.2.len()
    &&& forall|i: int|
        0 <= i < stats.len() ==> tell_of(#[trigger] stats[i], reading.2[i].samples@, summarize)
    &&& rows.to_multiset() == (told_counters(reading.0) + told_gauges(reading.1, texts)
        + told_histograms(reading.2, stats)).to_multiset()
}

/// Whether one row stands before another: by name, then by labels, then by kind.
pub open spec fn stands_before(a: SampleRow, b: SampleRow) -> bool {
    ||| text_lt(a.name, b.name)
    ||| a.name == b.name && text_lt(a.labels, b.labels)
    ||| a.name == b.name && a.labels == b.labels && text_lt(a.kind, b.kind)
}

proof fn histogram_rows_are_told(
    histograms: Seq<HistogramReading>,
    values: Seq<HistogramValue>,
    stats: Seq<Seq<(Seq<char>, Seq<char>)>>,
)
    requires
        values.len() == histograms.len(),
        stats.len() == histograms.len(),
        forall|i: int|
            0 <= i < values.len() ==> (#[trigger] values[i]).key == histograms[i].key && stats[i]
                == stat_views(values[i].stats@),
    ensures
        all_histogram_rows(values) == told_histograms(histograms, stats),
    decreases values.len(),
{
    let lists = Seq::new(
        histograms.len(),
        |i: int|
            stats[i].map_values(
                |stat: (Seq<char>, Seq<char>)| told_stat(metric_of(histograms[i].key), stat),
            ),
    );
    lists.lemma_flatten_and_flatten_alt_are_equivalent();
    if values.len() > 0 {
        let n = values.len() - 1;
        let fewer = lists.drop_last();
        assert forall|i: int| 0 <= i < n implies (#[trigger] values.drop_last()[i]).key
            == histograms.drop_last()[i].key && stats.drop_last()[i] == stat_views(
            values.drop_last()[i].stats@,
        ) by {
            assert(values[i].key == histograms[i].key);
        }
        histogram_rows_are_told(histograms.drop_last(), values.drop_last(), stats.drop_last());
        let earlier = Seq::new(
            histograms.drop_last().len(),
            |i: int|
                stats.drop_last()[i].map_values(
                    |stat: (Seq<char>, Seq<char>)|
                        told_stat(metric_of(histograms.drop_last()[i].key), stat),
                ),
        );
        assert forall|i: int| 0 <= i < n implies earlier[i] =~= fewer[i] by {}
        assert(earlier =~= fewer);
        fewer.lemma_flatten_and_flatten_alt_are_equivalent();
        assert(values[n].key == histograms[n].key);
        key_labels_are_seen_in_their_text(histograms[n].key);
        assert(histogram_value_rows(values[n]) =~= lists[n]);
        assert(values.last() == values[n] && lists.last() == lists[n]);
        assert(all_histogram_rows(values) =~= fewer.flatten_alt() + lists.last());
    } else {
        assert(lists =~= Seq::empty());
    }
}

/// Labels are written as an empty text only where there are none.
proof fn key_labels_are_seen_in_their_text(key: metrics::Key)
    ensures
        labels_text(key_labels(key)).len() == 0 <==> key_labels(key).len() == 0,
{
    let labels = key_labels(key);
    if labels.len() > 0 {
        labels_are_written_one_by_one(labels.drop_last(), labels.last());
        assert(labels.drop_last().push(labels.last()) =~= labels);
    } else {
        labels_are_written_one_by_one(labels, ("stat"@, "stat"@));
        assert(labels =~= Seq::empty());
    }
}

/// A snapshot tells of all that was read, and of nothing else, sorted by name, then labels, then
/// kind.
pub proof fn snapshot_tells_all_that_was_read<F: Fn(u64) -> String, S: Fn(Vec<u64>) -> Spread>(
    counters: Seq<CounterReading>,
    gauges: Seq<GaugeReading>,
    histograms: Seq<HistogramReading>,
    float_text: F,
    summarize: S,
    rows: Seq<SampleRow>,
)
    requires
        is_snapshot(counters, gauges, histograms, float_text, summarize, rows),
    ensures
        exists|texts: Seq<String>, stats: Seq<Seq<(Seq<char>, Seq<char>)>>| #[trigger]
            tell_all(rows, (counters, gauges, histograms), texts, stats, float_text, summarize),
        forall|i: int, j: int|
            0 <= i < j < rows.len() ==> !stands_before(#[trigger] rows[j], #[trigger] rows[i]),
{
    let (gauge_values, histogram_values) = values_behind(
        counters,
        gauges,
        histograms,
        float_text,
        summarize,
        rows,
    );
    let unsorted = unsorted_rows(counters, gauge_values, histogram_values);
    snapshot_has_exactly_the_rows(unsorted, rows);
    let texts = Seq::new(gauges.len(), |i: int| gauge_values[i].value);
    let stats = Seq::new(histograms.len(), |i: int| stat_views(histogram_values[i].stats@));
    assert forall|i: int| 0 <= i < texts.len() implies call_ensures(
        float_text,
        (gauges[i].bits,),
        #[trigger] texts[i],
    ) by {
        assert(gauge_values[i].key == gauges[i].key);
    }
    assert forall|i: int| 0 <= i < stats.len() implies tell_of(
        #[trigger] stats[i],
        histograms[i].samples@,
        summarize,
    ) by {
        assert(histogram_values[i].key == histograms[i].key);
        statistics_stand_under_their_names(histograms[i].samples@, summarize, stats[i]);
    }
    histogram_rows_are_told(histograms, histogram_values, stats);
    assert forall|i: int| 0 <= i < gauges.len() implies (#[trigger] gauge_values[i]).key
        == gauges[i].key by {}
    assert(unsorted =~= told_counters(counters) + told_gauges(gauges, texts) + told_histograms(
        histograms,
        stats,
    ));
    assert(tell_all(rows, (counters, gauges, histograms), texts, stats, float_text, summarize));
    rows_are_sorted(unsorted, rows);
}

proof fn rows_are_sorted(unsorted: Seq<SampleRow>, rows: Seq<SampleRow>)
    requires
        crate::sorting::is_stable_sort(row_keys(unsorted), unsorted, rows),
    ensures
        forall|i: int, j: int|
            0 <= i < j < rows.len() ==> !stands_before(#[trigger] rows[j], #[trigger] rows[i]),
{
    let keys = row_keys(unsorted);
    let order = choose|order: Seq<int>| #[trigger]
        sorts(order, keys) && rows == arranged(unsorted, order);
    assert forall|i: int, j: int| 0 <= i < j < rows.len() implies !stands_before(
        #[trigger] rows[j],
        #[trigger] rows[i],
    ) by {
        let a = rows[i];
        let b = rows[j];
        assert(before(keys, order[i], order[j]));
        assert(keys[order[i]] == a.key() && keys[order[j]] == b.key());
        key_lt_goes_text_by_text((b.name, b.labels, b.kind), (a.name, a.labels, a.kind));
        assert(a.key() =~= seq![a.name, a.labels, a.kind]);
        assert(b.key() =~= seq![b.name, b.labels, b.kind]);
        if key_lt(b.key(), a.key()) {
            key_lt_irreflexive(a.key());
            if key_lt(a.key(), b.key()) {
                key_lt_transitive(a.key(), b.key(), a.key());
            }
        }
    }
}

/// A snapshot that no other thread disturbs tells what the registry held when the metrics were
/// visited: each counter and gauge by its value, and each histogram by statistics of just the
/// samples that it held. None of them is left out.
pub proof fn undisturbed_snapshot_tells_what_is_held<
    F: Fn(u64) -> String,
    S: Fn(Vec<u64>) -> Spread,
>(
    registry: MetricRegistry,
    reading: Reading,
    float_text: F,
    summarize: S,
    rows: Seq<SampleRow>,
    metric: Metric,
)
    requires
        reading.was_read(registry),
        reading.is_undisturbed(),
        is_snapshot_of(reading, float_text, summarize, rows),
    ensures
        reading.counter_visit.before.contains_key(metric) ==> rows.contains(
            told(metric, "counter"@, decimal(reading.counter_visit.before[metric] as nat)),
        ),
        reading.gauge_visit.before.contains_key(metric) ==> exists|text: String|
            call_ensures(float_text, (reading.gauge_visit.before[metric],), text)
                && #[trigger] rows.contains(told(metric, "gauge"@, text@)),
        reading.histogram_visit.before.contains_key(metric) ==> exists|
            stats: Seq<(Seq<char>, Seq<char>)>,
        | #[trigger]
            tell_of(stats, reading.histogram_visit.before[metric], summarize) && forall|i: int|
                0 <= i < stats.len() ==> rows.contains(told_stat(metric, #[trigger] stats[i])),
{
    broadcast use vstd::seq_lib::group_to_multiset_ensures;

    let counters = reading.counters;
    let gauges = reading.gauges;
    let histograms = reading.histograms;
    snapshot_tells_all_that_was_read(counters, gauges, histograms, float_text, summarize, rows);
    let (texts, stats) = choose|texts: Seq<String>, stats: Seq<Seq<(Seq<char>, Seq<char>)>>|
        #[trigger]
        tell_all(rows, (counters, gauges, histograms), texts, stats, float_text, summarize);
    let a = told_counters(counters);
    let b = told_gauges(gauges, texts);
    let c = told_histograms(histograms, stats);
    let all = a + b + c;
    assert forall|row: SampleRow| #[trigger] all.contains(row) implies rows.contains(row) by {
        assert(all.to_multiset().contains(row));
        assert(rows.to_multiset().contains(row));
    }
    if reading.counter_visit.before.contains_key(metric) {
        let list = counter_list(counters);
        assert(is_listed(list, metric));
        let i = choose|i: int| 0 <= i < list.len() && (#[trigger] list[i]).0 == metric;
        assert(reading.counter_visit.before.contains_pair(list[i].0, list[i].1));
        assert(all[i] == told(metric, "counter"@, decimal(list[i].1 as nat)));
        assert(all.contains(all[i]));
    }
    if reading.gauge_visit.before.contains_key(metric) {
        let list = gauge_list(gauges);
        assert(is_listed(list, metric));
        let i = choose|i: int| 0 <= i < list.len() && (#[trigger] list[i]).0 == metric;
        assert(reading.gauge_visit.before.contains_pair(list[i].0, list[i].1));
        let row = all[a.len() + i];
        assert(row == b[i]);
        assert(row == told(metric, "gauge"@, texts[i]@));
        assert(all.contains(row));
        assert(rows.contains(told(metric, "gauge"@, texts[i]@)));
    }
    if reading.histogram_visit.before.contains_key(metric) {
        let list = histogram_list(histograms);
        assert(is_listed(list, metric));
        let i = choose|i: int| 0 <= i < list.len() && (#[trigger] list[i]).0 == metric;
        assert(reading.histogram_visit.before.contains_pair(list[i].0, list[i].1));
        assert(tell_of(stats[i], list[i].1, summarize));
        assert forall|k: int| 0 <= k < stats[i].len() implies rows.contains(
            told_stat(metric, #[trigger] stats[i][k]),
        ) by {
            let lists = Seq::new(
                histograms.len(),
                |i: int|
                    stats[i].map_values(
                        |stat: (Seq<char>, Seq<char>)|
                            told_stat(metric_of(histograms[i].key), stat),
                    ),
            );
            let row = told_stat(metric, stats[i][k]);
            assert(lists[i][k] == row);
            flattened_list_holds(lists, i, k);
            let p = choose|p: int| 0 <= p < c.len() && c[p] == row;
            assert(all[a.len() + b.len() + p] == row);
            assert(all.contains(row));
        }
    }
}

proof fn flattened_list_holds(lists: Seq<Seq<SampleRow>>, i: int, k: int)
    requires
        0 <= i < lists.len(),
        0 <= k < lists[i].len(),
    ensures
        lists.flatten().contains(lists[i][k]),
    decreases lists.len(),
{
    let rest = lists.drop_first().flatten();
    let row = lists[i][k];
    assert(lists.flatten() == lists.first() + rest);
    if i == 0 {
        assert(lists.flatten()[k] == row);
    } else {
        assert(lists.drop_first()[i - 1] == lists[i]);
        flattened_list_holds(lists.drop_first(), i - 1, k);
        let p = choose|p: int| 0 <= p < rest.len() && rest[p] == row;
        assert(lists.flatten()[lists.first().len() + p] == row);
    }
}

/// The records of a snapshot are its rows, each behind the same timestamp: that of a moment which
/// the clock showed. Up to the year 9999 it is read as that moment, less a fraction of a
/// millisecond.
pub proof fn records_carry_the_moment_of_the_clock(
    records: Seq<Vec<String>>,
    rows: Seq<SampleRow>,
)
    requires
        are_records_of(records, rows),
    ensures
        records.len() == rows.len(),
        rows.len() > 0 ==> exists|seconds: i64, nanos: u32| #[trigger]
            was_shown(seconds, nanos) && (forall|i: int|
                0 <= i < rows.len() ==> views((#[trigger] records[i])@) == seq![
                    views(records[0]@)[0],
                    rows[i].name,
                    rows[i].kind,
                    rows[i].labels,
                    rows[i].value,
                ]) && (whole_millis(seconds as int, nanos as int) <= LAST_FOUR_DIGIT_MILLIS ==> {
                let read = rfc3339_reading(views(records[0]@)[0]);
                &&& is_timestamp_shaped(views(records[0]@)[0])
                &&& read is Ok
                &&& read->Ok_0.0 == seconds
                &&& read->Ok_0.1 <= nanos < read->Ok_0.1 + 1_000_000
            }),
{
    if rows.len() > 0 {
        let (timestamp, seconds, nanos) = choose|timestamp: Seq<char>, seconds: i64, nanos: u32|
            was_shown(seconds, nanos) && crate::timestamp::is_clock_time(seconds, nanos)
                && #[trigger] is_timestamp_at(timestamp, seconds, nanos) && record_views(records)
                == rows.map_values(
                |row: SampleRow| crate::snapshot::record_of(timestamp, row),
            );
        assert(record_views(records).len() == records.len());
        assert forall|i: int| 0 <= i < rows.len() implies views((#[trigger] records[i])@) =~= seq![
            timestamp,
            rows[i].name,
            rows[i].kind,
            rows[i].labels,
            rows[i].value,
        ] by {
            assert(record_views(records)[i] == views(records[i]@));
        }
        assert(views(records[0]@)[0] == timestamp);
        if whole_millis(seconds as int, nanos as int) <= LAST_FOUR_DIGIT_MILLIS {
            timestamps_read_back_to_the_millisecond(timestamp, seconds, nanos);
        }
        assert(was_shown(seconds, nanos));
    }
}

} // verus!
