//! The registry of metrics that are being recorded.
//!
//! Other threads register and update metrics at any time, and the registry walks them in the order
//! of a hash table. So what is read is one of the visits that the registry gets over its life, and
//! no two visits are claimed to be alike. A visit lists all metrics that are there when it starts;
//! which values it lists is said for the case that no other thread uses the registry or its handles
//! meanwhile. What does not change is which metrics a registry was made with, and which metric it
//! keeps for a key.
use metrics::{Counter, Gauge, Histogram, Key};
use vstd::prelude::*;

use crate::key::{key_labels, key_name, metric_of, Metric};

verus! {

/// A handle that adds to a counter.
#[verifier::external_type_specification]
#[verifier::external_body]
pub struct ExCounter(metrics::Counter);

/// A handle that sets a gauge.
#[verifier::external_type_specification]
#[verifier::external_body]
pub struct ExGauge(metrics::Gauge);

/// A handle that records samples of a histogram.
#[verifier::external_type_specification]
#[verifier::external_body]
pub struct ExHistogram(metrics::Histogram);

/// All metrics that were registered, each with its present state: a
/// `metrics_util::registry::Registry` with atomic storage.
#[verifier::external_body]
pub struct MetricRegistry {
    registry: metrics_util::registry::Registry<
        metrics::Key,
        metrics_util::registry::AtomicStorage,
    >,
}

/// A round in which all metrics of a registry are read. Taking the samples out of the histograms ends
/// it, so that no round takes them out twice.
pub struct Round<'a> {
    registry: &'a MetricRegistry,
}

impl<'a> Round<'a> {
    /// The registry that is read.
    pub closed spec fn registry(self) -> MetricRegistry {
        *self.registry
    }

    /// Starts a round.
    pub fn start(registry: &'a MetricRegistry) -> (round: Round<'a>)
        ensures
            round.registry() == *registry,
    {
        Round { registry }
    }
}

/// The value of a counter at some moment.
pub struct CounterReading {
    pub key: Key,
    pub value: u64,
}

/// The value of a gauge at some moment, as the bits of a double.
pub struct GaugeReading {
    pub key: Key,
    pub bits: u64,
}

/// The samples that were taken out of a histogram, each as the bits of a double.
pub struct HistogramReading {
    pub key: Key,
    pub samples: Vec<u64>,
}

/// What these readings say of counters: each metric with its value.
pub open spec fn counter_list(readings: Seq<CounterReading>) -> Seq<(Metric, u64)> {
    readings.map_values(|reading: CounterReading| (metric_of(reading.key), reading.value))
}

/// What these readings say of gauges: each metric with the bits of its value.
pub open spec fn gauge_list(readings: Seq<GaugeReading>) -> Seq<(Metric, u64)> {
    readings.map_values(|reading: GaugeReading| (metric_of(reading.key), reading.bits))
}

/// What these readings say of histograms: each metric with its samples.
pub open spec fn histogram_list(readings: Seq<HistogramReading>) -> Seq<(Metric, Seq<u64>)> {
    readings.map_values(|reading: HistogramReading| (metric_of(reading.key), reading.samples@))
}

/// A visit of all counters, gauges or histograms of a registry.
pub struct Visit<V> {
    /// The metrics that were found, each with its value.
    pub list: Seq<(Metric, V)>,
    /// What the registry held before the visit.
    pub before: Map<Metric, V>,
    /// What the registry held after the visit.
    pub after: Map<Metric, V>,
    /// Whether no other thread used the registry or one of its handles during the visit.
    pub undisturbed: bool,
    /// Whether no metric had been registered by the end of the visit.
    pub unused: bool,
}

/// Whether no metric is listed twice.
pub open spec fn lists_once<V>(list: Seq<(Metric, V)>) -> bool {
    forall|i: int, j: int|
        0 <= i < j < list.len() ==> (#[trigger] list[i]).0 != (#[trigger] list[j]).0
}

/// Whether a metric is listed.
pub open spec fn is_listed<V>(list: Seq<(Metric, V)>, metric: Metric) -> bool {
    exists|i: int| 0 <= i < list.len() && (#[trigger] list[i]).0 == metric
}

/// Whether exactly what is held is listed, each metric once and with its value.
pub open spec fn lists_all<V>(list: Seq<(Metric, V)>, held: Map<Metric, V>) -> bool {
    &&& lists_once(list)
    &&& forall|i: int|
        0 <= i < list.len() ==> held.contains_pair((#[trigger] list[i]).0, list[i].1)
    &&& forall|metric: Metric| #[trigger] held.contains_key(metric) ==> is_listed(list, metric)
}

impl<V> Visit<V> {
    /// Whether the visit found this list, with each metric once: all that were held before, and
    /// none that is not held after. Where the visit was undisturbed, it found exactly what the
    /// registry held; an unused registry holds what it was made with.
    pub open spec fn found(self, list: Seq<(Metric, V)>, initial: Set<Metric>) -> bool {
        &&& self.list == list
        &&& lists_once(list)
        &&& forall|metric: Metric| #[trigger]
            self.before.contains_key(metric) ==> is_listed(list, metric)
        &&& forall|i: int|
            0 <= i < list.len() ==> self.after.contains_key((#[trigger] list[i]).0)
        &&& self.undisturbed ==> lists_all(list, self.before)
        &&& self.unused ==> forall|i: int|
            0 <= i < list.len() ==> initial.contains((#[trigger] list[i]).0)
    }
}

impl Visit<u64> {
    /// Whether the visit found this list, and, where it was undisturbed, left everything as it was.
    pub open spec fn sampled(self, list: Seq<(Metric, u64)>, initial: Set<Metric>) -> bool {
        &&& self.found(list, initial)
        &&& self.undisturbed ==> self.after == self.before
    }
}

impl Visit<Seq<u64>> {
    /// Whether the visit found this list, and, where it was undisturbed, left all histograms
    /// without samples.
    pub open spec fn drained(self, list: Seq<(Metric, Seq<u64>)>, initial: Set<Metric>) -> bool {
        &&& self.found(list, initial)
        &&& self.undisturbed ==> self.after.dom() == self.before.dom()
        &&& self.undisturbed ==> forall|metric: Metric| #[trigger]
            self.after.contains_key(metric) ==> self.after[metric].len() == 0
    }
}

/// Whether one of these visits of a registry that was made with these metrics found the list.
pub open spec fn was_sampled(
    list: Seq<(Metric, u64)>,
    visits: Set<Visit<u64>>,
    initial: Set<Metric>,
) -> bool {
    exists|visit: Visit<u64>| #[trigger] visits.contains(visit) && visit.sampled(list, initial)
}

/// Whether one of these visits of a registry that was made with these metrics took out the list.
pub open spec fn was_drained(
    list: Seq<(Metric, Seq<u64>)>,
    visits: Set<Visit<Seq<u64>>>,
    initial: Set<Metric>,
) -> bool {
    exists|visit: Visit<Seq<u64>>| #[trigger]
        visits.contains(visit) && visit.drained(list, initial)
}

/// The visits of its counters that a registry gets over its life.
pub uninterp spec fn counter_visits(registry: MetricRegistry) -> Set<Visit<u64>>;

/// The visits of its gauges that a registry gets over its life.
pub uninterp spec fn gauge_visits(registry: MetricRegistry) -> Set<Visit<u64>>;

/// The visits of its histograms that a registry gets over its life; samples come in the order in
/// which a histogram hands them out.
pub uninterp spec fn histogram_visits(registry: MetricRegistry) -> Set<Visit<Seq<u64>>>;

/// The metrics that a registry held when it was made.
pub uninterp spec fn initial_metrics(registry: MetricRegistry) -> Set<Metric>;

/// The handle of the one counter that a registry keeps for a name and labels.
pub uninterp spec fn kept_counter(
    registry: MetricRegistry,
    name: Seq<char>,
    labels: Seq<(Seq<char>, Seq<char>)>,
) -> metrics::Counter;

/// The handle of the one gauge that a registry keeps for a name and labels.
pub uninterp spec fn kept_gauge(
    registry: MetricRegistry,
    name: Seq<char>,
    labels: Seq<(Seq<char>, Seq<char>)>,
) -> metrics::Gauge;

/// The handle of the one histogram that a registry keeps for a name and labels.
pub uninterp spec fn kept_histogram(
    registry: MetricRegistry,
    name: Seq<char>,
    labels: Seq<(Seq<char>, Seq<char>)>,
) -> metrics::Histogram;

/// `metrics_util::registry::Registry::atomic`: a registry that is made without metrics.
#[verifier::external_body]
fn empty_registry() -> (registry: MetricRegistry)
    ensures
        initial_metrics(registry) == Set::<Metric>::empty(),
{
    MetricRegistry { registry: metrics_util::registry::Registry::atomic() }
}

/// `Registry::get_or_create_counter`: a handle of the counter of that key, which is created at
/// zero where there is none. No counter is ever taken out, so equal keys lead to the same one. That
/// what is added through the handle is read later is not said, since other threads add as well.
#[verifier::external_body]
pub(crate) fn counter_handle(registry: &MetricRegistry, key: &Key) -> (handle: Counter)
    ensures
        handle == kept_counter(*registry, key_name(*key), key_labels(*key)),
{
    Counter::from_arc(registry.registry.get_or_create_counter(key, std::sync::Arc::clone))
}

/// `Registry::get_or_create_gauge`: a handle of the gauge of that key, which is created at zero
/// where there is none. No gauge is ever taken out, so equal keys lead to the same one. That what is
/// set through the handle is read later is not said, since other threads set it as well.
#[verifier::external_body]
pub(crate) fn gauge_handle(registry: &MetricRegistry, key: &Key) -> (handle: Gauge)
    ensures
        handle == kept_gauge(*registry, key_name(*key), key_labels(*key)),
{
    Gauge::from_arc(registry.registry.get_or_create_gauge(key, std::sync::Arc::clone))
}

/// `Registry::get_or_create_histogram`: a handle of the histogram of that key, which is created
/// empty where there is none. No histogram is ever taken out, so equal keys lead to the same one.
/// That what is recorded through the handle is read later is not said, since other threads record
/// and read as well.
#[verifier::external_body]
pub(crate) fn histogram_handle(registry: &MetricRegistry, key: &Key) -> (handle: Histogram)
    ensures
        handle == kept_histogram(*registry, key_name(*key), key_labels(*key)),
{
    Histogram::from_arc(registry.registry.get_or_create_histogram(key, std::sync::Arc::clone))
}

/// `Registry::visit_counters`: one of the visits of the registry. It hands out each counter once,
/// among them all that were there before, since none is ever taken out, and changes nothing. If no
/// other thread is at work, it hands out exactly the counters that are there, with their values.
#[verifier::external_body]
pub(crate) fn counter_readings(round: &Round<'_>) -> (readings: Vec<CounterReading>)
    ensures
        was_sampled(
            counter_list(readings@),
            counter_visits(round.registry()),
            initial_metrics(round.registry()),
        ),
{
    let mut readings = Vec::new();
    round.registry.registry.visit_counters(
        |key, counter|
            readings.push(
                CounterReading {
                    key: key.clone(),
                    value: counter.load(std::sync::atomic::Ordering::Acquire),
                },
            ),
    );
    readings
}

/// `Registry::visit_gauges`: one of the visits of the registry. It hands out each gauge once, among
/// them all that were there before, since none is ever taken out, and changes nothing. If no other
/// thread is at work, it hands out exactly the gauges that are there, with their values.
#[verifier::external_body]
pub(crate) fn gauge_readings(round: &Round<'_>) -> (readings: Vec<GaugeReading>)
    ensures
        was_sampled(
            gauge_list(readings@),
            gauge_visits(round.registry()),
            initial_metrics(round.registry()),
        ),
{
    let mut readings = Vec::new();
    round.registry.registry.visit_gauges(
        |key, gauge|
            readings.push(
                GaugeReading {
                    key: key.clone(),
                    bits: gauge.load(std::sync::atomic::Ordering::Acquire),
                },
            ),
    );
    readings
}

/// `Registry::visit_histograms` with `AtomicBucket::clear_with`: one of the visits of the registry.
/// It hands out each histogram once, among them all that were there before, since none is ever taken
/// out. If no other thread is at work, it hands out exactly the histograms that are there, each with
/// all samples that it holds, and leaves them empty. Of samples that are recorded meanwhile nothing
/// is said: they may be handed out, stay for the next visit or be lost.
#[verifier::external_body]
pub(crate) fn take_histogram_readings(round: Round<'_>) -> (readings: Vec<HistogramReading>)
    ensures
        was_drained(
            histogram_list(readings@),
            histogram_visits(round.registry()),
            initial_metrics(round.registry()),
        ),
{
    let mut readings = Vec::new();
    round.registry.registry.visit_histograms(
        |key, bucket|
            {
                let mut samples = Vec::new();
                bucket.clear_with(
                    |values| samples.extend(values.iter().map(|value| value.to_bits())),
                );
                readings.push(HistogramReading { key: key.clone(), samples });
            },
    );
    readings
}

/// What was read from a registry, with the visits that it came from.
pub struct Reading {
    pub counters: Seq<CounterReading>,
    pub gauges: Seq<GaugeReading>,
    pub histograms: Seq<HistogramReading>,
    pub counter_visit: Visit<u64>,
    pub gauge_visit: Visit<u64>,
    pub histogram_visit: Visit<Seq<u64>>,
}

impl Reading {
    /// Whether this was read from that registry: all counters, then all gauges, then all histograms,
    /// each in a visit of the registry.
    pub open spec fn was_read(self, registry: MetricRegistry) -> bool {
        &&& counter_visits(registry).contains(self.counter_visit)
        &&& self.counter_visit.sampled(counter_list(self.counters), initial_metrics(registry))
        &&& gauge_visits(registry).contains(self.gauge_visit)
        &&& self.gauge_visit.sampled(gauge_list(self.gauges), initial_metrics(registry))
        &&& histogram_visits(registry).contains(self.histogram_visit)
        &&& self.histogram_visit.drained(
            histogram_list(self.histograms),
            initial_metrics(registry),
        )
    }

    /// Whether no other thread used the registry or its handles while this was read.
    pub open spec fn is_undisturbed(self) -> bool {
        self.counter_visit.undisturbed && self.gauge_visit.undisturbed
            && self.histogram_visit.undisturbed
    }

    /// Whether nothing was registered or updated between this reading and a later one.
    pub open spec fn is_followed_by(self, later: Reading) -> bool {
        &&& later.counter_visit.before == self.counter_visit.after
        &&& later.gauge_visit.before == self.gauge_visit.after
        &&& later.histogram_visit.before == self.histogram_visit.after
    }
}

impl MetricRegistry {
    /// A registry without metrics.
    pub fn new() -> (registry: Self)
        ensures
            initial_metrics(registry) == Set::<Metric>::empty(),
    {
        empty_registry()
    }
}

} // verus!
