//! Metric keys of the `metrics` crate: a name and a list of labels.
use metrics::Key;
use vstd::prelude::*;

verus! {

/// The key under which the `metrics` crate files a metric.
#[verifier::external_type_specification]
#[verifier::external_body]
pub struct ExKey(metrics::Key);

/// The labels that a key holds, in its order: each a key and a value.
pub uninterp spec fn key_labels(key: metrics::Key) -> Seq<(Seq<char>, Seq<char>)>;

/// The metric name that a key holds.
pub uninterp spec fn key_name(key: metrics::Key) -> Seq<char>;

/// One label of a metric.
pub struct LabelEntry {
    pub key: String,
    pub value: String,
}

impl View for LabelEntry {
    type V = (Seq<char>, Seq<char>);

    open spec fn view(&self) -> (Seq<char>, Seq<char>) {
        (self.key@, self.value@)
    }
}

/// The labels that a list of entries stands for.
pub open spec fn label_views(labels: Seq<LabelEntry>) -> Seq<(Seq<char>, Seq<char>)> {
    labels.map_values(|label: LabelEntry| label@)
}

/// What identifies a metric: its name and its labels, in order.
pub struct Metric {
    pub name: Seq<char>,
    pub labels: Seq<(Seq<char>, Seq<char>)>,
}

/// The metric that a key stands for.
pub open spec fn metric_of(key: metrics::Key) -> Metric {
    Metric { name: key_name(key), labels: key_labels(key) }
}

/// `metrics::Key::name`: the name that the key was made with.
#[verifier::external_body]
pub(crate) fn name_of(key: &Key) -> (name: String)
    ensures
        name@ == key_name(*key),
{
    key.name().to_string()
}

/// `metrics::Key::labels`: all labels of the key, in the order in which it was given them.
#[verifier::external_body]
pub(crate) fn labels_of(key: &Key) -> (labels: Vec<LabelEntry>)
    ensures
        label_views(labels@) == key_labels(*key),
{
    key.labels()
        .map(|label| LabelEntry { key: label.key().to_string(), value: label.value().to_string() })
        .collect()
}

/// `metrics::Key::from_parts`: a key with this name and these labels, in this order.
#[verifier::external_body]
fn from_parts(name: String, labels: Vec<LabelEntry>) -> (key: Key)
    ensures
        key_name(key) == name@,
        key_labels(key) == label_views(labels@),
{
    let labels: Vec<metrics::Label> =
        labels.into_iter().map(|label| metrics::Label::new(label.key, label.value)).collect();
    Key::from_parts(name, labels)
}

/// `metrics::Key::with_extra_labels`: the same name, and the extra labels behind those of the key.
#[verifier::external_body]
fn with_extra_labels(key: &Key, extra: Vec<LabelEntry>) -> (extended: Key)
    ensures
        key_name(extended) == key_name(*key),
        key_labels(extended) == key_labels(*key) + label_views(extra@),
{
    key.with_extra_labels(
        extra.into_iter().map(|label| metrics::Label::new(label.key, label.value)).collect(),
    )
}

/// The key of the metric with this name and these labels.
pub fn metric_key(name: String, labels: Vec<LabelEntry>) -> (key: Key)
    ensures
        key_name(key) == name@,
        key_labels(key) == label_views(labels@),
{
    from_parts(name, labels)
}

/// The key of the same metric with one more label, which comes last.
pub fn with_label(key: &Key, label: LabelEntry) -> (extended: Key)
    ensures
        key_name(extended) == key_name(*key),
        key_labels(extended) == key_labels(*key).push(label@),
{
    let mut extra: Vec<LabelEntry> = Vec::new();
    extra.push(label);
    let extended = with_extra_labels(key, extra);
    assert(key_labels(extended) =~= key_labels(*key).push(label@));
    extended
}

} // verus!
