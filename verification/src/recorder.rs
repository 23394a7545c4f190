//! The recorder, its builder and the steps of the exporter that writes it out.
use metrics::{Counter, Gauge, Histogram, Key};
use std::sync::Arc;
use std::time::Duration;
use vstd::prelude::*;

use crate::error::BuildError;
use crate::key::{key_labels, key_name, Metric};
use crate::path::{
    is_base_path, is_parent_directory, normalize_base_path, parent_directory, FilePath, PathStyle,
};
use crate::registry::{
    counter_handle, gauge_handle, histogram_handle, initial_metrics, kept_counter, kept_gauge,
    kept_histogram, MetricRegistry,
};
use crate::text::views;

verus! {

/// The seconds between two snapshots, where nothing else is asked for.
pub const DEFAULT_FLUSH_INTERVAL_SECS: u64 = 3;

/// The nanoseconds that a duration spans.
pub uninterp spec fn duration_nanos(duration: Duration) -> nat;

/// `Duration::from_secs`: so many whole seconds.
pub assume_specification[ Duration::from_secs ](secs: u64) -> (duration: Duration)
    ensures
        duration_nanos(duration) == secs as nat * 1_000_000_000,
;

/// `Duration::is_zero`: whether the duration spans no time.
pub assume_specification[ Duration::is_zero ](duration: &Duration) -> (yes: bool)
    ensures
        yes == (duration_nanos(*duration) == 0),
;

/// Records metrics, which the exporter writes out.
pub struct CsvRecorder {
    /// The metrics that are recorded, which the exporter shares.
    pub registry: Arc<MetricRegistry>,
}

impl CsvRecorder {
    /// A recorder without metrics.
    pub fn new() -> (recorder: CsvRecorder)
        ensures
            initial_metrics(*recorder.registry) == Set::<Metric>::empty(),
    {
        CsvRecorder { registry: Arc::new(MetricRegistry::new()) }
    }

    /// The metrics that are recorded.
    pub fn registry(&self) -> (registry: &Arc<MetricRegistry>)
        ensures
            *registry == self.registry,
    {
        &self.registry
    }

    /// The counter of that key: the one that the registry keeps for its name and labels.
    pub fn register_counter(&self, key: &Key) -> (handle: Counter)
        ensures
            handle == kept_counter(*self.registry, key_name(*key), key_labels(*key)),
    {
        counter_handle(&self.registry, key)
    }

    /// The gauge of that key: the one that the registry keeps for its name and labels.
    pub fn register_gauge(&self, key: &Key) -> (handle: Gauge)
        ensures
            handle == kept_gauge(*self.registry, key_name(*key), key_labels(*key)),
    {
        gauge_handle(&self.registry, key)
    }

    /// The histogram of that key: the one that the registry keeps for its name and labels.
    pub fn register_histogram(&self, key: &Key) -> (handle: Histogram)
        ensures
            handle == kept_histogram(*self.registry, key_name(*key), key_labels(*key)),
    {
        histogram_handle(&self.registry, key)
    }
}

/// The header of the file, cell by cell.
pub open spec fn header() -> Seq<Seq<char>> {
    seq!["timestamp_rfc3339"@, "name"@, "kind"@, "labels"@, "value"@]
}

/// Lists the cells of the header.
pub fn header_record() -> (record: Vec<String>)
    ensures
        views(record@) == header(),
{
    let mut record: Vec<String> = Vec::new();
    record.push("timestamp_rfc3339".to_string());
    record.push("name".to_string());
    record.push("kind".to_string());
    record.push("labels".to_string());
    record.push("value".to_string());
    assert(views(record@) =~= header());
    record
}

/// How a recorder is to be built.
#[derive(Debug)]
pub struct CsvBuilder {
    /// The path of the file.
    pub path: Option<FilePath>,
    /// The time between two snapshots.
    pub flush_interval: Duration,
}

/// What to do before metrics can be exported, and how to export them.
pub struct ExportPlan {
    /// The directory to create, with its parents, where there is one to create.
    pub directory: Option<Vec<u8>>,
    /// The file to create, which must not exist yet.
    pub path: FilePath,
    /// The record to write first.
    pub header: Vec<String>,
    /// The time between two snapshots.
    pub flush_interval: Duration,
}

/// Whether this is the plan to export to `path`.
pub open spec fn is_plan(plan: ExportPlan, path: FilePath, flush_interval: Duration) -> bool {
    &&& is_base_path(path.bytes@, path.style, plan.path.bytes@)
    &&& plan.path.style == path.style
    &&& is_parent_directory(
        plan.path.bytes@,
        path.style,
        match plan.directory {
            Some(directory) => Some(directory@),
            None => None,
        },
    )
    &&& views(plan.header@) == header()
    &&& plan.flush_interval == flush_interval
}

/// What an optional path holds, byte by byte, and the platform that it is for.
pub open spec fn path_parts(path: Option<FilePath>) -> Option<(Seq<u8>, PathStyle)> {
    match path {
        Some(path) => Some((path.bytes@, path.style)),
        None => None,
    }
}

impl Clone for CsvBuilder {
    fn clone(&self) -> (builder: CsvBuilder)
        ensures
            path_parts(builder.path) == path_parts(self.path),
            builder.flush_interval == self.flush_interval,
    {
        let path = match &self.path {
            Some(path) => Some(path.clone()),
            None => None,
        };
        CsvBuilder { path, flush_interval: self.flush_interval }
    }
}

impl Default for CsvBuilder {
    fn default() -> (builder: CsvBuilder)
        ensures
            builder.path is None,
            duration_nanos(builder.flush_interval) == DEFAULT_FLUSH_INTERVAL_SECS as nat
                * 1_000_000_000,
    {
        CsvBuilder {
            path: None,
            flush_interval: Duration::from_secs(DEFAULT_FLUSH_INTERVAL_SECS),
        }
    }
}

impl CsvBuilder {
    /// Sets the path of the file.
    pub fn with_path(self, path: FilePath) -> (builder: CsvBuilder)
        ensures
            builder.path == Some(path),
            builder.flush_interval == self.flush_interval,
    {
        CsvBuilder { path: Some(path), flush_interval: self.flush_interval }
    }

    /// Sets the time between two snapshots; no time at all stands for the default.
    pub fn with_flush_interval(self, interval: Duration) -> (builder: CsvBuilder)
        ensures
            builder.path == self.path,
            duration_nanos(interval) > 0 ==> builder.flush_interval == interval,
            duration_nanos(interval) == 0 ==> duration_nanos(builder.flush_interval)
                == DEFAULT_FLUSH_INTERVAL_SECS as nat * 1_000_000_000,
    {
        let flush_interval = if interval.is_zero() {
            Duration::from_secs(DEFAULT_FLUSH_INTERVAL_SECS)
        } else {
            interval
        };
        CsvBuilder { path: self.path, flush_interval }
    }

    /// Builds a recorder without metrics, and plans its export.
    pub fn build(self) -> (result: Result<(CsvRecorder, ExportPlan), BuildError>)
        ensures
            match self.path {
                None => result == Err::<(CsvRecorder, ExportPlan), BuildError>(
                    BuildError::MissingPath,
                ),
                Some(path) => result matches Ok((recorder, plan)) && is_plan(
                    plan,
                    path,
                    self.flush_interval,
                ) && initial_metrics(*recorder.registry) == Set::<Metric>::empty(),
            },
    {
        match self.path {
            None => Err(BuildError::MissingPath),
            Some(path) => {
                let path = normalize_base_path(path);
                let directory = parent_directory(&path);
                let plan = ExportPlan {
                    directory,
                    path,
                    header: header_record(),
                    flush_interval: self.flush_interval,
                };
                Ok((CsvRecorder::new(), plan))
            },
        }
    }
}

} // verus!
