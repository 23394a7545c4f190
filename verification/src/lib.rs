//! Exports metrics of the `metrics` crate as long-form CSV, and converts such CSV to wide form.
//!
//! Each snapshot writes one row for each counter and gauge and one row for each statistic of a
//! histogram, under the header `timestamp_rfc3339,name,kind,labels,value`. Names, label keys and
//! label values are sanitized: letters become lower case, and white space, `|` and `=` become
//! underscores. The labels of a row are `key=value` pairs with `|` between them, in the order of
//! the metric key; the rows of a histogram carry the statistic as one more pair, `stat=<name>`.
//!
//! The library computes and decides: it takes snapshots, formats and sorts rows, plans the export
//! and its steps, and converts tables. Files, timers and the formatting of doubles belong to the
//! program around it.
pub mod clock;
pub mod error;
pub mod exporter;
pub mod histogram;
pub mod key;
pub mod laws;
pub mod long2wide;
pub mod order;
pub mod path;
pub mod path_laws;
pub mod prometheus;
pub mod recorder;
pub mod registry;
pub mod row_laws;
pub mod snapshot;
pub mod sorted_map;
pub mod sorting;
pub mod text;
pub mod timestamp;
pub mod util;

pub use crate::error::{BuildError, CsvError};
pub use crate::recorder::{CsvBuilder, CsvRecorder};
