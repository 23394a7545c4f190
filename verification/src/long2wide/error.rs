//! Why a conversion fails.
use vstd::prelude::*;

use crate::text::{decimal, push_decimal};

verus! {

/// Why a conversion fails.
#[derive(Debug)]
pub enum ConvertError {
    /// The input at that position could not be opened.
    OpenInput { file: usize, path: String },
    /// An input cannot be read as CSV text.
    Csv { cause: String },
    /// A record of that input has the wrong number of cells.
    ColumnCount { found: usize, path: String },
    /// A row is of no known kind.
    InvalidKind { kind: String },
    /// A timestamp cannot be read, for the given cause.
    InvalidTimestamp { timestamp: String, cause: String },
    /// A timestamp lies before that of the row before it.
    Unsorted { previous: String, timestamp: String },
    /// A series has two values at one moment.
    Duplicate { timestamp: String, series: String },
}

/// What a `ConvertError` says.
pub enum Failure {
    OpenInput { file: int, path: Seq<char> },
    Csv { cause: Seq<char> },
    ColumnCount { found: int, path: Seq<char> },
    InvalidKind { kind: Seq<char> },
    InvalidTimestamp { timestamp: Seq<char>, cause: Seq<char> },
    Unsorted { previous: Seq<char>, timestamp: Seq<char> },
    Duplicate { timestamp: Seq<char>, series: Seq<char> },
}

impl View for ConvertError {
    type V = Failure;

    open spec fn view(&self) -> Failure {
        match self {
            ConvertError::OpenInput { file, path } => Failure::OpenInput {
                file: *file as int,
                path: path@,
            },
            ConvertError::Csv { cause } => Failure::Csv { cause: cause@ },
            ConvertError::ColumnCount { found, path } => Failure::ColumnCount {
                found: *found as int,
                path: path@,
            },
            ConvertError::InvalidKind { kind } => Failure::InvalidKind { kind: kind@ },
            ConvertError::InvalidTimestamp { timestamp, cause } => Failure::InvalidTimestamp {
                timestamp: timestamp@,
                cause: cause@,
            },
            ConvertError::Unsorted { previous, timestamp } => Failure::Unsorted {
                previous: previous@,
                timestamp: timestamp@,
            },
            ConvertError::Duplicate { timestamp, series } => Failure::Duplicate {
                timestamp: timestamp@,
                series: series@,
            },
        }
    }
}

/// What an optional error says.
pub open spec fn failure_view(error: Option<ConvertError>) -> Option<Failure> {
    match error {
        Some(error) => Some(error@),
        None => None,
    }
}

/// The message that tells a user of the failure.
pub open spec fn failure_text(failure: Failure) -> Seq<char> {
    match failure {
        Failure::OpenInput { path, .. } => "open input file "@ + path,
        Failure::Csv { cause } => cause,
        Failure::ColumnCount { found, path } => "expected 5 columns but found "@ + decimal(
            found as nat,
        ) + " in "@ + path,
        Failure::InvalidKind { kind } => "invalid kind: "@ + kind,
        Failure::InvalidTimestamp { timestamp, .. } => "invalid timestamp: "@ + timestamp,
        Failure::Unsorted { previous, timestamp } => "timestamps are not sorted; saw "@ + previous
            + " before "@ + timestamp,
        Failure::Duplicate { timestamp, series } => "duplicate timestamp+series: "@ + timestamp
            + " / "@ + series,
    }
}

impl ConvertError {
    /// The message that tells a user of the error.
    pub fn message(&self) -> (text: String)
        ensures
            text@ == failure_text(self@),
    {
        match self {
            ConvertError::OpenInput { path, .. } => {
                let mut text = "open input file ".to_string();
                text.append(path.as_str());
                text
            },
            ConvertError::Csv { cause } => cause.clone(),
            ConvertError::ColumnCount { found, path } => {
                let mut text = "expected 5 columns but found ".to_string();
                push_decimal(&mut text, *found as u64);
                text.append(" in ");
                text.append(path.as_str());
                text
            },
            ConvertError::InvalidKind { kind } => {
                let mut text = "invalid kind: ".to_string();
                text.append(kind.as_str());
                text
            },
            ConvertError::InvalidTimestamp { timestamp, .. } => {
                let mut text = "invalid timestamp: ".to_string();
                text.append(timestamp.as_str());
                text
            },
            ConvertError::Unsorted { previous, timestamp } => {
                let mut text = "timestamps are not sorted; saw ".to_string();
                text.append(previous.as_str());
                text.append(" before ");
                text.append(timestamp.as_str());
                text
            },
            ConvertError::Duplicate { timestamp, series } => {
                let mut text = "duplicate timestamp+series: ".to_string();
                text.append(timestamp.as_str());
                text.append(" / ");
                text.append(series.as_str());
                text
            },
        }
    }

}

impl Clone for ConvertError {
    fn clone(&self) -> (error: ConvertError)
        ensures
            error == *self,
    {
        match self {
            ConvertError::OpenInput { file, path } => ConvertError::OpenInput {
                file: *file,
                path: path.clone(),
            },
            ConvertError::Csv { cause } => ConvertError::Csv { cause: cause.clone() },
            ConvertError::ColumnCount { found, path } => ConvertError::ColumnCount {
                found: *found,
                path: path.clone(),
            },
            ConvertError::InvalidKind { kind } => ConvertError::InvalidKind { kind: kind.clone() },
            ConvertError::InvalidTimestamp { timestamp, cause } => ConvertError::InvalidTimestamp {
                timestamp: timestamp.clone(),
                cause: cause.clone(),
            },
            ConvertError::Unsorted { previous, timestamp } => ConvertError::Unsorted {
                previous: previous.clone(),
                timestamp: timestamp.clone(),
            },
            ConvertError::Duplicate { timestamp, series } => ConvertError::Duplicate {
                timestamp: timestamp.clone(),
                series: series.clone(),
            },
        }
    }
}

/// A message names what failed, as it is: the file, the kind, the timestamps or the series that it is
/// about, and for CSV text that cannot be read the cause.
pub proof fn messages_name_what_failed(failure: Failure)
    ensures
        match failure {
            Failure::OpenInput { file: _, path } => failure_text(failure) == "open input file "@
                + path,
            Failure::Csv { cause } => failure_text(failure) == cause,
            Failure::ColumnCount { found, path } => failure_text(failure)
                == "expected 5 columns but found "@ + decimal(found as nat) + " in "@ + path,
            Failure::InvalidKind { kind } => failure_text(failure) == "invalid kind: "@ + kind,
            Failure::InvalidTimestamp { timestamp, cause: _ } => failure_text(failure)
                == "invalid timestamp: "@ + timestamp,
            Failure::Unsorted { previous, timestamp } => failure_text(failure)
                == "timestamps are not sorted; saw "@ + previous + " before "@ + timestamp,
            Failure::Duplicate { timestamp, series } => failure_text(failure)
                == "duplicate timestamp+series: "@ + timestamp + " / "@ + series,
        },
{
}

} // verus!
