//! Why a recorder cannot be built or written.
use metrics::SetRecorderError;
use vstd::prelude::*;

use crate::recorder::CsvRecorder;

verus! {

/// A failure of the operating system.
#[verifier::external_type_specification]
#[verifier::external_body]
pub struct ExIoError(std::io::Error);

/// A failure to write CSV text.
#[verifier::external_type_specification]
#[verifier::external_body]
pub struct ExCsvAsyncError(csv_async::Error);

/// A refusal to install a second recorder, with that recorder.
#[verifier::external_type_specification]
#[verifier::external_body]
#[verifier::reject_recursive_types(R)]
pub struct ExSetRecorderError<R>(metrics::SetRecorderError<R>);

/// Why a CSV file cannot be created, opened or written.
#[derive(Debug)]
pub enum CsvError {
    /// The operating system refused to create, open or write the file.
    Io(std::io::Error),
    /// A record could not be written.
    CsvAsyncWriter(csv_async::Error),
}

impl From<std::io::Error> for CsvError {
    fn from(error: std::io::Error) -> (converted: CsvError) {
        CsvError::Io(error)
    }
}

impl vstd::std_specs::convert::FromSpecImpl<std::io::Error> for CsvError {
    open spec fn obeys_from_spec() -> bool {
        true
    }

    open spec fn from_spec(error: std::io::Error) -> CsvError {
        CsvError::Io(error)
    }
}

impl From<csv_async::Error> for CsvError {
    fn from(error: csv_async::Error) -> (converted: CsvError) {
        CsvError::CsvAsyncWriter(error)
    }
}

impl vstd::std_specs::convert::FromSpecImpl<csv_async::Error> for CsvError {
    open spec fn obeys_from_spec() -> bool {
        true
    }

    open spec fn from_spec(error: csv_async::Error) -> CsvError {
        CsvError::CsvAsyncWriter(error)
    }
}

/// Why a recorder cannot be built or installed.
#[derive(Debug)]
pub enum BuildError {
    /// No path was set with `CsvBuilder::with_path`.
    MissingPath,
    /// The CSV file could not be created, opened or written.
    Csv(CsvError),
    /// Another recorder is installed already.
    Install(SetRecorderError<CsvRecorder>),
}

impl From<CsvError> for BuildError {
    fn from(error: CsvError) -> (converted: BuildError) {
        BuildError::Csv(error)
    }
}

impl vstd::std_specs::convert::FromSpecImpl<CsvError> for BuildError {
    open spec fn obeys_from_spec() -> bool {
        true
    }

    open spec fn from_spec(error: CsvError) -> BuildError {
        BuildError::Csv(error)
    }
}

impl From<SetRecorderError<CsvRecorder>> for BuildError {
    fn from(error: SetRecorderError<CsvRecorder>) -> (converted: BuildError) {
        BuildError::Install(error)
    }
}

impl vstd::std_specs::convert::FromSpecImpl<SetRecorderError<CsvRecorder>> for BuildError {
    open spec fn obeys_from_spec() -> bool {
        true
    }

    open spec fn from_spec(error: SetRecorderError<CsvRecorder>) -> BuildError {
        BuildError::Install(error)
    }
}

} // verus!
