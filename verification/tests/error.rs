use std::io;

use metrics::SetRecorderError;
use metrics_exporter_csv::{BuildError, CsvError, CsvRecorder};

#[test]
fn io_error_converts_to_csv_error() {
    let err = io::Error::other("boom");
    let csv_err: CsvError = err.into();
    assert!(matches!(csv_err, CsvError::Io(_)));
}

#[test]
fn write_error_converts_to_csv_error() {
    let err = csv_async::Error::from(io::Error::other("boom"));
    let csv_err: CsvError = err.into();
    assert!(matches!(csv_err, CsvError::CsvAsyncWriter(_)));
}

#[test]
fn csv_error_converts_to_build_error() {
    let err: BuildError = CsvError::Io(io::Error::other("boom")).into();
    assert!(matches!(err, BuildError::Csv(CsvError::Io(_))));
}

#[test]
fn install_error_converts_to_build_error() {
    let err: BuildError = SetRecorderError(CsvRecorder::new()).into();
    assert!(matches!(err, BuildError::Install(_)));
}
