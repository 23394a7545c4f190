//! The rows of long-form tables.
use vstd::prelude::*;

use super::csv_text::{
    csv_reading, csv_records, ended_reading, ended_records, reading_view, reading_views,
};
use super::error::{failure_view, ConvertError, Failure};
use crate::order::same_text;
use crate::recorder::header;
use crate::text::views;

verus! {

/// The number of cells of a row.
pub const COLUMN_COUNT: usize = 5;

/// One row of a long-form table.
pub struct CsvRow {
    pub timestamp: String,
    pub name: String,
    pub kind: String,
    pub labels: String,
    pub value: String,
}

/// What a row says.
pub struct Row {
    pub timestamp: Seq<char>,
    pub name: Seq<char>,
    pub kind: Seq<char>,
    pub labels: Seq<char>,
    pub value: Seq<char>,
}

impl View for CsvRow {
    type V = Row;

    open spec fn view(&self) -> Row {
        Row {
            timestamp: self.timestamp@,
            name: self.name@,
            kind: self.kind@,
            labels: self.labels@,
            value: self.value@,
        }
    }
}

/// What a list of rows says.
pub open spec fn row_views(rows: Seq<CsvRow>) -> Seq<Row> {
    rows.map_values(|row: CsvRow| row@)
}

/// What a file to convert holds.
pub enum Contents {
    Bytes(Vec<u8>),
    /// The file could not be opened.
    Unopened,
    /// The file was opened, but reading it failed behind these bytes, for the given cause.
    Unreadable { bytes: Vec<u8>, cause: String },
}

/// A file to convert: its path as messages show it, and what it holds.
pub struct InputFile {
    pub path: String,
    pub contents: Contents,
}

/// What the contents of a file are.
pub enum SourceContents {
    Bytes(Seq<u8>),
    Unopened,
    Unreadable { bytes: Seq<u8>, cause: Seq<char> },
}

/// What an input file holds.
pub struct Source {
    pub path: Seq<char>,
    pub contents: SourceContents,
}

impl View for InputFile {
    type V = Source;

    open spec fn view(&self) -> Source {
        Source {
            path: self.path@,
            contents: match self.contents {
                Contents::Bytes(bytes) => SourceContents::Bytes(bytes@),
                Contents::Unopened => SourceContents::Unopened,
                Contents::Unreadable { bytes, cause } => SourceContents::Unreadable {
                    bytes: bytes@,
                    cause: cause@,
                },
            },
        }
    }
}

/// What a list of input files holds.
pub open spec fn sources(inputs: Seq<InputFile>) -> Seq<Source> {
    inputs.map_values(|input: InputFile| input@)
}

/// The rows that were read, in order, and why reading stopped, if it stopped before the end.
pub struct RowScan {
    pub rows: Vec<CsvRow>,
    pub failure: Option<ConvertError>,
}

/// What a scan holds.
pub struct Scan {
    pub rows: Seq<Row>,
    pub failure: Option<Failure>,
}

impl View for RowScan {
    type V = Scan;

    open spec fn view(&self) -> Scan {
        Scan { rows: row_views(self.rows@), failure: failure_view(self.failure) }
    }
}

/// Whether `kind` is one of the kinds of metrics.
pub open spec fn is_kind(kind: Seq<char>) -> bool {
    kind == "counter"@ || kind == "gauge"@ || kind == "histogram"@
}

/// What becomes of a record.
pub enum Outcome {
    /// It holds no row.
    Skip,
    Row(Row),
    Fail(Failure),
}

/// What becomes of one reading of the table in `path`; `first` says that no record with cells came
/// before it.
pub open spec fn outcome(
    reading: Result<Seq<Seq<char>>, Seq<char>>,
    first: bool,
    path: Seq<char>,
) -> Outcome {
    match reading {
        Err(cause) => Outcome::Fail(Failure::Csv { cause }),
        Ok(cells) => if cells.len() == 0 || (first && cells == header()) {
            Outcome::Skip
        } else if cells.len() != COLUMN_COUNT {
            Outcome::Fail(Failure::ColumnCount { found: cells.len() as int, path })
        } else if !is_kind(cells[2]) {
            Outcome::Fail(Failure::InvalidKind { kind: cells[2] })
        } else {
            Outcome::Row(
                Row {
                    timestamp: cells[0],
                    name: cells[1],
                    kind: cells[2],
                    labels: cells[3],
                    value: cells[4],
                },
            )
        },
    }
}

/// Whether the first `n` readings hold no cell.
pub open spec fn all_blank(readings: Seq<Result<Seq<Seq<char>>, Seq<char>>>, n: int) -> bool {
    forall|i: int| 0 <= i < n ==> (#[trigger] readings[i]) == Ok::<Seq<Seq<char>>, Seq<char>>(
        Seq::empty(),
    )
}

/// The scan of the first `n` readings of the table in `path`: it ends at the first failure.
pub open spec fn table_scan(
    readings: Seq<Result<Seq<Seq<char>>, Seq<char>>>,
    path: Seq<char>,
    n: int,
) -> Scan
    decreases n,
{
    if n <= 0 {
        Scan { rows: Seq::empty(), failure: None }
    } else {
        let before = table_scan(readings, path, n - 1);
        if before.failure is Some {
            before
        } else {
            match outcome(readings[n - 1], all_blank(readings, n - 1), path) {
                Outcome::Skip => before,
                Outcome::Row(row) => Scan { rows: before.rows.push(row), failure: None },
                Outcome::Fail(failure) => Scan { rows: before.rows, failure: Some(failure) },
            }
        }
    }
}

/// The scan of the file at position `file`.
pub open spec fn source_scan(source: Source, file: int) -> Scan {
    match source.contents {
        SourceContents::Unopened => Scan {
            rows: Seq::empty(),
            failure: Some(Failure::OpenInput { file, path: source.path }),
        },
        SourceContents::Unreadable { bytes, cause } => {
            let readings = ended_reading(bytes).push(Err(cause));
            table_scan(readings, source.path, readings.len() as int)
        },
        SourceContents::Bytes(bytes) => {
            let readings = csv_reading(bytes);
            table_scan(readings, source.path, readings.len() as int)
        },
    }
}

/// The scan of the first `n` files, one after the other: it ends at the first failure.
pub open spec fn sources_scan(files: Seq<Source>, n: int) -> Scan
    decreases n,
{
    if n <= 0 {
        Scan { rows: Seq::empty(), failure: None }
    } else {
        let before = sources_scan(files, n - 1);
        if before.failure is Some {
            before
        } else {
            let next = source_scan(files[n - 1], n - 1);
            Scan { rows: before.rows + next.rows, failure: next.failure }
        }
    }
}

/// Whether a record is the header of a long-form table.
pub fn is_header(record: &Vec<String>) -> (yes: bool)
    ensures
        yes == (views(record@) == header()),
{
    let ghost cells = views(record@);
    let yes = record.len() == COLUMN_COUNT && same_text(record[0].as_str(), "timestamp_rfc3339")
        && same_text(record[1].as_str(), "name") && same_text(record[2].as_str(), "kind")
        && same_text(record[3].as_str(), "labels") && same_text(record[4].as_str(), "value");
    proof {
        if record.len() == COLUMN_COUNT {
            assert(cells[0] == record@[0]@ && cells[1] == record@[1]@ && cells[2] == record@[2]@
                && cells[3] == record@[3]@ && cells[4] == record@[4]@);
        }
        let expected = header();
        assert(expected.len() == 5 && expected[0] == "timestamp_rfc3339"@ && expected[1] == "name"@
            && expected[2] == "kind"@ && expected[3] == "labels"@ && expected[4] == "value"@);
        if yes {
            assert(cells =~= expected);
        }
    }
    yes
}

/// Accepts the kinds of metrics and refuses everything else.
pub fn validate_kind(kind: &str) -> (result: Result<(), ConvertError>)
    ensures
        match result {
            Ok(_) => is_kind(kind@),
            Err(error) => !is_kind(kind@) && error@ == (Failure::InvalidKind { kind: kind@ }),
        },
{
    if same_text(kind, "counter") || same_text(kind, "gauge") || same_text(kind, "histogram") {
        Ok(())
    } else {
        Err(ConvertError::InvalidKind { kind: kind.to_string() })
    }
}

/// Reads the rows of the table in `path`, given what was read from it as CSV.
pub fn scan_table(readings: &Vec<Result<Vec<String>, String>>, path: &str) -> (scan: RowScan)
    ensures
        scan@ == table_scan(reading_views(readings@), path@, readings@.len() as int),
{
    let ghost all = reading_views(readings@);
    let mut rows: Vec<CsvRow> = Vec::new();
    let mut is_first_record = true;
    let mut i: usize = 0;
    assert(row_views(rows@) =~= Seq::<Row>::empty());
    while i < readings.len()
        invariant
            i <= readings@.len(),
            all == reading_views(readings@),
            is_first_record == all_blank(all, i as int),
            table_scan(all, path@, i as int) == (Scan { rows: row_views(rows@), failure: None }),
        decreases readings.len() - i,
    {
        let ghost before = rows@;
        assert(all[i as int] == reading_view(readings@[i as int]));
        assert(all_blank(all, i + 1) == (all_blank(all, i as int) && all[i as int] == Ok::<
            Seq<Seq<char>>,
            Seq<char>,
        >(Seq::empty())));
        match &readings[i] {
            Err(cause) => {
                let failure = Some(ConvertError::Csv { cause: cause.clone() });
                let scan = RowScan { rows, failure };
                proof {
                    assert(scan@ == table_scan(all, path@, i + 1));
                    scan_stops_at_failure(all, path@, i + 1, all.len() as int);
                }
                return scan;
            },
            Ok(record) => {
                let ghost cells = views(record@);
                if record.len() == 0 {
                    assert(cells =~= Seq::empty());
                } else if is_first_record && is_header(record) {
                    is_first_record = false;
                } else {
                    is_first_record = false;
                    if record.len() != COLUMN_COUNT {
                        let failure = Some(
                            ConvertError::ColumnCount {
                                found: record.len(),
                                path: path.to_string(),
                            },
                        );
                        let scan = RowScan { rows, failure };
                        proof {
                            assert(scan@ == table_scan(all, path@, i + 1));
                            scan_stops_at_failure(all, path@, i + 1, all.len() as int);
                        }
                        return scan;
                    }
                    let row = CsvRow {
                        timestamp: record[0].clone(),
                        name: record[1].clone(),
                        kind: record[2].clone(),
                        labels: record[3].clone(),
                        value: record[4].clone(),
                    };
                    match validate_kind(row.kind.as_str()) {
                        Err(error) => {
                            let scan = RowScan { rows, failure: Some(error) };
                            proof {
                                assert(scan@ == table_scan(all, path@, i + 1));
                                scan_stops_at_failure(all, path@, i + 1, all.len() as int);
                            }
                            return scan;
                        },
                        Ok(_) => {},
                    }
                    rows.push(row);
                    assert(row_views(rows@) =~= row_views(before).push(row@));
                }
            },
        }
        i = i + 1;
    }
    RowScan { rows, failure: None }
}

/// Once a scan has failed, further readings change nothing.
proof fn scan_stops_at_failure(
    readings: Seq<Result<Seq<Seq<char>>, Seq<char>>>,
    path: Seq<char>,
    n: int,
    m: int,
)
    requires
        0 <= n <= m,
        table_scan(readings, path, n).failure is Some,
    ensures
        table_scan(readings, path, m) == table_scan(readings, path, n),
    decreases m,
{
    if n < m {
        scan_stops_at_failure(readings, path, n, m - 1);
    }
}

/// Once a scan has failed, further files change nothing.
proof fn files_stop_at_failure(files: Seq<Source>, n: int, m: int)
    requires
        0 <= n <= m,
        sources_scan(files, n).failure is Some,
    ensures
        sources_scan(files, m) == sources_scan(files, n),
    decreases m,
{
    if n < m {
        files_stop_at_failure(files, n, m - 1);
    }
}

/// Reads the rows of all inputs, one after the other, up to the first failure.
pub fn for_each_row(inputs: &Vec<InputFile>) -> (scan: RowScan)
    ensures
        scan@ == sources_scan(sources(inputs@), inputs@.len() as int),
{
    let ghost files = sources(inputs@);
    let mut rows: Vec<CsvRow> = Vec::new();
    let mut i: usize = 0;
    assert(row_views(rows@) =~= Seq::<Row>::empty());
    while i < inputs.len()
        invariant
            i <= inputs@.len(),
            files == sources(inputs@),
            sources_scan(files, i as int) == (Scan { rows: row_views(rows@), failure: None }),
        decreases inputs.len() - i,
    {
        let ghost before = rows@;
        assert(files[i as int] == inputs@[i as int]@);
        let mut next = match &inputs[i].contents {
            Contents::Unopened => RowScan {
                rows: Vec::new(),
                failure: Some(ConvertError::OpenInput { file: i, path: inputs[i].path.clone() }),
            },
            Contents::Unreadable { bytes, cause } => {
                let mut readings = ended_records(bytes);
                let ghost ended = readings@;
                readings.push(Err(cause.clone()));
                assert(reading_views(readings@) =~= reading_views(ended).push(Err(cause@)));
                assert(readings@.len() == reading_views(readings@).len());
                scan_table(&readings, inputs[i].path.as_str())
            },
            Contents::Bytes(bytes) => {
                let readings = csv_records(bytes);
                assert(readings@.len() == reading_views(readings@).len());
                scan_table(&readings, inputs[i].path.as_str())
            },
        };
        assert(next@.rows =~= source_scan(files[i as int], i as int).rows);
        assert(next@ == source_scan(files[i as int], i as int));
        let ghost found = next.rows@;
        rows.append(&mut next.rows);
        assert(row_views(rows@) =~= row_views(before) + row_views(found));
        if next.failure.is_some() {
            let scan = RowScan { rows, failure: next.failure };
            proof {
                assert(scan@ == sources_scan(files, i + 1));
                files_stop_at_failure(files, i + 1, files.len() as int);
            }
            return scan;
        }
        i = i + 1;
    }
    RowScan { rows, failure: None }
}

} // verus!
