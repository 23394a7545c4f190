//! What holds of the rows that are read from files.
use vstd::prelude::*;

use super::csv_text::{csv_reading, NEXT_CHARACTER};
use super::error::Failure;
use super::laws::{files_are_read_in_turn, rows_are_read_with_and_without_header, row_cells};
use super::rows::{
    all_blank, outcome, source_scan, sources_scan, table_scan, Outcome, Row, Scan, Source,
    SourceContents,
};
use crate::recorder::header;

verus! {

/// What the bytes of a file are read as: for one that was read only in part, the records that end
/// there and the cause.
pub open spec fn readings_of(contents: SourceContents) -> Seq<Result<Seq<Seq<char>>, Seq<char>>> {
    match contents {
        SourceContents::Bytes(bytes) => csv_reading(bytes),
        SourceContents::Unopened => Seq::empty(),
        SourceContents::Unreadable { bytes, cause } => {
            let more = csv_reading(bytes.push(NEXT_CHARACTER));
            more.take(if more.len() > 0 { more.len() - 1 } else { 0 }).push(Err(cause))
        },
    }
}

/// Whether a reading is a record without cells.
pub open spec fn is_blank(reading: Result<Seq<Seq<char>>, Seq<char>>) -> bool {
    reading is Ok && reading->Ok_0.len() == 0
}

/// The readings that are not blank.
pub open spec fn filled(readings: Seq<Result<Seq<Seq<char>>, Seq<char>>>) -> Seq<
    Result<Seq<Seq<char>>, Seq<char>>,
> {
    readings.filter(|reading: Result<Seq<Seq<char>>, Seq<char>>| !is_blank(reading))
}

/// Whether a reading is the header of a long-form table.
pub open spec fn is_heading(reading: Result<Seq<Seq<char>>, Seq<char>>) -> bool {
    reading is Ok && reading->Ok_0 == seq![
        "timestamp_rfc3339"@,
        "name"@,
        "kind"@,
        "labels"@,
        "value"@,
    ]
}

/// The readings that should be rows: all that are not blank, but for a header that comes first.
pub open spec fn body(readings: Seq<Result<Seq<Seq<char>>, Seq<char>>>) -> Seq<
    Result<Seq<Seq<char>>, Seq<char>>,
> {
    if filled(readings).len() > 0 && is_heading(filled(readings)[0]) {
        filled(readings).skip(1)
    } else {
        filled(readings)
    }
}

/// What is wrong with a reading that should be a row of the table in `path`.
pub open spec fn fault(reading: Result<Seq<Seq<char>>, Seq<char>>, path: Seq<char>) -> Option<
    Failure,
> {
    match reading {
        Err(cause) => Some(Failure::Csv { cause }),
        Ok(cells) => if cells.len() != 5 {
            Some(Failure::ColumnCount { found: cells.len() as int, path })
        } else if cells[2] != "counter"@ && cells[2] != "gauge"@ && cells[2] != "histogram"@ {
            Some(Failure::InvalidKind { kind: cells[2] })
        } else {
            None
        },
    }
}

/// The row that a record of five cells is.
pub open spec fn row_of(reading: Result<Seq<Seq<char>>, Seq<char>>) -> Row {
    let cells = reading->Ok_0;
    Row {
        timestamp: cells[0],
        name: cells[1],
        kind: cells[2],
        labels: cells[3],
        value: cells[4],
    }
}

/// The rows that records are, in order.
pub open spec fn rows_of(readings: Seq<Result<Seq<Seq<char>>, Seq<char>>>) -> Seq<Row> {
    readings.map_values(|reading: Result<Seq<Seq<char>>, Seq<char>>| row_of(reading))
}

/// Whether nothing is wrong with the first `k` readings.
pub open spec fn are_faultless(
    readings: Seq<Result<Seq<Seq<char>>, Seq<char>>>,
    path: Seq<char>,
    k: int,
) -> bool {
    forall|i: int| 0 <= i < k ==> fault(#[trigger] readings[i], path) is None
}

/// Whether a scan has the rows of these readings, up to the first with which something is wrong,
/// and tells what that is.
pub open spec fn tells(
    scan: Scan,
    readings: Seq<Result<Seq<Seq<char>>, Seq<char>>>,
    path: Seq<char>,
) -> bool {
    &&& are_faultless(readings, path, readings.len() as int) ==> scan.failure is None && scan.rows
        == rows_of(readings)
    &&& forall|k: int|
        0 <= k < readings.len() && are_faultless(readings, path, k) && fault(
            #[trigger] readings[k],
            path,
        ) is Some ==> scan.failure == fault(readings[k], path) && scan.rows == rows_of(
            readings.take(k),
        )
}

proof fn filled_grows(readings: Seq<Result<Seq<Seq<char>>, Seq<char>>>, n: int)
    requires
        0 < n <= readings.len(),
    ensures
        filled(readings.take(n)) == (if is_blank(readings[n - 1]) {
            filled(readings.take(n - 1))
        } else {
            filled(readings.take(n - 1)).push(readings[n - 1])
        }),
{
    reveal(Seq::filter);
    assert(readings.take(n).drop_last() =~= readings.take(n - 1));
}

proof fn blank_readings_fill_nothing(readings: Seq<Result<Seq<Seq<char>>, Seq<char>>>, n: int)
    requires
        0 <= n <= readings.len(),
    ensures
        all_blank(readings, n) <==> filled(readings.take(n)).len() == 0,
    decreases n,
{
    if n > 0 {
        blank_readings_fill_nothing(readings, n - 1);
        filled_grows(readings, n);
        assert(is_blank(readings[n - 1]) <==> readings[n - 1] == Ok::<
            Seq<Seq<char>>,
            Seq<char>,
        >(Seq::empty())) by {
            if is_blank(readings[n - 1]) {
                assert(readings[n - 1]->Ok_0 =~= Seq::empty());
            }
        }
        assert(all_blank(readings, n) <==> all_blank(readings, n - 1) && readings[n - 1] == Ok::<
            Seq<Seq<char>>,
            Seq<char>,
        >(Seq::empty()));
    } else {
        reveal(Seq::filter);
    }
}

/// What becomes of a reading behind the header is told by what is wrong with it.
proof fn outcome_tells_the_fault(
    reading: Result<Seq<Seq<char>>, Seq<char>>,
    first: bool,
    path: Seq<char>,
)
    ensures
        is_blank(reading) || (first && is_heading(reading)) ==> outcome(reading, first, path)
            == Outcome::Skip,
        !is_blank(reading) && !(first && is_heading(reading)) ==> outcome(reading, first, path) == (
        match fault(reading, path) {
            Some(failure) => Outcome::Fail(failure),
            None => Outcome::Row(row_of(reading)),
        }),
{
    if is_heading(reading) {
        assert(reading->Ok_0 =~= header());
    }
    if reading is Ok && reading->Ok_0 == header() {
        assert(header() =~= seq!["timestamp_rfc3339"@, "name"@, "kind"@, "labels"@, "value"@]);
    }
}

proof fn scan_tells_the_body(
    readings: Seq<Result<Seq<Seq<char>>, Seq<char>>>,
    path: Seq<char>,
    n: int,
)
    requires
        0 <= n <= readings.len(),
    ensures
        tells(table_scan(readings, path, n), body(readings.take(n)), path),
    decreases n,
{
    let scan = table_scan(readings, path, n);
    let rest = body(readings.take(n));
    if n == 0 {
        reveal(Seq::filter);
        assert(rest =~= Seq::empty());
        assert(scan.rows =~= rows_of(rest));
    } else {
        scan_tells_the_body(readings, path, n - 1);
        filled_grows(readings, n);
        blank_readings_fill_nothing(readings, n - 1);
        let reading = readings[n - 1];
        let before = table_scan(readings, path, n - 1);
        let earlier = body(readings.take(n - 1));
        let first = all_blank(readings, n - 1);
        outcome_tells_the_fault(reading, first, path);
        let all = filled(readings.take(n));
        let fewer = filled(readings.take(n - 1));
        if is_blank(reading) {
            assert(rest == earlier);
        } else if first && is_heading(reading) {
            assert(all[0] == reading);
            assert(rest =~= Seq::empty());
            assert(earlier =~= Seq::empty());
        } else {
            assert(rest =~= earlier.push(reading)) by {
                if first {
                    assert(all[0] == reading);
                    assert(earlier =~= Seq::empty());
                } else {
                    assert(all[0] == fewer[0]);
                }
            }
            let m = earlier.len() as int;
            assert forall|i: int| 0 <= i < m implies rest[i] == earlier[i] by {}
            if are_faultless(earlier, path, m) {
                assert(before.failure is None);
                if fault(reading, path) is None {
                    assert(rows_of(rest) =~= rows_of(earlier).push(row_of(reading)));
                    assert forall|k: int| 0 <= k < rest.len() implies fault(
                        #[trigger] rest[k],
                        path,
                    ) is None by {
                        if k < m {
                            assert(fault(earlier[k], path) is None);
                        }
                    }
                } else {
                    assert(rest[m] == reading);
                    assert(rest.take(m) =~= earlier);
                    assert forall|k: int|
                        0 <= k < rest.len() && are_faultless(rest, path, k) && fault(
                            #[trigger] rest[k],
                            path,
                        ) is Some implies scan.failure == fault(rest[k], path) && scan.rows
                        == rows_of(rest.take(k)) by {
                        if k < m {
                            assert(fault(earlier[k], path) is None);
                        }
                    }
                }
            } else {
                let b = first_fault(earlier, path, m);
                assert(before.failure == fault(earlier[b], path));
                assert(rest[b] == earlier[b]);
                assert forall|k: int|
                    0 <= k < rest.len() && are_faultless(rest, path, k) && fault(
                        #[trigger] rest[k],
                        path,
                    ) is Some implies scan.failure == fault(rest[k], path) && scan.rows == rows_of(
                    rest.take(k),
                ) by {
                    if k > b {
                        assert(fault(rest[b], path) is None);
                    }
                    assert(k <= b);
                    if k < b {
                        assert(fault(earlier[k], path) is None);
                    }
                    assert(rest.take(k) =~= earlier.take(k));
                }
            }
        }
    }
}

/// The first reading with which something is wrong.
proof fn first_fault(
    readings: Seq<Result<Seq<Seq<char>>, Seq<char>>>,
    path: Seq<char>,
    n: int,
) -> (k: int)
    requires
        0 <= n <= readings.len(),
        !are_faultless(readings, path, n),
    ensures
        0 <= k < n,
        are_faultless(readings, path, k),
        fault(readings[k], path) is Some,
    decreases n,
{
    if are_faultless(readings, path, n - 1) {
        n - 1
    } else {
        first_fault(readings, path, n - 1)
    }
}

/// A file that was opened is read record by record: every record of five cells and a known kind is a
/// row, in order, but for a header that comes first. A record that is none ends the reading, and so
/// does what cannot be read; which, the failure tells. A file that was not opened is told by its
/// place.
pub proof fn every_record_of_a_file_is_read(source: Source, file: int)
    ensures
        !(source.contents is Unopened) ==> tells(
            source_scan(source, file),
            body(readings_of(source.contents)),
            source.path,
        ),
        source.contents is Unopened ==> source_scan(source, file).rows.len() == 0 && source_scan(
            source,
            file,
        ).failure == Some(Failure::OpenInput { file, path: source.path }),
        !(source.contents is Unopened) ==> sources_scan(seq![source], 1) == source_scan(
            source,
            file,
        ),
{
    let readings = readings_of(source.contents);
    let n = readings.len() as int;
    reveal_with_fuel(sources_scan, 2);
    assert(seq![source][0] == source);
    if !(source.contents is Unopened) {
        if source.contents is Unreadable {
            let bytes = source.contents->Unreadable_bytes;
            let more = csv_reading(bytes.push(NEXT_CHARACTER));
            assert(more.take(if more.len() > 0 { more.len() - 1 } else { 0 })
                =~= super::csv_text::ended_reading(bytes));
        }
        scan_tells_the_body(readings, source.path, n);
        assert(readings.take(n) =~= readings);
        assert(source_scan(source, file) == table_scan(readings, source.path, n));
        assert(Seq::<Row>::empty() + source_scan(source, file).rows =~= source_scan(
            source,
            file,
        ).rows);
        assert(source_scan(source, 0) == source_scan(source, file));
    }
}

/// Whether a file could be read, and is a table of just these rows, with a header or without one.
pub open spec fn holds_rows(source: Source, rows: Seq<Row>) -> bool {
    let bare = rows.map_values(|row: Row| Ok::<Seq<Seq<char>>, Seq<char>>(row_cells(row)));
    &&& source.contents is Bytes
    &&& forall|i: int|
        0 <= i < rows.len() ==> (#[trigger] rows[i]).kind == "counter"@ || rows[i].kind
            == "gauge"@ || rows[i].kind == "histogram"@
    &&& csv_reading(source.contents->Bytes_0) == bare || csv_reading(source.contents->Bytes_0)
        == seq![
        Ok::<Seq<Seq<char>>, Seq<char>>(
            seq!["timestamp_rfc3339"@, "name"@, "kind"@, "labels"@, "value"@],
        ),
    ] + bare
}

/// All rows of all files are read, those of one file behind those of the file before it, and none is
/// lost: if the bytes of each file are read as rows of known kinds, with a header first or without
/// one, the rows are exactly these, and nothing fails.
pub proof fn all_rows_of_all_files_are_read(files: Seq<Source>, tables: Seq<Seq<Row>>)
    requires
        files.len() == tables.len(),
        forall|i: int| 0 <= i < files.len() ==> holds_rows(#[trigger] files[i], tables[i]),
    ensures
        sources_scan(files, files.len() as int) == (Scan { rows: tables.flatten(), failure: None }),
    decreases files.len(),
{
    if files.len() > 0 {
        let fewer = files.drop_last();
        let last = files.last();
        let rows = tables.last();
        assert forall|i: int| 0 <= i < fewer.len() implies holds_rows(
            #[trigger] fewer[i],
            tables.drop_last()[i],
        ) by {
            assert(holds_rows(files[i], tables[i]));
        }
        all_rows_of_all_files_are_read(fewer, tables.drop_last());
        assert(holds_rows(files[files.len() - 1], tables[files.len() - 1]));
        assert(header() =~= seq!["timestamp_rfc3339"@, "name"@, "kind"@, "labels"@, "value"@]);
        rows_are_read_with_and_without_header(rows, last.path);
        every_record_of_a_file_is_read(last, 0);
        files_are_read_in_turn(fewer, seq![last], 1);
        assert(fewer + seq![last] =~= files);
        assert(sources_scan(seq![last], 1) == (Scan { rows, failure: None::<Failure> }));
        tables.lemma_flatten_and_flatten_alt_are_equivalent();
        tables.drop_last().lemma_flatten_and_flatten_alt_are_equivalent();
        assert(tables.flatten_alt() == tables.drop_last().flatten_alt() + rows);
    } else {
        assert(tables.flatten() =~= Seq::empty());
    }
}

} // verus!
