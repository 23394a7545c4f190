//! What holds of conversions as a whole.
use vstd::prelude::*;

use super::csv_text::{csv_reading, ended_reading};
use super::error::Failure;
use super::rows::{
    all_blank, is_kind, outcome, source_scan, sources_scan, table_scan, Outcome, Row, Scan, Source,
    SourceContents, COLUMN_COUNT,
};
use super::wide::{
    accepted_count, are_columns, discovery_failure, has_series, is_repeat, order_failure,
    ordered_count, row_failure, run_cell, run_has, run_record, runs, series_key, table_failure,
    timed_rows, wide_header, wide_records, Timed,
};
use crate::histogram::Spread;
use crate::recorder::header;
use crate::registry::{CounterReading, GaugeReading, HistogramReading};
use crate::snapshot::{
    all_histogram_rows, counter_row, gauge_row, histogram_value_rows, is_snapshot, labels_text,
    labels_text_is_injective, record_of, row_keys, unsorted_rows, values_behind, HistogramValue,
    SampleRow,
};
use crate::sorted_map::same_increasing_texts;
use crate::sorting::{arranged, sorts};
use crate::text::split_at_first_is_unique;
use crate::timestamp::{millis_moment, moment_lt, reads_as};
use crate::util::{sanitized, sanitized_is_clean};

verus! {

/// Rows are counted up to the first whose time is wrong.
pub proof fn ordered_count_is_bounded(rows: Seq<Timed>, n: int)
    requires
        0 <= n,
    ensures
        0 <= ordered_count(rows, n) <= n,
        forall|k: int| 0 <= k < ordered_count(rows, n) ==> #[trigger] order_failure(rows, k) is None,
        ordered_count(rows, n) < n ==> order_failure(rows, ordered_count(rows, n)) is Some,
    decreases n,
{
    if n > 0 {
        ordered_count_is_bounded(rows, n - 1);
    }
}

/// Rows are counted up to the first with which something is wrong.
pub proof fn accepted_count_is_bounded(rows: Seq<Timed>, n: int)
    requires
        0 <= n,
    ensures
        0 <= accepted_count(rows, n) <= n,
        forall|k: int| 0 <= k < accepted_count(rows, n) ==> #[trigger] row_failure(rows, k) is None,
        accepted_count(rows, n) < n ==> row_failure(rows, accepted_count(rows, n)) is Some,
    decreases n,
{
    if n > 0 {
        accepted_count_is_bounded(rows, n - 1);
    }
}

/// Columns are found exactly if all rows could be read, each timestamp names a moment, and no
/// moment lies before that of the row before it.
pub proof fn discovery_succeeds_on_ordered_rows(rows: Seq<Timed>, ending: Option<Failure>)
    ensures
        discovery_failure(rows, ending) is None <==> ending is None && forall|k: int|
            0 <= k < rows.len() ==> #[trigger] order_failure(rows, k) is None,
{
    ordered_count_is_bounded(rows, rows.len() as int);
}

/// A table is finished exactly if all rows could be read and nothing is wrong with any of them.
pub proof fn table_is_finished_on_good_rows(rows: Seq<Timed>, ending: Option<Failure>)
    ensures
        table_failure(rows, ending) is None <==> ending is None && forall|k: int|
            0 <= k < rows.len() ==> #[trigger] row_failure(rows, k) is None,
        table_failure(rows, ending) is None ==> accepted_count(rows, rows.len() as int)
            == rows.len(),
{
    accepted_count_is_bounded(rows, rows.len() as int);
}

/// Whether all rows name moments, none before that of an earlier row, and no two give one series a
/// value at the same moment.
pub open spec fn is_well_ordered(rows: Seq<Timed>) -> bool {
    &&& forall|k: int| 0 <= k < rows.len() ==> (#[trigger] rows[k]).instant is Ok
    &&& forall|j: int, k: int|
        0 <= j < k < rows.len() ==> !moment_lt(
            (#[trigger] rows[k]).moment(),
            (#[trigger] rows[j]).moment(),
        )
    &&& forall|j: int, k: int|
        0 <= j < k < rows.len() ==> (#[trigger] rows[j]).moment() != (
        #[trigger] rows[k]).moment() || rows[j].series() != rows[k].series()
}

proof fn good_rows_do_not_go_back(rows: Seq<Timed>, j: int, k: int)
    requires
        forall|i: int| 0 <= i < rows.len() ==> #[trigger] row_failure(rows, i) is None,
        0 <= j <= k < rows.len(),
    ensures
        !moment_lt(rows[k].moment(), rows[j].moment()),
    decreases k,
{
    if j < k {
        good_rows_do_not_go_back(rows, j, k - 1);
        assert(row_failure(rows, k) is None);
    }
}

/// Rows out of order and rows that give a series two values at one moment are refused: a table is
/// finished exactly if all rows could be read and are well ordered.
pub proof fn only_well_ordered_rows_make_a_table(rows: Seq<Timed>, ending: Option<Failure>)
    ensures
        table_failure(rows, ending) is None <==> ending is None && is_well_ordered(rows),
{
    table_is_finished_on_good_rows(rows, ending);
    if table_failure(rows, ending) is None {
        assert forall|k: int| 0 <= k < rows.len() implies (#[trigger] rows[k]).instant is Ok by {
            assert(row_failure(rows, k) is None);
        }
        assert forall|j: int, k: int| 0 <= j < k < rows.len() implies !moment_lt(
            (#[trigger] rows[k]).moment(),
            (#[trigger] rows[j]).moment(),
        ) by {
            good_rows_do_not_go_back(rows, j, k);
        }
        assert forall|j: int, k: int| 0 <= j < k < rows.len() implies (
        #[trigger] rows[j]).moment() != (#[trigger] rows[k]).moment() || rows[j].series()
            != rows[k].series() by {
            assert(row_failure(rows, k) is None);
            assert(!is_repeat(rows, k));
        }
    }
    if ending is None && is_well_ordered(rows) {
        assert forall|k: int| 0 <= k < rows.len() implies #[trigger] row_failure(rows, k) is None by {
            assert(rows[k].instant is Ok);
            assert(!is_repeat(rows, k));
        }
    }
}

/// The columns of a table are determined by its rows.
pub proof fn columns_are_determined(
    first: Seq<Seq<char>>,
    second: Seq<Seq<char>>,
    rows: Seq<Timed>,
)
    requires
        are_columns(first, rows),
        are_columns(second, rows),
    ensures
        first == second,
{
    same_increasing_texts(first, second, 0);
}

/// Series can be told apart by the names of their columns, as long as no metric name holds a `|`.
pub proof fn series_key_is_injective(
    first_name: Seq<char>,
    first_labels: Seq<char>,
    second_name: Seq<char>,
    second_labels: Seq<char>,
)
    requires
        !first_name.contains('|'),
        !second_name.contains('|'),
        series_key(first_name, first_labels) == series_key(second_name, second_labels),
    ensures
        first_name == second_name,
        first_labels == second_labels,
{
    reveal_strlit("|");
    let first = series_key(first_name, first_labels);
    let second = series_key(second_name, second_labels);
    if first_labels.len() > 0 {
        assert(first =~= first_name.push('|') + first_labels);
        assert(first[first_name.len() as int] == '|');
    }
    if second_labels.len() > 0 {
        assert(second =~= second_name.push('|') + second_labels);
        assert(second[second_name.len() as int] == '|');
    }
    if first_labels.len() > 0 && second_labels.len() > 0 {
        split_at_first_is_unique(first_name, first_labels, second_name, second_labels, '|');
    } else {
        assert(first_labels =~= second_labels);
    }
}

/// Runs follow each other without a gap, each holds rows of one moment, and each moment comes
/// after that of the run before it.
pub proof fn runs_part_the_rows_by_moment(rows: Seq<Timed>, n: int)
    requires
        0 <= n <= rows.len(),
        is_well_ordered(rows),
    ensures
        n > 0 ==> runs(rows, n).len() > 0 && runs(rows, n)[0].0 == 0 && runs(rows, n).last().1 == n,
        forall|r: int|
            0 <= r < runs(rows, n).len() ==> 0 <= (#[trigger] runs(rows, n)[r]).0 < runs(
                rows,
                n,
            )[r].1 <= n,
        forall|r: int, s: int|
            0 <= r < s < runs(rows, n).len() && s == r + 1 ==> (#[trigger] runs(rows, n)[r]).1 == (
            #[trigger] runs(rows, n)[s]).0,
        forall|r: int, j: int|
            0 <= r < runs(rows, n).len() && runs(rows, n)[r].0 <= j < runs(rows, n)[r].1 ==> (
            #[trigger] rows[j]).moment() == rows[(#[trigger] runs(rows, n)[r]).0].moment(),
        forall|r: int, s: int|
            0 <= r < s < runs(rows, n).len() ==> moment_lt(
                rows[(#[trigger] runs(rows, n)[r]).0].moment(),
                rows[(#[trigger] runs(rows, n)[s]).0].moment(),
            ),
    decreases n,
{
    if n > 0 {
        runs_part_the_rows_by_moment(rows, n - 1);
        let before = runs(rows, n - 1);
        let after = runs(rows, n);
        if n > 1 {
            let last = before.last();
            assert(before[before.len() - 1] == last);
            assert(rows[n - 2].moment() == rows[last.0].moment());
            assert(!moment_lt(rows[n - 1].moment(), rows[n - 2].moment()));
            if rows[n - 2].moment() != rows[n - 1].moment() {
                assert(moment_lt(rows[n - 2].moment(), rows[n - 1].moment()));
                assert forall|r: int, s: int| 0 <= r < s < after.len() implies moment_lt(
                    rows[(#[trigger] after[r]).0].moment(),
                    rows[(#[trigger] after[s]).0].moment(),
                ) by {
                    assert(after[r] == before[r]);
                    if s < before.len() {
                        assert(after[s] == before[s]);
                    } else if r < before.len() - 1 {
                        assert(moment_lt(
                            rows[before[r].0].moment(),
                            rows[before[before.len() - 1].0].moment(),
                        ));
                    }
                }
                assert forall|r: int| 0 <= r < after.len() implies 0 <= (
                #[trigger] after[r]).0 < after[r].1 <= n by {
                    if r < before.len() {
                        assert(after[r] == before[r]);
                    }
                }
                assert forall|r: int, s: int| 0 <= r < s < after.len() && s == r + 1 implies (
                #[trigger] after[r]).1 == (#[trigger] after[s]).0 by {
                    assert(after[r] == before[r]);
                    if s < before.len() {
                        assert(after[s] == before[s]);
                    }
                }
                assert forall|r: int, j: int|
                    0 <= r < after.len() && after[r].0 <= j < after[r].1 implies (
                #[trigger] rows[j]).moment() == rows[(#[trigger] after[r]).0].moment() by {
                    if r < before.len() {
                        assert(after[r] == before[r]);
                    }
                }
            } else {
                assert forall|r: int| 0 <= r < after.len() implies (#[trigger] after[r]).0
                    == before[r].0 && (r < after.len() - 1 ==> after[r] == before[r]) by {}
                assert forall|r: int, j: int|
                    0 <= r < after.len() && after[r].0 <= j < after[r].1 implies (
                #[trigger] rows[j]).moment() == rows[(#[trigger] after[r]).0].moment() by {
                    assert(after[r].0 == before[r].0);
                    if j < n - 1 {
                        assert(before[r].0 <= j < before[r].1);
                    }
                }
                assert forall|r: int| 0 <= r < after.len() implies 0 <= (
                #[trigger] after[r]).0 < after[r].1 <= n by {
                    assert(0 <= before[r].0 < before[r].1 <= n - 1);
                }
                assert forall|r: int, s: int| 0 <= r < s < after.len() && s == r + 1 implies (
                #[trigger] after[r]).1 == (#[trigger] after[s]).0 by {
                    assert(before[r].1 == before[s].0);
                    assert(after[r] == before[r]);
                }
            }
        } else {
            reveal_with_fuel(runs, 2);
        }
    }
}

/// Every row belongs to a run.
pub proof fn every_row_is_in_a_run(rows: Seq<Timed>, n: int, j: int)
    requires
        0 <= j < n <= rows.len(),
        is_well_ordered(rows),
    ensures
        exists|r: int|
            0 <= r < runs(rows, n).len() && (#[trigger] runs(rows, n)[r]).0 <= j < runs(
                rows,
                n,
            )[r].1,
    decreases n,
{
    runs_part_the_rows_by_moment(rows, n);
    let after = runs(rows, n);
    if j == n - 1 {
        assert(after[after.len() - 1].0 <= j < after[after.len() - 1].1);
    } else {
        every_row_is_in_a_run(rows, n - 1, j);
        runs_part_the_rows_by_moment(rows, n - 1);
        let before = runs(rows, n - 1);
        let r = choose|r: int|
            0 <= r < before.len() && (#[trigger] before[r]).0 <= j < before[r].1;
        assert(after[r].0 <= j < after[r].1);
    }
}

/// Nothing is lost: in a finished table the value of every row stands in the column of its series,
/// in the record of its moment.
pub proof fn every_value_stands_in_its_cell(rows: Seq<Timed>, columns: Seq<Seq<char>>, j: int)
    requires
        is_well_ordered(rows),
        are_columns(columns, rows),
        0 <= j < rows.len(),
    ensures
        exists|r: int, c: int|
            #![trigger runs(rows, rows.len() as int)[r], columns[c]]
            {
                let records = wide_records(rows, rows.len() as int, columns, true);
                let run = runs(rows, rows.len() as int)[r];
                &&& 0 <= r < records.len() - 1
                &&& 0 <= c < columns.len()
                &&& columns[c] == rows[j].series()
                &&& records[0][c + 1] == rows[j].series()
                &&& rows[run.0].moment() == rows[j].moment()
                &&& records[r + 1][0] == rows[run.0].row.timestamp
                &&& records[r + 1][c + 1] == rows[j].row.value
            },
{
    let n = rows.len() as int;
    let records = wide_records(rows, n, columns, true);
    runs_part_the_rows_by_moment(rows, n);
    every_row_is_in_a_run(rows, n, j);
    let all = runs(rows, n);
    let r = choose|r: int| 0 <= r < all.len() && (#[trigger] all[r]).0 <= j < all[r].1;
    let series = rows[j].series();
    assert(has_series(rows, series));
    assert(columns.contains(series));
    let c = choose|c: int| 0 <= c < columns.len() && columns[c] == series;
    assert(records[0] == wide_header(columns));
    assert(records[r + 1] == run_record(rows, all[r], columns));
    assert(records[r + 1][c + 1] == run_cell(rows, all[r], series));
    assert(run_has(rows, all[r], series));
    let chosen = choose|k: int|
        all[r].0 <= k < all[r].1 && (#[trigger] rows[k]).series() == series;
    assert(rows[chosen].moment() == rows[all[r].0].moment());
    assert(rows[j].moment() == rows[all[r].0].moment());
    if chosen < j {
        assert(rows[chosen].moment() != rows[j].moment() || rows[chosen].series()
            != rows[j].series());
    } else if j < chosen {
        assert(rows[j].moment() != rows[chosen].moment() || rows[j].series()
            != rows[chosen].series());
    }
    assert(chosen == j);
    assert(0 <= r < records.len() - 1 && columns[c] == rows[j].series());
}

/// Nothing is made up: a cell of a finished table is empty, or it holds the value of a row of that
/// moment and that series.
pub proof fn every_cell_is_empty_or_a_value(
    rows: Seq<Timed>,
    columns: Seq<Seq<char>>,
    r: int,
    c: int,
)
    requires
        is_well_ordered(rows),
        0 <= r < runs(rows, rows.len() as int).len(),
        0 <= c < columns.len(),
    ensures
        ({
            let records = wide_records(rows, rows.len() as int, columns, true);
            let run = runs(rows, rows.len() as int)[r];
            records[r + 1][c + 1].len() == 0 || exists|j: int|
                0 <= j < rows.len() && (#[trigger] rows[j]).series() == columns[c]
                    && rows[j].moment() == rows[run.0].moment() && records[r + 1][c + 1]
                    == rows[j].row.value
        }),
{
    let n = rows.len() as int;
    let records = wide_records(rows, n, columns, true);
    runs_part_the_rows_by_moment(rows, n);
    let run = runs(rows, n)[r];
    assert(records[r + 1] == run_record(rows, run, columns));
    assert(records[r + 1][c + 1] == run_cell(rows, run, columns[c]));
    if run_has(rows, run, columns[c]) {
        let j = choose|j: int|
            run.0 <= j < run.1 && (#[trigger] rows[j]).series() == columns[c];
        assert(rows[j].moment() == rows[run.0].moment());
    }
}

/// The records of a finished table go forward in time, one for each moment: each carries the
/// timestamp of a row whose moment lies after that of the record before it.
pub proof fn records_go_forward_in_time(rows: Seq<Timed>, columns: Seq<Seq<char>>, r: int, s: int)
    requires
        is_well_ordered(rows),
        0 <= r < s < wide_records(rows, rows.len() as int, columns, true).len() - 1,
    ensures
        ({
            let records = wide_records(rows, rows.len() as int, columns, true);
            exists|j: int, k: int|
                0 <= j < k < rows.len() && records[r + 1][0] == (
                #[trigger] rows[j]).row.timestamp && records[s + 1][0] == (
                #[trigger] rows[k]).row.timestamp && moment_lt(rows[j].moment(), rows[k].moment())
        }),
{
    let n = rows.len() as int;
    runs_part_the_rows_by_moment(rows, n);
    let all = runs(rows, n);
    let records = wide_records(rows, n, columns, true);
    assert(records[r + 1] == run_record(rows, all[r], columns));
    assert(records[s + 1] == run_record(rows, all[s], columns));
    let j = all[r].0;
    let k = all[s].0;
    assert(moment_lt(rows[j].moment(), rows[k].moment()));
    if k <= j {
        assert(k == j || !moment_lt(rows[j].moment(), rows[k].moment()));
    }
    assert(records[r + 1][0] == rows[j].row.timestamp);
    assert(records[s + 1][0] == rows[k].row.timestamp);
}

/// The cells of a row.
pub open spec fn row_cells(row: Row) -> Seq<Seq<char>> {
    seq![row.timestamp, row.name, row.kind, row.labels, row.value]
}

proof fn row_is_read(row: Row, path: Seq<char>, first: bool)
    requires
        is_kind(row.kind),
    ensures
        outcome(Ok(row_cells(row)), first, path) == Outcome::Row(row),
{
    reveal_strlit("counter");
    reveal_strlit("gauge");
    reveal_strlit("histogram");
    reveal_strlit("kind");
    let cells = row_cells(row);
    assert(cells.len() == COLUMN_COUNT);
    assert(header()[2] == "kind"@);
    if cells == header() {
        assert(cells[2] == "kind"@);
        assert("kind"@[0] == 'k');
        assert("counter"@[0] == 'c' && "gauge"@[0] == 'g' && "histogram"@[0] == 'h');
    }
}

/// Rows behind a header are read as they are, and so are rows without one: files may be rotated,
/// so that only the first starts with a header.
pub proof fn rows_are_read_with_and_without_header(rows: Seq<Row>, path: Seq<char>)
    requires
        forall|i: int| 0 <= i < rows.len() ==> is_kind((#[trigger] rows[i]).kind),
    ensures
        ({
            let bare = rows.map_values(
                |row: Row| Ok::<Seq<Seq<char>>, Seq<char>>(row_cells(row)),
            );
            let headed = seq![Ok::<Seq<Seq<char>>, Seq<char>>(header())] + bare;
            &&& table_scan(bare, path, bare.len() as int) == (Scan { rows, failure: None })
            &&& table_scan(headed, path, headed.len() as int) == (Scan { rows, failure: None })
        }),
{
    let bare = rows.map_values(|row: Row| Ok::<Seq<Seq<char>>, Seq<char>>(row_cells(row)));
    let headed = seq![Ok::<Seq<Seq<char>>, Seq<char>>(header())] + bare;
    bare_rows_are_read(rows, path, rows.len() as int);
    headed_rows_are_read(rows, path, rows.len() as int);
    assert(rows.take(rows.len() as int) =~= rows);
}

proof fn bare_rows_are_read(rows: Seq<Row>, path: Seq<char>, n: int)
    requires
        forall|i: int| 0 <= i < rows.len() ==> is_kind((#[trigger] rows[i]).kind),
        0 <= n <= rows.len(),
    ensures
        table_scan(
            rows.map_values(|row: Row| Ok::<Seq<Seq<char>>, Seq<char>>(row_cells(row))),
            path,
            n,
        ) == (Scan { rows: rows.take(n), failure: None }),
    decreases n,
{
    let bare = rows.map_values(|row: Row| Ok::<Seq<Seq<char>>, Seq<char>>(row_cells(row)));
    if n > 0 {
        bare_rows_are_read(rows, path, n - 1);
        assert(bare[n - 1] == Ok::<Seq<Seq<char>>, Seq<char>>(row_cells(rows[n - 1])));
        row_is_read(rows[n - 1], path, all_blank(bare, n - 1));
        assert(rows.take(n) =~= rows.take(n - 1).push(rows[n - 1]));
    } else {
        assert(rows.take(0) =~= Seq::empty());
    }
}

proof fn headed_rows_are_read(rows: Seq<Row>, path: Seq<char>, n: int)
    requires
        forall|i: int| 0 <= i < rows.len() ==> is_kind((#[trigger] rows[i]).kind),
        0 <= n <= rows.len(),
    ensures
        table_scan(
            seq![Ok::<Seq<Seq<char>>, Seq<char>>(header())] + rows.map_values(
                |row: Row| Ok::<Seq<Seq<char>>, Seq<char>>(row_cells(row)),
            ),
            path,
            n + 1,
        ) == (Scan { rows: rows.take(n), failure: None }),
    decreases n,
{
    let headed = seq![Ok::<Seq<Seq<char>>, Seq<char>>(header())] + rows.map_values(
        |row: Row| Ok::<Seq<Seq<char>>, Seq<char>>(row_cells(row)),
    );
    assert(headed[0] == Ok::<Seq<Seq<char>>, Seq<char>>(header()));
    if n > 0 {
        headed_rows_are_read(rows, path, n - 1);
        assert(headed[n] == Ok::<Seq<Seq<char>>, Seq<char>>(row_cells(rows[n - 1])));
        row_is_read(rows[n - 1], path, all_blank(headed, n));
        assert(rows.take(n) =~= rows.take(n - 1).push(rows[n - 1]));
    } else {
        reveal_with_fuel(table_scan, 2);
        assert(rows.take(0) =~= Seq::empty());
    }
}

/// A failure that was met in files that come behind so many others.
pub open spec fn moved_failure(failure: Option<Failure>, places: int) -> Option<Failure> {
    match failure {
        Some(Failure::OpenInput { file, path }) => Some(
            Failure::OpenInput { file: file + places, path },
        ),
        _ => failure,
    }
}

/// A file that fails ends the reading: the files behind it change nothing.
pub proof fn files_behind_a_failure_change_nothing(
    first: Seq<Source>,
    second: Seq<Source>,
    n: int,
)
    requires
        0 <= n <= second.len(),
        sources_scan(first, first.len() as int).failure is Some,
    ensures
        sources_scan(first + second, first.len() + n) == sources_scan(first, first.len() as int),
    decreases n,
{
    if n > 0 {
        files_behind_a_failure_change_nothing(first, second, n - 1);
    } else {
        same_files_same_scan(first, first + second, first.len() as int);
    }
}

/// Files are read one after the other: the rows of two lists of files are those of the first and
/// then those of the second, as long as the first can be read to its end.
pub proof fn files_are_read_in_turn(first: Seq<Source>, second: Seq<Source>, n: int)
    requires
        0 <= n <= second.len(),
        sources_scan(first, first.len() as int).failure is None,
    ensures
        ({
            let both = sources_scan(first + second, first.len() + n);
            let rest = sources_scan(second, n);
            &&& both.rows == sources_scan(first, first.len() as int).rows + rest.rows
            &&& both.failure is None <==> rest.failure is None
            &&& both.failure == moved_failure(rest.failure, first.len() as int)
        }),
    decreases n,
{
    let all = first + second;
    same_files_same_scan(first, all, first.len() as int);
    if n > 0 {
        files_are_read_in_turn(first, second, n - 1);
        assert(all[first.len() + n - 1] == second[n - 1]);
        let before = sources_scan(second, n - 1);
        if before.failure is None {
            source_failure_moves(second[n - 1], n - 1, first.len() as int);
            assert(source_scan(second[n - 1], n - 1).rows == source_scan(
                second[n - 1],
                first.len() + n - 1,
            ).rows);
            assert(sources_scan(all, first.len() + n).rows =~= sources_scan(
                first,
                first.len() as int,
            ).rows + sources_scan(second, n).rows);
        }
    } else {
        assert(sources_scan(all, first.len() as int).rows =~= sources_scan(
            first,
            first.len() as int,
        ).rows + sources_scan(second, 0).rows);
    }
}

proof fn source_failure_moves(source: Source, file: int, places: int)
    ensures
        source_scan(source, file + places).failure == moved_failure(
            source_scan(source, file).failure,
            places,
        ),
{
    match source.contents {
        SourceContents::Unopened => {},
        SourceContents::Unreadable { bytes, cause } => {
            let readings = ended_reading(bytes).push(Err(cause));
            open_files_fail_in_their_tables(readings, source.path, readings.len() as int);
        },
        SourceContents::Bytes(bytes) => {
            let readings = csv_reading(bytes);
            open_files_fail_in_their_tables(readings, source.path, readings.len() as int);
        },
    }
}

proof fn open_files_fail_in_their_tables(
    readings: Seq<Result<Seq<Seq<char>>, Seq<char>>>,
    path: Seq<char>,
    n: int,
)
    ensures
        table_scan(readings, path, n).failure is Some ==> !(table_scan(
            readings,
            path,
            n,
        ).failure->0 is OpenInput),
    decreases n,
{
    if n > 0 {
        open_files_fail_in_their_tables(readings, path, n - 1);
    }
}

proof fn same_files_same_scan(first: Seq<Source>, all: Seq<Source>, n: int)
    requires
        0 <= n <= first.len() <= all.len(),
        forall|i: int| 0 <= i < first.len() ==> first[i] == all[i],
    ensures
        sources_scan(all, n) == sources_scan(first, n),
    decreases n,
{
    if n > 0 {
        same_files_same_scan(first, all, n - 1);
    }
}

/// The row that a sample of a snapshot is written as.
pub open spec fn exported_row(timestamp: Seq<char>, sample: SampleRow) -> Row {
    Row {
        timestamp,
        name: sample.name,
        kind: sample.kind,
        labels: sample.labels,
        value: sample.value,
    }
}

/// The rows of a snapshot are of known kinds.
pub proof fn snapshot_rows_are_of_known_kinds<F: Fn(u64) -> String, S: Fn(Vec<u64>) -> Spread>(
    counters: Seq<CounterReading>,
    gauges: Seq<GaugeReading>,
    histograms: Seq<HistogramReading>,
    float_text: F,
    summarize: S,
    samples: Seq<SampleRow>,
)
    requires
        is_snapshot(counters, gauges, histograms, float_text, summarize, samples),
    ensures
        forall|i: int| 0 <= i < samples.len() ==> is_kind((#[trigger] samples[i]).kind),
{
    let (gauge_values, histogram_values) = values_behind(
        counters,
        gauges,
        histograms,
        float_text,
        summarize,
        samples,
    );
    let rows = unsorted_rows(counters, gauge_values, histogram_values);
    histogram_rows_are_of_known_kind(histogram_values);
    let order = choose|order: Seq<int>| #[trigger]
        sorts(order, row_keys(rows)) && samples == arranged(rows, order);
    assert forall|i: int| 0 <= i < samples.len() implies is_kind((#[trigger] samples[i]).kind) by {
        let k = order[i];
        assert(samples[i] == rows[k]);
        assert(0 <= k < row_keys(rows).len());
        let scalars = counters.len() + gauge_values.len();
        if k >= scalars {
            assert(rows[k] == all_histogram_rows(histogram_values)[k - scalars]);
        } else if k >= counters.len() {
            assert(rows[k] == gauge_row(gauge_values[k - counters.len()]));
        } else {
            assert(rows[k] == counter_row(counters[k]));
        }
    }
}

proof fn histogram_rows_are_of_known_kind(histograms: Seq<HistogramValue>)
    ensures
        forall|i: int|
            0 <= i < all_histogram_rows(histograms).len() ==> is_kind(
                (#[trigger] all_histogram_rows(histograms)[i]).kind,
            ),
    decreases histograms.len(),
{
    if histograms.len() > 0 {
        histogram_rows_are_of_known_kind(histograms.drop_last());
        let before = all_histogram_rows(histograms.drop_last());
        let last = histogram_value_rows(histograms.last());
        assert forall|i: int| 0 <= i < all_histogram_rows(histograms).len() implies is_kind(
            (#[trigger] all_histogram_rows(histograms)[i]).kind,
        ) by {
            if i < before.len() {
                assert(all_histogram_rows(histograms)[i] == before[i]);
            } else {
                assert(all_histogram_rows(histograms)[i] == last[i - before.len()]);
            }
        }
    }
}

/// What is exported can be converted: the records of samples of known kinds, behind the header,
/// are read as one row for each sample, and nothing is refused.
pub proof fn exported_samples_are_read_back(
    timestamps: Seq<Seq<char>>,
    samples: Seq<SampleRow>,
    path: Seq<char>,
)
    requires
        timestamps.len() == samples.len(),
        forall|i: int| 0 <= i < samples.len() ==> is_kind((#[trigger] samples[i]).kind),
    ensures
        ({
            let readings = seq![Ok::<Seq<Seq<char>>, Seq<char>>(header())] + Seq::new(
                samples.len(),
                |i: int| Ok::<Seq<Seq<char>>, Seq<char>>(record_of(timestamps[i], samples[i])),
            );
            table_scan(readings, path, readings.len() as int) == (Scan {
                rows: Seq::new(samples.len(), |i: int| exported_row(timestamps[i], samples[i])),
                failure: None,
            })
        }),
{
    let rows = Seq::new(samples.len(), |i: int| exported_row(timestamps[i], samples[i]));
    rows_are_read_with_and_without_header(rows, path);
    let records = Seq::new(
        samples.len(),
        |i: int| Ok::<Seq<Seq<char>>, Seq<char>>(record_of(timestamps[i], samples[i])),
    );
    let bare = rows.map_values(|row: Row| Ok::<Seq<Seq<char>>, Seq<char>>(row_cells(row)));
    assert forall|i: int| 0 <= i < samples.len() implies records[i] == bare[i] by {
        assert(record_of(timestamps[i], samples[i]) =~= row_cells(rows[i]));
    }
    assert(records =~= bare);
}

/// Metrics that are exported are told apart in the wide-form table: two counters or gauges share a
/// column only if their sanitized names, label keys and label values are the same.
pub proof fn exported_series_are_told_apart(
    first_name: Seq<char>,
    first_labels: Seq<(Seq<char>, Seq<char>)>,
    second_name: Seq<char>,
    second_labels: Seq<(Seq<char>, Seq<char>)>,
)
    requires
        series_key(sanitized(first_name), labels_text(first_labels)) == series_key(
            sanitized(second_name),
            labels_text(second_labels),
        ),
    ensures
        sanitized(first_name) == sanitized(second_name),
        first_labels.len() == second_labels.len(),
        forall|i: int|
            0 <= i < first_labels.len() ==> sanitized((#[trigger] first_labels[i]).0) == sanitized(
                second_labels[i].0,
            ) && sanitized(first_labels[i].1) == sanitized(second_labels[i].1),
{
    sanitized_is_clean(first_name);
    sanitized_is_clean(second_name);
    series_key_is_injective(
        sanitized(first_name),
        labels_text(first_labels),
        sanitized(second_name),
        labels_text(second_labels),
    );
    labels_text_is_injective(first_labels, second_labels);
}

/// Exported snapshots convert without failure, as long as the clock does not go back between them
/// and no two samples of one moment share name and labels.
pub proof fn exported_snapshots_convert(
    millis: Seq<i64>,
    timestamps: Seq<Seq<char>>,
    samples: Seq<SampleRow>,
)
    requires
        millis.len() == samples.len(),
        timestamps.len() == samples.len(),
        forall|i: int| 0 <= i < millis.len() ==> reads_as(#[trigger] timestamps[i], millis[i]),
        forall|i: int, j: int|
            0 <= i < j < millis.len() ==> #[trigger] millis[i] <= #[trigger] millis[j],
        forall|i: int, j: int|
            0 <= i < j < samples.len() && millis[i] == millis[j] ==> series_key(
                (#[trigger] samples[i]).name,
                samples[i].labels,
            ) != series_key((#[trigger] samples[j]).name, samples[j].labels),
    ensures
        ({
            let rows = timed_rows(
                Seq::new(samples.len(), |i: int| exported_row(timestamps[i], samples[i])),
            );
            &&& is_well_ordered(rows)
            &&& discovery_failure(rows, None) is None
            &&& table_failure(rows, None) is None
        }),
{
    let rows = timed_rows(
        Seq::new(samples.len(), |i: int| exported_row(timestamps[i], samples[i])),
    );
    assert forall|i: int| 0 <= i < rows.len() implies (#[trigger] rows[i]).instant is Ok && (
    rows[i].moment().0 as int, rows[i].moment().1 as int) == millis_moment(millis[i] as int)
        && rows[i].series() == series_key(samples[i].name, samples[i].labels) by {
        assert(reads_as(timestamps[i], millis[i]));
    }
    assert forall|j: int, k: int| 0 <= j < k < rows.len() implies !moment_lt(
        (#[trigger] rows[k]).moment(),
        (#[trigger] rows[j]).moment(),
    ) && (rows[j].moment() != rows[k].moment() || rows[j].series() != rows[k].series()) by {
        assert(millis[j] <= millis[k]);
        if millis[j] == millis[k] {
            assert(series_key(samples[j].name, samples[j].labels) != series_key(
                samples[k].name,
                samples[k].labels,
            ));
        }
    }
    assert(is_well_ordered(rows));
    only_well_ordered_rows_make_a_table(rows, None);
    discovery_succeeds_on_ordered_rows(rows, None);
}

} // verus!
