//! What holds of the tables that are written.
use vstd::prelude::*;

use super::csv_text::csv_reading;
use super::error::Failure;
use super::file_laws::{all_rows_of_all_files_are_read, holds_rows};
use super::laws::{
    accepted_count_is_bounded, every_row_is_in_a_run, is_well_ordered,
    only_well_ordered_rows_make_a_table, ordered_count_is_bounded, runs_part_the_rows_by_moment,
    table_is_finished_on_good_rows,
};
use super::rows::{sources_scan, Row, Scan, Source};
use super::wide::{
    accepted_count, are_columns, discovery_failure, has_series, is_conversion, is_repeat,
    is_written, order_failure, ordered_count, row_failure, run_cell, run_has, run_record, runs,
    table_failure, timed_rows, wide_header, wide_records, ConvertFailure, Timed,
};
use crate::order::text_lt;
use crate::timestamp::{moment_lt, rfc3339_reading};

verus! {

/// The moment that a timestamp names.
pub open spec fn moment_of(timestamp: Seq<char>) -> (i64, u32) {
    (rfc3339_reading(timestamp)->Ok_0.0, rfc3339_reading(timestamp)->Ok_0.1)
}

/// Whether one moment comes before another.
pub open spec fn comes_before(a: (i64, u32), b: (i64, u32)) -> bool {
    a.0 < b.0 || (a.0 == b.0 && a.1 < b.1)
}

/// The name of the column of a row: that of its metric, with the labels, if any, behind a `|`.
pub open spec fn column_of(row: Row) -> Seq<char> {
    if row.labels.len() == 0 {
        row.name
    } else {
        row.name.push('|') + row.labels
    }
}

/// Whether two rows give one column a value at one moment.
pub open spec fn collide(first: Row, second: Row) -> bool {
    moment_of(first.timestamp) == moment_of(second.timestamp) && column_of(first) == column_of(
        second,
    )
}

/// Whether all rows name moments, and none comes before an earlier one.
pub open spec fn are_in_order(rows: Seq<Row>) -> bool {
    &&& forall|k: int|
        0 <= k < rows.len() ==> rfc3339_reading((#[trigger] rows[k]).timestamp) is Ok
    &&& forall|j: int, k: int|
        0 <= j < k < rows.len() ==> !comes_before(
            moment_of((#[trigger] rows[k]).timestamp),
            moment_of((#[trigger] rows[j]).timestamp),
        )
}

/// Whether no two rows collide.
pub open spec fn are_distinct(rows: Seq<Row>) -> bool {
    forall|j: int, k: int|
        0 <= j < k < rows.len() ==> !collide(#[trigger] rows[j], #[trigger] rows[k])
}

/// Whether some row has that column.
pub open spec fn has_column(rows: Seq<Row>, name: Seq<char>) -> bool {
    exists|i: int| 0 <= i < rows.len() && column_of(#[trigger] rows[i]) == name
}

/// Whether these are the columns of the rows, each once, in ascending order.
pub open spec fn are_column_names(columns: Seq<Seq<char>>, rows: Seq<Row>) -> bool {
    &&& forall|i: int, j: int|
        0 <= i < j < columns.len() ==> text_lt(#[trigger] columns[i], #[trigger] columns[j])
    &&& forall|name: Seq<char>| #[trigger] columns.contains(name) <==> has_column(rows, name)
}

/// Whether a value stands in the column of a row, in a record of the moment of the row.
pub open spec fn is_told(
    records: Seq<Seq<Seq<char>>>,
    columns: Seq<Seq<char>>,
    row: Row,
) -> bool {
    exists|r: int, c: int|
        #![trigger records[r], columns[c]]
        0 < r < records.len() && 0 <= c < columns.len() && columns[c] == column_of(row)
            && moment_of(records[r][0]) == moment_of(row.timestamp) && records[r][c + 1]
            == row.value
}

/// Whether a cell holds the value of a row of that moment and that column.
pub open spec fn is_value(
    rows: Seq<Row>,
    timestamp: Seq<char>,
    column: Seq<char>,
    cell: Seq<char>,
) -> bool {
    exists|j: int|
        0 <= j < rows.len() && column_of(#[trigger] rows[j]) == column && moment_of(
            rows[j].timestamp,
        ) == moment_of(timestamp) && rows[j].value == cell
}

/// Whether a timestamp is that of the first row of its moment.
pub open spec fn is_first_timestamp(rows: Seq<Row>, timestamp: Seq<char>) -> bool {
    exists|j: int|
        0 <= j < rows.len() && (#[trigger] rows[j]).timestamp == timestamp && forall|i: int|
            0 <= i < j ==> moment_of((#[trigger] rows[i]).timestamp) != moment_of(timestamp)
}

/// Whether records are the wide form of rows: a header; then a record for each moment, in ascending
/// order, under the timestamp of its first row; in it the value of each row in the column of that
/// row; and all other cells empty.
pub open spec fn is_wide_form(
    records: Seq<Seq<Seq<char>>>,
    columns: Seq<Seq<char>>,
    rows: Seq<Row>,
) -> bool {
    &&& records.len() > 0
    &&& records[0] == seq!["timestamp_rfc3339"@] + columns
    &&& forall|r: int|
        0 <= r < records.len() ==> (#[trigger] records[r]).len() == columns.len() + 1
    &&& forall|j: int| 0 <= j < rows.len() ==> is_told(records, columns, #[trigger] rows[j])
    &&& forall|r: int|
        0 < r < records.len() ==> is_first_timestamp(rows, (#[trigger] records[r])[0])
    &&& forall|r: int, c: int|
        #![trigger records[r], columns[c]]
        0 < r < records.len() && 0 <= c < columns.len() ==> records[r][c + 1].len() == 0
            || is_value(rows, records[r][0], columns[c], records[r][c + 1])
    &&& forall|r: int, s: int|
        0 < r < s < records.len() ==> comes_before(
            moment_of((#[trigger] records[r])[0]),
            moment_of((#[trigger] records[s])[0]),
        )
}

/// Whether bytes are read as the wide form of rows, with these columns.
pub open spec fn is_wide_form_text(
    bytes: Seq<u8>,
    columns: Seq<Seq<char>>,
    rows: Seq<Row>,
) -> bool {
    exists|records: Seq<Seq<Seq<char>>>| #[trigger]
        is_wide_form(records, columns, rows) && csv_reading(bytes) == records.map_values(
            |record: Seq<Seq<char>>| Ok::<Seq<Seq<char>>, Seq<char>>(record),
        )
}

proof fn series_are_columns(rows: Seq<Row>)
    ensures
        forall|j: int|
            0 <= j < rows.len() ==> (#[trigger] timed_rows(rows)[j]).series() == column_of(rows[j])
                && timed_rows(rows)[j].row == rows[j] && (timed_rows(rows)[j].instant is Ok
                <==> rfc3339_reading(rows[j].timestamp) is Ok) && (timed_rows(rows)[j].instant is Ok
                ==> timed_rows(rows)[j].moment() == moment_of(rows[j].timestamp)),
{
    reveal_strlit("|");
    assert forall|j: int| 0 <= j < rows.len() implies (#[trigger] timed_rows(rows)[j]).series()
        == column_of(rows[j]) by {
        let row = rows[j];
        if row.labels.len() > 0 {
            assert(row.name + "|"@ + row.labels =~= row.name.push('|') + row.labels);
        }
    }
}

proof fn ordered_rows_are_well_ordered(rows: Seq<Row>)
    requires
        are_in_order(rows),
        are_distinct(rows),
    ensures
        is_well_ordered(timed_rows(rows)),
{
    let timed = timed_rows(rows);
    series_are_columns(rows);
    assert forall|j: int, k: int| 0 <= j < k < timed.len() implies !moment_lt(
        (#[trigger] timed[k]).moment(),
        (#[trigger] timed[j]).moment(),
    ) && (timed[j].moment() != timed[k].moment() || timed[j].series() != timed[k].series()) by {
        assert(rfc3339_reading(rows[j].timestamp) is Ok);
        assert(rfc3339_reading(rows[k].timestamp) is Ok);
        assert(!collide(rows[j], rows[k]));
    }
    assert forall|k: int| 0 <= k < timed.len() implies (#[trigger] timed[k]).instant is Ok by {
        assert(rfc3339_reading(rows[k].timestamp) is Ok);
    }
}

proof fn same_rows_same_runs(first: Seq<Timed>, second: Seq<Timed>, n: int)
    requires
        0 <= n <= first.len(),
        n <= second.len(),
        forall|i: int| 0 <= i < n ==> first[i] == second[i],
    ensures
        runs(first, n) == runs(second, n),
    decreases n,
{
    if n > 0 {
        same_rows_same_runs(first, second, n - 1);
    }
}

/// Whether runs part rows by moment: each row is in one, all rows of one are of one moment, and the
/// moments go forward.
spec fn part_by_moment(all: Seq<(int, int)>, rows: Seq<Row>) -> bool {
    &&& forall|r: int|
        0 <= r < all.len() ==> 0 <= (#[trigger] all[r]).0 < all[r].1 <= rows.len()
    &&& forall|j: int| 0 <= j < rows.len() ==> #[trigger] is_in_a_run(all, j)
    &&& forall|r: int, j: int|
        0 <= r < all.len() && all[r].0 <= j < all[r].1 ==> moment_of(
            (#[trigger] rows[j]).timestamp,
        ) == moment_of(rows[(#[trigger] all[r]).0].timestamp)
    &&& forall|r: int, q: int|
        0 <= r < q < all.len() ==> comes_before(
            moment_of(rows[(#[trigger] all[r]).0].timestamp),
            moment_of(rows[(#[trigger] all[q]).0].timestamp),
        )
}

spec fn is_in_a_run(all: Seq<(int, int)>, j: int) -> bool {
    exists|r: int| 0 <= r < all.len() && (#[trigger] all[r]).0 <= j < all[r].1
}

proof fn runs_part_by_moment(rows: Seq<Row>, s: int)
    requires
        0 <= s <= rows.len(),
        are_in_order(rows.take(s)),
        are_distinct(rows.take(s)),
    ensures
        part_by_moment(runs(timed_rows(rows), s), rows.take(s)),
{
    let timed = timed_rows(rows);
    let prefix = rows.take(s);
    let part = timed_rows(prefix);
    let all = runs(timed, s);
    ordered_rows_are_well_ordered(prefix);
    series_are_columns(prefix);
    assert forall|i: int| 0 <= i < s implies part[i] == timed[i] by {
        assert(prefix[i] == rows[i]);
    }
    same_rows_same_runs(part, timed, s);
    runs_part_the_rows_by_moment(part, s);
    assert forall|i: int| 0 <= i < s implies part[i].moment() == moment_of(
        (#[trigger] prefix[i]).timestamp,
    ) by {
        assert(rfc3339_reading(prefix[i].timestamp) is Ok);
        assert(part[i].instant is Ok);
    }
    assert forall|j: int| 0 <= j < prefix.len() implies #[trigger] is_in_a_run(all, j) by {
        every_row_is_in_a_run(part, s, j);
    }
    assert forall|r: int, j: int|
        0 <= r < all.len() && all[r].0 <= j < all[r].1 implies moment_of(
        (#[trigger] prefix[j]).timestamp,
    ) == moment_of(prefix[(#[trigger] all[r]).0].timestamp) by {
        assert(part[j].moment() == part[all[r].0].moment());
        assert(prefix[all[r].0] == rows[all[r].0]);
    }
    assert forall|r: int, q: int| 0 <= r < q < all.len() implies comes_before(
        moment_of(prefix[(#[trigger] all[r]).0].timestamp),
        moment_of(prefix[(#[trigger] all[q]).0].timestamp),
    ) by {
        assert(moment_lt(part[all[r].0].moment(), part[all[q].0].moment()));
        assert(prefix[all[r].0] == rows[all[r].0]);
        assert(prefix[all[q].0] == rows[all[q].0]);
    }
}

/// The cell of a run is the value of the row that has the column, or empty where none has.
proof fn cell_is_the_value(rows: Seq<Row>, s: int, run: (int, int), column: Seq<char>)
    requires
        0 <= run.0 < run.1 <= s <= rows.len(),
        are_distinct(rows.take(s)),
        forall|j: int|
            run.0 <= j < run.1 ==> moment_of((#[trigger] rows[j]).timestamp) == moment_of(
                rows[run.0].timestamp,
            ),
    ensures
        forall|j: int|
            run.0 <= j < run.1 && column_of(#[trigger] rows[j]) == column ==> run_cell(
                timed_rows(rows),
                run,
                column,
            ) == rows[j].value,
        run_cell(timed_rows(rows), run, column).len() == 0 || exists|j: int|
            run.0 <= j < run.1 && column_of(#[trigger] rows[j]) == column && run_cell(
                timed_rows(rows),
                run,
                column,
            ) == rows[j].value,
{
    let timed = timed_rows(rows);
    let prefix = rows.take(s);
    series_are_columns(rows);
    if run_has(timed, run, column) {
        let chosen = choose|k: int|
            run.0 <= k < run.1 && (#[trigger] timed[k]).series() == column;
        assert(column_of(rows[chosen]) == column);
        assert(run_cell(timed, run, column) == rows[chosen].value);
        assert forall|j: int|
            run.0 <= j < run.1 && column_of(#[trigger] rows[j]) == column implies run_cell(
            timed,
            run,
            column,
        ) == rows[j].value by {
            assert(prefix[j] == rows[j] && prefix[chosen] == rows[chosen]);
            if chosen < j {
                assert(!collide(prefix[chosen], prefix[j]));
            } else if j < chosen {
                assert(!collide(prefix[j], prefix[chosen]));
            }
        }
    } else {
        assert forall|j: int| run.0 <= j < run.1 implies column_of(#[trigger] rows[j]) != column by {
            assert(timed[j].series() == column_of(rows[j]));
        }
    }
}

/// The records of the runs of the first `s` rows are the wide form of these rows.
proof fn runs_are_the_wide_form(rows: Seq<Row>, columns: Seq<Seq<char>>, s: int)
    requires
        0 <= s <= rows.len(),
        are_in_order(rows.take(s)),
        are_distinct(rows.take(s)),
        forall|j: int| 0 <= j < s ==> columns.contains(column_of(#[trigger] rows[j])),
    ensures
        is_wide_form(wide_records(timed_rows(rows), s, columns, true), columns, rows.take(s)),
{
    let timed = timed_rows(rows);
    let prefix = rows.take(s);
    let all = runs(timed, s);
    let records = wide_records(timed, s, columns, true);
    runs_part_by_moment(rows, s);
    series_are_columns(rows);
    assert(records[0] == wide_header(columns));
    assert forall|r: int| 0 < r < records.len() implies #[trigger] records[r] == run_record(
        timed,
        all[r - 1],
        columns,
    ) && records[r][0] == prefix[all[r - 1].0].timestamp by {
        assert(0 <= all[r - 1].0 < all[r - 1].1 <= s);
        assert(timed[all[r - 1].0].row == rows[all[r - 1].0]);
    }
    assert forall|j: int| 0 <= j < prefix.len() implies is_told(
        records,
        columns,
        #[trigger] prefix[j],
    ) by {
        row_is_told(rows, columns, s, j);
    }
    assert forall|r: int| 0 < r < records.len() implies is_first_timestamp(
        prefix,
        (#[trigger] records[r])[0],
    ) by {
        run_starts_its_moment(all, prefix, r - 1);
    }
    assert forall|r: int, c: int|
        #![trigger records[r], columns[c]]
        0 < r < records.len() && 0 <= c < columns.len() implies records[r][c + 1].len() == 0
        || is_value(prefix, records[r][0], columns[c], records[r][c + 1]) by {
        let run = all[r - 1];
        assert(records[r][c + 1] == run_cell(timed, run, columns[c]));
        assert forall|j: int| run.0 <= j < run.1 implies moment_of((#[trigger] rows[j]).timestamp)
            == moment_of(rows[run.0].timestamp) by {
            assert(prefix[j] == rows[j] && prefix[run.0] == rows[run.0]);
        }
        cell_is_the_value(rows, s, run, columns[c]);
        if records[r][c + 1].len() > 0 {
            let j = choose|j: int|
                run.0 <= j < run.1 && column_of(#[trigger] rows[j]) == columns[c] && run_cell(
                    timed,
                    run,
                    columns[c],
                ) == rows[j].value;
            assert(prefix[j] == rows[j]);
            assert(column_of(prefix[j]) == columns[c]);
        }
    }
    assert forall|r: int, q: int| 0 < r < q < records.len() implies comes_before(
        moment_of((#[trigger] records[r])[0]),
        moment_of((#[trigger] records[q])[0]),
    ) by {
        assert(comes_before(
            moment_of(prefix[all[r - 1].0].timestamp),
            moment_of(prefix[all[q - 1].0].timestamp),
        ));
    }
}

proof fn row_is_told(rows: Seq<Row>, columns: Seq<Seq<char>>, s: int, j: int)
    requires
        0 <= j < s <= rows.len(),
        are_in_order(rows.take(s)),
        are_distinct(rows.take(s)),
        columns.contains(column_of(rows[j])),
    ensures
        is_told(wide_records(timed_rows(rows), s, columns, true), columns, rows[j]),
{
    let timed = timed_rows(rows);
    let prefix = rows.take(s);
    let all = runs(timed, s);
    let records = wide_records(timed, s, columns, true);
    runs_part_by_moment(rows, s);
    series_are_columns(rows);
    assert(is_in_a_run(all, j));
    let r = choose|r: int| 0 <= r < all.len() && (#[trigger] all[r]).0 <= j < all[r].1;
    let run = all[r];
    let c = choose|c: int| 0 <= c < columns.len() && columns[c] == column_of(rows[j]);
    assert forall|i: int| run.0 <= i < run.1 implies moment_of((#[trigger] rows[i]).timestamp)
        == moment_of(rows[run.0].timestamp) by {
        assert(prefix[i] == rows[i] && prefix[run.0] == rows[run.0]);
    }
    cell_is_the_value(rows, s, run, columns[c]);
    assert(records[r + 1] == run_record(timed, run, columns));
    assert(records[r + 1][c + 1] == run_cell(timed, run, columns[c]));
    assert(timed[run.0].row == rows[run.0]);
    assert(records[r + 1][0] == rows[run.0].timestamp);
    assert(columns[c] == column_of(rows[j]) && records[r + 1][c + 1] == rows[j].value);
}

proof fn run_starts_its_moment(all: Seq<(int, int)>, rows: Seq<Row>, r: int)
    requires
        part_by_moment(all, rows),
        0 <= r < all.len(),
    ensures
        is_first_timestamp(rows, rows[all[r].0].timestamp),
{
    let k = all[r].0;
    assert forall|i: int| 0 <= i < k implies moment_of((#[trigger] rows[i]).timestamp)
        != moment_of(rows[k].timestamp) by {
        assert(is_in_a_run(all, i));
        let q = choose|q: int| 0 <= q < all.len() && (#[trigger] all[q]).0 <= i < all[q].1;
        assert(moment_of(rows[i].timestamp) == moment_of(rows[all[q].0].timestamp));
        if q < r {
            assert(comes_before(
                moment_of(rows[all[q].0].timestamp),
                moment_of(rows[all[r].0].timestamp),
            ));
        } else if q > r {
            assert(comes_before(
                moment_of(rows[all[r].0].timestamp),
                moment_of(rows[all[q].0].timestamp),
            ));
        }
    }
    assert(rows[k].timestamp == rows[all[r].0].timestamp);
}

proof fn columns_are_column_names(columns: Seq<Seq<char>>, rows: Seq<Row>)
    requires
        are_columns(columns, timed_rows(rows)),
    ensures
        are_column_names(columns, rows),
{
    let timed = timed_rows(rows);
    series_are_columns(rows);
    assert forall|name: Seq<char>| #[trigger] columns.contains(name) <==> has_column(
        rows,
        name,
    ) by {
        if has_series(timed, name) {
            let i = choose|i: int| 0 <= i < timed.len() && (#[trigger] timed[i]).series() == name;
            assert(column_of(rows[i]) == name);
        }
        if has_column(rows, name) {
            let i = choose|i: int| 0 <= i < rows.len() && column_of(#[trigger] rows[i]) == name;
            assert(timed[i].series() == name);
        }
    }
}

/// What is wrong with the time of row `k`: its timestamp names no moment, or one before that of the
/// row before it.
pub open spec fn time_fault(rows: Seq<Row>, k: int) -> Option<Failure> {
    match rfc3339_reading(rows[k].timestamp) {
        Err(cause) => Some(
            Failure::InvalidTimestamp { timestamp: rows[k].timestamp, cause },
        ),
        Ok(_) => if k > 0 && comes_before(
            moment_of(rows[k].timestamp),
            moment_of(rows[k - 1].timestamp),
        ) {
            Some(
                Failure::Unsorted {
                    previous: rfc3339_reading(rows[k - 1].timestamp)->Ok_0.2,
                    timestamp: rows[k].timestamp,
                },
            )
        } else {
            None
        },
    }
}

/// Whether nothing is wrong with the times of the first `n` rows.
pub open spec fn are_times_right(rows: Seq<Row>, n: int) -> bool {
    forall|k: int| 0 <= k < n ==> #[trigger] time_fault(rows, k) is None
}

proof fn order_failure_is_the_fault(rows: Seq<Row>, k: int)
    requires
        0 <= k < rows.len(),
        are_times_right(rows, k),
    ensures
        order_failure(timed_rows(rows), k) == time_fault(rows, k),
{
    series_are_columns(rows);
    let timed = timed_rows(rows);
    assert(timed[k].row == rows[k]);
    if k > 0 {
        assert(time_fault(rows, k - 1) is None);
        assert(timed[k - 1].row == rows[k - 1]);
    }
}

proof fn right_times_are_in_order(rows: Seq<Row>, n: int)
    requires
        0 <= n <= rows.len(),
        are_times_right(rows, n),
    ensures
        are_in_order(rows.take(n)),
        ordered_count(timed_rows(rows), n) == n,
    decreases n,
{
    let prefix = rows.take(n);
    if n > 0 {
        right_times_are_in_order(rows, n - 1);
        let before = rows.take(n - 1);
        order_failure_is_the_fault(rows, n - 1);
        assert(time_fault(rows, n - 1) is None);
        assert forall|k: int| 0 <= k < n implies rfc3339_reading(
            (#[trigger] prefix[k]).timestamp,
        ) is Ok by {
            assert(time_fault(rows, k) is None);
        }
        assert forall|j: int, k: int| 0 <= j < k < n implies !comes_before(
            moment_of((#[trigger] prefix[k]).timestamp),
            moment_of((#[trigger] prefix[j]).timestamp),
        ) by {
            if k < n - 1 {
                assert(!comes_before(
                    moment_of(before[k].timestamp),
                    moment_of(before[j].timestamp),
                ));
            } else if j < n - 2 {
                assert(!comes_before(
                    moment_of(before[n - 2].timestamp),
                    moment_of(before[j].timestamp),
                ));
            }
        }
    }
}

proof fn rows_in_order_have_right_times(rows: Seq<Row>)
    requires
        are_in_order(rows),
    ensures
        are_times_right(rows, rows.len() as int),
{
    assert forall|k: int| 0 <= k < rows.len() implies #[trigger] time_fault(rows, k) is None by {
        assert(rfc3339_reading(rows[k].timestamp) is Ok);
        if k > 0 {
            assert(!comes_before(
                moment_of(rows[k].timestamp),
                moment_of(rows[k - 1].timestamp),
            ));
        }
    }
}

/// Rows that are in order and do not collide are written as their wide form, under any columns among
/// which they find theirs.
pub proof fn ordered_rows_are_written_in_wide_form(
    scan: Scan,
    columns: Seq<Seq<char>>,
    result: Result<Vec<u8>, ConvertFailure>,
)
    requires
        is_written(result, scan, columns),
        scan.failure is None,
        are_in_order(scan.rows),
        are_distinct(scan.rows),
        forall|j: int|
            0 <= j < scan.rows.len() ==> columns.contains(column_of(#[trigger] scan.rows[j])),
    ensures
        result is Ok,
        is_wide_form_text(result->Ok_0@, columns, scan.rows),
{
    let rows = scan.rows;
    let timed = timed_rows(rows);
    let n = rows.len() as int;
    ordered_rows_are_well_ordered(rows);
    only_well_ordered_rows_make_a_table(timed, None);
    table_is_finished_on_good_rows(timed, None);
    assert(rows.take(n) =~= rows);
    runs_are_the_wide_form(rows, columns, n);
    let records = wide_records(timed, n, columns, true);
    assert(is_wide_form(records, columns, rows));
    assert(is_wide_form_text(result->Ok_0@, columns, rows));
}

/// Rows that are in order and do not collide are converted: what is written is read as their wide
/// form, under the columns that they have.
pub proof fn ordered_rows_make_a_wide_table(
    files: Seq<Source>,
    rows: Seq<Row>,
    result: Result<Vec<u8>, ConvertFailure>,
)
    requires
        is_conversion(files, result),
        sources_scan(files, files.len() as int) == (Scan { rows, failure: None }),
        are_in_order(rows),
        are_distinct(rows),
    ensures
        result is Ok,
        exists|columns: Seq<Seq<char>>| #[trigger]
            are_column_names(columns, rows) && is_wide_form_text(result->Ok_0@, columns, rows),
{
    let timed = timed_rows(rows);
    let n = rows.len() as int;
    let scan = sources_scan(files, files.len() as int);
    rows_in_order_have_right_times(rows);
    right_times_are_in_order(rows, n);
    assert(discovery_failure(timed, None) is None);
    let columns = choose|columns: Seq<Seq<char>>| #[trigger]
        are_columns(columns, timed) && is_written(result, scan, columns);
    columns_are_column_names(columns, rows);
    assert forall|j: int| 0 <= j < n implies columns.contains(column_of(#[trigger] rows[j])) by {
        assert(has_column(rows, column_of(rows[j])));
    }
    ordered_rows_are_written_in_wide_form(scan, columns, result);
}

/// Conversion loses and makes up nothing: if all files could be read and hold rows of known kinds,
/// with a header or without one, and the rows of all files, one after the other, are in order and do
/// not collide, the table that is written is the wide form of all these rows.
pub proof fn files_are_converted_without_loss(
    files: Seq<Source>,
    tables: Seq<Seq<Row>>,
    result: Result<Vec<u8>, ConvertFailure>,
)
    requires
        is_conversion(files, result),
        files.len() == tables.len(),
        forall|i: int| 0 <= i < files.len() ==> holds_rows(#[trigger] files[i], tables[i]),
        are_in_order(tables.flatten()),
        are_distinct(tables.flatten()),
    ensures
        result is Ok,
        exists|columns: Seq<Seq<char>>| #[trigger]
            are_column_names(columns, tables.flatten()) && is_wide_form_text(
                result->Ok_0@,
                columns,
                tables.flatten(),
            ),
{
    all_rows_of_all_files_are_read(files, tables);
    ordered_rows_make_a_wide_table(files, tables.flatten(), result);
}

/// Rows that are out of order, or whose timestamps name no moment, are refused before anything is
/// written, and the first of them is told; so is what ended the reading of the files, if nothing is
/// wrong with the rows before.
pub proof fn disorder_is_refused(
    files: Seq<Source>,
    result: Result<Vec<u8>, ConvertFailure>,
    k: int,
)
    requires
        is_conversion(files, result),
    ensures
        ({
            let scan = sources_scan(files, files.len() as int);
            &&& 0 <= k < scan.rows.len() && are_times_right(scan.rows, k) && time_fault(
                scan.rows,
                k,
            ) is Some ==> result is Err && result->Err_0.output is None && Some(
                result->Err_0.error@,
            ) == time_fault(scan.rows, k)
            &&& are_in_order(scan.rows) && scan.failure is Some ==> result is Err
                && result->Err_0.output is None && Some(result->Err_0.error@) == scan.failure
        }),
{
    let scan = sources_scan(files, files.len() as int);
    let rows = scan.rows;
    let timed = timed_rows(rows);
    let n = rows.len() as int;
    if 0 <= k < n && are_times_right(rows, k) && time_fault(rows, k) is Some {
        right_times_are_in_order(rows, k);
        order_failure_is_the_fault(rows, k);
        ordered_count_is_bounded(timed, n);
        let m = ordered_count(timed, n);
        if k < m {
            assert(order_failure(timed, k) is None);
        } else if m < k {
            order_failure_is_the_fault(rows, m);
            assert(time_fault(rows, m) is None);
        }
        assert(m == k);
        assert(discovery_failure(timed, scan.failure) == time_fault(rows, k));
    }
    if are_in_order(rows) && scan.failure is Some {
        rows_in_order_have_right_times(rows);
        right_times_are_in_order(rows, n);
    }
}

/// Whether row `k` is the first that collides with an earlier one.
pub open spec fn is_first_collision(rows: Seq<Row>, k: int) -> bool {
    &&& 0 <= k < rows.len()
    &&& are_distinct(rows.take(k))
    &&& exists|j: int| 0 <= j < k && collide(#[trigger] rows[j], rows[k])
}

proof fn accepted_up_to_the_collision(rows: Seq<Row>, k: int)
    requires
        are_in_order(rows),
        is_first_collision(rows, k),
    ensures
        accepted_count(timed_rows(rows), rows.len() as int) == k,
        row_failure(timed_rows(rows), k) == Some(
            Failure::Duplicate { timestamp: rows[k].timestamp, series: column_of(rows[k]) },
        ),
{
    let timed = timed_rows(rows);
    let n = rows.len() as int;
    series_are_columns(rows);
    rows_in_order_have_right_times(rows);
    assert forall|i: int| 0 <= i < n implies #[trigger] order_failure(timed, i) is None by {
        order_failure_is_the_fault(rows, i);
        assert(time_fault(rows, i) is None);
    }
    assert forall|i: int| 0 <= i < n implies timed[i].moment() == moment_of(
        (#[trigger] rows[i]).timestamp,
    ) by {
        assert(rfc3339_reading(rows[i].timestamp) is Ok);
        assert(timed[i].instant is Ok);
    }
    let prefix = rows.take(k);
    assert forall|i: int| 0 <= i < k implies !#[trigger] is_repeat(timed, i) by {
        if is_repeat(timed, i) {
            let j = choose|j: int|
                0 <= j < i && (#[trigger] timed[j]).moment() == timed[i].moment()
                    && timed[j].series() == timed[i].series();
            assert(prefix[j] == rows[j] && prefix[i] == rows[i]);
            assert(!collide(prefix[j], prefix[i]));
        }
    }
    let j = choose|j: int| 0 <= j < k && collide(#[trigger] rows[j], rows[k]);
    assert(timed[j].moment() == timed[k].moment() && timed[j].series() == timed[k].series());
    assert(is_repeat(timed, k));
    accepted_count_is_bounded(timed, n);
    let m = accepted_count(timed, n);
    if k < m {
        assert(row_failure(timed, k) is None);
    } else if m < k {
        assert(row_failure(timed, m) is Some);
        assert(order_failure(timed, m) is None);
        assert(!is_repeat(timed, m));
    }
}

/// The runs before the last one are those of the rows before it.
proof fn last_run_follows_the_others(rows: Seq<Timed>, n: int)
    requires
        0 < n <= rows.len(),
        is_well_ordered(rows),
    ensures
        runs(rows, n).len() > 0,
        0 <= runs(rows, n).last().0 < n,
        runs(rows, n).drop_last() == runs(rows, runs(rows, n).last().0),
    decreases n,
{
    runs_part_the_rows_by_moment(rows, n);
    if n == 1 {
        reveal_with_fuel(runs, 2);
        assert(runs(rows, 1).drop_last() =~= runs(rows, 0));
    } else {
        last_run_follows_the_others(rows, n - 1);
        if rows[n - 2].moment() != rows[n - 1].moment() {
            assert(runs(rows, n).drop_last() =~= runs(rows, n - 1));
        } else {
            assert(runs(rows, n).drop_last() =~= runs(rows, n - 1).drop_last());
        }
    }
}

/// Rows that collide are refused, and the first that does is told. What was written up to there is
/// the wide form of the rows of all earlier moments, under the columns of all rows.
pub proof fn collisions_are_refused(
    files: Seq<Source>,
    rows: Seq<Row>,
    result: Result<Vec<u8>, ConvertFailure>,
    k: int,
)
    requires
        is_conversion(files, result),
        sources_scan(files, files.len() as int) == (Scan { rows, failure: None }),
        are_in_order(rows),
        is_first_collision(rows, k),
    ensures
        result is Err,
        result->Err_0.error@ == (Failure::Duplicate {
            timestamp: rows[k].timestamp,
            series: column_of(rows[k]),
        }),
        result->Err_0.output is Some,
        exists|columns: Seq<Seq<char>>, s: int|
            0 <= s < k && moment_of((#[trigger] rows[s]).timestamp) == moment_of(rows[k].timestamp)
                && (forall|i: int|
                0 <= i < s ==> comes_before(
                    moment_of((#[trigger] rows[i]).timestamp),
                    moment_of(rows[k].timestamp),
                )) && #[trigger] are_column_names(columns, rows) && is_wide_form_text(
                result->Err_0.output->0@,
                columns,
                rows.take(s),
            ),
{
    let timed = timed_rows(rows);
    let n = rows.len() as int;
    let scan = sources_scan(files, files.len() as int);
    rows_in_order_have_right_times(rows);
    right_times_are_in_order(rows, n);
    accepted_up_to_the_collision(rows, k);
    assert(discovery_failure(timed, None) is None);
    let columns = choose|columns: Seq<Seq<char>>| #[trigger]
        are_columns(columns, timed) && is_written(result, scan, columns);
    columns_are_column_names(columns, rows);
    assert(table_failure(timed, None) == row_failure(timed, k));
    let prefix = rows.take(k);
    let part = timed_rows(prefix);
    assert forall|i: int| 0 <= i < k implies part[i] == timed[i] by {
        assert(prefix[i] == rows[i]);
    }
    assert(are_in_order(prefix)) by {
        assert forall|i: int| 0 <= i < k implies rfc3339_reading(
            (#[trigger] prefix[i]).timestamp,
        ) is Ok by {
            assert(rfc3339_reading(rows[i].timestamp) is Ok);
        }
        assert forall|i: int, j: int| 0 <= i < j < k implies !comes_before(
            moment_of((#[trigger] prefix[j]).timestamp),
            moment_of((#[trigger] prefix[i]).timestamp),
        ) by {
            assert(prefix[i] == rows[i] && prefix[j] == rows[j]);
        }
    }
    ordered_rows_are_well_ordered(prefix);
    series_are_columns(prefix);
    last_run_follows_the_others(part, k);
    runs_part_the_rows_by_moment(part, k);
    same_rows_same_runs(part, timed, k);
    let s = runs(timed, k).last().0;
    same_rows_same_runs(part, timed, s);
    let j = choose|j: int| 0 <= j < k && collide(#[trigger] rows[j], rows[k]);
    assert forall|i: int| 0 <= i < k implies part[i].moment() == moment_of(
        (#[trigger] rows[i]).timestamp,
    ) by {
        assert(prefix[i] == rows[i]);
        assert(rfc3339_reading(prefix[i].timestamp) is Ok);
        assert(part[i].instant is Ok);
    }
    let last = runs(part, k).last();
    assert(last == runs(part, k)[runs(part, k).len() - 1]);
    assert(part[k - 1].moment() == part[s].moment());
    assert(moment_of(rows[k - 1].timestamp) == moment_of(rows[k].timestamp)) by {
        if j < k - 1 {
            assert(!comes_before(
                moment_of(rows[k - 1].timestamp),
                moment_of(rows[j].timestamp),
            ));
        }
        assert(!comes_before(moment_of(rows[k].timestamp), moment_of(rows[k - 1].timestamp)));
    }
    assert forall|i: int| 0 <= i < s implies comes_before(
        moment_of((#[trigger] rows[i]).timestamp),
        moment_of(rows[k].timestamp),
    ) by {
        every_row_is_in_a_run(part, k, i);
        let q = choose|q: int|
            0 <= q < runs(part, k).len() && (#[trigger] runs(part, k)[q]).0 <= i < runs(
                part,
                k,
            )[q].1;
        assert(part[i].moment() == part[runs(part, k)[q].0].moment());
        assert(q < runs(part, k).len() - 1);
        assert(moment_lt(
            part[runs(part, k)[q].0].moment(),
            part[runs(part, k)[runs(part, k).len() - 1].0].moment(),
        ));
    }
    assert forall|i: int| 0 <= i < s implies columns.contains(column_of(#[trigger] rows[i])) by {
        assert(has_column(rows, column_of(rows[i])));
    }
    let earlier = rows.take(s);
    assert forall|i: int, m: int| 0 <= i < m < s implies !collide(
        #[trigger] earlier[i],
        #[trigger] earlier[m],
    ) by {
        assert(!collide(prefix[i], prefix[m]));
    }
    assert(are_in_order(earlier)) by {
        assert forall|i: int| 0 <= i < s implies rfc3339_reading(
            (#[trigger] earlier[i]).timestamp,
        ) is Ok by {
            assert(rfc3339_reading(prefix[i].timestamp) is Ok);
        }
        assert forall|i: int, m: int| 0 <= i < m < s implies !comes_before(
            moment_of((#[trigger] earlier[m]).timestamp),
            moment_of((#[trigger] earlier[i]).timestamp),
        ) by {
            assert(prefix[i] == rows[i] && prefix[m] == rows[m]);
        }
    }
    runs_are_the_wide_form(rows, columns, s);
    let records = wide_records(timed, k, columns, false);
    assert(records =~= wide_records(timed, s, columns, true));
    assert(is_wide_form(records, columns, earlier));
    assert(is_wide_form_text(result->Err_0.output->0@, columns, earlier));
    assert(moment_of(rows[s].timestamp) == moment_of(rows[k].timestamp));
}

} // verus!
