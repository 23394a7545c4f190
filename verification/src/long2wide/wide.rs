//! The wide-form table: one record for each moment, one column for each series.
use vstd::prelude::*;

use super::csv_text::{csv_writing, is_table, reads_back, starts_with_mark, written, CsvText};
use super::error::{failure_view, ConvertError, Failure};
use super::rows::{
    for_each_row, row_views, sources, sources_scan, CsvRow, InputFile, Row, Scan, Source,
};
use crate::sorted_map::{strictly_increasing, SortedMap};
use crate::text::{concat3, record_views, views};
use crate::timestamp::{moment_lt, read_rfc3339, rfc3339_reading, Instant};

verus! {

/// The name of the column that holds the values of a series.
pub open spec fn series_key(name: Seq<char>, labels: Seq<char>) -> Seq<char> {
    if labels.len() == 0 {
        name
    } else {
        name + "|"@ + labels
    }
}

/// A row with the moment that its timestamp names, or why it names none.
pub struct TimedRow {
    pub row: CsvRow,
    pub instant: Result<Instant, ConvertError>,
}

/// What a row with its moment says.
pub struct Timed {
    pub row: Row,
    pub instant: Result<(i64, u32, Seq<char>), Failure>,
}

impl Timed {
    /// The point in time, where there is one.
    pub open spec fn moment(self) -> (i64, u32) {
        (self.instant->Ok_0.0, self.instant->Ok_0.1)
    }

    /// The series that the row belongs to.
    pub open spec fn series(self) -> Seq<char> {
        series_key(self.row.name, self.row.labels)
    }
}

/// What the moment of a row says.
pub open spec fn instant_view(instant: Result<Instant, ConvertError>) -> Result<
    (i64, u32, Seq<char>),
    Failure,
> {
    match instant {
        Ok(instant) => Ok((instant.seconds, instant.nanos, instant.display@)),
        Err(error) => Err(error@),
    }
}

impl View for TimedRow {
    type V = Timed;

    open spec fn view(&self) -> Timed {
        Timed { row: self.row@, instant: instant_view(self.instant) }
    }
}

/// What a list of rows with their moments says.
pub open spec fn timed_views(rows: Seq<TimedRow>) -> Seq<Timed> {
    rows.map_values(|row: TimedRow| row@)
}

/// The moment that a timestamp names, or the failure that it names none.
pub open spec fn timestamp_instant(timestamp: Seq<char>) -> Result<
    (i64, u32, Seq<char>),
    Failure,
> {
    match rfc3339_reading(timestamp) {
        Ok(instant) => Ok(instant),
        Err(cause) => Err(Failure::InvalidTimestamp { timestamp, cause }),
    }
}

/// A row with the moment that its timestamp names.
pub open spec fn timed(row: Row) -> Timed {
    Timed { row, instant: timestamp_instant(row.timestamp) }
}

/// Rows with the moments that their timestamps name.
pub open spec fn timed_rows(rows: Seq<Row>) -> Seq<Timed> {
    rows.map_values(|row: Row| timed(row))
}

/// What is wrong with the time of row `k`: its timestamp names no moment, or one before that of
/// the row before it.
pub open spec fn order_failure(rows: Seq<Timed>, k: int) -> Option<Failure> {
    match rows[k].instant {
        Err(failure) => Some(failure),
        Ok(_) => if k > 0 && moment_lt(rows[k].moment(), rows[k - 1].moment()) {
            Some(
                Failure::Unsorted {
                    previous: rows[k - 1].instant->Ok_0.2,
                    timestamp: rows[k].row.timestamp,
                },
            )
        } else {
            None
        },
    }
}

/// Whether a row before row `k` gives its series a value at the same moment.
pub open spec fn is_repeat(rows: Seq<Timed>, k: int) -> bool {
    exists|j: int|
        0 <= j < k && (#[trigger] rows[j]).moment() == rows[k].moment() && rows[j].series()
            == rows[k].series()
}

/// What is wrong with row `k`: its time, or that its series has a value at that moment already.
pub open spec fn row_failure(rows: Seq<Timed>, k: int) -> Option<Failure> {
    match order_failure(rows, k) {
        Some(failure) => Some(failure),
        None => if is_repeat(rows, k) {
            Some(
                Failure::Duplicate { timestamp: rows[k].row.timestamp, series: rows[k].series() },
            )
        } else {
            None
        },
    }
}

/// How many of the first `n` rows come before the first whose time is wrong.
pub open spec fn ordered_count(rows: Seq<Timed>, n: int) -> int
    decreases n,
{
    if n <= 0 {
        0
    } else if ordered_count(rows, n - 1) == n - 1 && order_failure(rows, n - 1) is None {
        n
    } else {
        ordered_count(rows, n - 1)
    }
}

/// How many of the first `n` rows come before the first with which something is wrong.
pub open spec fn accepted_count(rows: Seq<Timed>, n: int) -> int
    decreases n,
{
    if n <= 0 {
        0
    } else if accepted_count(rows, n - 1) == n - 1 && row_failure(rows, n - 1) is None {
        n
    } else {
        accepted_count(rows, n - 1)
    }
}

/// Why the columns of these rows cannot be told: the first row whose time is wrong, or else what
/// ended the reading of rows.
pub open spec fn discovery_failure(rows: Seq<Timed>, ending: Option<Failure>) -> Option<Failure> {
    let n = ordered_count(rows, rows.len() as int);
    if n < rows.len() {
        order_failure(rows, n)
    } else {
        ending
    }
}

/// Why the table of these rows cannot be finished: the first row with which something is wrong, or
/// else what ended the reading of rows.
pub open spec fn table_failure(rows: Seq<Timed>, ending: Option<Failure>) -> Option<Failure> {
    let n = accepted_count(rows, rows.len() as int);
    if n < rows.len() {
        row_failure(rows, n)
    } else {
        ending
    }
}

/// Whether some row belongs to that series.
pub open spec fn has_series(rows: Seq<Timed>, series: Seq<char>) -> bool {
    exists|i: int| 0 <= i < rows.len() && (#[trigger] rows[i]).series() == series
}

/// Whether `columns` are the series of these rows, each once, in ascending order.
pub open spec fn are_columns(columns: Seq<Seq<char>>, rows: Seq<Timed>) -> bool {
    &&& strictly_increasing(columns)
    &&& forall|series: Seq<char>| #[trigger] columns.contains(series) <==> has_series(rows, series)
}

/// The runs of rows at one moment among the first `n` rows, each as its first row and the row
/// behind its last.
pub open spec fn runs(rows: Seq<Timed>, n: int) -> Seq<(int, int)>
    decreases n,
{
    if n <= 0 {
        Seq::empty()
    } else if n == 1 || rows[n - 2].moment() != rows[n - 1].moment() {
        runs(rows, n - 1).push((n - 1, n))
    } else {
        runs(rows, n - 1).drop_last().push((runs(rows, n - 1).last().0, n))
    }
}

/// Whether one of the rows of a run belongs to that series.
pub open spec fn run_has(rows: Seq<Timed>, run: (int, int), series: Seq<char>) -> bool {
    exists|j: int| run.0 <= j < run.1 && (#[trigger] rows[j]).series() == series
}

/// The value of a series in a run of rows; empty where the run holds none.
pub open spec fn run_cell(rows: Seq<Timed>, run: (int, int), series: Seq<char>) -> Seq<char> {
    if run_has(rows, run, series) {
        rows[choose|j: int|
            run.0 <= j < run.1 && (#[trigger] rows[j]).series() == series].row.value
    } else {
        Seq::empty()
    }
}

/// The record of a run of rows: the timestamp of its first row, and the value of each column.
pub open spec fn run_record(
    rows: Seq<Timed>,
    run: (int, int),
    columns: Seq<Seq<char>>,
) -> Seq<Seq<char>> {
    seq![rows[run.0].row.timestamp] + columns.map_values(
        |series: Seq<char>| run_cell(rows, run, series),
    )
}

/// The header of the wide-form table.
pub open spec fn wide_header(columns: Seq<Seq<char>>) -> Seq<Seq<char>> {
    seq!["timestamp_rfc3339"@] + columns
}

/// The records of the first `n` rows behind the header. The last run is left out unless the table
/// is finished.
pub open spec fn wide_records(
    rows: Seq<Timed>,
    n: int,
    columns: Seq<Seq<char>>,
    finished: bool,
) -> Seq<Seq<Seq<char>>> {
    let all = runs(rows, n);
    let closed = if finished || all.len() == 0 {
        all
    } else {
        all.drop_last()
    };
    seq![wide_header(columns)] + closed.map_values(
        |run: (int, int)| run_record(rows, run, columns),
    )
}

/// The name of the column of a series.
pub fn build_series_key(name: &str, labels: &str) -> (key: String)
    ensures
        key@ == series_key(name@, labels@),
{
    if labels.is_empty() {
        name.to_string()
    } else {
        concat3(name, "|", labels)
    }
}

/// Reads a timestamp.
pub fn parse_timestamp(timestamp: &str) -> (instant: Result<Instant, ConvertError>)
    ensures
        instant_view(instant) == timestamp_instant(timestamp@),
{
    match read_rfc3339(timestamp) {
        Ok(instant) => Ok(instant),
        Err(cause) => Err(
            ConvertError::InvalidTimestamp { timestamp: timestamp.to_string(), cause },
        ),
    }
}

/// Reads the timestamps of all rows.
pub fn time_rows(rows: Vec<CsvRow>) -> (timed: Vec<TimedRow>)
    ensures
        timed_views(timed@) == timed_rows(row_views(rows@)),
{
    let ghost all = timed_rows(row_views(rows@));
    let mut timed: Vec<TimedRow> = Vec::new();
    assert(timed_views(timed@) =~= all.take(0));
    for row in it: rows
        invariant
            it.seq() == rows@,
            all == timed_rows(row_views(rows@)),
            timed_views(timed@) == all.take(it.index() as int),
    {
        let ghost before = timed@;
        let ghost k = it.index() as int;
        assert(all[k] == self::timed(row@));
        let instant = parse_timestamp(row.timestamp.as_str());
        timed.push(TimedRow { row, instant });
        proof {
            assert(timed_views(timed@) =~= timed_views(before).push(all[k]));
            assert(all.take(k + 1) =~= all.take(k).push(all[k]));
        }
    }
    assert(all.take(all.len() as int) =~= all);
    timed
}

/// Once a row is wrong, later rows change nothing.
proof fn ordered_count_stops(rows: Seq<Timed>, n: int, m: int)
    requires
        0 <= n < m,
        ordered_count(rows, n + 1) == n,
    ensures
        ordered_count(rows, m) == n,
    decreases m,
{
    if n + 1 < m {
        ordered_count_stops(rows, n, m - 1);
    }
}

/// Once a row is wrong, later rows change nothing.
proof fn accepted_count_stops(rows: Seq<Timed>, n: int, m: int)
    requires
        0 <= n < m,
        accepted_count(rows, n + 1) == n,
    ensures
        accepted_count(rows, m) == n,
    decreases m,
{
    if n + 1 < m {
        accepted_count_stops(rows, n, m - 1);
    }
}

/// The columns of the table of these rows, whose reading ended with `ending`.
pub fn columns_of(rows: &Vec<TimedRow>, ending: Option<ConvertError>) -> (result: Result<
    Vec<String>,
    ConvertError,
>)
    ensures
        match result {
            Ok(columns) => discovery_failure(timed_views(rows@), failure_view(ending)) is None
                && are_columns(views(columns@), timed_views(rows@)),
            Err(error) => discovery_failure(timed_views(rows@), failure_view(ending)) == Some(
                error@,
            ),
        },
{
    let ghost all = timed_views(rows@);
    let mut columns: SortedMap<()> = SortedMap::new();
    let mut i: usize = 0;
    while i < rows.len()
        invariant
            i <= rows@.len(),
            all == timed_views(rows@),
            ordered_count(all, i as int) == i,
            i > 0 ==> all[i - 1].instant is Ok,
            columns.wf(),
            forall|series: Seq<char>| #[trigger]
                columns@.contains_key(series) <==> has_series(all.take(i as int), series),
        decreases rows.len() - i,
    {
        let ghost before = columns@;
        assert(all[i as int] == rows@[i as int]@);
        match &rows[i].instant {
            Err(error) => {
                proof {
                    ordered_count_stops(all, i as int, all.len() as int);
                }
                return Err(error.clone());
            },
            Ok(now) => {
                if i > 0 {
                    assert(all[i - 1] == rows@[i - 1]@);
                    if let Ok(previous) = &rows[i - 1].instant {
                        if now.is_before(previous) {
                            proof {
                                ordered_count_stops(all, i as int, all.len() as int);
                            }
                            return Err(
                                ConvertError::Unsorted {
                                    previous: previous.display.clone(),
                                    timestamp: rows[i].row.timestamp.clone(),
                                },
                            );
                        }
                    }
                }
            },
        }
        let series = build_series_key(rows[i].row.name.as_str(), rows[i].row.labels.as_str());
        let ghost added = series@;
        columns.insert_new(series, ());
        i = i + 1;
        proof {
            assert(all.take(i as int) =~= all.take(i - 1).push(all[i - 1]));
            assert forall|series: Seq<char>| #[trigger]
                columns@.contains_key(series) <==> has_series(all.take(i as int), series) by {
                let earlier = all.take(i - 1);
                let later = all.take(i as int);
                if has_series(earlier, series) {
                    let j = choose|j: int|
                        0 <= j < earlier.len() && (#[trigger] earlier[j]).series() == series;
                    assert(later[j] == earlier[j]);
                }
                if has_series(later, series) {
                    let j = choose|j: int|
                        0 <= j < later.len() && (#[trigger] later[j]).series() == series;
                    if j < i - 1 {
                        assert(later[j] == earlier[j]);
                        assert(has_series(earlier, series));
                    } else {
                        assert(series == added);
                    }
                }
                if series == added {
                    assert(later[i - 1].series() == series);
                }
                assert(before.contains_key(series) <==> has_series(earlier, series));
            }
        }
    }
    assert(all.take(all.len() as int) =~= all);
    match ending {
        Some(error) => Err(error),
        None => {
            let keys = columns.into_keys();
            Ok(keys)
        },
    }
}

/// The columns of the wide-form table of all inputs.
pub fn discover_columns(inputs: &Vec<InputFile>) -> (result: Result<Vec<String>, ConvertError>)
    ensures
        ({
            let scan = sources_scan(sources(inputs@), inputs@.len() as int);
            let rows = timed_rows(scan.rows);
            match result {
                Ok(columns) => discovery_failure(rows, scan.failure) is None && are_columns(
                    views(columns@),
                    rows,
                ),
                Err(error) => discovery_failure(rows, scan.failure) == Some(error@),
            }
        }),
{
    let scan = for_each_row(inputs);
    let rows = time_rows(scan.rows);
    columns_of(&rows, scan.failure)
}

/// The record of the values that series have at one moment; a series without one has an empty
/// cell.
pub open spec fn value_record(
    timestamp: Seq<char>,
    columns: Seq<Seq<char>>,
    values: Map<Seq<char>, String>,
) -> Seq<Seq<char>> {
    seq![timestamp] + columns.map_values(
        |series: Seq<char>|
            if values.contains_key(series) {
                values[series]@
            } else {
                Seq::empty()
            },
    )
}

/// Adds the record of the values that series have at one moment.
pub fn write_row(
    records: &mut Vec<Vec<String>>,
    timestamp: &str,
    columns: &Vec<String>,
    row_values: &SortedMap<String>,
)
    requires
        row_values.wf(),
    ensures
        record_views(final(records)@) == record_views(old(records)@).push(
            value_record(timestamp@, views(columns@), row_values@),
        ),
{
    let ghost expected = value_record(timestamp@, views(columns@), row_values@);
    let ghost before = records@;
    let mut record: Vec<String> = Vec::new();
    record.push(timestamp.to_string());
    let mut i: usize = 0;
    assert(views(record@) =~= expected.take(1));
    while i < columns.len()
        invariant
            i <= columns@.len(),
            row_values.wf(),
            expected == value_record(timestamp@, views(columns@), row_values@),
            views(record@) == expected.take(i + 1),
        decreases columns.len() - i,
    {
        let ghost earlier = record@;
        let cell = match row_values.get(columns[i].as_str()) {
            Some(value) => value.clone(),
            None => String::new(),
        };
        proof {
            assert(views(columns@)[i as int] == columns@[i as int]@);
            assert(expected[i + 1] =~= cell@);
        }
        record.push(cell);
        i = i + 1;
        proof {
            assert(views(record@) =~= views(earlier).push(cell@));
            assert(expected.take(i + 1) =~= expected.take(i as int).push(expected[i as int]));
        }
    }
    assert(expected.take(expected.len() as int) =~= expected);
    records.push(record);
    assert(record_views(records@) =~= record_views(before).push(expected));
}

/// The records of a wide-form table, and why it was not finished, if it was not.
pub struct WideTable {
    pub records: Vec<Vec<String>>,
    pub failure: Option<ConvertError>,
}

/// Whether `values` holds the values of the rows of a run, by series.
spec fn holds_run(values: Map<Seq<char>, String>, rows: Seq<Timed>, run: (int, int)) -> bool {
    &&& forall|series: Seq<char>| #[trigger]
        values.contains_key(series) <==> run_has(rows, run, series)
    &&& forall|j: int|
        run.0 <= j < run.1 ==> values[(#[trigger] rows[j]).series()]@ == rows[j].row.value
}

proof fn held_run_is_its_record(
    values: Map<Seq<char>, String>,
    rows: Seq<Timed>,
    run: (int, int),
    columns: Seq<Seq<char>>,
)
    requires
        holds_run(values, rows, run),
    ensures
        value_record(rows[run.0].row.timestamp, columns, values) == run_record(rows, run, columns),
{
    let left = value_record(rows[run.0].row.timestamp, columns, values);
    let right = run_record(rows, run, columns);
    assert forall|i: int| 0 <= i < left.len() implies left[i] == right[i] by {
        if i > 0 {
            let series = columns[i - 1];
            if run_has(rows, run, series) {
                let j = choose|j: int|
                    run.0 <= j < run.1 && (#[trigger] rows[j]).series() == series;
                assert(values[rows[j].series()]@ == rows[j].row.value);
            }
        }
    }
    assert(left =~= right);
}

proof fn holds_run_grows(
    values: Map<Seq<char>, String>,
    rows: Seq<Timed>,
    start: int,
    k: int,
    series: Seq<char>,
    value: String,
)
    requires
        start <= k,
        holds_run(values, rows, (start, k)),
        series == rows[k].series(),
        value@ == rows[k].row.value,
        !values.contains_key(series),
    ensures
        holds_run(values.insert(series, value), rows, (start, k + 1)),
{
    let grown = values.insert(series, value);
    assert forall|other: Seq<char>| #[trigger]
        grown.contains_key(other) <==> run_has(rows, (start, k + 1), other) by {
        if run_has(rows, (start, k), other) {
            let j = choose|j: int| start <= j < k && (#[trigger] rows[j]).series() == other;
            assert(start <= j < k + 1 && rows[j].series() == other);
        }
        if run_has(rows, (start, k + 1), other) {
            let j = choose|j: int| start <= j < k + 1 && (#[trigger] rows[j]).series() == other;
            if j < k {
                assert(run_has(rows, (start, k), other));
                assert(values.contains_key(other));
            }
        }
        if other == series {
            assert(start <= k < k + 1 && rows[k].series() == other);
        }
    }
    assert forall|j: int| start <= j < k + 1 implies grown[(#[trigger] rows[j]).series()]@
        == rows[j].row.value by {
        if j < k {
            assert(run_has(rows, (start, k), rows[j].series()));
            assert(values.contains_key(rows[j].series()));
        }
    }
}

/// The wide-form table of these rows, whose reading ended with `ending`.
pub fn wide_table(
    rows: &Vec<TimedRow>,
    ending: Option<ConvertError>,
    columns: &Vec<String>,
) -> (table: WideTable)
    ensures
        failure_view(table.failure) == table_failure(timed_views(rows@), failure_view(ending)),
        record_views(table.records@) == wide_records(
            timed_views(rows@),
            accepted_count(timed_views(rows@), rows@.len() as int),
            views(columns@),
            table.failure is None,
        ),
{
    let ghost all = timed_views(rows@);
    let ghost names = views(columns@);
    let mut records: Vec<Vec<String>> = Vec::new();
    let mut header: Vec<String> = Vec::new();
    header.push("timestamp_rfc3339".to_string());
    let mut c: usize = 0;
    assert(views(header@) =~= wide_header(names).take(1));
    while c < columns.len()
        invariant
            c <= columns@.len(),
            names == views(columns@),
            views(header@) == wide_header(names).take(c + 1),
        decreases columns.len() - c,
    {
        let ghost earlier = header@;
        header.push(columns[c].clone());
        c = c + 1;
        proof {
            assert(views(header@) =~= views(earlier).push(columns@[c - 1]@));
            assert(wide_header(names)[c as int] == columns@[c - 1]@);
            assert(wide_header(names).take(c + 1) =~= wide_header(names).take(c as int).push(
                wide_header(names)[c as int],
            ));
        }
    }
    assert(wide_header(names).take(columns@.len() as int + 1) =~= wide_header(names));
    records.push(header);
    assert(record_views(records@) =~= wide_records(all, 0, names, false));
    let mut current_row: SortedMap<String> = SortedMap::new();
    let mut start: usize = 0;
    let mut i: usize = 0;
    while i < rows.len()
        invariant
            i <= rows@.len(),
            all == timed_views(rows@),
            names == views(columns@),
            accepted_count(all, i as int) == i,
            i > 0 ==> all[i - 1].instant is Ok,
            i > 0 ==> runs(all, i as int).len() > 0 && runs(all, i as int).last() == (
                start as int,
                i as int,
            ),
            i == 0 ==> start == 0,
            start <= i,
            i > 0 ==> start < i,
            forall|j: int| start <= j < i ==> (#[trigger] all[j]).moment() == all[i - 1].moment(),
            forall|j: int|
                0 <= j < start ==> moment_lt((#[trigger] all[j]).moment(), all[i - 1].moment()),
            record_views(records@) == wide_records(all, i as int, names, false),
            current_row.wf(),
            holds_run(current_row@, all, (start as int, i as int)),
        decreases rows.len() - i,
    {
        assert(all[i as int] == rows@[i as int]@);
        match &rows[i].instant {
            Err(error) => {
                proof {
                    accepted_count_stops(all, i as int, all.len() as int);
                }
                return WideTable { records, failure: Some(error.clone()) };
            },
            Ok(now) => {
                if i > 0 {
                    assert(all[i - 1] == rows@[i - 1]@);
                    if let Ok(previous) = &rows[i - 1].instant {
                        if now.is_before(previous) {
                            proof {
                                accepted_count_stops(all, i as int, all.len() as int);
                            }
                            return WideTable {
                                records,
                                failure: Some(
                                    ConvertError::Unsorted {
                                        previous: previous.display.clone(),
                                        timestamp: rows[i].row.timestamp.clone(),
                                    },
                                ),
                            };
                        }
                        if previous.is_before(now) {
                            write_row(
                                &mut records,
                                rows[start].row.timestamp.as_str(),
                                columns,
                                &current_row,
                            );
                            proof {
                                assert(all[start as int] == rows@[start as int]@);
                                let closed = runs(all, i as int);
                                let open = runs(all, i + 1);
                                held_run_is_its_record(
                                    current_row@,
                                    all,
                                    (start as int, i as int),
                                    names,
                                );
                                assert(open.drop_last() =~= closed);
                                assert(closed =~= closed.drop_last().push(closed.last()));
                                assert(record_views(records@) =~= wide_records(
                                    all,
                                    i + 1,
                                    names,
                                    false,
                                ));
                            }
                            current_row.clear();
                            start = i;
                            assert(holds_run(current_row@, all, (start as int, i as int)));
                        } else {
                            assert(now.moment() == previous.moment());
                            assert(runs(all, i + 1).drop_last() =~= runs(all, i as int).drop_last());
                        }
                    }
                } else {
                    proof {
                        reveal_with_fuel(runs, 2);
                        assert(runs(all, 1).drop_last() =~= Seq::empty());
                    }
                }
            },
        }
        assert(record_views(records@) =~= wide_records(all, i + 1, names, false));
        let series = build_series_key(rows[i].row.name.as_str(), rows[i].row.labels.as_str());
        let value = rows[i].row.value.clone();
        let ghost values = current_row@;
        let inserted = current_row.insert_new(series.clone(), value);
        if !inserted {
            proof {
                let j = choose|j: int|
                    start <= j < i && (#[trigger] all[j]).series() == all[i as int].series();
                assert(all[j].moment() == all[i as int].moment());
                assert(is_repeat(all, i as int));
                accepted_count_stops(all, i as int, all.len() as int);
                assert(runs(all, i + 1).drop_last() =~= runs(all, i as int).drop_last());
                assert(record_views(records@) =~= wide_records(all, i as int, names, false));
            }
            return WideTable {
                records,
                failure: Some(
                    ConvertError::Duplicate { timestamp: rows[i].row.timestamp.clone(), series },
                ),
            };
        }
        proof {
            assert(!is_repeat(all, i as int)) by {
                if is_repeat(all, i as int) {
                    let j = choose|j: int|
                        0 <= j < i && (#[trigger] all[j]).moment() == all[i as int].moment()
                            && all[j].series() == all[i as int].series();
                    if j >= start {
                        assert(run_has(all, (start as int, i as int), all[i as int].series()));
                    }
                }
            }
            holds_run_grows(values, all, start as int, i as int, all[i as int].series(), value);
        }
        i = i + 1;
    }
    match ending {
        Some(error) => WideTable { records, failure: Some(error) },
        None => {
            if rows.len() > 0 {
                write_row(
                    &mut records,
                    rows[start].row.timestamp.as_str(),
                    columns,
                    &current_row,
                );
                proof {
                    assert(all[start as int] == rows@[start as int]@);
                    let all_runs = runs(all, i as int);
                    held_run_is_its_record(current_row@, all, (start as int, i as int), names);
                    assert(all_runs =~= all_runs.drop_last().push(all_runs.last()));
                    assert(record_views(records@) =~= wide_records(all, i as int, names, true));
                }
            }
            WideTable { records, failure: None }
        },
    }
}

/// Why there is no finished wide-form table, with the text of the part that was written, if any was.
#[derive(Debug)]
pub struct ConvertFailure {
    pub output: Option<Vec<u8>>,
    pub error: ConvertError,
}

/// The records of the wide-form table with these columns that a scan gives.
pub open spec fn scan_records(scan: Scan, columns: Seq<Seq<char>>) -> Seq<Seq<Seq<char>>> {
    let rows = timed_rows(scan.rows);
    wide_records(
        rows,
        accepted_count(rows, rows.len() as int),
        columns,
        table_failure(rows, scan.failure) is None,
    )
}

/// Whether these bytes are the text of the wide-form table with these columns that a scan gives.
pub open spec fn is_wide_text(bytes: Seq<u8>, scan: Scan, columns: Seq<Seq<char>>) -> bool {
    bytes == csv_writing(scan_records(scan, columns)) && reads_back(
        bytes,
        scan_records(scan, columns),
    )
}

/// Whether this is what comes of writing the wide-form table with these columns that a scan gives:
/// its text, or what is wrong, with the text up to there.
pub open spec fn is_written(
    result: Result<Vec<u8>, ConvertFailure>,
    scan: Scan,
    columns: Seq<Seq<char>>,
) -> bool {
    match result {
        Ok(bytes) => table_failure(timed_rows(scan.rows), scan.failure) is None && is_wide_text(
            bytes@,
            scan,
            columns,
        ),
        Err(failure) => {
            &&& table_failure(timed_rows(scan.rows), scan.failure) == Some(failure.error@)
            &&& failure.output matches Some(bytes) && is_wide_text(bytes@, scan, columns)
        },
    }
}

/// The records of a wide-form table are all as wide as its header.
pub proof fn wide_records_are_a_table(
    rows: Seq<Timed>,
    n: int,
    columns: Seq<Seq<char>>,
    finished: bool,
)
    ensures
        is_table(wide_records(rows, n, columns, finished)),
        !starts_with_mark(wide_records(rows, n, columns, finished)),
        forall|i: int|
            0 <= i < wide_records(rows, n, columns, finished).len() ==> (#[trigger] wide_records(
                rows,
                n,
                columns,
                finished,
            )[i]).len() == columns.len() + 1,
{
    reveal_strlit("timestamp_rfc3339");
    let records = wide_records(rows, n, columns, finished);
    assert(records[0] == wide_header(columns));
    assert(records[0][0] == "timestamp_rfc3339"@);
    assert forall|i: int| 0 <= i < records.len() implies (#[trigger] records[i]).len()
        == columns.len() + 1 by {}
}

/// Writes the wide-form table of all inputs, with these columns.
pub fn write_wide_csv(inputs: &Vec<InputFile>, columns: &Vec<String>) -> (result: Result<
    Vec<u8>,
    ConvertFailure,
>)
    ensures
        is_written(
            result,
            sources_scan(sources(inputs@), inputs@.len() as int),
            views(columns@),
        ),
{
    let scan = for_each_row(inputs);
    let rows = time_rows(scan.rows);
    let table = wide_table(&rows, scan.failure, columns);
    let ghost records = record_views(table.records@);
    proof {
        wide_records_are_a_table(
            timed_views(rows@),
            accepted_count(timed_views(rows@), rows@.len() as int),
            views(columns@),
            table.failure is None,
        );
    }
    let mut text = CsvText::new();
    let mut i: usize = 0;
    assert(records.take(0) =~= Seq::empty());
    while i < table.records.len()
        invariant
            i <= table.records@.len(),
            records == record_views(table.records@),
            is_table(records),
            written(text) == records.take(i as int),
        decreases table.records.len() - i,
    {
        proof {
            assert(records[i as int] == views(table.records@[i as int]@));
            let next = records.take(i + 1);
            assert(next =~= records.take(i as int).push(records[i as int]));
            assert forall|k: int| 0 <= k < next.len() implies (#[trigger] next[k]).len() > 0
                && next[k].len() == next[0].len() by {
                assert(next[k] == records[k]);
            }
        }
        text.write_record(&table.records[i]);
        i = i + 1;
    }
    assert(records.take(records.len() as int) =~= records);
    let bytes = text.into_bytes();
    match table.failure {
        Some(error) => Err(ConvertFailure { output: Some(bytes), error }),
        None => Ok(bytes),
    }
}

/// Whether this is what comes of converting these files: where the columns cannot be told, nothing
/// is written.
pub open spec fn is_conversion(
    files: Seq<Source>,
    result: Result<Vec<u8>, ConvertFailure>,
) -> bool {
    let scan = sources_scan(files, files.len() as int);
    let rows = timed_rows(scan.rows);
    match discovery_failure(rows, scan.failure) {
        Some(failure) => result matches Err(refused) && refused.output is None && refused.error@
            == failure,
        None => exists|columns: Seq<Seq<char>>| #[trigger]
            are_columns(columns, rows) && is_written(result, scan, columns),
    }
}

/// Converts the long-form tables of all inputs into one wide-form table. Where the columns cannot be
/// told, nothing is written; what goes wrong later cuts the table short.
pub fn convert_long_to_wide(inputs: &Vec<InputFile>) -> (result: Result<Vec<u8>, ConvertFailure>)
    ensures
        ({
            let scan = sources_scan(sources(inputs@), inputs@.len() as int);
            let rows = timed_rows(scan.rows);
            match discovery_failure(rows, scan.failure) {
                Some(failure) => result matches Err(refused) && refused.output is None
                    && refused.error@ == failure,
                None => exists|columns: Seq<Seq<char>>| #[trigger]
                    are_columns(columns, rows) && is_written(result, scan, columns),
            }
        }),
        is_conversion(sources(inputs@), result),
{
    match discover_columns(inputs) {
        Ok(columns) => {
            proof {
                let scan = sources_scan(sources(inputs@), inputs@.len() as int);
                assert(are_columns(views(columns@), timed_rows(scan.rows)));
            }
            write_wide_csv(inputs, &columns)
        },
        Err(error) => Err(ConvertFailure { output: None, error }),
    }
}

} // verus!
