use metrics_exporter_csv::long2wide::csv_text::CsvText;
use metrics_exporter_csv::long2wide::error::ConvertError;
use metrics_exporter_csv::long2wide::rows::{
    for_each_row, is_header, scan_table, validate_kind, Contents, InputFile,
};
use metrics_exporter_csv::long2wide::wide::{
    build_series_key, convert_long_to_wide, discover_columns, write_row, write_wide_csv,
    ConvertFailure,
};
use metrics_exporter_csv::recorder::header_record;
use metrics_exporter_csv::snapshot::{snapshot_records, MetricSample};
use metrics_exporter_csv::sorted_map::SortedMap;

fn file(path: &str, contents: &str) -> InputFile {
    InputFile { path: path.to_string(), contents: Contents::Bytes(contents.as_bytes().to_vec()) }
}

fn lines(bytes: Vec<u8>) -> Vec<String> {
    String::from_utf8(bytes).expect("text").lines().map(|line| line.to_string()).collect()
}

/// The lines of the table.
fn convert(inputs: Vec<InputFile>) -> Result<Vec<String>, ConvertFailure> {
    convert_long_to_wide(&inputs).map(lines)
}

/// Why the inputs are refused before anything is written.
fn refused(inputs: Vec<InputFile>) -> ConvertError {
    let failure = convert(inputs).expect_err("refused");
    assert!(failure.output.is_none());
    failure.error
}

const HEADER: &str = "timestamp_rfc3339,name,kind,labels,value\n";

#[test]
fn converts_basic_rows() {
    let input = file(
        "metrics.csv",
        "timestamp_rfc3339,name,kind,labels,value\n\
         2026-01-08T12:00:00.123Z,requests_total,counter,method=get,42\n\
         2026-01-08T12:00:00.123Z,temperature,gauge,,21.400000\n\
         2026-01-08T12:00:03.123Z,requests_total,counter,method=get,43\n",
    );

    let lines = convert(vec![input]).expect("convert");

    assert_eq!(
        lines[0],
        "timestamp_rfc3339,requests_total|method=get,temperature"
    );
    assert_eq!(lines[1], "2026-01-08T12:00:00.123Z,42,21.400000");
    assert_eq!(lines[2], "2026-01-08T12:00:03.123Z,43,");
}

#[test]
fn handles_rotated_files_with_and_without_header() {
    let older = file(
        "metrics.csv.1",
        "2026-01-08T12:00:00.123Z,requests_total,counter,method=get,1\n",
    );
    let newer = file(
        "metrics.csv",
        "timestamp_rfc3339,name,kind,labels,value\n\
         2026-01-08T12:00:03.123Z,requests_total,counter,method=get,2\n",
    );

    let lines = convert(vec![older, newer]).expect("convert");

    assert_eq!(lines[0], "timestamp_rfc3339,requests_total|method=get");
    assert_eq!(lines[1], "2026-01-08T12:00:00.123Z,1");
    assert_eq!(lines[2], "2026-01-08T12:00:03.123Z,2");
}

#[test]
fn errors_on_duplicate_timestamp_series() {
    let input = file(
        "metrics.csv",
        "timestamp_rfc3339,name,kind,labels,value\n\
         2026-01-08T12:00:00.123Z,requests_total,counter,method=get,1\n\
         2026-01-08T12:00:00.123Z,requests_total,counter,method=get,2\n",
    );

    let failure = convert(vec![input]).expect_err("should error");
    let err = failure.error.message();
    assert!(
        err.contains("duplicate timestamp+series"),
        "unexpected error: {err}"
    );
    assert_eq!(
        err,
        "duplicate timestamp+series: 2026-01-08T12:00:00.123Z / requests_total|method=get"
    );
    assert_eq!(
        lines(failure.output.expect("output")),
        vec!["timestamp_rfc3339,requests_total|method=get"]
    );
}

#[test]
fn errors_on_out_of_order_timestamps() {
    let input = file(
        "metrics.csv",
        "timestamp_rfc3339,name,kind,labels,value\n\
         2026-01-08T12:00:03.123Z,requests_total,counter,method=get,1\n\
         2026-01-08T12:00:00.123Z,requests_total,counter,method=get,2\n",
    );

    let failure = convert(vec![input]).expect_err("should error");
    assert!(failure.output.is_none());
    let err = failure.error.message();
    assert!(
        err.contains("timestamps are not sorted"),
        "unexpected error: {err}"
    );
    assert_eq!(
        err,
        "timestamps are not sorted; saw 2026-01-08 12:00:03.123 +00:00 before \
         2026-01-08T12:00:00.123Z"
    );
}

#[test]
fn equal_moments_share_a_record_however_they_are_written() {
    let input = file(
        "metrics.csv",
        "2026-01-08T12:00:00Z,a,counter,,1\n\
         2026-01-08T13:00:00+01:00,b,gauge,,2\n\
         2026-01-08T12:00:01Z,b,gauge,,3\n",
    );
    let lines = convert(vec![input]).expect("convert");
    assert_eq!(
        lines,
        vec!["timestamp_rfc3339,a,b", "2026-01-08T12:00:00Z,1,2", "2026-01-08T12:00:01Z,,3"]
    );
}

#[test]
fn a_table_ends_early_where_a_row_repeats() {
    let input = file(
        "metrics.csv",
        "2026-01-08T12:00:00Z,a,counter,,1\n\
         2026-01-08T12:00:01Z,a,counter,,2\n\
         2026-01-08T12:00:02Z,a,counter,,3\n\
         2026-01-08T12:00:02Z,a,gauge,,4\n",
    );
    let failure = convert(vec![input]).expect_err("cut short");
    assert_eq!(
        failure.error.message(),
        "duplicate timestamp+series: 2026-01-08T12:00:02Z / a"
    );
    assert_eq!(
        lines(failure.output.expect("output")),
        vec!["timestamp_rfc3339,a", "2026-01-08T12:00:00Z,1", "2026-01-08T12:00:01Z,2"]
    );
}

#[test]
fn empty_inputs_give_a_bare_header() {
    for contents in ["", "\n\n", HEADER] {
        let lines = convert(vec![file("metrics.csv", contents)]).expect("convert");
        assert_eq!(lines, vec!["timestamp_rfc3339"]);
    }
    let lines = convert(vec![]).expect("convert");
    assert_eq!(lines, vec!["timestamp_rfc3339"]);
}

#[test]
fn a_second_header_is_no_row() {
    let input = file("metrics.csv", &format!("{HEADER}{HEADER}"));
    let error = refused(vec![input]);
    assert!(matches!(error, ConvertError::InvalidKind { .. }));
    assert_eq!(error.message(), "invalid kind: kind");
}

#[test]
fn records_of_the_wrong_width_are_refused() {
    let error = refused(vec![file("a.csv", "1,2,3\n")]);
    assert!(matches!(error, ConvertError::ColumnCount { found: 3, .. }));
    assert_eq!(error.message(), "expected 5 columns but found 3 in a.csv");
}

#[test]
fn unknown_kinds_are_refused() {
    let error = refused(vec![file("a.csv", "2026-01-08T12:00:00Z,a,Counter,,1\n")]);
    assert_eq!(error.message(), "invalid kind: Counter");
    for kind in ["counter", "gauge", "histogram"] {
        assert!(validate_kind(kind).is_ok());
    }
    assert!(validate_kind("").is_err());
}

#[test]
fn timestamps_must_name_moments() {
    let error = refused(vec![file("a.csv", "noon,a,counter,,1\n")]);
    assert!(matches!(error, ConvertError::InvalidTimestamp { .. }));
    assert_eq!(error.message(), "invalid timestamp: noon");
}

#[test]
fn files_that_cannot_be_opened_are_refused() {
    let missing = InputFile { path: "gone.csv".to_string(), contents: Contents::Unopened };
    let error = refused(vec![file("a.csv", ""), missing]);
    assert!(matches!(error, ConvertError::OpenInput { file: 1, .. }));
    assert_eq!(error.message(), "open input file gone.csv");
}

#[test]
fn text_that_is_no_csv_is_refused() {
    let uneven = "2026-01-08T12:00:00Z,a,counter,,1\n1,2\n";
    let error = refused(vec![file("a.csv", uneven)]);
    assert!(matches!(error, ConvertError::Csv { .. }));
    assert!(error.message().contains("found record with 2 fields"), "{}", error.message());

    let invalid = InputFile { path: "a.csv".to_string(), contents: Contents::Bytes(vec![0xff, 0x0a]) };
    assert!(matches!(refused(vec![invalid]), ConvertError::Csv { .. }));
}

#[test]
fn files_that_cannot_be_read_are_refused() {
    let contents = Contents::Unreadable { bytes: vec![], cause: "Is a directory".to_string() };
    let input = InputFile { path: "a.csv".to_string(), contents };
    let error = refused(vec![file("0.csv", HEADER), input]);
    assert!(matches!(error, ConvertError::Csv { .. }));
    assert_eq!(error.message(), "Is a directory");
}

#[test]
fn rows_before_a_reading_failure_count() {
    let cut = |text: &str| InputFile {
        path: "a.csv".to_string(),
        contents: Contents::Unreadable {
            bytes: text.as_bytes().to_vec(),
            cause: "torn".to_string(),
        },
    };
    let scan = for_each_row(&vec![cut("t1,a,counter,,1\nt2,b,gauge,,2\nt3,c,nokind,,")]);
    let names: Vec<&str> = scan.rows.iter().map(|row| row.name.as_str()).collect();
    assert_eq!(names, vec!["a", "b"]);
    assert_eq!(scan.failure.expect("failure").message(), "torn");
    let scan = for_each_row(&vec![cut("t1,a,counter,,1\nt2,b,gauge,,\"2\n")]);
    assert_eq!(scan.rows.len(), 1);
    let error = refused(vec![cut("noon,a,counter,,1\n")]);
    assert_eq!(error.message(), "invalid timestamp: noon");
    let error = refused(vec![cut("2026-01-08T12:00:00Z,a,nokind,,1\nx")]);
    assert_eq!(error.message(), "invalid kind: nokind");
}

#[test]
fn the_first_failure_counts() {
    let late = "2026-01-08T12:00:01Z,a,counter,,1\n2026-01-08T12:00:00Z,a,counter,,1\nx,a,nokind,,1\n";
    let missing = InputFile { path: "gone.csv".to_string(), contents: Contents::Unopened };
    let error = refused(vec![file("a.csv", late), missing]);
    assert!(matches!(error, ConvertError::Unsorted { .. }));
}

#[test]
fn rows_are_read_up_to_the_first_failure() {
    let scan = for_each_row(&vec![
        file("a.csv", &format!("{HEADER}t1,a,counter,,1\n\nt2,b,gauge,x=y,2\n")),
        file("b.csv", "t3,c,histogram,stat=count,3\nt4,d,other,,4\nt5,e,gauge,,5\n"),
    ]);
    let names: Vec<&str> = scan.rows.iter().map(|row| row.name.as_str()).collect();
    assert_eq!(names, vec!["a", "b", "c"]);
    assert_eq!(scan.rows[1].timestamp, "t2");
    assert_eq!(scan.rows[1].kind, "gauge");
    assert_eq!(scan.rows[1].labels, "x=y");
    assert_eq!(scan.rows[1].value, "2");
    assert_eq!(scan.failure.expect("failure").message(), "invalid kind: other");
}

#[test]
fn blank_records_are_passed_over() {
    let readings = vec![
        Ok(vec![]),
        Ok(header_record()),
        Ok(vec!["t".to_string(), "n".to_string(), "gauge".to_string(), "".to_string(), "1".to_string()]),
    ];
    let scan = scan_table(&readings, "a.csv");
    assert!(scan.failure.is_none());
    assert_eq!(scan.rows.len(), 1);
    let scan = scan_table(&vec![Err("broken".to_string())], "a.csv");
    assert_eq!(scan.failure.expect("failure").message(), "broken");
}

#[test]
fn headers_are_recognized_exactly() {
    assert!(is_header(&header_record()));
    let mut other = header_record();
    other[4] = "Value".to_string();
    assert!(!is_header(&other));
    other.pop();
    assert!(!is_header(&other));
    assert!(!is_header(&vec![]));
}

#[test]
fn columns_are_sorted_and_distinct() {
    let input = file(
        "a.csv",
        "2026-01-08T12:00:00Z,b,counter,,1\n\
         2026-01-08T12:00:00Z,a,counter,x=1,1\n\
         2026-01-08T12:00:00Z,a,counter,,1\n\
         2026-01-08T12:00:01Z,b,counter,,1\n",
    );
    let columns = discover_columns(&vec![input]).ok().expect("columns");
    assert_eq!(columns, vec!["a", "a|x=1", "b"]);
}

#[test]
fn tables_have_the_columns_that_are_asked_for() {
    let input = file("a.csv", "2026-01-08T12:00:00Z,b,counter,,1\n");
    let wide = write_wide_csv(&vec![input], &vec!["c".to_string(), "b".to_string()]);
    assert_eq!(lines(wide.ok().expect("finished")), vec!["timestamp_rfc3339,c,b", "2026-01-08T12:00:00Z,,1"]);
}

#[test]
fn series_are_named_by_name_and_labels() {
    assert_eq!(build_series_key("requests_total", "method=get"), "requests_total|method=get");
    assert_eq!(build_series_key("temperature", ""), "temperature");
    assert_ne!(build_series_key("a", "b=1|c=2"), build_series_key("a", "b=1_c=2"));
}

#[test]
fn series_without_a_value_have_an_empty_cell() {
    let mut values: SortedMap<String> = SortedMap::new();
    values.insert_new("b".to_string(), "2".to_string());
    let columns = vec!["a".to_string(), "b".to_string(), "c".to_string()];
    let mut records = vec![vec!["old".to_string()]];
    write_row(&mut records, "now", &columns, &values);
    assert_eq!(records, vec![vec!["old"], vec!["now", "", "2", ""]]);
}

#[test]
fn csv_text_reads_back() {
    let table = vec![
        vec!["timestamp_rfc3339".to_string(), "a,b".to_string()],
        vec!["".to_string(), "".to_string()],
        vec!["\"q\"".to_string(), "line\r\nbreak".to_string()],
        vec![" #x ".to_string(), "\u{feff}\u{e4}".to_string()],
    ];
    let mut text = CsvText::new();
    for record in &table {
        text.write_record(record);
    }
    let bytes = text.into_bytes();
    let mut reader = csv::ReaderBuilder::new().has_headers(false).from_reader(bytes.as_slice());
    let read: Vec<Vec<String>> = reader
        .records()
        .map(|record| record.expect("record").iter().map(|cell| cell.to_string()).collect())
        .collect();
    assert_eq!(read, table);

    let mut text = CsvText::new();
    text.write_record(&vec!["".to_string()]);
    text.write_record(&vec!["x".to_string()]);
    assert_eq!(text.into_bytes(), b"\"\"\nx\n");
}

#[test]
fn what_is_exported_can_be_converted() {
    let sample = |name: &str, kind: &'static str, labels: &str, value: &str| MetricSample {
        name: name.to_string(),
        kind,
        labels: labels.to_string(),
        value: value.to_string(),
    };
    let samples = vec![
        sample("latency", "histogram", "stat=count", "2"),
        sample("requests", "counter", "path=a,b", "1"),
        sample("temperature", "gauge", "", "21.400000"),
    ];
    let mut text = CsvText::new();
    text.write_record(&header_record());
    for timestamp in ["2026-01-08T12:00:00.123Z", "2026-01-08T12:00:03.123Z"] {
        for record in &snapshot_records(timestamp, &samples) {
            text.write_record(record);
        }
    }
    let input = InputFile { path: "metrics.csv".to_string(), contents: Contents::Bytes(text.into_bytes()) };
    let lines = convert(vec![input]).expect("convert");
    assert_eq!(
        lines,
        vec![
            "timestamp_rfc3339,latency|stat=count,\"requests|path=a,b\",temperature",
            "2026-01-08T12:00:00.123Z,2,1,21.400000",
            "2026-01-08T12:00:03.123Z,2,1,21.400000",
        ]
    );
}
