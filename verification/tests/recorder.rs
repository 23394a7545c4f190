use std::time::Duration;

use metrics::Key;
use metrics_exporter_csv::exporter::{next_step, Ending, Occurrence, Phase, Step};
use metrics_exporter_csv::histogram::Spread;
use metrics_exporter_csv::path::{FilePath, PathStyle};
use metrics_exporter_csv::recorder::header_record;
use metrics_exporter_csv::snapshot::take_snapshot;
use metrics_exporter_csv::{BuildError, CsvBuilder, CsvRecorder};

fn unix(path: &str) -> FilePath {
    FilePath { bytes: path.as_bytes().to_vec(), style: PathStyle::Unix }
}

#[test]
fn build_requires_path() {
    let err = CsvBuilder::default().build().err().expect("missing path");
    assert!(matches!(err, BuildError::MissingPath));
}

#[test]
fn snapshots_are_taken_every_three_seconds_by_default() {
    assert_eq!(CsvBuilder::default().flush_interval, Duration::from_secs(3));
    assert_eq!(CsvBuilder::default().path, None);
}

#[test]
fn the_flush_interval_is_kept_unless_it_is_zero() {
    for interval in [Duration::from_nanos(1), Duration::from_millis(10), Duration::MAX] {
        let builder = CsvBuilder::default().with_flush_interval(interval);
        assert_eq!(builder.flush_interval, interval);
    }
    let builder = CsvBuilder::default()
        .with_flush_interval(Duration::from_secs(60))
        .with_flush_interval(Duration::ZERO);
    assert_eq!(builder.flush_interval, Duration::from_secs(3));
}

#[test]
fn the_plan_names_the_file_and_its_directory() {
    let (_, plan) = CsvBuilder::default()
        .with_path(unix("logs/run/metrics"))
        .with_flush_interval(Duration::from_secs(7))
        .build()
        .expect("plan");
    assert_eq!(plan.path, unix("logs/run/metrics.csv"));
    assert_eq!(plan.directory.as_deref(), Some(b"logs/run".as_slice()));
    assert_eq!(plan.header.join(","), "timestamp_rfc3339,name,kind,labels,value");
    assert_eq!(plan.flush_interval, Duration::from_secs(7));

    let (_, plan) = CsvBuilder::default().with_path(unix("metrics.csv")).build().expect("plan");
    assert_eq!(plan.path, unix("./metrics.csv"));
    assert_eq!(plan.directory.as_deref(), Some(b".".as_slice()));

    let path = FilePath { bytes: br"logs\run\metrics".to_vec(), style: PathStyle::Windows };
    let (_, plan) = CsvBuilder::default().with_path(path).build().expect("plan");
    assert_eq!(plan.path.bytes, br"logs\run\metrics.csv");
    assert_eq!(plan.directory.as_deref(), Some(br"logs\run".as_slice()));
}

#[test]
fn builders_can_be_copied() {
    let builder =
        CsvBuilder::default().with_path(unix("a")).with_flush_interval(Duration::from_secs(9));
    let copy = builder.clone();
    assert_eq!(copy.path, builder.path);
    assert_eq!(copy.flush_interval, builder.flush_interval);
}

#[test]
fn handles_of_one_key_share_a_metric() {
    let recorder = CsvRecorder::new();
    let key = Key::from_name("shared");
    recorder.register_counter(&key).increment(1);
    recorder.register_counter(&key).increment(2);
    let rows = snapshot(&recorder);
    assert_eq!(rows.len(), 1);
    assert_eq!(rows[0][4], "3");
}

#[test]
fn every_kind_of_handle_leads_to_the_metric_of_its_key() {
    let recorder = CsvRecorder::new();
    let key = Key::from_name("shared");
    recorder.register_gauge(&key).set(1.0);
    recorder.register_gauge(&key).increment(2.0);
    recorder.register_histogram(&key).record(1.0);
    recorder.register_histogram(&key).record(1.0);
    recorder.register_counter(&Key::from_name("other")).increment(7);
    let rows = snapshot(&recorder);
    let value = |name: &str, kind: &str, labels: &str| {
        let found: Vec<&str> = rows
            .iter()
            .filter(|row| row[1] == name && row[2] == kind && row[3] == labels)
            .map(|row| row[4].as_str())
            .collect();
        assert_eq!(found.len(), 1);
        found[0].to_string()
    };
    assert_eq!(value("shared", "gauge", ""), "3.000000");
    assert_eq!(value("shared", "histogram", "stat=count"), "2");
    assert_eq!(value("other", "counter", ""), "7");
}

#[test]
fn recorders_start_without_metrics() {
    let first = CsvRecorder::new();
    first.register_counter(&Key::from_name("used")).increment(1);
    assert_eq!(snapshot(&CsvRecorder::new()).len(), 0);
    let (built, _) = CsvBuilder::default().with_path(unix("a")).build().expect("recorder");
    assert_eq!(snapshot(&built).len(), 0);
    assert_eq!(snapshot(&first).len(), 1);
}

fn snapshot(recorder: &CsvRecorder) -> Vec<Vec<String>> {
    let float_text = |bits: u64| format!("{:.6}", f64::from_bits(bits));
    let summarize = |_: Vec<u64>| Spread {
        min: "1.000000".to_string(),
        quantiles: vec![None, None, None, None, None],
        max: "1.000000".to_string(),
    };
    take_snapshot(recorder.registry(), &float_text, &summarize)
}

/// Runs the exporter on a list of wake-ups, with a file in memory that loses what is not flushed.
fn run(recorder: &CsvRecorder, wake_ups: &[Occurrence]) -> (Vec<Vec<String>>, Step) {
    let mut file = vec![header_record()];
    let mut buffer = Vec::new();
    let mut wake_ups = wake_ups.iter();
    let mut step = Step::Wait;
    loop {
        let occurrence = match step {
            Step::Wait => match wake_ups.next() {
                Some(occurrence) => *occurrence,
                None => return (file, step),
            },
            Step::Write(_) => {
                buffer.extend(snapshot(recorder));
                Occurrence::Succeeded
            }
            Step::Flush(_) => {
                file.append(&mut buffer);
                Occurrence::Succeeded
            }
            Step::Done(_) => return (file, step),
        };
        step = next_step(step, occurrence);
    }
}

#[test]
fn local_recorder_writes_metrics_on_drop() {
    let recorder = CsvRecorder::new();
    recorder.register_counter(&Key::from_name("requests_total")).increment(3);
    recorder.register_gauge(&Key::from_name("temperature")).set(2.5);
    recorder.register_histogram(&Key::from_name("latency")).record(1.0);

    let (rows, step) = run(&recorder, &[Occurrence::Shutdown]);
    assert_eq!(step, Step::Done(Ending::Complete));

    assert!(!rows.is_empty(), "missing csv rows");
    assert_eq!(
        rows[0],
        vec![
            "timestamp_rfc3339".to_string(),
            "name".to_string(),
            "kind".to_string(),
            "labels".to_string(),
            "value".to_string()
        ]
    );

    let mut saw_counter = false;
    let mut saw_gauge = false;
    let mut saw_hist = false;
    for row in rows.iter().skip(1) {
        if row[1] == "requests_total" && row[2] == "counter" && row[3].is_empty() {
            saw_counter = true;
        }
        if row[1] == "temperature" && row[2] == "gauge" && row[3].is_empty() {
            saw_gauge = true;
        }
        if row[1] == "latency" && row[2] == "histogram" && row[3] == "stat=count" && row[4] == "1" {
            saw_hist = true;
        }
    }

    assert!(saw_counter, "counter row missing");
    assert!(saw_gauge, "gauge row missing");
    assert!(saw_hist, "histogram row missing");
}

#[test]
fn every_interval_reaches_the_file() {
    let recorder = CsvRecorder::new();
    recorder.register_counter(&Key::from_name("install_counter")).increment(1);
    let (rows, step) = run(&recorder, &[Occurrence::Timer, Occurrence::Timer]);
    assert_eq!(step, Step::Wait);
    assert_eq!(rows.len(), 3);
    assert!(rows[1..].iter().all(|row| row[1] == "install_counter"));
}

#[test]
fn the_exporter_ends_when_nothing_can_wake_it() {
    let (rows, step) = run(&CsvRecorder::new(), &[Occurrence::Closed]);
    assert_eq!(step, Step::Done(Ending::Complete));
    assert_eq!(rows.len(), 1);
}

#[test]
fn failures_end_the_exporter_and_are_told_apart() {
    for (step, ending, message) in [
        (
            Step::Write(Phase::Periodic),
            Ending::PeriodicWriteFailed,
            "csv exporter periodic write failed",
        ),
        (Step::Write(Phase::Final), Ending::FinalWriteFailed, "csv exporter final write failed"),
        (Step::Flush(Phase::Periodic), Ending::FlushFailed, "csv exporter flush failed"),
        (Step::Flush(Phase::Final), Ending::FlushFailed, "csv exporter flush failed"),
    ] {
        assert_eq!(next_step(step, Occurrence::Failed), Step::Done(ending));
        assert_eq!(ending.message(), Some(message));
    }
    assert_eq!(Ending::Complete.message(), None);
}

#[test]
fn an_ended_exporter_stays_ended() {
    for occurrence in [
        Occurrence::Timer,
        Occurrence::Shutdown,
        Occurrence::Closed,
        Occurrence::Succeeded,
        Occurrence::Failed,
    ] {
        let done = Step::Done(Ending::Complete);
        assert_eq!(next_step(done, occurrence), done);
    }
}
