# metrics-exporter-csv

A verified library that exports metrics of the `metrics` crate as long-form CSV, and converts such
CSV to wide form. Everything under `src/` is written in Verus. Functions carry contracts that Verus
proves, except for the calls into other crates and the standard library, which are listed below.

```text
timestamp_rfc3339,name,kind,labels,value
2026-01-08T12:00:00.123Z,requests_total,counter,method=get,42
2026-01-08T12:00:00.123Z,temperature,gauge,,21.400000
2026-01-08T12:00:00.123Z,latency_ms,histogram,stat=count,8
```

## Layout

- `src/snapshot.rs`, `src/histogram.rs`, `src/util.rs`: the rows of a snapshot.
- `src/recorder.rs`, `src/exporter.rs`, `src/path.rs`: what is exported where, and in which steps.
- `src/prometheus.rs`: rows of metrics that come from Prometheus clients.
- `src/laws.rs`: what holds of snapshots over time.
- `src/long2wide/`: the converter from long to wide form. `laws.rs` states what holds of
  conversions as a whole.
- `src/order.rs`, `src/sorting.rs`, `src/sorted_map.rs`, `src/text.rs`: order and text.
- `src/key.rs`, `src/registry.rs`, `src/timestamp.rs`, `src/long2wide/csv_text.rs`: the calls into
  `metrics`, `metrics-util`, `chrono` and `csv`. Here, and for single calls in `src/prometheus.rs`,
  `src/recorder.rs`, `src/text.rs` and `src/util.rs`, contracts of other crates and of the standard
  library are believed, not proved; their doc comments say what is claimed.
- `app/`: files, timers, threads, floating point and the command line around the library.

Paths are lists of bytes, and are read by the rules of Unix or of Windows, as the path says.
