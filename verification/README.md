# heap_analyzer

Turns a Chrome `.heapsnapshot` file into a concise Markdown report for the diagnosis of memory
leaks. The analysis is a library written in Verus: the functions in `src/` have contracts, and
Verus proves them, but for the trusted items below.

## Use

```sh
heap-analyzer path/to/snapshot.heapsnapshot
# writes  path/to/snapshot-analysis.md
```

## The report

| Section | Description |
|---|---|
| Top 50 by shallow size | Largest allocating constructors |
| Top 30 by count | Most frequently instantiated types |
| Detached DOM | Nodes removed from the tree but still referenced |
| Framework constructors | Vue/Pinia/EventEmitter/Proxy suspects |
| Retaining paths | Sample chains of holders of detached objects |
| Pattern hints | Automated diagnosis with fix suggestions |

Rows with equal figures stand in the order in which their labels first occur in the snapshot.

## What is trusted

What the library has from outside is believed, not proved. Each of these items says in its doc
comment what it claims of the outside function:

| Item | Stands for |
|---|---|
| `String::push` in `src/text.rs` | the function of the standard library |
| `Value::as_array`, `Value::as_str` in `src/schema.rs` | the functions of `serde_json`, with the names `json_items` and `json_text` for their results |
| `to_lowercase` in `src/patterns.rs` | `str::to_lowercase`, with the name `lowercase` for its result |
| `last_component` in `src/naming.rs` | `std::path::Path::file_name` |
| `SystemTime::now` in `src/clock.rs` | the function of the standard library, of which nothing is claimed |
| `since_epoch` in `src/clock.rs` | `SystemTime::duration_since` the epoch, with the name `time_since_epoch` |
| `Duration::as_secs` in `src/clock.rs` | the function of the standard library, with the name `whole_seconds` |
| `ExJsonValue`, `ExSystemTime`, `ExSystemTimeError` | the types `serde_json::Value`, `SystemTime` and `SystemTimeError`, declared to Verus |

Strings, vectors and the hash map have their contracts from vstd, the library that comes with
Verus.

## Layout

- `src/schema.rs`, `src/heap.rs`: the snapshot and the heap that it describes
- `src/tally.rs`, `src/ranking.rs`: counting under labels, and ordering
- `src/retain.rs`: holders and retaining paths
- `src/patterns.rs`: suspicious names and hints
- `src/summary.rs`, `src/report.rs`, `src/analysis.rs`: what there is to report, and its text
- `src/rounding.rs`, `src/figures.rs`: sizes and shares, as double arithmetic would show them
- `src/text.rs`, `src/truncation.rs`, `src/naming.rs`, `src/clock.rs`: texts, file names, time
- `src/laws.rs`: what holds of every summary
- `app/`: the program around the library, which reads and writes files
- `tests/`: the library at work
