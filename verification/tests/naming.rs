use heap_analyzer::clock::{seconds_or_zero, unix_ts};
use heap_analyzer::naming::{file_name, name_or_empty, output_path};

#[test]
fn the_report_stands_beside_the_snapshot() {
    assert_eq!(
        output_path("path/to/snapshot.heapsnapshot"),
        "path/to/snapshot-analysis.md"
    );
    assert_eq!(output_path("snapshot"), "snapshot-analysis.md");
    assert_eq!(output_path("a.heapsnapshot.gz"), "a.gz-analysis.md");
    assert_eq!(
        output_path("a.heapsnapshot/b.heapsnapshot"),
        "a/b-analysis.md"
    );
    assert_eq!(output_path(""), "-analysis.md");
}

#[test]
fn the_name_of_a_file_is_the_last_component() {
    assert_eq!(file_name("Heap-1.heapsnapshot"), "Heap-1.heapsnapshot");
    assert_eq!(file_name("path/to/x.heapsnapshot"), "x.heapsnapshot");
    assert_eq!(file_name("/x"), "x");
    assert_eq!(file_name("C:/x"), "x");
    assert_eq!(file_name("a/b:c"), "b:c");
    assert_eq!(file_name("a/.hidden"), ".hidden");
    assert_eq!(file_name("//a/b/c"), "c");
    assert_eq!(file_name("//a/b/c/d.heapsnapshot"), "d.heapsnapshot");
    assert_eq!(file_name("//./a/c/."), "c");
}

#[test]
fn what_follows_the_last_component_is_passed_over() {
    assert_eq!(file_name("/usr/bin/"), "bin");
    assert_eq!(file_name("bin//"), "bin");
    assert_eq!(file_name("a/x.heapsnapshot/."), "x.heapsnapshot");
    assert_eq!(file_name("a/x.heapsnapshot/.//"), "x.heapsnapshot");
}

#[test]
fn some_paths_have_no_last_component() {
    assert_eq!(file_name("a/.."), "");
    assert_eq!(file_name("a/../"), "");
    assert_eq!(file_name(".."), "");
    assert_eq!(file_name("/"), "");
    assert_eq!(file_name("/."), "");
    assert_eq!(file_name("."), "");
    assert_eq!(file_name("./"), "");
    assert_eq!(file_name(".//."), "");
    assert_eq!(file_name("//a/b/.."), "");
    assert_eq!(file_name(""), "");
}

#[test]
fn no_component_is_an_empty_name() {
    assert_eq!(name_or_empty(None), "");
    assert_eq!(name_or_empty(Some("x".to_string())), "x");
}

#[test]
fn a_clock_before_the_epoch_reads_zero() {
    assert_eq!(seconds_or_zero(None), 0);
    assert_eq!(seconds_or_zero(Some(12)), 12);
    let now = unix_ts();
    assert!(now > 1_000_000_000);
    assert!(unix_ts() >= now);
}
