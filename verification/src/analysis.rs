//! From a snapshot to the report on it.
use vstd::prelude::*;
use vstd::string::*;
use std::time::SystemTime;
use crate::clock::{unix_seconds, unix_ts};
use crate::heap::{heap_of, Heap};
use crate::naming::{file_name, is_file_name};
use crate::patterns::lowers_ascii;
use crate::report::{render, report_text};
use crate::schema::HeapSnapshot;
use crate::summary::{all_nodes, summarize, summary_of};
use crate::tally::{names_of, table};

verus! {

/// The report on a heap, given the name and the size of the snapshot's file and the time.
pub fn report(heap: &Heap, name: &str, file_size: u64, timestamp: u64) -> (r: String)
    requires
        heap@.readable(),
    ensures
        r@ == report_text(summary_of(heap@), name@, file_size as nat, timestamp as nat),
        lowers_ascii(names_of(table(all_nodes(heap@)))),
{
    render(&summarize(heap), name, file_size, timestamp)
}

/// The report on the snapshot read from the file at `file_path`: it bears the name of the file
/// and the time at which it is made.
pub fn analyze(snap: &HeapSnapshot, file_path: &str, file_size: u64) -> (r: String)
    requires
        heap_of(*snap).readable(),
    ensures
        exists|name: Seq<char>, t: SystemTime|
            is_file_name(file_path@, name) && r@ == #[trigger] report_text(
                summary_of(heap_of(*snap)),
                name,
                file_size as nat,
                unix_seconds(t) as nat,
            ),
        lowers_ascii(names_of(table(all_nodes(heap_of(*snap))))),
{
    let name = file_name(file_path);
    let timestamp: u64 = unix_ts();
    let r = report(&Heap::of(snap), name.as_str(), file_size, timestamp);
    proof {
        let t = choose|t: SystemTime| timestamp == #[trigger] unix_seconds(t);
        assert(r@ == report_text(
            summary_of(heap_of(*snap)),
            name@,
            file_size as nat,
            unix_seconds(t) as nat,
        ));
    }
    r
}

} // verus!
