//! What there is to report on a heap.
use vstd::prelude::*;
use vstd::string::*;
use crate::heap::{Heap, HeapModel, RETAIN_LIMIT};
use crate::patterns::{detect, hints_of, is_suspicious, keyword_list, keywords, lower_names};
use crate::patterns::{lowered, lowers_ascii, mentions_any, words_of, Hints};
use crate::ranking::{lemma_is_the_ranking, rank, ranking};
use crate::retain::{path_list, retaining_paths};
use crate::tally::{aggregate, constructor_events, detached_events, grand_total, labels};
use crate::tally::{lemma_event_totals, lemma_totals_of_absent, names_of, row_models, table};
use crate::tally::{table_loses_nothing, table_total, totals, Event, Row, RowModel};
use crate::text::{same_text, texts};

verus! {

/// The rows of a table in an order.
pub open spec fn arranged(rows: Seq<RowModel>, order: Seq<usize>) -> Seq<RowModel> {
    Seq::new(order.len(), |i: int| rows[order[i] as int])
}

/// The shallow sizes of some rows.
pub open spec fn size_keys(rows: Seq<RowModel>) -> Seq<u64> {
    Seq::new(rows.len(), |i: int| rows[i].stats.shallow as u64)
}

/// The counts of some rows.
pub open spec fn count_keys(rows: Seq<RowModel>) -> Seq<u64> {
    Seq::new(rows.len(), |i: int| rows[i].stats.count as u64)
}

/// The rows of a table, those of the greatest shallow size first, equal ones as in the table.
pub open spec fn by_size(rows: Seq<RowModel>) -> Seq<RowModel> {
    arranged(rows, ranking(size_keys(rows)))
}

/// The rows of a table, those of the greatest count first, equal ones as in the table.
pub open spec fn by_count(rows: Seq<RowModel>) -> Seq<RowModel> {
    arranged(rows, ranking(count_keys(rows)))
}

/// What there is to report on a heap.
pub struct SummaryModel {
    pub node_count: nat,
    pub edge_count: nat,
    pub total_size: nat,
    pub detached_size: nat,
    pub array_size: nat,
    pub by_size: Seq<RowModel>,
    pub by_count: Seq<RowModel>,
    pub suspicious: Seq<RowModel>,
    pub detached: Seq<RowModel>,
    pub paths: Option<Seq<Seq<char>>>,
    pub hints: Hints,
}

/// The nodes of a heap, each under its constructor.
pub open spec fn all_nodes(m: HeapModel) -> Seq<Event> {
    constructor_events(m, m.node_count())
}

/// The detached nodes of a heap, each under its label.
pub open spec fn all_detached(m: HeapModel) -> Seq<Event> {
    detached_events(m, m.node_count())
}

/// What there is to report on a heap.
pub open spec fn summary_of(m: HeapModel) -> SummaryModel {
    let rows = table(all_nodes(m));
    let detached_size = grand_total(all_detached(m)).shallow;
    let array_size = totals(all_nodes(m), "(array)"@).shallow;
    SummaryModel {
        node_count: m.node_count(),
        edge_count: m.edge_count(),
        total_size: m.sizes(m.node_count()),
        detached_size,
        array_size,
        by_size: by_size(rows),
        by_count: by_count(rows),
        suspicious: by_count(rows).filter(|r: RowModel| is_suspicious(r.name)),
        detached: by_size(table(all_detached(m))),
        paths: if m.is_traced() {
            Some(path_list(m))
        } else {
            None
        },
        hints: hints_of(lowered(names_of(rows)), detached_size, array_size),
    }
}

/// What there is to report on a heap, with its tables in the order of first occurrence and the
/// orders of their rows beside them.
pub struct Summary {
    pub node_count: usize,
    pub edge_count: usize,
    pub total_size: u64,
    pub detached_size: u64,
    pub array_size: u64,
    pub constructors: Vec<Row>,
    pub by_size: Vec<usize>,
    pub by_count: Vec<usize>,
    pub suspicious: Vec<usize>,
    pub detached: Vec<Row>,
    pub detached_by_size: Vec<usize>,
    pub paths: Option<Vec<String>>,
    pub hints: Hints,
}

impl View for Summary {
    type V = SummaryModel;

    open spec fn view(&self) -> SummaryModel {
        let rows = row_models(self.constructors@);
        SummaryModel {
            node_count: self.node_count as nat,
            edge_count: self.edge_count as nat,
            total_size: self.total_size as nat,
            detached_size: self.detached_size as nat,
            array_size: self.array_size as nat,
            by_size: arranged(rows, self.by_size@),
            by_count: arranged(rows, self.by_count@),
            suspicious: arranged(rows, self.suspicious@),
            detached: arranged(row_models(self.detached@), self.detached_by_size@),
            paths: match self.paths {
                Some(paths) => Some(texts(paths@)),
                None => None,
            },
            hints: self.hints,
        }
    }
}

/// An order names rows that are there.
pub open spec fn is_order(order: Seq<usize>, len: nat) -> bool {
    forall|i: int| 0 <= i < order.len() ==> (#[trigger] order[i]) < len
}

impl Summary {
    /// The orders name rows that are there.
    pub open spec fn wf(&self) -> bool {
        &&& is_order(self.by_size@, self.constructors@.len())
        &&& is_order(self.by_count@, self.constructors@.len())
        &&& is_order(self.suspicious@, self.constructors@.len())
        &&& is_order(self.detached_by_size@, self.detached@.len())
    }
}

/// Ranks rows by shallow size.
fn rank_by_size(rows: &Vec<Row>) -> (r: Vec<usize>)
    ensures
        r@ == ranking(size_keys(row_models(rows@))),
        is_order(r@, rows@.len()),
{
    let mut keys: Vec<u64> = Vec::new();
    let mut i: usize = 0;
    while i < rows.len()
        invariant
            i <= rows@.len(),
            keys@.len() == i,
            forall|j: int| 0 <= j < i ==> (#[trigger] keys@[j]) == rows@[j].stats.shallow,
        decreases rows@.len() - i,
    {
        keys.push(rows[i].stats.shallow);
        i = i + 1;
    }
    let r = rank(&keys);
    proof {
        assert(keys@ =~= size_keys(row_models(rows@)));
        lemma_is_the_ranking(keys@, r@);
    }
    r
}

/// Ranks rows by count.
fn rank_by_count(rows: &Vec<Row>) -> (r: Vec<usize>)
    ensures
        r@ == ranking(count_keys(row_models(rows@))),
        is_order(r@, rows@.len()),
{
    let mut keys: Vec<u64> = Vec::new();
    let mut i: usize = 0;
    while i < rows.len()
        invariant
            i <= rows@.len(),
            keys@.len() == i,
            forall|j: int| 0 <= j < i ==> (#[trigger] keys@[j]) == rows@[j].stats.count,
        decreases rows@.len() - i,
    {
        keys.push(rows[i].stats.count);
        i = i + 1;
    }
    let r = rank(&keys);
    proof {
        assert(keys@ =~= count_keys(row_models(rows@)));
        lemma_is_the_ranking(keys@, r@);
    }
    r
}

/// The first rows of a table take no more than all of them.
proof fn lemma_prefix_total(rows: Seq<RowModel>, i: int)
    requires
        0 <= i <= rows.len(),
    ensures
        table_total(rows.take(i)).shallow <= table_total(rows).shallow,
    decreases rows.len(),
{
    if i == rows.len() {
        assert(rows.take(i) =~= rows);
    } else {
        assert(rows.drop_last().take(i) =~= rows.take(i));
        lemma_prefix_total(rows.drop_last(), i);
    }
}

/// The shallow size of all rows.
fn total_shallow(rows: &Vec<Row>) -> (r: u64)
    requires
        table_total(row_models(rows@)).shallow <= u64::MAX,
    ensures
        r == table_total(row_models(rows@)).shallow,
{
    let ghost all = row_models(rows@);
    let mut sum: u64 = 0;
    let mut i: usize = 0;
    proof {
        assert(all.take(0) =~= Seq::empty());
    }
    while i < rows.len()
        invariant
            i <= rows@.len(),
            all == row_models(rows@),
            table_total(all).shallow <= u64::MAX,
            sum == table_total(all.take(i as int)).shallow,
        decreases rows@.len() - i,
    {
        proof {
            lemma_prefix_total(all, i + 1);
            assert(all.take(i + 1).drop_last() =~= all.take(i as int));
            assert(all.take(i + 1).last() == rows@[i as int]@);
        }
        sum = sum + rows[i].stats.shallow;
        i = i + 1;
    }
    proof {
        assert(all.take(i as int) =~= all);
    }
    sum
}

/// The shallow size of the row with a name, 0 if there is none.
fn size_of_row(rows: &Vec<Row>, name: &str, Ghost(events): Ghost<Seq<Event>>) -> (r: u64)
    requires
        row_models(rows@) == table(events),
    ensures
        r == totals(events, name@).shallow,
{
    let mut i: usize = 0;
    proof {
        assert(rows@.len() == row_models(rows@).len());
        assert(table(events).len() == labels(events).len());
    }
    while i < rows.len()
        invariant
            i <= rows@.len(),
            row_models(rows@) == table(events),
            rows@.len() == labels(events).len(),
            forall|j: int| 0 <= j < i ==> (#[trigger] labels(events)[j]) != name@,
        decreases rows@.len() - i,
    {
        proof {
            assert(row_models(rows@)[i as int] == rows@[i as int]@);
            assert(table(events)[i as int].name == labels(events)[i as int]);
        }
        if same_text(rows[i].name.as_str(), name) {
            return rows[i].stats.shallow;
        }
        i = i + 1;
    }
    proof {
        assert(!labels(events).contains(name@));
        lemma_totals_of_absent(events, name@);
    }
    0
}

/// Keeps, in their order, the rows with a suspicious name.
fn keep_suspicious(rows: &Vec<Row>, order: &Vec<usize>) -> (r: Vec<usize>)
    requires
        is_order(order@, rows@.len()),
    ensures
        is_order(r@, rows@.len()),
        arranged(row_models(rows@), r@) == arranged(row_models(rows@), order@).filter(
            |r: RowModel| is_suspicious(r.name),
        ),
{
    let words = keyword_list();
    let ghost all = row_models(rows@);
    let ghost given = arranged(all, order@);
    let ghost keep = |r: RowModel| is_suspicious(r.name);
    let mut out: Vec<usize> = Vec::new();
    let mut i: usize = 0;
    proof {
        assert(given.take(0) =~= Seq::empty());
        reveal(Seq::filter);
        assert(arranged(all, out@) =~= given.take(0).filter(keep));
    }
    while i < order.len()
        invariant
            i <= order@.len(),
            all == row_models(rows@),
            given == arranged(all, order@),
            keep == (|r: RowModel| is_suspicious(r.name)),
            words_of(words@) == keywords(),
            is_order(order@, rows@.len()),
            is_order(out@, rows@.len()),
            arranged(all, out@) == given.take(i as int).filter(keep),
        decreases order@.len() - i,
    {
        let ghost so_far = out@;
        let r: usize = order[i];
        if mentions_any(&words, rows[r].name.as_str()) {
            out.push(r);
        }
        proof {
            reveal(Seq::filter);
            assert(given.take(i + 1).drop_last() =~= given.take(i as int));
            assert(given.take(i + 1).last() == rows@[r as int]@);
            if keep(rows@[r as int]@) {
                assert(arranged(all, out@) =~= arranged(all, so_far).push(rows@[r as int]@));
            }
        }
        i = i + 1;
    }
    proof {
        assert(given.take(i as int) =~= given);
    }
    out
}

/// Works out what there is to report on a heap.
pub fn summarize(heap: &Heap) -> (r: Summary)
    requires
        heap@.readable(),
    ensures
        r.wf(),
        r@ == summary_of(heap@),
        lowers_ascii(names_of(table(all_nodes(heap@)))),
{
    let ghost m = heap@;
    let tables = aggregate(heap);
    let constructors = tables.constructors;
    let detached = tables.detached;
    let detached_size: u64 = tables.detached_size;
    proof {
        table_loses_nothing(all_nodes(m));
        lemma_event_totals(m, m.node_count());
    }
    let total_size: u64 = total_shallow(&constructors);
    let array_size: u64 = size_of_row(&constructors, "(array)", Ghost(all_nodes(m)));
    let by_size = rank_by_size(&constructors);
    let by_count = rank_by_count(&constructors);
    let suspicious = keep_suspicious(&constructors, &by_count);
    let detached_by_size = rank_by_size(&detached);
    let names = lower_names(&constructors);
    let hints = detect(&names, detached_size, array_size);
    let node_count: usize = heap.node_count();
    let paths: Option<Vec<String>> = if node_count > RETAIN_LIMIT {
        None
    } else {
        Some(retaining_paths(heap))
    };
    Summary {
        node_count,
        edge_count: heap.edge_count(),
        total_size,
        detached_size,
        array_size,
        constructors,
        by_size,
        by_count,
        suspicious,
        detached,
        detached_by_size,
        paths,
        hints,
    }
}

/// An order takes its rows from the table, one by one.
pub proof fn an_order_takes_rows_from_the_table(rows: Seq<RowModel>, order: Seq<usize>)
    ensures
        arranged(rows, order) == order.map_values(|k: usize| rows[k as int]),
{
    assert(arranged(rows, order) =~= order.map_values(|k: usize| rows[k as int]));
}

/// What a summary gives are its numbers, its paths and hints, and its tables, each in its order.
pub proof fn a_summary_gives_what_it_holds(s: Summary)
    requires
        s.wf(),
    ensures
        s@.node_count == s.node_count,
        s@.edge_count == s.edge_count,
        s@.total_size == s.total_size,
        s@.detached_size == s.detached_size,
        s@.array_size == s.array_size,
        s@.by_size == s.by_size@.map_values(|k: usize| s.constructors@[k as int]@),
        s@.by_count == s.by_count@.map_values(|k: usize| s.constructors@[k as int]@),
        s@.suspicious == s.suspicious@.map_values(|k: usize| s.constructors@[k as int]@),
        s@.detached == s.detached_by_size@.map_values(|k: usize| s.detached@[k as int]@),
        s@.hints == s.hints,
        s.paths is None <==> s@.paths is None,
        s.paths matches Some(paths) ==> s@.paths == Some(paths@.map_values(|p: String| p@)),
{
    let rows = s.constructors@;
    assert(s@.by_size =~= s.by_size@.map_values(|k: usize| rows[k as int]@));
    assert(s@.by_count =~= s.by_count@.map_values(|k: usize| rows[k as int]@));
    assert(s@.suspicious =~= s.suspicious@.map_values(|k: usize| rows[k as int]@));
    assert(s@.detached =~= s.detached_by_size@.map_values(|k: usize| s.detached@[k as int]@));
    if let Some(paths) = s.paths {
        assert(texts(paths@) =~= paths@.map_values(|p: String| p@));
    }
}

} // verus!
