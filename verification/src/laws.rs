//! What holds of every summary of a heap.
use vstd::prelude::*;
use crate::figures::{part_is_at_most_a_hundred_per_cent, share_tenths};
use crate::heap::HeapModel;
use crate::patterns::{hints_are_given_on_their_conditions, is_suspicious, lowercase, lowered};
use crate::ranking::{before, every_row_is_ranked_once, lemma_ranking_exists, ranking};
use crate::retain::path_list;
use crate::summary::{all_detached, all_nodes, arranged, count_keys, size_keys, summary_of};
use crate::tally::{constructor_events, detached_events, grand_total, is_row, labels};
use crate::tally::{lemma_event_totals, lemma_labels_distinct, lemma_totals_bounded, names_of};
use crate::tally::{table, table_loses_nothing, table_total, together, totals, Event, RowModel};
use crate::text::{flush_left, occurs};
use crate::truncation::{byte_len, cut, truncation_keeps_the_longest_fitting_prefix};

verus! {

/// Taking out one row takes its figures out of the sum.
proof fn lemma_total_without(rows: Seq<RowModel>, p: int)
    requires
        0 <= p < rows.len(),
    ensures
        table_total(rows) == together(table_total(rows.remove(p)), rows[p].stats),
    decreases rows.len(),
{
    let rest = rows.remove(p);
    if p == rows.len() - 1 {
        assert(rest =~= rows.drop_last());
    } else {
        assert(rest.drop_last() =~= rows.drop_last().remove(p));
        assert(rest.last() == rows.last());
        lemma_total_without(rows.drop_last(), p);
    }
}

/// Rows add up to the same in any order that has each of them once.
proof fn lemma_total_of_arranged(rows: Seq<RowModel>, order: Seq<usize>)
    requires
        order.len() == rows.len(),
        order.no_duplicates(),
        forall|i: int| 0 <= i < order.len() ==> (#[trigger] order[i]) < rows.len(),
        forall|k: usize| k < rows.len() ==> #[trigger] order.contains(k),
    ensures
        table_total(arranged(rows, order)) == table_total(rows),
    decreases rows.len(),
{
    let all = arranged(rows, order);
    if rows.len() == 0 {
        assert(all =~= rows);
    } else {
        let n = rows.len() - 1;
        assert(n <= usize::MAX) by {
            lemma_indices_fit(order);
        }
        assert(order.contains(n as usize));
        let p = choose|p: int| 0 <= p < order.len() && order[p] == n as usize;
        let fewer = order.remove(p);
        let shorter = rows.drop_last();
        assert forall|i: int| 0 <= i < fewer.len() implies (#[trigger] fewer[i])
            < shorter.len() by {
            let j = if i < p { i } else { i + 1 };
            assert(fewer[i] == order[j]);
            assert(order[j] != order[p]);
        }
        assert(fewer.no_duplicates());
        assert forall|k: usize| k < shorter.len() implies #[trigger] fewer.contains(k) by {
            assert(order.contains(k));
            let j = choose|j: int| 0 <= j < order.len() && order[j] == k;
            let i = if j < p { j } else { j - 1 };
            assert(fewer[i] == k);
        }
        lemma_total_of_arranged(shorter, fewer);
        assert(all.remove(p) =~= arranged(shorter, fewer));
        lemma_total_without(all, p);
        assert(all[p] == rows[n]);
    }
}

/// An order without repetitions is no longer than there are machine indices.
proof fn lemma_indices_fit(order: Seq<usize>)
    requires
        order.no_duplicates(),
    ensures
        order.len() <= usize::MAX + 1,
{
    let numbers = order.map_values(|i: usize| i as int);
    assert(numbers.no_duplicates()) by {
        assert forall|i: int, j: int|
            0 <= i < numbers.len() && 0 <= j < numbers.len() && i != j implies numbers[i]
            != numbers[j] by {
            assert(order[i] != order[j]);
        }
    }
    let found = numbers.to_set();
    let range = vstd::set_lib::set_int_range(0, usize::MAX + 1);
    vstd::set_lib::lemma_int_range(0, usize::MAX + 1);
    numbers.unique_seq_to_set();
    assert(found.subset_of(range));
    vstd::set_lib::lemma_len_subset(found, range);
}

/// The ranked rows of a table add up to what the table does.
proof fn lemma_ranked_total(rows: Seq<RowModel>, keys: Seq<u64>)
    requires
        rows.len() == keys.len(),
        rows.len() <= usize::MAX,
    ensures
        table_total(arranged(rows, ranking(keys))) == table_total(rows),
{
    lemma_ranking_exists(keys);
    let order = ranking(keys);
    if rows.len() > 0 {
        every_row_is_ranked_once(keys, order, 0);
    }
    lemma_total_of_arranged(rows, order);
}

/// A table has no more rows than there are events.
proof fn lemma_rows_bounded(events: Seq<Event>)
    ensures
        labels(events).len() <= events.len(),
    decreases events.len(),
{
    if events.len() > 0 {
        lemma_rows_bounded(events.drop_last());
    }
}

/// The constructors of a heap account for all of it: their counts add up to the number of
/// nodes, their sizes to the size of the heap, and the detached parts of them to what is
/// detached; and this both by size and by count.
pub proof fn constructors_account_for_the_heap(m: HeapModel)
    requires
        m.readable(),
        m.nodes.len() <= usize::MAX,
    ensures
        table_total(summary_of(m).by_size).count == m.node_count(),
        table_total(summary_of(m).by_size).shallow == summary_of(m).total_size,
        table_total(summary_of(m).by_size).det_size == summary_of(m).detached_size,
        table_total(summary_of(m).by_count) == table_total(summary_of(m).by_size),
{
    let events = all_nodes(m);
    let rows = table(events);
    lemma_node_count_bounded(m);
    lemma_rows_bounded(events);
    lemma_ranked_total(rows, size_keys(rows));
    lemma_ranked_total(rows, count_keys(rows));
    table_loses_nothing(events);
    lemma_event_totals(m, m.node_count());
}

proof fn lemma_node_count_bounded(m: HeapModel)
    requires
        m.shape.node_width > 0,
    ensures
        m.node_count() <= m.nodes.len(),
{
    vstd::arithmetic::div_mod::lemma_div_is_ordered_by_denominator(
        m.nodes.len() as int,
        1,
        m.shape.node_width as int,
    );
    vstd::arithmetic::div_mod::lemma_div_basics(m.nodes.len() as int);
}

/// The rows of the table of detached nodes add up to what is detached: to the detached nodes
/// that the constructors count, and to the size that is given for them.
pub proof fn detached_rows_account_for_what_is_detached(m: HeapModel)
    requires
        m.readable(),
        m.nodes.len() <= usize::MAX,
    ensures
        table_total(summary_of(m).detached).shallow == summary_of(m).detached_size,
        table_total(summary_of(m).detached).count == table_total(summary_of(m).by_size).det_count,
{
    let rows = table(all_detached(m));
    lemma_node_count_bounded(m);
    lemma_event_totals(m, m.node_count());
    lemma_rows_bounded(all_detached(m));
    lemma_ranked_total(rows, size_keys(rows));
    table_loses_nothing(all_detached(m));
    constructors_account_for_the_heap(m);
    lemma_rows_bounded(all_nodes(m));
    lemma_ranked_total(table(all_nodes(m)), size_keys(table(all_nodes(m))));
    table_loses_nothing(all_nodes(m));
}

/// What is detached is a part of the heap, and is shown as at most a hundred per cent of it.
pub proof fn detached_is_part_of_the_heap(m: HeapModel)
    ensures
        summary_of(m).detached_size <= summary_of(m).total_size,
        summary_of(m).total_size > 0 ==> share_tenths(
            summary_of(m).detached_size,
            summary_of(m).total_size,
        ) <= 1000,
{
    lemma_event_totals(m, m.node_count());
    lemma_totals_bounded(all_nodes(m), Seq::empty());
    if summary_of(m).total_size > 0 {
        part_is_at_most_a_hundred_per_cent(
            summary_of(m).detached_size,
            summary_of(m).total_size,
        );
    }
}

/// The figures of a table's rows: in each, what is detached is part of the whole, and the row is
/// part of the heap.
proof fn lemma_row_figures(events: Seq<Event>, i: int)
    requires
        0 <= i < table(events).len(),
    ensures
        ({
            let r = table(events)[i].stats;
            &&& r.det_count <= r.count <= events.len()
            &&& r.det_size <= r.shallow <= grand_total(events).shallow
        }),
{
    lemma_totals_bounded(events, labels(events)[i]);
}

/// A table arranged by a key that is no greater than a 64-bit number is in descending order of
/// that key, and its rows are those of the table.
proof fn lemma_arranged_descends(rows: Seq<RowModel>, keys: Seq<u64>, i: int, j: int)
    requires
        rows.len() == keys.len(),
        rows.len() <= usize::MAX,
        0 <= i < j < rows.len(),
    ensures
        keys[ranking(keys)[i] as int] >= keys[ranking(keys)[j] as int],
        ranking(keys).len() == rows.len(),
        0 <= ranking(keys)[i] < rows.len(),
        0 <= ranking(keys)[j] < rows.len(),
        ranking(keys)[i] != ranking(keys)[j],
{
    lemma_ranking_exists(keys);
    let order = ranking(keys);
    assert(before(keys, order[i] as int, order[j] as int));
}

/// Two items that a filter keeps stand in the same order in what was filtered.
proof fn lemma_filter_keeps_order(
    rows: Seq<RowModel>,
    keep: spec_fn(RowModel) -> bool,
    i: int,
    j: int,
) -> (r: (int, int))
    requires
        0 <= i < j < rows.filter(keep).len(),
    ensures
        0 <= r.0 < r.1 < rows.len(),
        rows[r.0] == rows.filter(keep)[i],
        rows[r.1] == rows.filter(keep)[j],
    decreases rows.len(),
{
    reveal(Seq::filter);
    let shorter = rows.drop_last();
    let before = shorter.filter(keep);
    if j < before.len() {
        lemma_filter_keeps_order(shorter, keep, i, j)
    } else {
        let a = lemma_filter_place(shorter, keep, i);
        (a, rows.len() - 1)
    }
}

/// An item that a filter keeps stands in what was filtered.
proof fn lemma_filter_place(
    rows: Seq<RowModel>,
    keep: spec_fn(RowModel) -> bool,
    i: int,
) -> (r: int)
    requires
        0 <= i < rows.filter(keep).len(),
    ensures
        0 <= r < rows.len(),
        rows[r] == rows.filter(keep)[i],
    decreases rows.len(),
{
    reveal(Seq::filter);
    let shorter = rows.drop_last();
    if i < shorter.filter(keep).len() {
        lemma_filter_place(shorter, keep, i)
    } else {
        rows.len() - 1
    }
}

/// The table by count is in descending order and has no constructor twice.
proof fn lemma_by_count_descends(m: HeapModel, i: int, j: int)
    requires
        m.readable(),
        m.nodes.len() <= usize::MAX,
        0 <= i < j < summary_of(m).by_count.len(),
    ensures
        summary_of(m).by_count[i].stats.count >= summary_of(m).by_count[j].stats.count,
        summary_of(m).by_count[i].name != summary_of(m).by_count[j].name,
{
    let rows = table(all_nodes(m));
    let keys = count_keys(rows);
    lemma_node_count_bounded(m);
    lemma_event_totals(m, m.node_count());
    lemma_rows_bounded(all_nodes(m));
    lemma_ranking_exists(keys);
    lemma_arranged_descends(rows, keys, i, j);
    lemma_row_figures(all_nodes(m), ranking(keys)[i] as int);
    lemma_row_figures(all_nodes(m), ranking(keys)[j] as int);
    lemma_labels_distinct(all_nodes(m));
}

/// The tables are in descending order: by size the constructors and the detached nodes, by count
/// the constructors and the suspicious ones among them; and no label is in a table twice.
pub proof fn tables_are_in_descending_order(m: HeapModel, i: int, j: int)
    requires
        m.readable(),
        m.nodes.len() <= usize::MAX,
        0 <= i < j,
    ensures
        j < summary_of(m).by_size.len() ==> summary_of(m).by_size[i].stats.shallow >= summary_of(
            m,
        ).by_size[j].stats.shallow,
        j < summary_of(m).by_size.len() ==> summary_of(m).by_size[i].name != summary_of(
            m,
        ).by_size[j].name,
        j < summary_of(m).by_count.len() ==> summary_of(m).by_count[i].stats.count >= summary_of(
            m,
        ).by_count[j].stats.count,
        j < summary_of(m).by_count.len() ==> summary_of(m).by_count[i].name != summary_of(
            m,
        ).by_count[j].name,
        j < summary_of(m).suspicious.len() ==> summary_of(m).suspicious[i].stats.count
            >= summary_of(m).suspicious[j].stats.count,
        j < summary_of(m).suspicious.len() ==> summary_of(m).suspicious[i].name != summary_of(
            m,
        ).suspicious[j].name,
        j < summary_of(m).detached.len() ==> summary_of(m).detached[i].stats.shallow
            >= summary_of(m).detached[j].stats.shallow,
        j < summary_of(m).detached.len() ==> summary_of(m).detached[i].name != summary_of(
            m,
        ).detached[j].name,
{
    lemma_node_count_bounded(m);
    lemma_event_totals(m, m.node_count());
    lemma_rows_bounded(all_nodes(m));
    lemma_rows_bounded(all_detached(m));
    lemma_totals_bounded(all_nodes(m), Seq::empty());
    let rows = table(all_nodes(m));
    let detached = table(all_detached(m));
    lemma_ranking_exists(size_keys(rows));
    lemma_ranking_exists(count_keys(rows));
    lemma_ranking_exists(size_keys(detached));
    if j < rows.len() {
        let a = ranking(size_keys(rows))[i] as int;
        let b = ranking(size_keys(rows))[j] as int;
        lemma_arranged_descends(rows, size_keys(rows), i, j);
        lemma_row_figures(all_nodes(m), a);
        lemma_row_figures(all_nodes(m), b);
        lemma_labels_distinct(all_nodes(m));
        lemma_by_count_descends(m, i, j);
    }
    if j < summary_of(m).suspicious.len() {
        let keep = |r: RowModel| is_suspicious(r.name);
        let (a, b) = lemma_filter_keeps_order(summary_of(m).by_count, keep, i, j);
        lemma_by_count_descends(m, a, b);
    }
    if j < detached.len() {
        let a = ranking(size_keys(detached))[i] as int;
        let b = ranking(size_keys(detached))[j] as int;
        lemma_arranged_descends(detached, size_keys(detached), i, j);
        lemma_row_figures(all_detached(m), a);
        lemma_row_figures(all_detached(m), b);
        lemma_labels_distinct(all_detached(m));
    }
}

/// Every node is counted by the row of its constructor, which is in the table.
pub proof fn every_node_has_a_row(m: HeapModel, i: int)
    requires
        m.readable(),
        m.nodes.len() <= usize::MAX,
        0 <= i < m.node_count(),
    ensures
        exists|r: int| is_row(summary_of(m).by_size, m.constructor(i), r),
        exists|r: int| is_row(summary_of(m).by_count, m.constructor(i), r),
{
    let events = all_nodes(m);
    let rows = table(events);
    lemma_node_count_bounded(m);
    lemma_rows_bounded(events);
    lemma_labels_distinct(events);
    assert(events[i].label == m.constructor(i));
    let k = choose|k: int| 0 <= k < labels(events).len() && labels(events)[k] == m.constructor(i);
    lemma_ranking_exists(size_keys(rows));
    lemma_ranking_exists(count_keys(rows));
    every_row_is_ranked_once(size_keys(rows), ranking(size_keys(rows)), k as usize);
    every_row_is_ranked_once(count_keys(rows), ranking(count_keys(rows)), k as usize);
    let a = choose|a: int|
        0 <= a < ranking(size_keys(rows)).len() && ranking(size_keys(rows))[a] == k as usize;
    let b = choose|b: int|
        0 <= b < ranking(count_keys(rows)).len() && ranking(count_keys(rows))[b] == k as usize;
    assert(is_row(summary_of(m).by_size, m.constructor(i), a));
    assert(is_row(summary_of(m).by_count, m.constructor(i), b));
}

/// In each row what is detached is part of what the row counts.
pub proof fn detached_is_part_of_each_row(m: HeapModel, i: int)
    requires
        m.readable(),
        m.nodes.len() <= usize::MAX,
        0 <= i < summary_of(m).by_size.len(),
    ensures
        summary_of(m).by_size[i].stats.det_count <= summary_of(m).by_size[i].stats.count,
        summary_of(m).by_size[i].stats.det_size <= summary_of(m).by_size[i].stats.shallow,
        summary_of(m).by_size[i].stats.shallow <= summary_of(m).total_size,
{
    let rows = table(all_nodes(m));
    lemma_node_count_bounded(m);
    lemma_rows_bounded(all_nodes(m));
    lemma_ranking_exists(size_keys(rows));
    lemma_event_totals(m, m.node_count());
    lemma_row_figures(all_nodes(m), ranking(size_keys(rows))[i] as int);
}

/// The suspicious constructors are those of the table by count with a suspicious name, and no
/// others.
pub proof fn suspicious_rows_are_the_suspicious_ones(m: HeapModel, r: RowModel)
    ensures
        summary_of(m).suspicious.contains(r) <==> summary_of(m).by_count.contains(r)
            && is_suspicious(r.name),
{
    let keep = |r: RowModel| is_suspicious(r.name);
    let all = summary_of(m).by_count;
    broadcast use vstd::seq_lib::group_filter_ensures;

    assert(summary_of(m).suspicious == all.filter(keep));
    if all.filter(keep).contains(r) {
        let i = choose|i: int| 0 <= i < all.filter(keep).len() && all.filter(keep)[i] == r;
        assert(keep(all.filter(keep)[i]));
        all.lemma_filter_contains_rev(keep, r);
    }
    if all.contains(r) && keep(r) {
        let i = choose|i: int| 0 <= i < all.len() && all[i] == r;
        assert(all.filter(keep).contains(all[i]));
    }
}

/// A text has no more characters than bytes.
proof fn lemma_chars_within_bytes(text: Seq<char>)
    ensures
        text.len() <= byte_len(text),
    decreases text.len(),
{
    if text.len() > 0 {
        lemma_chars_within_bytes(text.drop_first());
    }
}

/// A name that is cut to a byte less than its column fills the column exactly, with a space at
/// the end.
pub proof fn cut_names_keep_the_columns(name: Seq<char>, width: nat)
    requires
        width > 0,
    ensures
        flush_left(cut(name, (width - 1) as nat), width).len() == width,
        flush_left(cut(name, (width - 1) as nat), width).last() == ' ',
{
    let shown = cut(name, (width - 1) as nat);
    truncation_keeps_the_longest_fitting_prefix(name, (width - 1) as nat);
    lemma_chars_within_bytes(shown);
}

/// The first `k` numbers that meet a condition: the next number joins them if it meets it.
proof fn lemma_one_more_number(k: nat, keep: spec_fn(int) -> bool)
    ensures
        Seq::new(0, |i: int| i).filter(keep) == Seq::<int>::empty(),
        Seq::new(k + 1, |i: int| i).filter(keep) == if keep(k as int) {
            Seq::new(k, |i: int| i).filter(keep).push(k as int)
        } else {
            Seq::new(k, |i: int| i).filter(keep)
        },
{
    reveal(Seq::filter);
    assert(Seq::new(0, |i: int| i).filter(keep) =~= Seq::<int>::empty());
    let more = Seq::new(k + 1, |i: int| i);
    assert(more.drop_last() =~= Seq::new(k, |i: int| i));
    assert(more.last() == k);
}

proof fn lemma_filter_of_push(list: Seq<int>, x: int, keep: spec_fn(int) -> bool)
    ensures
        Seq::<int>::empty().filter(keep) == Seq::<int>::empty(),
        list.push(x).filter(keep) == if keep(x) {
            list.filter(keep).push(x)
        } else {
            list.filter(keep)
        },
{
    reveal(Seq::filter);
    assert(list.push(x).drop_last() =~= list);
}

proof fn lemma_fold_of_push(list: Seq<int>, x: int, add_size: spec_fn(int, int) -> int)
    ensures
        Seq::<int>::empty().fold_left(0int, add_size) == 0,
        list.push(x).fold_left(0int, add_size) == add_size(
            list.fold_left(0int, add_size),
            x,
        ),
{
    assert(list.push(x).drop_last() =~= list);
}

/// The figures under a constructor are those of the nodes of that constructor.
proof fn lemma_totals_of_nodes(
    m: HeapModel,
    k: nat,
    label: Seq<char>,
    keep: spec_fn(int) -> bool,
    off: spec_fn(int) -> bool,
    add_size: spec_fn(int, int) -> int,
)
    requires
        forall|i: int| #[trigger] keep(i) == (m.constructor(i) == label),
        forall|i: int| #[trigger] off(i) == m.detached(i),
        forall|a: int, i: int| #[trigger] add_size(a, i) == a + m.self_size(i),
    ensures
        ({
            let t = totals(constructor_events(m, k), label);
            let under = Seq::new(k, |i: int| i).filter(keep);
            &&& t.count == under.len()
            &&& t.shallow == under.fold_left(0int, add_size)
            &&& t.det_count == under.filter(off).len()
            &&& t.det_size == under.filter(off).fold_left(0int, add_size)
        }),
    decreases k,
{
    if k == 0 {
        lemma_one_more_number(0, keep);
        lemma_filter_of_push(Seq::empty(), 0, off);
        lemma_fold_of_push(Seq::empty(), 0, add_size);
    } else {
        let j = (k - 1) as nat;
        lemma_totals_of_nodes(m, j, label, keep, off, add_size);
        assert(constructor_events(m, k).drop_last() =~= constructor_events(m, j));
        let under = Seq::new(j, |i: int| i).filter(keep);
        lemma_one_more_number(j, keep);
        lemma_filter_of_push(under, j as int, off);
        lemma_fold_of_push(under, j as int, add_size);
        lemma_fold_of_push(under.filter(off), j as int, add_size);
    }
}

/// The figures under a label of detached nodes are those of the detached nodes of that label.
proof fn lemma_totals_of_detached(
    m: HeapModel,
    k: nat,
    label: Seq<char>,
    keep: spec_fn(int) -> bool,
    add_size: spec_fn(int, int) -> int,
)
    requires
        forall|i: int|
            #[trigger] keep(i) == (m.detached(i) && m.detached_label(i) == label),
        forall|a: int, i: int| #[trigger] add_size(a, i) == a + m.self_size(i),
    ensures
        ({
            let t = totals(detached_events(m, k), label);
            let under = Seq::new(k, |i: int| i).filter(keep);
            &&& t.count == under.len()
            &&& t.shallow == under.fold_left(0int, add_size)
        }),
    decreases k,
{
    if k == 0 {
        lemma_one_more_number(0, keep);
        lemma_fold_of_push(Seq::empty(), 0, add_size);
    } else {
        let j = (k - 1) as nat;
        lemma_totals_of_detached(m, j, label, keep, add_size);
        if m.detached(j as int) {
            assert(detached_events(m, k).drop_last() =~= detached_events(m, j));
        }
        lemma_one_more_number(j, keep);
        lemma_fold_of_push(Seq::new(j, |i: int| i).filter(keep), j as int, add_size);
    }
}

/// What is detached takes the bytes of the detached nodes.
proof fn lemma_size_of_detached(
    m: HeapModel,
    k: nat,
    off: spec_fn(int) -> bool,
    add_size: spec_fn(int, int) -> int,
)
    requires
        forall|i: int| #[trigger] off(i) == m.detached(i),
        forall|a: int, i: int| #[trigger] add_size(a, i) == a + m.self_size(i),
    ensures
        grand_total(detached_events(m, k)).shallow == Seq::new(k, |i: int| i).filter(
            off,
        ).fold_left(0int, add_size),
    decreases k,
{
    if k == 0 {
        lemma_one_more_number(0, off);
        lemma_fold_of_push(Seq::empty(), 0, add_size);
    } else {
        let j = (k - 1) as nat;
        lemma_size_of_detached(m, j, off, add_size);
        if m.detached(j as int) {
            assert(detached_events(m, k).drop_last() =~= detached_events(m, j));
        }
        lemma_one_more_number(j, off);
        lemma_fold_of_push(Seq::new(j, |i: int| i).filter(off), j as int, add_size);
    }
}

/// The numbers of a summary are those of the heap: its whole records, the bytes of all nodes, of
/// the detached ones and of those that count as `(array)`.
pub proof fn summary_gives_the_numbers_of_the_heap(m: HeapModel)
    ensures
        ({
            let s = summary_of(m);
            let nodes = Seq::new(m.node_count(), |i: int| i);
            &&& s.node_count == m.nodes.len() / m.shape.node_width
            &&& s.edge_count == m.edges.len() / m.shape.edge_width
            &&& s.total_size == m.sizes(m.node_count())
            &&& s.detached_size == nodes.filter(|i: int| m.detached(i)).fold_left(
                0int,
                |a: int, i: int| a + m.self_size(i),
            )
            &&& s.array_size == nodes.filter(|i: int| m.constructor(i) == "(array)"@).fold_left(
                0int,
                |a: int, i: int| a + m.self_size(i),
            )
        }),
{
    let add_size = |a: int, i: int| a + m.self_size(i);
    let off = |i: int| m.detached(i);
    lemma_size_of_detached(m, m.node_count(), off, add_size);
    let arrays = |i: int| m.constructor(i) == "(array)"@;
    lemma_totals_of_nodes(m, m.node_count(), "(array)"@, arrays, off, add_size);
}

/// A label that some events have counts at least one of them.
proof fn lemma_label_counts(events: Seq<Event>, label: Seq<char>)
    requires
        labels(events).contains(label),
    ensures
        totals(events, label).count > 0,
    decreases events.len(),
{
    let shorter = events.drop_last();
    if events.last().label != label {
        let k = choose|k: int| 0 <= k < labels(events).len() && labels(events)[k] == label;
        assert(labels(shorter)[k] == label);
        lemma_label_counts(shorter, label);
    }
}

/// The rows of a table in the order of a ranking are rows of the table, and all of them.
proof fn lemma_arranged_rows(rows: Seq<RowModel>, keys: Seq<u64>, row: RowModel)
    requires
        rows.len() == keys.len(),
        rows.len() <= usize::MAX,
    ensures
        arranged(rows, ranking(keys)).len() == rows.len(),
        forall|r: int|
            0 <= r < rows.len() ==> 0 <= (#[trigger] ranking(keys)[r]) < rows.len()
                && arranged(rows, ranking(keys))[r] == rows[ranking(keys)[r] as int],
        rows.contains(row) <==> arranged(rows, ranking(keys)).contains(row),
{
    lemma_ranking_exists(keys);
    let order = ranking(keys);
    let all = arranged(rows, order);
    if rows.contains(row) {
        let k = choose|k: int| 0 <= k < rows.len() && rows[k] == row;
        every_row_is_ranked_once(keys, order, k as usize);
        let i = choose|i: int| 0 <= i < order.len() && order[i] == k as usize;
        assert(all[i] == row);
    }
    if all.contains(row) {
        let i = choose|i: int| 0 <= i < all.len() && all[i] == row;
        assert(rows[order[i] as int] == row);
    }
}

/// Each row of the table by size stands for at least one node and gives the figures of the nodes
/// that count under its name, and of no others: how many they are, the bytes that they take, and
/// both for the detached ones among them. The table by count has the same rows.
pub proof fn each_row_gives_the_figures_of_its_nodes(m: HeapModel, r: int)
    requires
        m.readable(),
        m.nodes.len() <= usize::MAX,
        0 <= r < summary_of(m).by_size.len(),
    ensures
        ({
            let row = summary_of(m).by_size[r];
            let under = Seq::new(m.node_count(), |i: int| i).filter(
                |i: int| m.constructor(i) == row.name,
            );
            let off = under.filter(|i: int| m.detached(i));
            &&& under.len() > 0
            &&& row.stats.count == under.len()
            &&& row.stats.shallow == under.fold_left(0int, |a: int, i: int| a + m.self_size(i))
            &&& row.stats.det_count == off.len()
            &&& row.stats.det_size == off.fold_left(0int, |a: int, i: int| a + m.self_size(i))
            &&& summary_of(m).by_count.contains(row)
        }),
        summary_of(m).by_count.len() == summary_of(m).by_size.len(),
{
    let events = all_nodes(m);
    let rows = table(events);
    lemma_node_count_bounded(m);
    lemma_rows_bounded(events);
    let row = summary_of(m).by_size[r];
    lemma_arranged_rows(rows, size_keys(rows), row);
    lemma_arranged_rows(rows, count_keys(rows), row);
    let k = ranking(size_keys(rows))[r] as int;
    assert(summary_of(m).by_size.contains(row));
    assert(labels(events)[k] == row.name);
    lemma_label_counts(events, row.name);
    let keep = |i: int| m.constructor(i) == row.name;
    let off = |i: int| m.detached(i);
    let add_size = |a: int, i: int| a + m.self_size(i);
    lemma_totals_of_nodes(m, m.node_count(), row.name, keep, off, add_size);
}

/// Each row of the table of detached nodes stands for at least one node and gives the figures of
/// the detached nodes that are shown under its name, and of no others.
pub proof fn each_detached_row_gives_the_figures_of_its_nodes(m: HeapModel, r: int)
    requires
        m.readable(),
        m.nodes.len() <= usize::MAX,
        0 <= r < summary_of(m).detached.len(),
    ensures
        ({
            let row = summary_of(m).detached[r];
            let under = Seq::new(m.node_count(), |i: int| i).filter(
                |i: int| m.detached(i) && m.detached_label(i) == row.name,
            );
            &&& under.len() > 0
            &&& row.stats.count == under.len()
            &&& row.stats.shallow == under.fold_left(0int, |a: int, i: int| a + m.self_size(i))
        }),
{
    let events = all_detached(m);
    let rows = table(events);
    lemma_node_count_bounded(m);
    lemma_event_totals(m, m.node_count());
    lemma_rows_bounded(events);
    let row = summary_of(m).detached[r];
    lemma_arranged_rows(rows, size_keys(rows), row);
    let k = ranking(size_keys(rows))[r] as int;
    assert(labels(events)[k] == row.name);
    lemma_label_counts(events, row.name);
    let keep = |i: int| m.detached(i) && m.detached_label(i) == row.name;
    let add_size = |a: int, i: int| a + m.self_size(i);
    lemma_totals_of_detached(m, m.node_count(), row.name, keep, add_size);
}

/// A detached node is among the detached ones.
proof fn lemma_detached_has_an_event(m: HeapModel, k: nat, i: int)
    requires
        0 <= i < k,
        m.detached(i),
    ensures
        exists|p: int|
            0 <= p < detached_events(m, k).len() && #[trigger] detached_events(m, k)[p].label
                == m.detached_label(i),
    decreases k,
{
    let before = detached_events(m, (k - 1) as nat);
    let all = detached_events(m, k);
    if i == k - 1 {
        assert(all[before.len() as int].label == m.detached_label(i));
    } else {
        lemma_detached_has_an_event(m, (k - 1) as nat, i);
        let p = choose|p: int|
            0 <= p < before.len() && #[trigger] before[p].label == m.detached_label(i);
        assert(all[p].label == m.detached_label(i));
    }
}

/// Every detached node is counted by a row of the table of detached nodes.
pub proof fn every_detached_node_has_a_row(m: HeapModel, i: int)
    requires
        m.readable(),
        m.nodes.len() <= usize::MAX,
        0 <= i < m.node_count(),
        m.detached(i),
    ensures
        exists|r: int|
            0 <= r < summary_of(m).detached.len() && #[trigger] summary_of(m).detached[r].name
                == m.detached_label(i),
{
    let events = all_detached(m);
    let rows = table(events);
    lemma_node_count_bounded(m);
    lemma_event_totals(m, m.node_count());
    lemma_rows_bounded(events);
    lemma_labels_distinct(events);
    lemma_detached_has_an_event(m, m.node_count(), i);
    let p = choose|p: int|
        0 <= p < events.len() && #[trigger] events[p].label == m.detached_label(i);
    assert(labels(events).contains(events[p].label));
    let k = choose|k: int|
        0 <= k < labels(events).len() && labels(events)[k] == m.detached_label(i);
    assert(rows.contains(rows[k]));
    lemma_arranged_rows(rows, size_keys(rows), rows[k]);
    let r = choose|r: int|
        0 <= r < summary_of(m).detached.len() && summary_of(m).detached[r] == rows[k];
    assert(summary_of(m).detached[r].name == m.detached_label(i));
}

/// Of two labels the one that stands first among the labels occurs first among the events.
proof fn lemma_labels_in_order(events: Seq<Event>, a: int, b: int)
    requires
        0 <= a < b < labels(events).len(),
    ensures
        exists|p: int|
            0 <= p < events.len() && #[trigger] events[p].label == labels(events)[a] && forall|
                q: int,
            |
                0 <= q <= p ==> #[trigger] events[q].label != labels(events)[b],
    decreases events.len(),
{
    let shorter = events.drop_last();
    let before = labels(shorter);
    lemma_labels_distinct(shorter);
    if b < before.len() {
        lemma_labels_in_order(shorter, a, b);
        let p = choose|p: int|
            0 <= p < shorter.len() && #[trigger] shorter[p].label == before[a] && forall|q: int|
                0 <= q <= p ==> #[trigger] shorter[q].label != before[b];
        assert(events[p].label == labels(events)[a]);
        assert forall|q: int| 0 <= q <= p implies #[trigger] events[q].label
            != labels(events)[b] by {
            assert(shorter[q] == events[q]);
        }
    } else {
        let last = events.last().label;
        assert(labels(events)[b] == last);
        lemma_label_occurs(shorter, a);
        let p = choose|p: int| 0 <= p < shorter.len() && #[trigger] shorter[p].label == before[a];
        assert(events[p].label == labels(events)[a]);
        assert forall|q: int| 0 <= q <= p implies #[trigger] events[q].label != last by {
            assert(shorter[q] == events[q]);
            assert(before.contains(shorter[q].label));
        }
    }
}

proof fn lemma_label_occurs(events: Seq<Event>, a: int)
    requires
        0 <= a < labels(events).len(),
    ensures
        exists|p: int| 0 <= p < events.len() && #[trigger] events[p].label == labels(events)[a],
    decreases events.len(),
{
    let shorter = events.drop_last();
    if a < labels(shorter).len() {
        lemma_label_occurs(shorter, a);
        let p = choose|p: int|
            0 <= p < shorter.len() && #[trigger] shorter[p].label == labels(shorter)[a];
        assert(events[p].label == labels(events)[a]);
    } else {
        assert(events[events.len() - 1].label == labels(events)[a]);
    }
}

/// Rows with equal figures stand in the order in which their constructors first occur in the
/// heap: the one that stands first has a node before all nodes of the other.
pub proof fn equal_rows_stand_in_the_order_of_the_heap(m: HeapModel, i: int, j: int)
    requires
        m.readable(),
        m.nodes.len() <= usize::MAX,
        0 <= i < j < summary_of(m).by_size.len(),
    ensures
        summary_of(m).by_size[i].stats.shallow == summary_of(m).by_size[j].stats.shallow
            ==> exists|p: int|
            0 <= p < m.node_count() && #[trigger] m.constructor(p) == summary_of(m).by_size[i].name
                && forall|q: int|
                0 <= q <= p ==> #[trigger] m.constructor(q) != summary_of(m).by_size[j].name,
        summary_of(m).by_count[i].stats.count == summary_of(m).by_count[j].stats.count
            ==> exists|p: int|
            0 <= p < m.node_count() && #[trigger] m.constructor(p) == summary_of(
                m,
            ).by_count[i].name && forall|q: int|
                0 <= q <= p ==> #[trigger] m.constructor(q) != summary_of(m).by_count[j].name,
{
    let rows = table(all_nodes(m));
    lemma_node_count_bounded(m);
    lemma_rows_bounded(all_nodes(m));
    lemma_event_totals(m, m.node_count());
    lemma_arranged_rows(rows, size_keys(rows), rows[0]);
    lemma_arranged_rows(rows, count_keys(rows), rows[0]);
    lemma_equal_rows(m, size_keys(rows), i, j);
    lemma_equal_rows(m, count_keys(rows), i, j);
}

proof fn lemma_equal_rows(m: HeapModel, keys: Seq<u64>, i: int, j: int)
    requires
        keys.len() == table(all_nodes(m)).len(),
        keys.len() <= usize::MAX,
        0 <= i < j < keys.len(),
    ensures
        ({
            let rows = table(all_nodes(m));
            let a = ranking(keys)[i] as int;
            let b = ranking(keys)[j] as int;
            &&& 0 <= a < rows.len()
            &&& 0 <= b < rows.len()
            &&& keys[a] == keys[b] ==> exists|p: int|
                0 <= p < m.node_count() && #[trigger] m.constructor(p) == rows[a].name && forall|
                    q: int,
                |
                    0 <= q <= p ==> #[trigger] m.constructor(q) != rows[b].name
        }),
{
    let events = all_nodes(m);
    lemma_ranking_exists(keys);
    let order = ranking(keys);
    let a = order[i] as int;
    let b = order[j] as int;
    assert(before(keys, order[i] as int, order[j] as int));
    if keys[a] == keys[b] {
        lemma_labels_in_order(events, a, b);
        let p = choose|p: int|
            0 <= p < events.len() && #[trigger] events[p].label == labels(events)[a] && forall|
                q: int,
            |
                0 <= q <= p ==> #[trigger] events[q].label != labels(events)[b];
        assert(m.constructor(p) == events[p].label);
        assert forall|q: int| 0 <= q <= p implies #[trigger] m.constructor(q)
            != labels(events)[b] by {
            assert(events[q].label == m.constructor(q));
        }
    }
}

/// The suspicious constructors are shown in the order of the table by count.
pub proof fn suspicious_rows_keep_the_order_by_count(m: HeapModel)
    ensures
        summary_of(m).suspicious == summary_of(m).by_count.filter(
            |r: RowModel| is_suspicious(r.name),
        ),
{
}

/// Paths are traced in a heap of at most five million nodes, and in no other.
pub proof fn paths_are_traced_up_to_five_million_nodes(m: HeapModel)
    ensures
        m.node_count() <= 5000000 ==> summary_of(m).paths == Some(path_list(m)),
        m.node_count() > 5000000 ==> summary_of(m).paths is None,
{
}

/// A constructor is among the names of the table, and each of these is the constructor of a node.
proof fn lemma_names_are_constructors(m: HeapModel)
    ensures
        forall|i: int|
            0 <= i < m.node_count() ==> names_of(table(all_nodes(m))).contains(
                #[trigger] m.constructor(i),
            ),
        forall|k: int|
            0 <= k < names_of(table(all_nodes(m))).len() ==> exists|i: int|
                0 <= i < m.node_count() && #[trigger] m.constructor(i) == #[trigger] names_of(
                    table(all_nodes(m)),
                )[k],
{
    let events = all_nodes(m);
    let names = names_of(table(events));
    lemma_labels_distinct(events);
    assert forall|i: int| 0 <= i < m.node_count() implies names.contains(
        #[trigger] m.constructor(i),
    ) by {
        assert(labels(events).contains(events[i].label));
        let k = choose|k: int|
            0 <= k < labels(events).len() && labels(events)[k] == events[i].label;
        assert(names[k] == m.constructor(i));
    }
    assert forall|k: int| 0 <= k < names.len() implies exists|i: int|
        0 <= i < m.node_count() && #[trigger] m.constructor(i) == #[trigger] names[k] by {
        lemma_label_occurs(events, k);
        let p = choose|p: int| 0 <= p < events.len() && #[trigger] events[p].label
            == labels(events)[k];
        assert(m.constructor(p) == names[k]);
    }
}

/// One of three words occurs in a name of the table, put into lower case, if it does so in the
/// constructor of a node.
proof fn lemma_small_names(m: HeapModel, a: Seq<char>, b: Seq<char>, c: Seq<char>)
    ensures
        ({
            let small = lowered(names_of(table(all_nodes(m))));
            (exists|k: int|
                0 <= k < small.len() && (occurs(a, #[trigger] small[k]) || occurs(b, small[k])
                    || occurs(c, small[k]))) <==> (exists|i: int|
                0 <= i < m.node_count() && (occurs(a, lowercase(#[trigger] m.constructor(i)))
                    || occurs(b, lowercase(m.constructor(i))) || occurs(
                    c,
                    lowercase(m.constructor(i)),
                )))
        }),
{
    let names = names_of(table(all_nodes(m)));
    let small = lowered(names);
    lemma_names_are_constructors(m);
    if exists|k: int|
        0 <= k < small.len() && (occurs(a, #[trigger] small[k]) || occurs(b, small[k]) || occurs(
            c,
            small[k],
        )) {
        let k = choose|k: int|
            0 <= k < small.len() && (occurs(a, #[trigger] small[k]) || occurs(b, small[k])
                || occurs(c, small[k]));
        let name = names[k];
        let i = choose|i: int| 0 <= i < m.node_count() && #[trigger] m.constructor(i) == name;
        assert(small[k] == lowercase(m.constructor(i)));
    }
    if exists|i: int|
        0 <= i < m.node_count() && (occurs(a, lowercase(#[trigger] m.constructor(i))) || occurs(
            b,
            lowercase(m.constructor(i)),
        ) || occurs(c, lowercase(m.constructor(i)))) {
        let i = choose|i: int|
            0 <= i < m.node_count() && (occurs(a, lowercase(#[trigger] m.constructor(i)))
                || occurs(b, lowercase(m.constructor(i))) || occurs(
                c,
                lowercase(m.constructor(i)),
            ));
        assert(names.contains(m.constructor(i)));
        let k = choose|k: int| 0 <= k < names.len() && names[k] == m.constructor(i);
        assert(small[k] == lowercase(m.constructor(i)));
    }
}

/// The hints of a summary come from the constructors of the nodes, put into lower case, and from
/// the sizes of the detached nodes and of the arrays.
pub proof fn hints_come_from_the_nodes(m: HeapModel)
    ensures
        ({
            let h = summary_of(m).hints;
            let n = m.node_count();
            &&& h.vnodes <==> exists|i: int|
                0 <= i < n && (occurs("vnode"@, lowercase(#[trigger] m.constructor(i))) || occurs(
                    "component"@,
                    lowercase(m.constructor(i)),
                ))
            &&& h.listeners <==> exists|i: int|
                0 <= i < n && (occurs("listener"@, lowercase(#[trigger] m.constructor(i)))
                    || occurs("emitter"@, lowercase(m.constructor(i))) || occurs(
                    "subscription"@,
                    lowercase(m.constructor(i)),
                ))
            &&& h.proxies <==> exists|i: int|
                0 <= i < n && (occurs("proxy"@, lowercase(#[trigger] m.constructor(i))) || occurs(
                    "reactive"@,
                    lowercase(m.constructor(i)),
                ))
            &&& h.stores <==> exists|i: int|
                0 <= i < n && (occurs("store"@, lowercase(#[trigger] m.constructor(i))) || occurs(
                    "cache"@,
                    lowercase(m.constructor(i)),
                ) || occurs("registry"@, lowercase(m.constructor(i))))
            &&& h.large_detached <==> summary_of(m).detached_size > 10 * 1048576
            &&& h.big_arrays <==> summary_of(m).array_size > 50 * 1048576
        }),
{
    hints_are_given_on_their_conditions(
        lowered(names_of(table(all_nodes(m)))),
        summary_of(m).detached_size,
        summary_of(m).array_size,
    );
    lemma_small_names(m, "vnode"@, "component"@, "component"@);
    lemma_small_names(m, "listener"@, "emitter"@, "subscription"@);
    lemma_small_names(m, "proxy"@, "reactive"@, "reactive"@);
    lemma_small_names(m, "store"@, "cache"@, "registry"@);
}

} // verus!
