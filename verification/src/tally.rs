//! Counting nodes and adding up their sizes, label by label.
use vstd::prelude::*;
use vstd::hash_map::StringHashMap;
use vstd::string::*;
use crate::heap::{lemma_sizes_grow, Heap, HeapModel};

verus! {

/// Something to be counted: a node under a label.
pub struct Event {
    pub label: Seq<char>,
    pub size: nat,
    pub detached: bool,
}

/// Counts and sizes of a group of nodes, and of the detached ones among them.
pub struct Totals {
    pub count: nat,
    pub shallow: nat,
    pub det_count: nat,
    pub det_size: nat,
}

/// The counts and sizes of no node.
pub open spec fn nothing() -> Totals {
    Totals { count: 0, shallow: 0, det_count: 0, det_size: 0 }
}

/// Counts and sizes after one more node.
pub open spec fn with_event(t: Totals, e: Event) -> Totals {
    Totals {
        count: t.count + 1,
        shallow: t.shallow + e.size,
        det_count: t.det_count + if e.detached { 1nat } else { 0nat },
        det_size: t.det_size + if e.detached { e.size } else { 0nat },
    }
}

/// The counts and sizes of two groups together.
pub open spec fn together(a: Totals, b: Totals) -> Totals {
    Totals {
        count: a.count + b.count,
        shallow: a.shallow + b.shallow,
        det_count: a.det_count + b.det_count,
        det_size: a.det_size + b.det_size,
    }
}

/// The labels of some events, each once, in the order in which they first occur.
pub open spec fn labels(events: Seq<Event>) -> Seq<Seq<char>>
    decreases events.len(),
{
    if events.len() == 0 {
        Seq::empty()
    } else {
        let before = labels(events.drop_last());
        if before.contains(events.last().label) {
            before
        } else {
            before.push(events.last().label)
        }
    }
}

/// Counts and sizes of the events under one label.
pub open spec fn totals(events: Seq<Event>, label: Seq<char>) -> Totals
    decreases events.len(),
{
    if events.len() == 0 {
        nothing()
    } else {
        let before = totals(events.drop_last(), label);
        if events.last().label == label {
            with_event(before, events.last())
        } else {
            before
        }
    }
}

/// Counts and sizes of all events.
pub open spec fn grand_total(events: Seq<Event>) -> Totals
    decreases events.len(),
{
    if events.len() == 0 {
        nothing()
    } else {
        with_event(grand_total(events.drop_last()), events.last())
    }
}

/// A label with its counts and sizes.
pub struct RowModel {
    pub name: Seq<char>,
    pub stats: Totals,
}

/// The table of some events: a row for each label, in the order of first occurrence.
pub open spec fn table(events: Seq<Event>) -> Seq<RowModel> {
    Seq::new(
        labels(events).len(),
        |i: int| RowModel { name: labels(events)[i], stats: totals(events, labels(events)[i]) },
    )
}

/// The labels of some rows.
pub open spec fn names_of(rows: Seq<RowModel>) -> Seq<Seq<char>> {
    Seq::new(rows.len(), |i: int| rows[i].name)
}

/// Counts and sizes of all rows together.
pub open spec fn table_total(rows: Seq<RowModel>) -> Totals
    decreases rows.len(),
{
    if rows.len() == 0 {
        nothing()
    } else {
        together(table_total(rows.drop_last()), rows.last().stats)
    }
}

/// Row `r` bears the label `name`.
pub open spec fn is_row(rows: Seq<RowModel>, name: Seq<char>, r: int) -> bool {
    0 <= r < rows.len() && rows[r].name == name
}

/// The table after one more event: its row counts it, or a new row at the end does.
pub open spec fn bumped(rows: Seq<RowModel>, e: Event) -> Seq<RowModel> {
    if exists|r: int| is_row(rows, e.label, r) {
        let r = choose|r: int| is_row(rows, e.label, r);
        rows.update(r, RowModel { name: e.label, stats: with_event(rows[r].stats, e) })
    } else {
        rows.push(RowModel { name: e.label, stats: with_event(nothing(), e) })
    }
}

/// The first `k` nodes, each under its constructor.
pub open spec fn constructor_events(m: HeapModel, k: nat) -> Seq<Event> {
    Seq::new(
        k,
        |i: int|
            Event { label: m.constructor(i), size: m.self_size(i), detached: m.detached(i) },
    )
}

/// The detached ones among the first `k` nodes, each under its label.
pub open spec fn detached_events(m: HeapModel, k: nat) -> Seq<Event>
    decreases k,
{
    if k == 0 {
        Seq::empty()
    } else {
        let before = detached_events(m, (k - 1) as nat);
        let i = k - 1;
        if m.detached(i) {
            before.push(
                Event { label: m.detached_label(i), size: m.self_size(i), detached: true },
            )
        } else {
            before
        }
    }
}

/// No label occurs twice.
pub proof fn lemma_labels_distinct(events: Seq<Event>)
    ensures
        labels(events).no_duplicates(),
        forall|i: int|
            0 <= i < events.len() ==> labels(events).contains(#[trigger] events[i].label),
    decreases events.len(),
{
    if events.len() > 0 {
        let shorter = events.drop_last();
        let before = labels(shorter);
        let last = events.last().label;
        lemma_labels_distinct(shorter);
        assert forall|i: int| 0 <= i < events.len() implies labels(events).contains(
            #[trigger] events[i].label,
        ) by {
            if i < events.len() - 1 {
                assert(shorter[i] == events[i]);
                let j = choose|j: int| 0 <= j < before.len() && before[j] == events[i].label;
                assert(labels(events)[j] == events[i].label);
            } else if !before.contains(last) {
                assert(labels(events)[before.len() as int] == last);
            }
        }
    }
}

/// Under a label that does not occur there is nothing.
pub proof fn lemma_totals_of_absent(events: Seq<Event>, label: Seq<char>)
    requires
        !labels(events).contains(label),
    ensures
        totals(events, label) == nothing(),
    decreases events.len(),
{
    if events.len() > 0 {
        let shorter = events.drop_last();
        lemma_labels_distinct(events);
        assert(events[events.len() - 1].label == events.last().label);
        if labels(shorter).contains(label) {
            let j = choose|j: int| 0 <= j < labels(shorter).len() && labels(shorter)[j] == label;
            assert(labels(events)[j] == label);
        }
        lemma_totals_of_absent(shorter, label);
    }
}

/// The table of one more event is the table after it.
pub proof fn lemma_table_push(events: Seq<Event>, e: Event)
    ensures
        table(events.push(e)) == bumped(table(events), e),
{
    let more = events.push(e);
    assert(more.drop_last() =~= events);
    let rows = table(events);
    let names = labels(events);
    lemma_labels_distinct(events);
    if names.contains(e.label) {
        let j = choose|j: int| 0 <= j < names.len() && names[j] == e.label;
        assert(is_row(rows, e.label, j));
        let r = choose|r: int| is_row(rows, e.label, r);
        assert(names[r] == e.label);
        assert(table(more) =~= bumped(rows, e));
    } else {
        assert forall|r: int| !is_row(rows, e.label, r) by {
            if is_row(rows, e.label, r) {
                assert(names[r] == e.label);
            }
        }
        lemma_totals_of_absent(events, e.label);
        assert forall|i: int| 0 <= i < names.len() implies names[i] != e.label by {
            assert(names.contains(names[i]));
        }
        assert(table(more) =~= bumped(rows, e));
    }
}

/// Changing one row changes the sum by what the row changes.
proof fn lemma_table_total_update(rows: Seq<RowModel>, r: int, e: Event)
    requires
        0 <= r < rows.len(),
    ensures
        table_total(
            rows.update(r, RowModel { name: rows[r].name, stats: with_event(rows[r].stats, e) }),
        ) == with_event(table_total(rows), e),
    decreases rows.len(),
{
    let row = RowModel { name: rows[r].name, stats: with_event(rows[r].stats, e) };
    let changed = rows.update(r, row);
    if r == rows.len() - 1 {
        assert(changed.drop_last() =~= rows.drop_last());
    } else {
        assert(changed.drop_last() =~= rows.drop_last().update(r, row));
        lemma_table_total_update(rows.drop_last(), r, e);
    }
}

/// The rows of a table add up to all that was counted: no node is lost, none counted twice.
pub proof fn table_loses_nothing(events: Seq<Event>)
    ensures
        table_total(table(events)) == grand_total(events),
    decreases events.len(),
{
    if events.len() == 0 {
        assert(table(events) =~= Seq::empty());
    } else {
        let shorter = events.drop_last();
        let e = events.last();
        let rows = table(shorter);
        table_loses_nothing(shorter);
        assert(shorter.push(e) =~= events);
        lemma_table_push(shorter, e);
        if exists|r: int| is_row(rows, e.label, r) {
            let r = choose|r: int| is_row(rows, e.label, r);
            lemma_table_total_update(rows, r, e);
        } else {
            let row = RowModel { name: e.label, stats: with_event(nothing(), e) };
            assert(rows.push(row).drop_last() =~= rows);
        }
    }
}

/// What is detached is part of the whole, and a group is part of all groups.
pub proof fn lemma_totals_bounded(events: Seq<Event>, label: Seq<char>)
    ensures
        totals(events, label).count <= grand_total(events).count,
        totals(events, label).shallow <= grand_total(events).shallow,
        totals(events, label).det_count <= totals(events, label).count,
        totals(events, label).det_size <= totals(events, label).shallow,
        grand_total(events).count == events.len(),
        grand_total(events).det_count <= grand_total(events).count,
        grand_total(events).det_size <= grand_total(events).shallow,
    decreases events.len(),
{
    if events.len() > 0 {
        lemma_totals_bounded(events.drop_last(), label);
    }
}

/// The nodes under their constructors add up to the sizes of the heap, and the detached ones
/// among them to the sizes of the detached nodes.
pub proof fn lemma_event_totals(m: HeapModel, k: nat)
    ensures
        grand_total(constructor_events(m, k)).count == k,
        grand_total(constructor_events(m, k)).shallow == m.sizes(k),
        grand_total(constructor_events(m, k)).det_count == detached_events(m, k).len(),
        grand_total(constructor_events(m, k)).det_size == grand_total(
            detached_events(m, k),
        ).shallow,
        grand_total(detached_events(m, k)).count == detached_events(m, k).len(),
        detached_events(m, k).len() <= k,
    decreases k,
{
    if k > 0 {
        let j = (k - 1) as nat;
        lemma_event_totals(m, j);
        assert(constructor_events(m, k).drop_last() =~= constructor_events(m, j));
        let before = detached_events(m, j);
        if m.detached(j as int) {
            assert(detached_events(m, k).drop_last() =~= before);
        }
    }
}

/// Counts and sizes of the nodes of one constructor.
#[derive(Clone, Copy)]
pub struct CtorStats {
    pub count: u64,
    pub shallow: u64,
    pub det_count: u64,
    pub det_size: u64,
}

impl View for CtorStats {
    type V = Totals;

    open spec fn view(&self) -> Totals {
        Totals {
            count: self.count as nat,
            shallow: self.shallow as nat,
            det_count: self.det_count as nat,
            det_size: self.det_size as nat,
        }
    }
}

impl Default for CtorStats {
    fn default() -> (r: CtorStats)
        ensures
            r@ == nothing(),
    {
        CtorStats { count: 0, shallow: 0, det_count: 0, det_size: 0 }
    }
}

/// The stats have room for one more node of `size` bytes.
pub open spec fn has_room(t: Totals, size: nat) -> bool {
    &&& t.count < u64::MAX
    &&& t.shallow + size <= u64::MAX
    &&& t.det_count < u64::MAX
    &&& t.det_size + size <= u64::MAX
}

impl CtorStats {
    /// The stats after one more node.
    fn with_node(&self, size: u64, detached: bool) -> (r: CtorStats)
        requires
            has_room(self@, size as nat),
        ensures
            forall|label: Seq<char>|
                r@ == #[trigger] with_event(self@, Event { label, size: size as nat, detached }),
    {
        CtorStats {
            count: self.count + 1,
            shallow: self.shallow + size,
            det_count: if detached {
                self.det_count + 1
            } else {
                self.det_count
            },
            det_size: if detached {
                self.det_size + size
            } else {
                self.det_size
            },
        }
    }
}

/// A label with its stats.
pub struct Row {
    pub name: String,
    pub stats: CtorStats,
}

impl View for Row {
    type V = RowModel;

    open spec fn view(&self) -> RowModel {
        RowModel { name: self.name@, stats: self.stats@ }
    }
}

/// What a list of rows holds.
pub open spec fn row_models(rows: Seq<Row>) -> Seq<RowModel> {
    Seq::new(rows.len(), |i: int| rows[i]@)
}

/// A table of labels under construction, with an index of its rows by label.
pub struct Tally {
    rows: Vec<Row>,
    index: StringHashMap<usize>,
}

impl View for Tally {
    type V = Seq<RowModel>;

    closed spec fn view(&self) -> Seq<RowModel> {
        row_models(self.rows@)
    }
}

impl Tally {
    /// The index leads from each label to its row, and nowhere else.
    pub closed spec fn wf(&self) -> bool {
        &&& forall|r: int|
            0 <= r < self.rows@.len() ==> self.index@.contains_key(
                (#[trigger] self.rows@[r]).name@,
            ) && self.index@[self.rows@[r].name@] == r
        &&& forall|name: Seq<char>| #[trigger]
            self.index@.contains_key(name) ==> self.index@[name] < self.rows@.len()
                && self.rows@[self.index@[name] as int].name@ == name
    }

    /// An empty table.
    pub fn new() -> (r: Tally)
        ensures
            r.wf(),
            r@ == Seq::<RowModel>::empty(),
    {
        let r = Tally { rows: Vec::new(), index: StringHashMap::with_capacity(8192) };
        proof {
            assert(r@ =~= Seq::<RowModel>::empty());
        }
        r
    }

    /// Counts one more node under a label.
    pub fn add(&mut self, label: String, size: u64, detached: bool)
        requires
            old(self).wf(),
            forall|r: int|
                0 <= r < old(self)@.len() ==> has_room(
                    (#[trigger] old(self)@[r]).stats,
                    size as nat,
                ),
        ensures
            final(self).wf(),
            final(self)@ == bumped(
                old(self)@,
                (Event { label: label@, size: size as nat, detached }),
            ),
    {
        let ghost before = self@;
        let ghost e = Event { label: label@, size: size as nat, detached };
        let found: Option<usize> = match self.index.get(label.as_str()) {
            Some(r) => Some(*r),
            None => None,
        };
        match found {
            Some(r) => {
                proof {
                    assert(is_row(before, e.label, r as int));
                    assert(has_room(before[r as int].stats, size as nat));
                    let c = choose|c: int| is_row(before, e.label, c);
                    assert(self.rows@[c].name@ == label@);
                    assert(self.rows@[r as int].name@ == label@);
                }
                let stats = self.rows[r].stats.with_node(size, detached);
                self.rows[r].stats = stats;
                proof {
                    assert(self@ =~= bumped(before, e));
                }
            },
            None => {
                let r: usize = self.rows.len();
                let key = label.clone();
                proof {
                    assert forall|c: int| !is_row(before, e.label, c) by {
                        if is_row(before, e.label, c) {
                            assert(self.rows@[c].name@ == label@);
                        }
                    }
                }
                let stats = CtorStats::default().with_node(size, detached);
                self.rows.push(Row { name: label, stats });
                self.index.insert(key, r);
                proof {
                    assert(self@ =~= bumped(before, e));
                }
            },
        }
    }

    /// The rows of the table.
    pub fn into_rows(self) -> (r: Vec<Row>)
        ensures
            row_models(r@) == self@,
    {
        self.rows
    }
}

/// The tables of a heap: its constructors, and its detached nodes.
pub struct Tables {
    pub constructors: Vec<Row>,
    pub detached: Vec<Row>,
    pub detached_size: u64,
}

/// There is room in a table for the next event, as long as all sizes fit.
proof fn lemma_table_has_room(events: Seq<Event>, size: nat)
    requires
        events.len() < u64::MAX,
        grand_total(events).shallow + size <= u64::MAX,
    ensures
        forall|r: int|
            0 <= r < table(events).len() ==> has_room((#[trigger] table(events)[r]).stats, size),
{
    assert forall|r: int| 0 <= r < table(events).len() implies has_room(
        (#[trigger] table(events)[r]).stats,
        size,
    ) by {
        lemma_totals_bounded(events, labels(events)[r]);
    }
}

/// Counts all nodes under their constructors, and the detached ones under their labels.
pub fn aggregate(heap: &Heap) -> (r: Tables)
    requires
        heap@.readable(),
    ensures
        row_models(r.constructors@) == table(constructor_events(heap@, heap@.node_count())),
        row_models(r.detached@) == table(detached_events(heap@, heap@.node_count())),
        r.detached_size == grand_total(detached_events(heap@, heap@.node_count())).shallow,
{
    let n: usize = heap.node_count();
    let mut constructors = Tally::new();
    let mut detached = Tally::new();
    let mut detached_size: u64 = 0;
    let mut i: usize = 0;
    let ghost m = heap@;
    proof {
        assert(constructor_events(m, 0) =~= Seq::empty());
        assert(table(constructor_events(m, 0)) =~= Seq::empty());
        assert(table(detached_events(m, 0)) =~= Seq::empty());
    }
    while i < n
        invariant
            i <= n,
            m == heap@,
            m.readable(),
            n == m.node_count(),
            constructors.wf(),
            detached.wf(),
            constructors@ == table(constructor_events(m, i as nat)),
            detached@ == table(detached_events(m, i as nat)),
            detached_size == grand_total(detached_events(m, i as nat)).shallow,
        decreases n - i,
    {
        let size: u64 = heap.self_size(i);
        let is_detached = heap.is_detached(i);
        let ghost ce = constructor_events(m, i as nat);
        let ghost de = detached_events(m, i as nat);
        proof {
            lemma_event_totals(m, i as nat);
            lemma_event_totals(m, (i + 1) as nat);
            lemma_sizes_grow(m, (i + 1) as nat, n as nat);
            lemma_totals_bounded(ce, Seq::empty());
            lemma_table_has_room(ce, size as nat);
            lemma_table_has_room(de, size as nat);
            let e = Event {
                label: m.constructor(i as int),
                size: size as nat,
                detached: is_detached,
            };
            assert(constructor_events(m, (i + 1) as nat) =~= ce.push(e));
            lemma_table_push(ce, e);
        }
        constructors.add(heap.constructor(i), size, is_detached);
        if is_detached {
            let label = heap.detached_label(i);
            proof {
                let e = Event { label: label@, size: size as nat, detached: true };
                lemma_table_push(de, e);
                assert(detached_events(m, (i + 1) as nat) == de.push(e));
                assert(de.push(e).drop_last() =~= de);
            }
            detached.add(label, size, true);
            detached_size = detached_size + size;
        }
        i = i + 1;
    }
    Tables {
        constructors: constructors.into_rows(),
        detached: detached.into_rows(),
        detached_size,
    }
}

/// A list of rows is taken row by row, each with its name and its four figures.
pub proof fn rows_are_taken_one_by_one(rows: Seq<Row>, models: Seq<RowModel>, i: int)
    ensures
        row_models(rows).len() == rows.len(),
        0 <= i < rows.len() ==> {
            let stats = row_models(rows)[i].stats;
            &&& row_models(rows)[i].name == rows[i].name@
            &&& stats.count == rows[i].stats.count
            &&& stats.shallow == rows[i].stats.shallow
            &&& stats.det_count == rows[i].stats.det_count
            &&& stats.det_size == rows[i].stats.det_size
        },
        names_of(models) == models.map_values(|r: RowModel| r.name),
{
    assert(names_of(models) =~= models.map_values(|r: RowModel| r.name));
}

} // verus!
