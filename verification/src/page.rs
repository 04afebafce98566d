//! What a report says, line by line.
use vstd::prelude::*;
use vstd::string::*;
use crate::figures::{bytes_text, megabyte_tenths, one_decimal, share_text};
use crate::report::{block, count_section, detached_section, head_section, head_text};
use crate::report::{hints_section, line, main_cells, more_cell, paths_section, paths_text};
use crate::report::{report_text, row_text, rows_text, rule_width, size_section};
use crate::report::{suspicious_section, titled, Table};
use crate::summary::SummaryModel;
use crate::tally::RowModel;
use crate::text::{decimal, flush_left, flush_right, occurs, repeated, stands_at};
use crate::text::what_occurs_has_a_front_and_a_back;
use crate::truncation::cut;

verus! {

/// A line ends where the next one begins.
pub proof fn lines_end_with_a_line_feed(text: Seq<char>)
    ensures
        line(text) == text + "\n"@,
{
    reveal_strlit("\n");
    assert(line(text) =~= text + "\n"@);
}

/// A table has its columns under these heads.
pub proof fn tables_have_their_heads()
    ensures
        head_text(Table::BySize) == "Constructor"@ + Seq::new(45, |i: int| ' ')
            + "Count   ShallowSize   %Total"@,
        head_text(Table::ByCount) == "Constructor"@ + Seq::new(45, |i: int| ' ')
            + "Count   ShallowSize"@,
        head_text(Table::Detached) == "Detached type"@ + Seq::new(37, |i: int| ' ')
            + "Count   ShallowSize"@,
        head_text(Table::Suspicious) == "Constructor"@ + Seq::new(45, |i: int| ' ')
            + "Count   ShallowSize   DetachedCount  DetachedSize"@,
{
    reveal_strlit("Constructor");
    reveal_strlit("Detached type");
    reveal_strlit("Count");
    reveal_strlit("ShallowSize");
    reveal_strlit(" ");
    reveal_strlit("  ");
    reveal_strlit("%Total");
    reveal_strlit("DetachedCount");
    reveal_strlit("DetachedSize");
    reveal_strlit("Count   ShallowSize");
    reveal_strlit("Count   ShallowSize   %Total");
    reveal_strlit("Count   ShallowSize   DetachedCount  DetachedSize");
    assert(main_cells("Constructor"@, 52, "Count"@, "ShallowSize"@) =~= "Constructor"@ + Seq::new(
        45,
        |i: int| ' ',
    ) + "Count   ShallowSize"@);
    assert(main_cells("Detached type"@, 46, "Count"@, "ShallowSize"@) =~= "Detached type"@
        + Seq::new(37, |i: int| ' ') + "Count   ShallowSize"@);
    assert("Count   ShallowSize"@ + more_cell("%Total"@, 7) =~= "Count   ShallowSize   %Total"@);
    assert("Count   ShallowSize"@ + more_cell("DetachedCount"@, 14) + more_cell(
        "DetachedSize"@,
        12,
    ) =~= "Count   ShallowSize   DetachedCount  DetachedSize"@);
    let front = "Constructor"@ + Seq::new(45, |i: int| ' ');
    assert(head_text(Table::BySize) =~= front + ("Count   ShallowSize"@ + more_cell(
        "%Total"@,
        7,
    )));
    assert(head_text(Table::Suspicious) =~= front + ("Count   ShallowSize"@ + more_cell(
        "DetachedCount"@,
        14,
    ) + more_cell("DetachedSize"@, 12)));
}

/// A row shows its name at the left, cut to leave a space behind it, and behind it, each at the
/// right of a column, its count and its size; by size also its share of the heap, and for a
/// suspicious constructor also how many of its nodes are detached and the bytes that these take.
pub proof fn rows_have_their_columns(r: RowModel, total: nat)
    ensures
        ({
            let name = flush_left(cut(r.name, 51), 52);
            let count = " "@ + flush_right(decimal(r.stats.count), 8);
            let size = "  "@ + flush_right(bytes_text(r.stats.shallow), 12);
            let share = "  "@ + flush_right(share_text(r.stats.shallow, total), 7);
            let off_count = "  "@ + flush_right(decimal(r.stats.det_count), 14);
            let off_size = "  "@ + flush_right(bytes_text(r.stats.det_size), 12);
            &&& row_text(Table::BySize, r, total) == name + count + size + share + "\n"@
            &&& row_text(Table::ByCount, r, total) == name + count + size + "\n"@
            &&& row_text(Table::Detached, r, total) == flush_left(cut(r.name, 45), 46) + count
                + size + "\n"@
            &&& row_text(Table::Suspicious, r, total) == name + count + size + off_count
                + off_size + "\n"@
        }),
{
    let name = flush_left(cut(r.name, 51), 52);
    let short = flush_left(cut(r.name, 45), 46);
    let count = decimal(r.stats.count);
    let size = bytes_text(r.stats.shallow);
    assert(main_cells(cut(r.name, 51), 52, count, size) =~= name + (" "@ + flush_right(count, 8))
        + ("  "@ + flush_right(size, 12)));
    assert(main_cells(cut(r.name, 45), 46, count, size) =~= short + (" "@ + flush_right(count, 8))
        + ("  "@ + flush_right(size, 12)));
    let cells = main_cells(cut(r.name, 51), 52, count, size);
    let off_cells = main_cells(cut(r.name, 45), 46, count, size);
    let share = more_cell(share_text(r.stats.shallow, total), 7);
    let off_count = more_cell(decimal(r.stats.det_count), 14);
    let off_size = more_cell(bytes_text(r.stats.det_size), 12);
    lines_end_with_a_line_feed(cells + share);
    lines_end_with_a_line_feed(cells);
    lines_end_with_a_line_feed(off_cells);
    lines_end_with_a_line_feed(cells + off_count + off_size);
}

proof fn lemma_rows_are_strung_together(t: Table, rows: Seq<RowModel>, total: nat, n: nat)
    ensures
        rows_text(t, rows, total, n) == Seq::new(
            n,
            |i: int| row_text(t, rows[i], total),
        ).flatten(),
    decreases n,
{
    let all = Seq::new(n, |i: int| row_text(t, rows[i], total));
    if n > 0 {
        let less = Seq::new((n - 1) as nat, |i: int| row_text(t, rows[i], total));
        lemma_rows_are_strung_together(t, rows, total, (n - 1) as nat);
        assert(all =~= less.push(row_text(t, rows[n - 1], total)));
        less.lemma_flatten_push(row_text(t, rows[n - 1], total));
    }
}

/// A table shows, between its head with the rule under it and its end, its first rows, one by
/// one: fifty at most by size, thirty at most otherwise, and all of them where there are fewer.
pub proof fn tables_show_their_first_rows(t: Table, rows: Seq<RowModel>, total: nat)
    ensures
        ({
            let most: int = if t == Table::BySize {
                50
            } else {
                30
            };
            let n = if rows.len() <= most {
                rows.len()
            } else {
                most as nat
            };
            let dashes: nat = match t {
                Table::BySize => 86,
                Table::ByCount => 75,
                Table::Detached => 70,
                Table::Suspicious => 105,
            };
            block(t, rows, total) == "```\n"@ + (head_text(t) + "\n"@) + (Seq::new(
                dashes,
                |i: int| '-',
            ) + "\n"@) + Seq::new(n, |i: int| row_text(t, rows[i], total)).flatten() + "```\n"@
        }),
{
    let most: int = if t == Table::BySize {
        50
    } else {
        30
    };
    let n = if rows.len() <= most {
        rows.len()
    } else {
        most as nat
    };
    lemma_rows_are_strung_together(t, rows, total, n);
    reveal_strlit("```");
    reveal_strlit("```\n");
    assert(line("```"@) =~= "```\n"@);
    lines_end_with_a_line_feed(head_text(t));
    lines_end_with_a_line_feed(repeated('-', rule_width(t)));
    assert(repeated('-', rule_width(t)) =~= Seq::new(rule_width(t), |i: int| '-'));
}

/// One of the first rows of a table is in its text.
proof fn lemma_row_occurs(t: Table, rows: Seq<RowModel>, total: nat, n: nat, r: int)
    requires
        0 <= r < n,
    ensures
        occurs(row_text(t, rows[r], total), rows_text(t, rows, total, n)),
    decreases n,
{
    let row = row_text(t, rows[r], total);
    let before = rows_text(t, rows, total, (n - 1) as nat);
    let last = row_text(t, rows[n - 1], total);
    if r == n - 1 {
        lemma_occurs_between(row, before, Seq::empty());
        assert(before + row + Seq::empty() =~= before + last);
    } else {
        lemma_row_occurs(t, rows, total, (n - 1) as nat, r);
        lemma_occurs_inside(row, Seq::empty(), before, last);
        assert(Seq::empty() + before + last =~= before + last);
    }
}

proof fn lemma_occurs_between(needle: Seq<char>, front: Seq<char>, back: Seq<char>)
    ensures
        occurs(needle, front + needle + back),
{
    what_occurs_has_a_front_and_a_back(needle, front + needle + back);
}

proof fn lemma_occurs_inside(needle: Seq<char>, front: Seq<char>, hay: Seq<char>, back: Seq<char>)
    requires
        occurs(needle, hay),
    ensures
        occurs(needle, front + hay + back),
{
    let at = choose|at: int| stands_at(needle, hay, at);
    let all = front + hay + back;
    let p = front.len() + at;
    assert(all.subrange(p, p + needle.len()) =~= hay.subrange(at, at + needle.len()));
    assert(stands_at(needle, all, p));
}

/// Each of the first rows of a table stands in it: of the first fifty by size, of the first
/// thirty otherwise.
pub proof fn each_of_the_first_rows_is_in_its_table(
    t: Table,
    rows: Seq<RowModel>,
    total: nat,
    r: int,
)
    requires
        0 <= r < rows.len(),
        r < 30 || (r < 50 && t == Table::BySize),
    ensures
        occurs(row_text(t, rows[r], total), block(t, rows, total)),
{
    let most: int = if t == Table::BySize {
        50
    } else {
        30
    };
    let n = if rows.len() <= most {
        rows.len()
    } else {
        most as nat
    };
    let row = row_text(t, rows[r], total);
    lemma_row_occurs(t, rows, total, n, r);
    lemma_rows_are_strung_together(t, rows, total, n);
    tables_show_their_first_rows(t, rows, total);
    let dashes: nat = match t {
        Table::BySize => 86,
        Table::ByCount => 75,
        Table::Detached => 70,
        Table::Suspicious => 105,
    };
    lemma_occurs_inside(
        row,
        "```\n"@ + (head_text(t) + "\n"@) + (Seq::new(dashes, |i: int| '-') + "\n"@),
        rows_text(t, rows, total, n),
        "```\n"@,
    );
}

/// A report begins with the name and the size of the file, the time, and the numbers of nodes,
/// edges and bytes.
pub proof fn report_begins_with_file_and_heap(
    s: SummaryModel,
    file_name: Seq<char>,
    file_size: nat,
    timestamp: nat,
)
    ensures
        head_section(s, file_name, file_size, timestamp) == "# Heap Snapshot Analysis\n\n"@ + (
        "**File:** "@ + file_name + " ("@ + one_decimal(megabyte_tenths(file_size)) + " MB)"@
            + "\n"@) + ("**Unix timestamp:** "@ + decimal(timestamp) + "\n"@) + ("**Nodes:** "@
            + decimal(s.node_count) + "\n"@) + ("**Edges:** "@ + decimal(s.edge_count) + "\n"@) + (
        "**Total shallow size:** "@ + bytes_text(s.total_size) + "\n"@) + "\n"@,
{
    reveal_strlit("");
    reveal_strlit("\n");
    reveal_strlit("# Heap Snapshot Analysis");
    reveal_strlit("# Heap Snapshot Analysis\n\n");
    assert(line(""@) =~= "\n"@);
    assert(titled("# Heap Snapshot Analysis"@) =~= "# Heap Snapshot Analysis\n\n"@);
    lines_end_with_a_line_feed(
        "**File:** "@ + file_name + " ("@ + one_decimal(megabyte_tenths(file_size)) + " MB)"@,
    );
    lines_end_with_a_line_feed("**Unix timestamp:** "@ + decimal(timestamp));
    lines_end_with_a_line_feed("**Nodes:** "@ + decimal(s.node_count));
    lines_end_with_a_line_feed("**Edges:** "@ + decimal(s.edge_count));
    lines_end_with_a_line_feed("**Total shallow size:** "@ + bytes_text(s.total_size));
}

/// The constructors by size and by count are shown under these titles.
pub proof fn constructors_are_shown_by_size_and_by_count(s: SummaryModel)
    ensures
        size_section(s) == "## Top 50 Constructors by Shallow Size\n\n"@ + block(
            Table::BySize,
            s.by_size,
            s.total_size,
        ) + "\n"@,
        count_section(s) == "## Top 30 Constructors by Instance Count\n\n"@ + block(
            Table::ByCount,
            s.by_count,
            s.total_size,
        ) + "\n"@,
{
    reveal_strlit("");
    reveal_strlit("\n");
    reveal_strlit("## Top 50 Constructors by Shallow Size");
    reveal_strlit("## Top 50 Constructors by Shallow Size\n\n");
    reveal_strlit("## Top 30 Constructors by Instance Count");
    reveal_strlit("## Top 30 Constructors by Instance Count\n\n");
    assert(line(""@) =~= "\n"@);
    assert(titled("## Top 50 Constructors by Shallow Size"@)
        =~= "## Top 50 Constructors by Shallow Size\n\n"@);
    assert(titled("## Top 30 Constructors by Instance Count"@)
        =~= "## Top 30 Constructors by Instance Count\n\n"@);
}

/// What is detached is shown in all, with its share of the heap, and by label; where nothing is
/// detached, a line says so in place of the table.
pub proof fn detached_nodes_are_shown(s: SummaryModel)
    ensures
        ({
            let top = "## Detached DOM / Native Nodes\n\n"@ + (
            "**Total detached shallow size:** "@ + bytes_text(s.detached_size) + " ("@
                + share_text(s.detached_size, s.total_size) + " of heap)"@ + "\n\n"@);
            let none =
                "_No detached nodes found (or detachedness field absent in this snapshot version)._"@;
            &&& s.detached.len() > 0 ==> detached_section(s) == top + block(
                Table::Detached,
                s.detached,
                s.total_size,
            ) + "\n"@
            &&& s.detached.len() == 0 ==> detached_section(s) == top + (none + "\n"@) + "\n"@
        }),
{
    reveal_strlit("");
    reveal_strlit("\n");
    reveal_strlit("\n\n");
    reveal_strlit("## Detached DOM / Native Nodes");
    reveal_strlit("## Detached DOM / Native Nodes\n\n");
    assert(line(""@) =~= "\n"@);
    assert(titled("## Detached DOM / Native Nodes"@) =~= "## Detached DOM / Native Nodes\n\n"@);
    let total = "**Total detached shallow size:** "@ + bytes_text(s.detached_size) + " ("@
        + share_text(s.detached_size, s.total_size) + " of heap)"@;
    assert(titled(total) =~= total + "\n\n"@);
    lines_end_with_a_line_feed(
        "_No detached nodes found (or detachedness field absent in this snapshot version)._"@,
    );
}

/// The suspicious constructors are shown; where there are none, a line says so.
pub proof fn suspicious_constructors_are_shown(s: SummaryModel)
    ensures
        s.suspicious.len() > 0 ==> suspicious_section(s)
            == "## Framework / Suspicious Constructors\n\n"@ + block(
            Table::Suspicious,
            s.suspicious,
            s.total_size,
        ) + "\n"@,
        s.suspicious.len() == 0 ==> suspicious_section(s)
            == "## Framework / Suspicious Constructors\n\n"@
            + "_No framework-specific constructors detected._\n"@ + "\n"@,
{
    reveal_strlit("");
    reveal_strlit("\n");
    reveal_strlit("## Framework / Suspicious Constructors");
    reveal_strlit("## Framework / Suspicious Constructors\n\n");
    reveal_strlit("_No framework-specific constructors detected._");
    reveal_strlit("_No framework-specific constructors detected._\n");
    assert(line(""@) =~= "\n"@);
    assert(titled("## Framework / Suspicious Constructors"@)
        =~= "## Framework / Suspicious Constructors\n\n"@);
    assert(line("_No framework-specific constructors detected._"@)
        =~= "_No framework-specific constructors detected._\n"@);
}

/// Each of the first fifty constructors by size, and each of the first thirty by count, of the
/// first thirty labels of detached nodes and of the first thirty suspicious constructors has its
/// row in the section that is about it.
pub proof fn sections_show_their_first_rows(s: SummaryModel, r: int)
    requires
        r >= 0,
    ensures
        r < 50 && r < s.by_size.len() ==> occurs(
            row_text(Table::BySize, s.by_size[r], s.total_size),
            size_section(s),
        ),
        r < 30 && r < s.by_count.len() ==> occurs(
            row_text(Table::ByCount, s.by_count[r], s.total_size),
            count_section(s),
        ),
        r < 30 && r < s.detached.len() ==> occurs(
            row_text(Table::Detached, s.detached[r], s.total_size),
            detached_section(s),
        ),
        r < 30 && r < s.suspicious.len() ==> occurs(
            row_text(Table::Suspicious, s.suspicious[r], s.total_size),
            suspicious_section(s),
        ),
{
    constructors_are_shown_by_size_and_by_count(s);
    detached_nodes_are_shown(s);
    suspicious_constructors_are_shown(s);
    if r < 50 && r < s.by_size.len() {
        each_of_the_first_rows_is_in_its_table(Table::BySize, s.by_size, s.total_size, r);
        lemma_occurs_inside(
            row_text(Table::BySize, s.by_size[r], s.total_size),
            "## Top 50 Constructors by Shallow Size\n\n"@,
            block(Table::BySize, s.by_size, s.total_size),
            "\n"@,
        );
    }
    if r < 30 && r < s.by_count.len() {
        each_of_the_first_rows_is_in_its_table(Table::ByCount, s.by_count, s.total_size, r);
        lemma_occurs_inside(
            row_text(Table::ByCount, s.by_count[r], s.total_size),
            "## Top 30 Constructors by Instance Count\n\n"@,
            block(Table::ByCount, s.by_count, s.total_size),
            "\n"@,
        );
    }
    if r < 30 && r < s.detached.len() {
        each_of_the_first_rows_is_in_its_table(Table::Detached, s.detached, s.total_size, r);
        lemma_occurs_inside(
            row_text(Table::Detached, s.detached[r], s.total_size),
            "## Detached DOM / Native Nodes\n\n"@ + ("**Total detached shallow size:** "@
                + bytes_text(s.detached_size) + " ("@ + share_text(s.detached_size, s.total_size)
                + " of heap)"@ + "\n\n"@),
            block(Table::Detached, s.detached, s.total_size),
            "\n"@,
        );
    }
    if r < 30 && r < s.suspicious.len() {
        each_of_the_first_rows_is_in_its_table(Table::Suspicious, s.suspicious, s.total_size, r);
        lemma_occurs_inside(
            row_text(Table::Suspicious, s.suspicious[r], s.total_size),
            "## Framework / Suspicious Constructors\n\n"@,
            block(Table::Suspicious, s.suspicious, s.total_size),
            "\n"@,
        );
    }
}

proof fn lemma_paths_are_strung_together(paths: Seq<Seq<char>>, n: nat)
    ensures
        paths_text(paths, n) == Seq::new(
            n,
            |i: int| decimal((i + 1) as nat) + ". `"@ + paths[i] + "`\n"@,
        ).flatten(),
    decreases n,
{
    let all = Seq::new(n, |i: int| decimal((i + 1) as nat) + ". `"@ + paths[i] + "`\n"@);
    if n > 0 {
        let less = Seq::new(
            (n - 1) as nat,
            |i: int| decimal((i + 1) as nat) + ". `"@ + paths[i] + "`\n"@,
        );
        let last = decimal(n) + ". `"@ + paths[n - 1] + "`\n"@;
        lemma_paths_are_strung_together(paths, (n - 1) as nat);
        assert(all =~= less.push(last));
        less.lemma_flatten_push(last);
        reveal_strlit("`");
        reveal_strlit("`\n");
        assert(line(decimal(n) + ". `"@ + paths[n - 1] + "`"@) =~= last);
    }
}

/// The retaining paths are shown one by one, numbered from 1; where there are none, or where the
/// heap is too large for them, a line says so.
pub proof fn paths_are_shown_one_by_one(s: SummaryModel)
    ensures
        ({
            let title = "## Sample Retaining Paths (Detached Nodes → GC Root)\n\n"@;
            match s.paths {
                Some(paths) => {
                    &&& paths.len() > 0 ==> paths_section(s) == title + Seq::new(
                        paths.len(),
                        |i: int| decimal((i + 1) as nat) + ". `"@ + paths[i] + "`\n"@,
                    ).flatten() + "\n"@
                    &&& paths.len() == 0 ==> paths_section(s) == title
                        + "_No detached object/native nodes sampled._\n"@ + "\n"@
                },
                None => paths_section(s) == title + ("_Skipped: "@ + decimal(s.node_count)
                    + " nodes exceeds 5M limit for reverse-graph build._"@ + "\n"@ + (
                "_Use Chrome DevTools Retainers panel for top suspects above._"@ + "\n"@)) + "\n"@,
            }
        }),
{
    reveal_strlit("");
    reveal_strlit("\n");
    reveal_strlit("## Sample Retaining Paths (Detached Nodes → GC Root)");
    reveal_strlit("## Sample Retaining Paths (Detached Nodes → GC Root)\n\n");
    assert(line(""@) =~= "\n"@);
    assert(titled("## Sample Retaining Paths (Detached Nodes → GC Root)"@)
        =~= "## Sample Retaining Paths (Detached Nodes → GC Root)\n\n"@);
    match s.paths {
        Some(paths) => {
            reveal_strlit("_No detached object/native nodes sampled._");
            reveal_strlit("_No detached object/native nodes sampled._\n");
            assert(line("_No detached object/native nodes sampled._"@)
                =~= "_No detached object/native nodes sampled._\n"@);
            lemma_paths_are_strung_together(paths, paths.len());
        },
        None => {
            lines_end_with_a_line_feed(
                "_Skipped: "@ + decimal(s.node_count)
                    + " nodes exceeds 5M limit for reverse-graph build._"@,
            );
            lines_end_with_a_line_feed(
                "_Use Chrome DevTools Retainers panel for top suspects above._"@,
            );
        },
    }
}

/// Each hint that is given is a line, in this order; two lines on what to do next are always
/// there.
pub proof fn hints_are_shown_in_their_order(s: SummaryModel)
    ensures
        ({
            let vnodes = if s.hints.vnodes {
                "- **Vue VNode/Component objects prominent** — component instances likely not released after unmount/route change. Audit composables for missing `onUnmounted` cleanup; check global stores retaining VNode or component refs."@
                    + "\n"@
            } else {
                Seq::empty()
            };
            let listeners = if s.hints.listeners {
                "- **EventListener/Subscription objects present** — audit `addEventListener`, event bus `.on()`, Pinia/Vuex `$subscribe`, RxJS subscriptions, mitt emitters. All must be removed in `onUnmounted`."@
                    + "\n"@
            } else {
                Seq::empty()
            };
            let detached = if s.hints.large_detached {
                "- **Detached DOM: "@ + bytes_text(s.detached_size)
                    + "** — DOM removed from tree but JS still holds references. Common causes: tooltip/modal/portal/chart/editor instances not destroyed, `v-if` removing without cleanup."@
                    + "\n"@
            } else {
                Seq::empty()
            };
            let arrays = if s.hints.big_arrays {
                "- **Large (array) shallow size: "@ + bytes_text(s.array_size)
                    + "** — investigate growing caches, history stacks, event listener registries, render queues. Look for unbounded push without eviction."@
                    + "\n"@
            } else {
                Seq::empty()
            };
            let proxies = if s.hints.proxies {
                "- **Reactive/Proxy objects present** — Vue 3 reactive objects in memory. Check if reactive state persists beyond component lifecycle (e.g. module-level `reactive()`, composables created outside setup)."@
                    + "\n"@
            } else {
                Seq::empty()
            };
            let stores = if s.hints.stores {
                "- **Store/Cache/Registry objects present** — verify stores flush stale entries. Pinia stores with `$patch` history or cached query results can grow unbounded."@
                    + "\n"@
            } else {
                Seq::empty()
            };
            let next =
                "- **Next step:** Take a baseline snapshot, repeat the leaking action 5×, force GC, take second snapshot. Use DevTools **Comparison** view sorted by retained size delta."@;
            let tools =
                "- **In DevTools:** Expand top suspicious constructor → select an instance → inspect **Retainers** panel to find exact holding reference chain."@;
            hints_section(s) == "## Auto-detected Pattern Hints\n\n"@ + vnodes + listeners
                + detached + arrays + proxies + stores + (next + "\n"@) + (tools + "\n"@) + "\n"@
        }),
{
    reveal_strlit("");
    reveal_strlit("\n");
    reveal_strlit("## Auto-detected Pattern Hints");
    reveal_strlit("## Auto-detected Pattern Hints\n\n");
    assert(line(""@) =~= "\n"@);
    assert(titled("## Auto-detected Pattern Hints"@) =~= "## Auto-detected Pattern Hints\n\n"@);
    assert forall|text: Seq<char>| #[trigger] line(text) == text + "\n"@ by {
        lines_end_with_a_line_feed(text);
    }
}

/// Seven texts are strung together one by one.
proof fn lemma_seven_parts(
    a: Seq<char>,
    b: Seq<char>,
    c: Seq<char>,
    d: Seq<char>,
    e: Seq<char>,
    f: Seq<char>,
    g: Seq<char>,
)
    ensures
        seq![a, b, c, d, e, f, g].flatten() == a + b + c + d + e + f + g,
{
    let parts = seq![a, b, c, d, e, f, g];
    parts.lemma_flatten_and_flatten_alt_are_equivalent();
    reveal_with_fuel(Seq::flatten_alt, 8);
    assert(parts.flatten_alt() =~= a + b + c + d + e + f + g);
}

/// A report has these seven parts, in this order.
pub proof fn report_has_seven_parts(
    s: SummaryModel,
    file_name: Seq<char>,
    file_size: nat,
    timestamp: nat,
)
    ensures
        report_text(s, file_name, file_size, timestamp) == seq![
            head_section(s, file_name, file_size, timestamp),
            size_section(s),
            count_section(s),
            detached_section(s),
            suspicious_section(s),
            paths_section(s),
            hints_section(s),
        ].flatten(),
{
    lemma_seven_parts(
        head_section(s, file_name, file_size, timestamp),
        size_section(s),
        count_section(s),
        detached_section(s),
        suspicious_section(s),
        paths_section(s),
        hints_section(s),
    );
}

} // verus!
