//! The report on a heap, in Markdown.
use vstd::prelude::*;
use vstd::string::*;
use crate::figures::{bytes_text, fmt_bytes, megabyte_tenths, megabytes};
use crate::figures::{one_decimal, pct, share_text};
use crate::summary::{arranged, is_order, Summary, SummaryModel};
use crate::tally::{row_models, Row, RowModel};
use crate::text::{decimal, flush_left, flush_right, push_left, push_repeated, push_right};
use crate::text::{repeated, texts, to_decimal};
use crate::truncation::{cut, truncate};

verus! {

/// The rows of the table by shallow size.
pub const TOP_BY_SIZE: usize = 50;

/// The rows of every other table.
pub const TOP_ROWS: usize = 30;

/// A text with the end of its line.
pub open spec fn line(text: Seq<char>) -> Seq<char> {
    text.push('\n')
}

/// The columns that every table has: a name at the left of `width` characters, a count and a
/// size.
pub open spec fn main_cells(
    name: Seq<char>,
    width: nat,
    count: Seq<char>,
    size: Seq<char>,
) -> Seq<char> {
    flush_left(name, width) + " "@ + flush_right(count, 8) + "  "@ + flush_right(size, 12)
}

/// A further column of a table.
pub open spec fn more_cell(text: Seq<char>, width: nat) -> Seq<char> {
    "  "@ + flush_right(text, width)
}

/// The tables of a report.
#[derive(Clone, Copy, Debug, PartialEq, Eq, Structural)]
pub enum Table {
    /// The constructors by shallow size.
    BySize,
    /// The constructors by count.
    ByCount,
    /// The detached nodes.
    Detached,
    /// The suspicious constructors.
    Suspicious,
}

/// The width of the names in a table.
pub open spec fn name_width(t: Table) -> nat {
    if t == Table::Detached {
        46
    } else {
        52
    }
}

/// The head of a table.
pub open spec fn head_text(t: Table) -> Seq<char> {
    match t {
        Table::BySize => main_cells("Constructor"@, 52, "Count"@, "ShallowSize"@) + more_cell(
            "%Total"@,
            7,
        ),
        Table::ByCount => main_cells("Constructor"@, 52, "Count"@, "ShallowSize"@),
        Table::Detached => main_cells("Detached type"@, 46, "Count"@, "ShallowSize"@),
        Table::Suspicious => main_cells("Constructor"@, 52, "Count"@, "ShallowSize"@) + more_cell(
            "DetachedCount"@,
            14,
        ) + more_cell("DetachedSize"@, 12),
    }
}

/// The dashes under the head of a table.
pub open spec fn rule_width(t: Table) -> nat {
    match t {
        Table::BySize => 86,
        Table::ByCount => 75,
        Table::Detached => 70,
        Table::Suspicious => 105,
    }
}

/// The most rows that a table shows.
pub open spec fn row_limit(t: Table) -> nat {
    match t {
        Table::BySize => TOP_BY_SIZE as nat,
        _ => TOP_ROWS as nat,
    }
}

/// A row of a table, for a heap of `total` bytes. A name is cut to leave a space behind it.
pub open spec fn row_text(t: Table, r: RowModel, total: nat) -> Seq<char> {
    let cells = main_cells(
        cut(r.name, (name_width(t) - 1) as nat),
        name_width(t),
        decimal(r.stats.count),
        bytes_text(r.stats.shallow),
    );
    match t {
        Table::BySize => line(cells + more_cell(share_text(r.stats.shallow, total), 7)),
        Table::ByCount => line(cells),
        Table::Detached => line(cells),
        Table::Suspicious => line(
            cells + more_cell(decimal(r.stats.det_count), 14) + more_cell(
                bytes_text(r.stats.det_size),
                12,
            ),
        ),
    }
}

/// The first `n` rows of a table.
pub open spec fn rows_text(t: Table, rows: Seq<RowModel>, total: nat, n: nat) -> Seq<char>
    decreases n,
{
    if n == 0 {
        Seq::empty()
    } else {
        rows_text(t, rows, total, (n - 1) as nat) + row_text(t, rows[n - 1], total)
    }
}

/// The lesser of two numbers.
pub open spec fn at_most(n: nat, limit: nat) -> nat {
    if n <= limit {
        n
    } else {
        limit
    }
}

/// A table in a block of code: its head, a rule, and its first rows.
pub open spec fn block(t: Table, rows: Seq<RowModel>, total: nat) -> Seq<char> {
    line("```"@) + line(head_text(t)) + line(repeated('-', rule_width(t))) + rows_text(
        t,
        rows,
        total,
        at_most(rows.len(), row_limit(t)),
    ) + line("```"@)
}

/// The title and an empty line.
pub open spec fn titled(title: Seq<char>) -> Seq<char> {
    line(title) + line(""@)
}

/// The beginning of a report.
pub open spec fn head_section(
    s: SummaryModel,
    file_name: Seq<char>,
    file_size: nat,
    timestamp: nat,
) -> Seq<char> {
    titled("# Heap Snapshot Analysis"@) + line(
        "**File:** "@ + file_name + " ("@ + one_decimal(megabyte_tenths(file_size)) + " MB)"@,
    ) + line("**Unix timestamp:** "@ + decimal(timestamp)) + line(
        "**Nodes:** "@ + decimal(s.node_count),
    ) + line("**Edges:** "@ + decimal(s.edge_count)) + line(
        "**Total shallow size:** "@ + bytes_text(s.total_size),
    ) + line(""@)
}

/// The constructors by shallow size.
pub open spec fn size_section(s: SummaryModel) -> Seq<char> {
    titled("## Top 50 Constructors by Shallow Size"@) + block(
        Table::BySize,
        s.by_size,
        s.total_size,
    ) + line(""@)
}

/// The constructors by count.
pub open spec fn count_section(s: SummaryModel) -> Seq<char> {
    titled("## Top 30 Constructors by Instance Count"@) + block(
        Table::ByCount,
        s.by_count,
        s.total_size,
    ) + line(""@)
}

/// The detached nodes.
pub open spec fn detached_section(s: SummaryModel) -> Seq<char> {
    titled("## Detached DOM / Native Nodes"@) + titled(
        "**Total detached shallow size:** "@ + bytes_text(s.detached_size) + " ("@ + share_text(
            s.detached_size,
            s.total_size,
        ) + " of heap)"@,
    ) + (if s.detached.len() == 0 {
        line(
            "_No detached nodes found (or detachedness field absent in this snapshot version)._"@,
        )
    } else {
        block(Table::Detached, s.detached, s.total_size)
    }) + line(""@)
}

/// The suspicious constructors.
pub open spec fn suspicious_section(s: SummaryModel) -> Seq<char> {
    titled("## Framework / Suspicious Constructors"@) + (if s.suspicious.len() == 0 {
        line("_No framework-specific constructors detected._"@)
    } else {
        block(Table::Suspicious, s.suspicious, s.total_size)
    }) + line(""@)
}

/// The first `n` paths, numbered from 1.
pub open spec fn paths_text(paths: Seq<Seq<char>>, n: nat) -> Seq<char>
    decreases n,
{
    if n == 0 {
        Seq::empty()
    } else {
        paths_text(paths, (n - 1) as nat) + line(
            decimal(n) + ". `"@ + paths[n - 1] + "`"@,
        )
    }
}

/// The retaining paths.
pub open spec fn paths_section(s: SummaryModel) -> Seq<char> {
    titled("## Sample Retaining Paths (Detached Nodes → GC Root)"@) + (match s.paths {
        None => line(
            "_Skipped: "@ + decimal(s.node_count)
                + " nodes exceeds 5M limit for reverse-graph build._"@,
        ) + line("_Use Chrome DevTools Retainers panel for top suspects above._"@),
        Some(paths) => if paths.len() == 0 {
            line("_No detached object/native nodes sampled._"@)
        } else {
            paths_text(paths, paths.len())
        },
    }) + line(""@)
}

/// A line that is there on a condition.
pub open spec fn line_if(condition: bool, text: Seq<char>) -> Seq<char> {
    if condition {
        line(text)
    } else {
        Seq::empty()
    }
}

pub const VNODE_HINT: &'static str = "- **Vue VNode/Component objects prominent** — component instances likely not released after unmount/route change. Audit composables for missing `onUnmounted` cleanup; check global stores retaining VNode or component refs.";

pub const LISTENER_HINT: &'static str = "- **EventListener/Subscription objects present** — audit `addEventListener`, event bus `.on()`, Pinia/Vuex `$subscribe`, RxJS subscriptions, mitt emitters. All must be removed in `onUnmounted`.";

pub const DETACHED_HINT: &'static str = "** — DOM removed from tree but JS still holds references. Common causes: tooltip/modal/portal/chart/editor instances not destroyed, `v-if` removing without cleanup.";

pub const ARRAY_HINT: &'static str = "** — investigate growing caches, history stacks, event listener registries, render queues. Look for unbounded push without eviction.";

pub const PROXY_HINT: &'static str = "- **Reactive/Proxy objects present** — Vue 3 reactive objects in memory. Check if reactive state persists beyond component lifecycle (e.g. module-level `reactive()`, composables created outside setup).";

pub const STORE_HINT: &'static str = "- **Store/Cache/Registry objects present** — verify stores flush stale entries. Pinia stores with `$patch` history or cached query results can grow unbounded.";

pub const NEXT_STEP: &'static str = "- **Next step:** Take a baseline snapshot, repeat the leaking action 5×, force GC, take second snapshot. Use DevTools **Comparison** view sorted by retained size delta.";

pub const IN_DEVTOOLS: &'static str = "- **In DevTools:** Expand top suspicious constructor → select an instance → inspect **Retainers** panel to find exact holding reference chain.";

/// The hints.
pub open spec fn hints_section(s: SummaryModel) -> Seq<char> {
    titled("## Auto-detected Pattern Hints"@) + line_if(s.hints.vnodes, VNODE_HINT@) + line_if(
        s.hints.listeners,
        LISTENER_HINT@,
    ) + line_if(
        s.hints.large_detached,
        "- **Detached DOM: "@ + bytes_text(s.detached_size) + DETACHED_HINT@,
    ) + line_if(
        s.hints.big_arrays,
        "- **Large (array) shallow size: "@ + bytes_text(s.array_size) + ARRAY_HINT@,
    ) + line_if(s.hints.proxies, PROXY_HINT@) + line_if(s.hints.stores, STORE_HINT@) + line(
        NEXT_STEP@,
    ) + line(IN_DEVTOOLS@) + line(""@)
}

/// The report on a heap.
pub open spec fn report_text(
    s: SummaryModel,
    file_name: Seq<char>,
    file_size: nat,
    timestamp: nat,
) -> Seq<char> {
    head_section(s, file_name, file_size, timestamp) + size_section(s) + count_section(s)
        + detached_section(s) + suspicious_section(s) + paths_section(s) + hints_section(s)
}

/// Appends a line.
fn push_line(out: &mut String, text: &str)
    ensures
        final(out)@ == old(out)@ + line(text@),
{
    let ghost start = out@;
    out.append(text);
    out.push('\n');
    proof {
        assert(out@ =~= start + line(text@));
    }
}

/// Appends a title and an empty line.
fn push_titled(out: &mut String, title: &str)
    ensures
        final(out)@ == old(out)@ + titled(title@),
{
    let ghost start = out@;
    push_line(out, title);
    push_line(out, "");
    proof {
        assert(out@ =~= start + titled(title@));
    }
}

/// Appends a line made of two texts.
fn push_labelled(out: &mut String, label: &str, value: &str)
    ensures
        final(out)@ == old(out)@ + line(label@ + value@),
{
    let ghost start = out@;
    out.append(label);
    out.append(value);
    out.push('\n');
    proof {
        assert(out@ =~= start + line(label@ + value@));
    }
}

/// Appends the columns that every table has.
fn push_main_cells(out: &mut String, name: &str, width: usize, count: &str, size: &str)
    ensures
        final(out)@ == old(out)@ + main_cells(name@, width as nat, count@, size@),
{
    let ghost start = out@;
    push_left(out, name, width);
    out.append(" ");
    push_right(out, count, 8);
    out.append("  ");
    push_right(out, size, 12);
    proof {
        assert(out@ =~= start + main_cells(name@, width as nat, count@, size@));
    }
}

/// Appends a further column.
fn push_more_cell(out: &mut String, text: &str, width: usize)
    ensures
        final(out)@ == old(out)@ + more_cell(text@, width as nat),
{
    let ghost start = out@;
    out.append("  ");
    push_right(out, text, width);
    proof {
        assert(out@ =~= start + more_cell(text@, width as nat));
    }
}

/// Appends the head of a table and the rule under it.
fn push_head(out: &mut String, t: Table)
    ensures
        final(out)@ == old(out)@ + (line(head_text(t)) + line(repeated('-', rule_width(t)))),
{
    let ghost start = out@;
    match t {
        Table::Detached => {
            push_main_cells(out, "Detached type", 46, "Count", "ShallowSize");
        },
        _ => {
            push_main_cells(out, "Constructor", 52, "Count", "ShallowSize");
        },
    }
    match t {
        Table::BySize => {
            push_more_cell(out, "%Total", 7);
        },
        Table::Suspicious => {
            push_more_cell(out, "DetachedCount", 14);
            push_more_cell(out, "DetachedSize", 12);
        },
        _ => {},
    }
    proof {
        assert(out@ =~= start + head_text(t));
    }
    out.push('\n');
    let dashes: usize = match t {
        Table::BySize => 86,
        Table::ByCount => 75,
        Table::Detached => 70,
        Table::Suspicious => 105,
    };
    push_repeated(out, '-', dashes);
    out.push('\n');
    proof {
        assert(out@ =~= start + (line(head_text(t)) + line(repeated('-', rule_width(t)))));
    }
}

/// Appends a row of a table, for a heap of `total` bytes.
fn push_row(out: &mut String, t: Table, row: &Row, total: u64)
    ensures
        final(out)@ == old(out)@ + row_text(t, row@, total as nat),
{
    let ghost start = out@;
    let width: usize = match t {
        Table::Detached => 46,
        _ => 52,
    };
    push_main_cells(
        out,
        truncate(row.name.as_str(), width - 1),
        width,
        to_decimal(row.stats.count as u128).as_str(),
        fmt_bytes(row.stats.shallow).as_str(),
    );
    match t {
        Table::BySize => {
            push_more_cell(out, pct(row.stats.shallow, total).as_str(), 7);
        },
        Table::Suspicious => {
            push_more_cell(out, to_decimal(row.stats.det_count as u128).as_str(), 14);
            push_more_cell(out, fmt_bytes(row.stats.det_size).as_str(), 12);
        },
        _ => {},
    }
    out.push('\n');
    proof {
        assert(out@ =~= start + row_text(t, row@, total as nat));
    }
}

/// Appends a table: its first rows in an order, for a heap of `total` bytes.
fn push_block(out: &mut String, t: Table, rows: &Vec<Row>, order: &Vec<usize>, total: u64)
    requires
        is_order(order@, rows@.len()),
    ensures
        final(out)@ == old(out)@ + block(t, arranged(row_models(rows@), order@), total as nat),
{
    let ghost start = out@;
    let ghost shown = arranged(row_models(rows@), order@);
    push_line(out, "```");
    push_head(out, t);
    let limit: usize = match t {
        Table::BySize => TOP_BY_SIZE,
        _ => TOP_ROWS,
    };
    let n: usize = if order.len() <= limit { order.len() } else { limit };
    let ghost headed = out@;
    let mut i: usize = 0;
    proof {
        assert(headed + rows_text(t, shown, total as nat, 0) =~= headed);
    }
    while i < n
        invariant
            i <= n <= order@.len(),
            is_order(order@, rows@.len()),
            shown == arranged(row_models(rows@), order@),
            out@ == headed + rows_text(t, shown, total as nat, i as nat),
        decreases n - i,
    {
        push_row(out, t, &rows[order[i]], total);
        proof {
            assert(shown[i as int] == rows@[order@[i as int] as int]@);
            assert(out@ =~= headed + rows_text(t, shown, total as nat, (i + 1) as nat));
        }
        i = i + 1;
    }
    push_line(out, "```");
    proof {
        assert(out@ =~= start + block(t, shown, total as nat));
    }
}

/// Appends the beginning of a report.
fn push_head_section(
    out: &mut String,
    s: &Summary,
    file_name: &str,
    file_size: u64,
    timestamp: u64,
)
    ensures
        final(out)@ == old(out)@ + head_section(
            s@,
            file_name@,
            file_size as nat,
            timestamp as nat,
        ),
{
    let ghost start = out@;
    push_titled(out, "# Heap Snapshot Analysis");
    out.append("**File:** ");
    out.append(file_name);
    out.append(" (");
    out.append(megabytes(file_size).as_str());
    out.append(" MB)");
    out.push('\n');
    proof {
        assert(out@ =~= start + (titled("# Heap Snapshot Analysis"@) + line(
            "**File:** "@ + file_name@ + " ("@ + one_decimal(megabyte_tenths(file_size as nat))
                + " MB)"@,
        )));
    }
    push_labelled(out, "**Unix timestamp:** ", to_decimal(timestamp as u128).as_str());
    push_labelled(out, "**Nodes:** ", to_decimal(s.node_count as u128).as_str());
    push_labelled(out, "**Edges:** ", to_decimal(s.edge_count as u128).as_str());
    push_labelled(out, "**Total shallow size:** ", fmt_bytes(s.total_size).as_str());
    push_line(out, "");
    proof {
        assert(out@ =~= start + head_section(s@, file_name@, file_size as nat, timestamp as nat));
    }
}

/// Appends the constructors by shallow size.
fn push_size_section(out: &mut String, s: &Summary)
    requires
        s.wf(),
    ensures
        final(out)@ == old(out)@ + size_section(s@),
{
    let ghost start = out@;
    push_titled(out, "## Top 50 Constructors by Shallow Size");
    push_block(out, Table::BySize, &s.constructors, &s.by_size, s.total_size);
    push_line(out, "");
    proof {
        assert(out@ =~= start + size_section(s@));
    }
}

/// Appends the constructors by count.
fn push_count_section(out: &mut String, s: &Summary)
    requires
        s.wf(),
    ensures
        final(out)@ == old(out)@ + count_section(s@),
{
    let ghost start = out@;
    push_titled(out, "## Top 30 Constructors by Instance Count");
    push_block(out, Table::ByCount, &s.constructors, &s.by_count, s.total_size);
    push_line(out, "");
    proof {
        assert(out@ =~= start + count_section(s@));
    }
}

/// Appends the detached nodes.
fn push_detached_section(out: &mut String, s: &Summary)
    requires
        s.wf(),
    ensures
        final(out)@ == old(out)@ + detached_section(s@),
{
    let ghost start = out@;
    push_titled(out, "## Detached DOM / Native Nodes");
    let mut total = String::new();
    total.append("**Total detached shallow size:** ");
    total.append(fmt_bytes(s.detached_size).as_str());
    total.append(" (");
    total.append(pct(s.detached_size, s.total_size).as_str());
    total.append(" of heap)");
    proof {
        assert(total@ =~= "**Total detached shallow size:** "@ + bytes_text(s@.detached_size)
            + " ("@ + share_text(s@.detached_size, s@.total_size) + " of heap)"@);
    }
    push_titled(out, total.as_str());
    if s.detached_by_size.len() == 0 {
        push_line(
            out,
            "_No detached nodes found (or detachedness field absent in this snapshot version)._",
        );
    } else {
        push_block(out, Table::Detached, &s.detached, &s.detached_by_size, s.total_size);
    }
    push_line(out, "");
    proof {
        assert(out@ =~= start + detached_section(s@));
    }
}

/// Appends the suspicious constructors.
fn push_suspicious_section(out: &mut String, s: &Summary)
    requires
        s.wf(),
    ensures
        final(out)@ == old(out)@ + suspicious_section(s@),
{
    let ghost start = out@;
    push_titled(out, "## Framework / Suspicious Constructors");
    if s.suspicious.len() == 0 {
        push_line(out, "_No framework-specific constructors detected._");
    } else {
        push_block(out, Table::Suspicious, &s.constructors, &s.suspicious, s.total_size);
    }
    push_line(out, "");
    proof {
        assert(out@ =~= start + suspicious_section(s@));
    }
}

/// Appends numbered paths.
fn push_paths(out: &mut String, paths: &Vec<String>)
    ensures
        final(out)@ == old(out)@ + paths_text(texts(paths@), paths@.len()),
{
    let ghost start = out@;
    let ghost all = texts(paths@);
    let mut i: usize = 0;
    proof {
        assert(start + paths_text(all, 0) =~= start);
    }
    while i < paths.len()
        invariant
            i <= paths@.len(),
            all == texts(paths@),
            out@ == start + paths_text(all, i as nat),
        decreases paths@.len() - i,
    {
        let ghost so_far = out@;
        let number = to_decimal(i as u128 + 1);
        out.append(number.as_str());
        out.append(". `");
        out.append(paths[i].as_str());
        out.append("`");
        out.push('\n');
        proof {
            let n = (i + 1) as nat;
            let added = line(decimal(n) + ". `"@ + all[i as int] + "`"@);
            assert(out@ =~= so_far + added);
            assert(out@ =~= start + paths_text(all, n));
        }
        i = i + 1;
    }
}

/// Appends the retaining paths.
fn push_paths_section(out: &mut String, s: &Summary)
    ensures
        final(out)@ == old(out)@ + paths_section(s@),
{
    let ghost start = out@;
    push_titled(out, "## Sample Retaining Paths (Detached Nodes → GC Root)");
    match &s.paths {
        None => {
            out.append("_Skipped: ");
            out.append(to_decimal(s.node_count as u128).as_str());
            push_line(out, " nodes exceeds 5M limit for reverse-graph build._");
            push_line(out, "_Use Chrome DevTools Retainers panel for top suspects above._");
        },
        Some(paths) => {
            if paths.len() == 0 {
                push_line(out, "_No detached object/native nodes sampled._");
            } else {
                push_paths(out, paths);
            }
        },
    }
    push_line(out, "");
    proof {
        assert(out@ =~= start + paths_section(s@));
    }
}

/// Appends a line on a condition.
fn push_line_if(out: &mut String, condition: bool, text: &str)
    ensures
        final(out)@ == old(out)@ + line_if(condition, text@),
{
    let ghost start = out@;
    if condition {
        push_line(out, text);
    }
    proof {
        assert(out@ =~= start + line_if(condition, text@));
    }
}

/// A text made of three.
fn three(a: &str, b: &str, c: &str) -> (r: String)
    ensures
        r@ == a@ + b@ + c@,
{
    let mut out = String::new();
    out.append(a);
    out.append(b);
    out.append(c);
    proof {
        assert(out@ =~= a@ + b@ + c@);
    }
    out
}

/// The hints.
fn write_hints(s: &Summary) -> (r: String)
    ensures
        r@ == hints_section(s@),
{
    let mut out = String::new();
    let detached_size = fmt_bytes(s.detached_size);
    let array_size = fmt_bytes(s.array_size);
    push_titled(&mut out, "## Auto-detected Pattern Hints");
    proof {
        assert(out@ =~= titled("## Auto-detected Pattern Hints"@));
    }
    push_line_if(&mut out, s.hints.vnodes, VNODE_HINT);
    push_line_if(&mut out, s.hints.listeners, LISTENER_HINT);
    push_line_if(
        &mut out,
        s.hints.large_detached,
        three("- **Detached DOM: ", detached_size.as_str(), DETACHED_HINT).as_str(),
    );
    push_line_if(
        &mut out,
        s.hints.big_arrays,
        three("- **Large (array) shallow size: ", array_size.as_str(), ARRAY_HINT).as_str(),
    );
    push_line_if(&mut out, s.hints.proxies, PROXY_HINT);
    push_line_if(&mut out, s.hints.stores, STORE_HINT);
    push_line(&mut out, NEXT_STEP);
    push_line(&mut out, IN_DEVTOOLS);
    push_line(&mut out, "");
    out
}

/// Writes the report on a heap, given the name and the size of the snapshot's file and the time.
pub fn render(s: &Summary, file_name: &str, file_size: u64, timestamp: u64) -> (r: String)
    requires
        s.wf(),
    ensures
        r@ == report_text(s@, file_name@, file_size as nat, timestamp as nat),
{
    let mut out = String::new();
    push_head_section(&mut out, s, file_name, file_size, timestamp);
    push_size_section(&mut out, s);
    push_count_section(&mut out, s);
    push_detached_section(&mut out, s);
    push_suspicious_section(&mut out, s);
    push_paths_section(&mut out, s);
    out.append(write_hints(s).as_str());
    proof {
        assert(out@ =~= report_text(s@, file_name@, file_size as nat, timestamp as nat));
    }
    out
}

} // verus!
