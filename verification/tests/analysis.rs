use heap_analyzer::analysis::{analyze, report};
use heap_analyzer::heap::Heap;
use heap_analyzer::report::{
    ARRAY_HINT, DETACHED_HINT, IN_DEVTOOLS, LISTENER_HINT, NEXT_STEP, PROXY_HINT, STORE_HINT,
    VNODE_HINT,
};
use heap_analyzer::schema::{HeapMeta, HeapSnapshot, SnapshotSection};
use std::collections::HashMap;

const NODE_TYPES: [&str; 7] = [
    "hidden", "array", "object", "closure", "native", "regexp", "string",
];
const EDGE_TYPES: [&str; 3] = ["context", "property", "weak"];

fn strings(list: &[&str]) -> Vec<String> {
    list.iter().map(|s| s.to_string()).collect()
}

fn enumerated(list: &[&str]) -> Vec<serde_json::Value> {
    let items = list
        .iter()
        .map(|s| serde_json::Value::String(s.to_string()))
        .collect();
    vec![
        serde_json::Value::Array(items),
        serde_json::Value::String("string".to_string()),
    ]
}

/// A node: type, name, size, edges (type and target), detachedness.
struct Node {
    ty: u32,
    name: u32,
    size: u32,
    edges: Vec<(u32, u32)>,
    det: u32,
}

fn node(ty: u32, name: u32, size: u32, edges: &[(u32, u32)], det: u32) -> Node {
    Node { ty, name, size, edges: edges.to_vec(), det }
}

fn snapshot(list: &[Node], names: &[&str]) -> HeapSnapshot {
    let mut nodes = Vec::new();
    let mut edges = Vec::new();
    for (i, n) in list.iter().enumerate() {
        nodes.extend([n.ty, n.name, i as u32, n.size, n.edges.len() as u32, 0, n.det]);
        for (t, to) in &n.edges {
            edges.extend([*t, 0, to * 7]);
        }
    }
    HeapSnapshot {
        snapshot: SnapshotSection {
            meta: HeapMeta {
                node_fields: strings(&[
                    "type", "name", "id", "self_size", "edge_count", "trace_node_id",
                    "detachedness",
                ]),
                node_types: enumerated(&NODE_TYPES),
                edge_fields: strings(&["type", "name_or_index", "to_node"]),
                edge_types: enumerated(&EDGE_TYPES),
            },
        },
        nodes,
        edges,
        strings: strings(names),
    }
}

fn report_on(snap: &HeapSnapshot) -> String {
    let heap = Heap::of(snap);
    assert!(heap.is_readable());
    report(&heap, "x.heapsnapshot", 3_500_000, 1700000000)
}

/// The part of a report from one title to the next.
fn section<'a>(text: &'a str, title: &str) -> &'a str {
    let from = text.find(title).unwrap() + title.len();
    let to = text[from..].find("\n## ").map(|i| from + i + 1).unwrap_or(text.len());
    &text[from..to]
}

#[test]
fn an_empty_heap_has_a_full_report() {
    let snap = snapshot(&[], &[]);
    let expected = [
        "# Heap Snapshot Analysis".to_string(),
        "".to_string(),
        "**File:** x.heapsnapshot (3.3 MB)".to_string(),
        "**Unix timestamp:** 1700000000".to_string(),
        "**Nodes:** 0".to_string(),
        "**Edges:** 0".to_string(),
        "**Total shallow size:** 0 B".to_string(),
        "".to_string(),
        "## Top 50 Constructors by Shallow Size".to_string(),
        "".to_string(),
        "```".to_string(),
        format!("{:<52} {:>8}  {:>12}  {:>7}", "Constructor", "Count", "ShallowSize", "%Total"),
        "-".repeat(86),
        "```".to_string(),
        "".to_string(),
        "## Top 30 Constructors by Instance Count".to_string(),
        "".to_string(),
        "```".to_string(),
        format!("{:<52} {:>8}  {:>12}", "Constructor", "Count", "ShallowSize"),
        "-".repeat(75),
        "```".to_string(),
        "".to_string(),
        "## Detached DOM / Native Nodes".to_string(),
        "".to_string(),
        "**Total detached shallow size:** 0 B (0.0% of heap)".to_string(),
        "".to_string(),
        "_No detached nodes found (or detachedness field absent in this snapshot version)._"
            .to_string(),
        "".to_string(),
        "## Framework / Suspicious Constructors".to_string(),
        "".to_string(),
        "_No framework-specific constructors detected._".to_string(),
        "".to_string(),
        "## Sample Retaining Paths (Detached Nodes → GC Root)".to_string(),
        "".to_string(),
        "_No detached object/native nodes sampled._".to_string(),
        "".to_string(),
        "## Auto-detected Pattern Hints".to_string(),
        "".to_string(),
        "- **Next step:** Take a baseline snapshot, repeat the leaking action 5×, force GC, \
         take second snapshot. Use DevTools **Comparison** view sorted by retained size delta."
            .to_string(),
        "- **In DevTools:** Expand top suspicious constructor → select an instance → inspect \
         **Retainers** panel to find exact holding reference chain."
            .to_string(),
        "".to_string(),
        "".to_string(),
    ];
    assert_eq!(report_on(&snap), expected.join("\n"));
}

#[test]
fn constructors_are_counted_and_ordered() {
    let names = ["", "Map", "Window", "fn"];
    let snap = snapshot(
        &[
            node(0, 2, 8, &[], 0),     // (hidden), though it has a name
            node(2, 1, 100, &[], 0),   // Map
            node(2, 1, 50, &[], 0),    // Map
            node(4, 2, 4000, &[], 0),  // Window
            node(3, 0, 10, &[], 0),    // (closure), for want of a name
            node(1, 1, 7, &[], 0),     // (array)
            node(99, 3, 1, &[], 0),    // (?)
            node(5, 77, 1, &[], 0),    // (regexp), its name is missing
        ],
        &names,
    );
    let text = report_on(&snap);
    let rows: Vec<&str> = section(&text, "## Top 50 Constructors by Shallow Size")
        .lines()
        .skip(5)
        .take(7)
        .collect();
    let expected: Vec<String> = [
        ("Window", 1, "4 kB", "95.8%"),
        ("Map", 2, "150 B", "3.6%"),
        ("(closure)", 1, "10 B", "0.2%"),
        ("(hidden)", 1, "8 B", "0.2%"),
        ("(array)", 1, "7 B", "0.2%"),
        ("(?)", 1, "1 B", "0.0%"),
        ("(regexp)", 1, "1 B", "0.0%"),
    ]
    .iter()
    .map(|(n, c, s, p)| format!("{:<52} {:>8}  {:>12}  {:>7}", n, c, s, p))
    .collect();
    assert_eq!(rows, expected);
    assert!(text.contains("**Nodes:** 8\n"));
    assert!(text.contains("**Total shallow size:** 4 kB\n"));
    let first_by_count = section(&text, "## Top 30 Constructors by Instance Count")
        .lines()
        .nth(5)
        .unwrap();
    assert_eq!(first_by_count, format!("{:<52} {:>8}  {:>12}", "Map", 2, "150 B"));
}

#[test]
fn long_names_are_cut_in_tables() {
    let long = "日".repeat(30);
    let snap = snapshot(&[node(2, 0, 5, &[], 2)], &[long.as_str()]);
    let text = report_on(&snap);
    let shown = "日".repeat(17);
    assert!(text.contains(&format!("\n{:<52} {:>8}  {:>12}  {:>7}\n", shown, 1, "5 B", "100.0%")));
    let detached = format!("Detached {}", "日".repeat(12));
    assert!(text.contains(&format!("\n{:<46} {:>8}  {:>12}\n", detached, 1, "5 B")));
}

#[test]
fn detached_nodes_have_their_table() {
    let names = ["", "HTMLDivElement"];
    let snap = snapshot(
        &[
            node(4, 1, 30, &[], 2),
            node(4, 1, 40, &[], 2),
            node(4, 0, 500, &[], 2),
            node(4, 1, 430, &[], 1),
        ],
        &names,
    );
    let text = report_on(&snap);
    let s = section(&text, "## Detached DOM / Native Nodes");
    assert!(s.contains("**Total detached shallow size:** 570 B (57.0% of heap)\n"));
    let a = s.find(&format!("{:<46} {:>8}  {:>12}\n", "Detached (native)", 1, "500 B")).unwrap();
    let b = s
        .find(&format!("{:<46} {:>8}  {:>12}\n", "Detached HTMLDivElement", 2, "70 B"))
        .unwrap();
    assert!(a < b);
}

#[test]
fn suspicious_constructors_are_flagged() {
    let names = ["", "VueComponent", "Plain", "myProxyThing", "REF"];
    let snap = snapshot(
        &[
            node(2, 3, 10, &[], 2),
            node(2, 1, 10, &[], 0),
            node(2, 1, 20, &[], 2),
            node(2, 2, 10, &[], 0),
            node(2, 4, 10, &[], 0),
        ],
        &names,
    );
    let text = report_on(&snap);
    let rows: Vec<&str> = section(&text, "## Framework / Suspicious Constructors")
        .lines()
        .skip(3)
        .take(5)
        .collect();
    let head = format!(
        "{:<52} {:>8}  {:>12}  {:>14}  {:>12}",
        "Constructor", "Count", "ShallowSize", "DetachedCount", "DetachedSize"
    );
    let first = format!(
        "{:<52} {:>8}  {:>12}  {:>14}  {:>12}",
        "VueComponent", 2, "30 B", 1, "20 B"
    );
    let second = format!(
        "{:<52} {:>8}  {:>12}  {:>14}  {:>12}",
        "myProxyThing", 1, "10 B", 1, "10 B"
    );
    let rule = "-".repeat(105);
    assert_eq!(rows, vec![head.as_str(), &rule, &first, &second, "```"]);
    assert!(text.contains(VNODE_HINT));
    assert!(text.contains(PROXY_HINT));
    assert!(!text.contains(LISTENER_HINT));
    assert!(!text.contains(STORE_HINT));
}

#[test]
fn pinia_is_flagged() {
    let enumeration = |name: &str| enumerated(&[name]);
    let snap = HeapSnapshot {
        snapshot: SnapshotSection {
            meta: HeapMeta {
                node_fields: strings(&["type", "name", "self_size", "edge_count"]),
                node_types: enumeration("object"),
                edge_fields: strings(&["type", "name_or_index", "to_node"]),
                edge_types: enumeration("property"),
            },
        },
        nodes: vec![0, 0, 8, 0],
        edges: vec![],
        strings: strings(&["Pinia"]),
    };
    assert!(Heap::of(&snap).is_readable());
    let text = analyze(&snap, "p.heapsnapshot", 0);
    let row = format!("{:<52} {:>8}  {:>12}  {:>14}  {:>12}\n", "Pinia", 1, "8 B", 0, "0 B");
    assert!(section(&text, "## Framework / Suspicious Constructors").contains(&row));
    assert!(!text.contains("_No framework-specific constructors detected._"));
}

#[test]
fn hints_ignore_case() {
    let names = ["EVENTEMITTER", "dataStoreX", "ReactiVe"];
    let snap = snapshot(
        &[node(2, 0, 1, &[], 0), node(2, 1, 1, &[], 0), node(2, 2, 1, &[], 0)],
        &names,
    );
    let text = report_on(&snap);
    assert!(text.contains(LISTENER_HINT));
    assert!(text.contains(STORE_HINT));
    assert!(text.contains(PROXY_HINT));
    assert!(!text.contains(VNODE_HINT));
}

#[test]
fn large_sizes_are_remarked_on() {
    let over = |array: u32, det: u32| {
        let snap = snapshot(&[node(1, 0, array, &[], 0), node(4, 0, det, &[], 2)], &[""]);
        let text = report_on(&snap);
        (text.contains(ARRAY_HINT), text.contains(DETACHED_HINT))
    };
    assert_eq!(over(50 * 1048576, 10 * 1048576), (false, false));
    assert_eq!(over(50 * 1048576 + 1, 10 * 1048576), (true, false));
    assert_eq!(over(50 * 1048576, 10 * 1048576 + 1), (false, true));
    let snap = snapshot(&[node(1, 0, 60 * 1048576, &[], 0)], &[""]);
    let line = format!("- **Large (array) shallow size: 60.0 MB{ARRAY_HINT}\n");
    assert!(report_on(&snap).contains(&line));
    let snap = snapshot(&[node(4, 0, 11 * 1048576, &[], 2)], &[""]);
    let line = format!("- **Detached DOM: 11.0 MB{DETACHED_HINT}\n");
    assert!(report_on(&snap).contains(&line));
}

#[test]
fn retaining_paths_follow_the_first_strong_holder() {
    let names = ["", "root", "Div", "Holder", "Late"];
    let snap = snapshot(
        &[
            node(2, 1, 1, &[(1, 2)], 0),
            node(2, 2, 1, &[], 2),
            node(2, 3, 1, &[(2, 1), (1, 3)], 0), // weak to the detached node
            node(3, 4, 1, &[(1, 1)], 0),
            node(2, 4, 1, &[(1, 1)], 0),
        ],
        &names,
    );
    let text = report_on(&snap);
    let s = section(&text, "(Detached Nodes → GC Root)");
    assert_eq!(s, "\n\n1. `object:Div ← closure:Late ← object:Holder ← object:root`\n\n");
}

#[test]
fn paths_without_a_root_end_otherwise() {
    let names = ["", "A", "B"];
    // a cycle
    let snap = snapshot(
        &[
            node(0, 0, 1, &[], 0),
            node(2, 1, 1, &[(1, 2)], 2),
            node(2, 2, 1, &[(1, 1)], 0),
        ],
        &names,
    );
    let text = report_on(&snap);
    assert!(text.contains("\n1. `object:A ← object:B ← …(root not reached)`\n"));
    // nothing holds it
    let snap = snapshot(&[node(0, 0, 1, &[], 0), node(4, 0, 1, &[], 2)], &names);
    assert!(report_on(&snap).contains("\n1. `(native)`\n"));
    // the root itself
    let snap = snapshot(&[node(4, 1, 1, &[(1, 0)], 2)], &names);
    assert!(report_on(&snap).contains("\n1. `native:A`\n"));
    // neither object nor native
    let snap = snapshot(&[node(3, 1, 1, &[], 2)], &names);
    assert!(report_on(&snap).contains("\n_No detached object/native nodes sampled._\n"));
}

#[test]
fn long_paths_are_cut_and_few_are_shown() {
    let names = ["n"];
    // a chain: node i is held by node i - 1, all but the root detached
    let mut list = Vec::new();
    for i in 0..20u32 {
        let next: Vec<(u32, u32)> = if i < 19 { vec![(1, i + 1)] } else { vec![] };
        list.push(node(2, 0, 1, &next, if i >= 9 { 2 } else { 0 }));
    }
    let text = report_on(&snapshot(&list, &names));
    let paths: Vec<&str> = text.lines().filter(|l| l.contains(". `")).collect();
    assert_eq!(paths.len(), 8);
    let chain = |n: usize| vec!["object:n"; n].join(" ← ");
    assert_eq!(paths[0], format!("1. `{}`", chain(10)));
    assert_eq!(paths[2], format!("3. `{}`", chain(12)));
    // twelve nodes are shown, and the root is what would come next
    assert_eq!(paths[3], format!("4. `{}`", chain(12)));
    assert_eq!(paths[4], format!("5. `{} ← …(root not reached)`", chain(12)));
}

#[test]
fn edges_past_the_end_are_left_out() {
    let names = ["r", "d"];
    let mut snap = snapshot(
        &[node(2, 0, 1, &[(1, 1)], 0), node(2, 1, 1, &[], 2)],
        &names,
    );
    snap.edges.truncate(2);
    assert!(report_on(&snap).contains("\n1. `object:d`\n"));
    snap.nodes[4] = u32::MAX;
    assert!(report_on(&snap).contains("\n1. `object:d`\n"));
}

#[test]
fn without_detachedness_nothing_is_detached() {
    let mut snap = snapshot(&[node(2, 0, 9, &[], 2)], &["x"]);
    snap.snapshot.meta.node_fields[6] = "other".to_string();
    let text = report_on(&snap);
    assert!(text.contains("_No detached nodes found"));
    assert!(text.contains("_No detached object/native nodes sampled._"));
}

#[test]
fn what_cannot_be_read_is_found_out() {
    let readable = |change: &dyn Fn(&mut HeapSnapshot)| {
        let mut snap = snapshot(&[node(2, 0, 9, &[(1, 0)], 2)], &["x"]);
        change(&mut snap);
        Heap::of(&snap).is_readable()
    };
    assert!(readable(&|_| {}));
    assert!(!readable(&|s| s.snapshot.meta.node_fields.clear()));
    assert!(!readable(&|s| s.snapshot.meta.edge_fields.clear()));
    // the usual place of a column lies outside a short record
    assert!(!readable(&|s| {
        s.snapshot.meta.node_fields = strings(&["type", "name"]);
        s.nodes = vec![2, 0];
    }));
    assert!(readable(&|s| {
        s.snapshot.meta.node_fields = strings(&["type", "name"]);
        s.nodes = vec![2];
    }));
    // an edge record that breaks off between target and type
    assert!(!readable(&|s| {
        s.snapshot.meta.edge_fields = strings(&["to_node", "name_or_index", "type"]);
        s.edges = vec![0, 0];
    }));
    assert!(readable(&|s| {
        s.snapshot.meta.edge_fields = strings(&["to_node", "name_or_index", "type"]);
        s.edges = vec![0, 0, 1];
    }));
}

#[test]
fn a_report_bears_file_name_and_time() {
    let snap = snapshot(&[node(2, 0, 9, &[], 0)], &["x"]);
    let text = analyze(&snap, "path/to/Heap.heapsnapshot", 1048576 * 5);
    let lines: Vec<&str> = text.lines().collect();
    assert_eq!(lines[2], "**File:** Heap.heapsnapshot (5.0 MB)");
    let stamp: u64 = lines[3].strip_prefix("**Unix timestamp:** ").unwrap().parse().unwrap();
    assert!(stamp > 1_000_000_000);
    let again = report(&Heap::of(&snap), "Heap.heapsnapshot", 1048576 * 5, stamp);
    assert_eq!(text, again);
}

fn size_text(b: u64) -> String {
    if b >= 1 << 20 {
        format!("{:.1} MB", b as f64 / (1u64 << 20) as f64)
    } else if b >= 1024 {
        format!("{:.0} kB", b as f64 / 1024.0)
    } else {
        format!("{b} B")
    }
}

/// The rows of the first two tables, by plain means.
fn expected_rows(list: &[Node], names: &[String]) -> (Vec<String>, Vec<String>) {
    let mut order: Vec<String> = Vec::new();
    let mut sums: HashMap<String, (u64, u64)> = HashMap::new();
    let mut total: u64 = 0;
    for n in list {
        let ty = NODE_TYPES.get(n.ty as usize).copied().unwrap_or("?");
        let name = names.get(n.name as usize).cloned().unwrap_or_default();
        let own = ["object", "closure", "native", "regexp"].contains(&ty) && name != "";
        let label = if own { name } else { format!("({ty})") };
        if !sums.contains_key(&label) {
            order.push(label.clone());
        }
        let sum = sums.entry(label).or_insert((0, 0));
        sum.0 += 1;
        sum.1 += n.size as u64;
        total += n.size as u64;
    }
    let mut by_size = order.clone();
    by_size.sort_by_key(|l| std::cmp::Reverse(sums[l].1));
    let mut by_count = order;
    by_count.sort_by_key(|l| std::cmp::Reverse(sums[l].0));
    let sizes = by_size
        .iter()
        .take(50)
        .map(|l| {
            let (c, s) = sums[l];
            let share = format!("{:.1}%", (s as f64 / total as f64) * 100.0);
            format!("{:<52} {:>8}  {:>12}  {:>7}", l, c, size_text(s), share)
        })
        .collect();
    let counts = by_count
        .iter()
        .take(30)
        .map(|l| {
            let (c, s) = sums[l];
            format!("{:<52} {:>8}  {:>12}", l, c, size_text(s))
        })
        .collect();
    (sizes, counts)
}

#[test]
fn tables_agree_with_plain_counting() {
    let mut x: u64 = 99;
    let mut next = move |n: u64| {
        x = x.wrapping_mul(6364136223846793005).wrapping_add(1442695040888963407);
        (x >> 33) % n
    };
    let names: Vec<String> = (0..90)
        .map(|i| if i % 9 == 0 { String::new() } else { format!("C{}", i % 70) })
        .collect();
    let name_refs: Vec<&str> = names.iter().map(|s| s.as_str()).collect();
    for round in 0..30 {
        let list: Vec<Node> = (0..round * 40 + 1)
            .map(|_| {
                node(next(9) as u32, next(95) as u32, next(3_000_000) as u32, &[], next(3) as u32)
            })
            .collect();
        let text = report_on(&snapshot(&list, &name_refs));
        let rows = |title: &str| -> Vec<String> {
            let lines: Vec<&str> = section(&text, title).lines().collect();
            lines[5..lines.len() - 2].iter().map(|l| l.to_string()).collect()
        };
        let (sizes, counts) = expected_rows(&list, &names);
        assert_eq!(rows("## Top 50 Constructors by Shallow Size"), sizes);
        assert_eq!(rows("## Top 30 Constructors by Instance Count"), counts);
        assert!(sizes.len() <= 50 && counts.len() <= 30);
    }
}

#[test]
fn the_columns_of_a_heap_are_read() {
    let snap = snapshot(
        &[node(2, 1, 9, &[(1, 0)], 2), node(3, 0, 4, &[], 0), node(77, 88, 5, &[], 1)],
        &["", "Name"],
    );
    let heap = Heap::of(&snap);
    assert_eq!((heap.node_count(), heap.edge_count()), (3, 1));
    assert_eq!(heap.node_field(0, 3), 9);
    assert_eq!(heap.node_type(0), "object");
    assert_eq!(heap.node_name(0), "Name");
    assert_eq!((heap.self_size(0), heap.is_detached(0)), (9, true));
    assert_eq!(heap.constructor(0), "Name");
    assert_eq!(heap.detached_label(0), "Detached Name");
    assert_eq!(heap.path_label(0), "object:Name");
    assert_eq!(heap.constructor(1), "(closure)");
    assert_eq!(heap.detached_label(1), "Detached (closure)");
    assert_eq!(heap.path_label(1), "(closure)");
    assert_eq!(heap.node_type(2), "?");
    assert_eq!(heap.node_name(2), "");
    assert!(!heap.is_detached(2));
}

#[test]
fn very_large_heaps_are_not_traced() {
    let mut snap = snapshot(&[], &["x"]);
    snap.snapshot.meta.node_fields = strings(&[
        "type", "name", "self_size", "edge_count", "detachedness",
    ]);
    snap.nodes = vec![2; 5 * 5_000_001];
    let text = report_on(&snap);
    let expected = "\n_Skipped: 5000001 nodes exceeds 5M limit for reverse-graph build._\n\
                    _Use Chrome DevTools Retainers panel for top suspects above._\n";
    assert!(text.contains(expected));
}
