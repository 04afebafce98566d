use heap_analyzer::heap::Heap;
use heap_analyzer::patterns::{detect, keyword_list, lower_names, mentions_any, Hints};
use heap_analyzer::report::render;
use heap_analyzer::retain::{find_holders, retaining_paths, trace};
use heap_analyzer::schema::{HeapMeta, HeapSnapshot, SnapshotSection};
use heap_analyzer::summary::{summarize, Summary};
use heap_analyzer::tally::{aggregate, CtorStats, Row, Tally};

fn strings(list: &[&str]) -> Vec<String> {
    list.iter().map(|s| s.to_string()).collect()
}

/// A heap of generated nodes, four columns and detachedness, one edge from each node.
fn generated(n: u32) -> HeapSnapshot {
    let mut nodes = Vec::new();
    let mut edges = Vec::new();
    let mut x: u32 = 17;
    for _ in 0..n {
        x = x.wrapping_mul(1664525).wrapping_add(1013904223);
        nodes.extend([(x >> 8) % 5, (x >> 12) % 11, (x >> 4) % 5000, 1, (x >> 20) % 3]);
        edges.extend([(x >> 16) % 3, 5 * ((x >> 9) % n)]);
    }
    let names = |json: &str| -> Vec<serde_json::Value> { serde_json::from_str(json).unwrap() };
    HeapSnapshot {
        snapshot: SnapshotSection {
            meta: HeapMeta {
                node_fields: strings(&["type", "name", "self_size", "edge_count", "detachedness"]),
                node_types: names(r#"[["object", "native", "array", "string"]]"#),
                edge_fields: strings(&["type", "to_node"]),
                edge_types: names(r#"[["property", "weak"]]"#),
            },
        },
        nodes,
        edges,
        strings: strings(&[
            "", "A", "B", "EventListener", "C", "Cache", "A", "D", "proxyOf", "E", "Modal",
        ]),
    }
}

fn rows(s: &Summary, order: &Vec<usize>) -> Vec<(String, CtorStats)> {
    order
        .iter()
        .map(|r| (s.constructors[*r].name.clone(), s.constructors[*r].stats))
        .collect()
}

#[test]
fn constructors_account_for_every_node() {
    for n in [1u32, 2, 50, 700] {
        let snap = generated(n);
        let heap = Heap::of(&snap);
        assert!(heap.is_readable());
        let s = summarize(&heap);
        let sizes: u64 = (0..heap.node_count()).map(|i| heap.self_size(i)).sum();
        let detached: u64 = (0..heap.node_count())
            .filter(|i| heap.is_detached(*i))
            .map(|i| heap.self_size(i))
            .sum();
        for order in [&s.by_size, &s.by_count] {
            let all = rows(&s, order);
            assert_eq!(all.iter().map(|r| r.1.count).sum::<u64>(), n as u64);
            assert_eq!(all.iter().map(|r| r.1.shallow).sum::<u64>(), sizes);
            assert_eq!(all.iter().map(|r| r.1.det_size).sum::<u64>(), detached);
        }
        assert_eq!((s.total_size, s.detached_size), (sizes, detached));
        assert!(s.detached_size <= s.total_size);
        assert_eq!(s.detached.iter().map(|r| r.stats.shallow).sum::<u64>(), detached);
        let det_count: u64 = s.constructors.iter().map(|r| r.stats.det_count).sum();
        assert_eq!(s.detached.iter().map(|r| r.stats.count).sum::<u64>(), det_count);
    }
}

#[test]
fn rows_are_ordered_and_complete() {
    let snap = generated(400);
    let heap = Heap::of(&snap);
    let s = summarize(&heap);
    let by_size = rows(&s, &s.by_size);
    let by_count = rows(&s, &s.by_count);
    for w in by_size.windows(2) {
        assert!(w[0].1.shallow >= w[1].1.shallow && w[0].0 != w[1].0);
    }
    for order in [by_count.clone(), rows(&s, &s.suspicious)] {
        for (i, row) in order.iter().enumerate() {
            assert!(order[i + 1..].iter().all(|r| r.0 != row.0 && r.1.count <= row.1.count));
        }
    }
    let detached: Vec<&Row> = s.detached_by_size.iter().map(|r| &s.detached[*r]).collect();
    for (i, row) in detached.iter().enumerate() {
        let below = &detached[i + 1..];
        assert!(below.iter().all(|r| r.name != row.name));
        assert!(below.iter().all(|r| r.stats.shallow <= row.stats.shallow));
    }
    for (_, st) in &by_size {
        assert!(st.det_count <= st.count && st.det_size <= st.shallow);
        assert!(st.shallow <= s.total_size);
    }
    for i in 0..heap.node_count() {
        let name = heap.constructor(i);
        assert_eq!(by_size.iter().filter(|r| r.0 == name).count(), 1);
    }
    let words = keyword_list();
    let flagged: Vec<String> = by_count
        .iter()
        .map(|r| r.0.clone())
        .filter(|n| mentions_any(&words, n))
        .collect();
    let suspicious: Vec<String> = rows(&s, &s.suspicious).into_iter().map(|r| r.0).collect();
    assert_eq!(suspicious, flagged);
    assert_eq!(suspicious.len(), 4);
    let array = s.constructors.iter().find(|r| r.name == "(array)").unwrap();
    assert_eq!(s.array_size, array.stats.shallow);
    assert_eq!(
        s.hints,
        Hints {
            vnodes: false,
            listeners: true,
            large_detached: false,
            big_arrays: false,
            proxies: true,
            stores: true,
        }
    );
}

#[test]
fn a_holder_is_the_first_that_holds_strongly() {
    let n: usize = 300;
    let snap = generated(n as u32);
    let heap = Heap::of(&snap);
    let holders = find_holders(&heap);
    assert_eq!(holders.len(), n);
    for v in 0..n {
        // node i has edge i alone
        let first = (0..n).find(|i| {
            snap.edges[2 * i] != 1 && snap.edges[2 * i + 1] as usize / 5 == v
        });
        assert_eq!(holders[v], first.map(|i| i as i32).unwrap_or(-1));
    }
    let paths = retaining_paths(&heap);
    assert_eq!(paths.len(), 8);
    let shown: Vec<usize> = (0..n)
        .filter(|i| {
            heap.is_detached(*i) && ["object", "native"].contains(&heap.node_type(*i))
        })
        .take(8)
        .collect();
    for (path, i) in paths.iter().zip(shown) {
        assert_eq!(*path, trace(&heap, &holders, i));
        let mut expected: Vec<String> = Vec::new();
        let mut on: Vec<i32> = Vec::new();
        let mut at = i as i32;
        while at >= 0 && on.len() < 12 && !on.contains(&at) {
            on.push(at);
            expected.push(heap.path_label(at as usize));
            if at == 0 {
                break;
            }
            at = holders[at as usize];
        }
        if at > 0 {
            expected.push("…(root not reached)".to_string());
        }
        assert_eq!(*path, expected.join(" ← "));
    }
}

#[test]
fn a_tally_counts_under_labels() {
    let mut t = Tally::new();
    t.add("b".to_string(), 5, false);
    t.add("a".to_string(), 7, true);
    t.add("b".to_string(), 1, true);
    let rows = t.into_rows();
    assert_eq!(rows.len(), 2);
    assert_eq!(rows[0].name, "b");
    let s = rows[0].stats;
    assert_eq!((s.count, s.shallow, s.det_count, s.det_size), (2, 6, 1, 1));
    assert_eq!(rows[1].name, "a");
    let s = rows[1].stats;
    assert_eq!((s.count, s.shallow, s.det_count, s.det_size), (1, 7, 1, 7));
    let s = CtorStats::default();
    assert_eq!((s.count, s.shallow, s.det_count, s.det_size), (0, 0, 0, 0));
}

#[test]
fn tables_are_in_the_order_of_first_occurrence() {
    let snap = generated(60);
    let heap = Heap::of(&snap);
    let tables = aggregate(&heap);
    let mut seen: Vec<String> = Vec::new();
    for i in 0..heap.node_count() {
        let name = heap.constructor(i);
        if !seen.contains(&name) {
            seen.push(name);
        }
    }
    let names: Vec<String> = tables.constructors.iter().map(|r| r.name.clone()).collect();
    assert_eq!(names, seen);
}

#[test]
fn names_are_put_into_lower_case() {
    let row = |name: &str| Row { name: name.to_string(), stats: CtorStats::default() };
    let rows = vec![row("EventEMITTER"), row("ÀÉ"), row("plain"), row("(Array)")];
    assert_eq!(lower_names(&rows), strings(&["eventemitter", "àé", "plain", "(array)"]));
}

#[test]
fn signs_are_looked_for_in_lower_case_names() {
    let hints = |names: &[&str]| detect(&strings(names), 0, 0);
    let none = hints(&["plain", "(array)", "VNODE"]);
    assert!(!none.vnodes && !none.listeners && !none.proxies && !none.stores);
    assert!(hints(&["x", "a vnode b"]).vnodes);
    assert!(hints(&["mycomponent"]).vnodes);
    for word in ["listener", "emitter", "subscription"] {
        assert!(hints(&[word]).listeners);
    }
    assert!(hints(&["proxy"]).proxies && hints(&["reactive"]).proxies);
    for word in ["store", "cache", "registry"] {
        assert!(hints(&[word]).stores);
    }
    let edge = detect(&vec![], 10485760, 52428800);
    assert!(!edge.large_detached && !edge.big_arrays);
    let over = detect(&vec![], 10485761, 52428801);
    assert!(over.large_detached && over.big_arrays);
}

#[test]
fn keywords_heed_case() {
    let words = keyword_list();
    assert_eq!(words.len(), 36);
    for name in ["VNode", "Pinia", "createpinia", "useStore", "Referee", "PortalX", "IntersectionObserver"] {
        assert!(mentions_any(&words, name), "{name}");
    }
    for word in ["Vue", "Pinia", "EventListener", "EventEmitter", "Proxy"] {
        assert!(mentions_any(&words, &format!("my{word}s")), "{word}");
    }
    for name in ["", "Map", "VNOD", "PINIA", "ref", "tooltip", "observer"] {
        assert!(!mentions_any(&words, name), "{name}");
    }
}

#[test]
fn a_summary_is_rendered() {
    let snap = generated(5);
    let s = summarize(&Heap::of(&snap));
    let text = render(&s, "f", 0, 0);
    assert!(text.starts_with("# Heap Snapshot Analysis\n\n**File:** f (0.0 MB)\n"));
    assert!(text.contains("**Unix timestamp:** 0\n**Nodes:** 5\n**Edges:** 5\n"));
    assert!(text.ends_with("reference chain.\n\n"));
}
