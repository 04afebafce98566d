//! What keeps detached nodes alive: chains of holders, towards the root of the heap.
use vstd::prelude::*;
use vstd::string::*;
use crate::heap::{lemma_edge_start_grows, Heap, HeapModel};
use crate::text::{join, joined, joining_lists_joins_their_texts, same_text, texts};

verus! {

/// The most paths that are shown.
pub const MAX_PATHS: usize = 8;

/// The most nodes that a path shows.
pub const MAX_STEPS: usize = 12;

/// The type of edge `e`; empty if its type is not listed.
pub open spec fn edge_kind(m: HeapModel, e: int) -> Seq<char> {
    let t = m.edge_field(e, m.shape.edge_type_at);
    if t < m.edge_types.len() {
        m.edge_types[t as int]
    } else {
        Seq::empty()
    }
}

/// Edge `e` leads from node `i` to node `v` and is not weak.
pub open spec fn is_strong_edge(m: HeapModel, e: int, i: int, v: int) -> bool {
    &&& m.edge_start(i as nat) <= e < m.edge_start((i + 1) as nat)
    &&& m.has_edge_field(e, m.shape.edge_to_at)
    &&& m.edge_field(e, m.shape.edge_to_at) / m.shape.node_width == v
    &&& edge_kind(m, e) != "weak"@
}

/// Node `i` holds node `v`.
pub open spec fn holds(m: HeapModel, i: int, v: int) -> bool {
    exists|e: int| is_strong_edge(m, e, i, v)
}

/// `p` is the first node that holds `v`, or no node does.
pub open spec fn is_holder(m: HeapModel, v: int, p: Option<int>) -> bool {
    match p {
        Some(i) => {
            &&& 0 <= i < m.node_count()
            &&& holds(m, i, v)
            &&& forall|j: int| 0 <= j < i ==> !holds(m, j, v)
        },
        None => forall|j: int| 0 <= j < m.node_count() ==> !holds(m, j, v),
    }
}

/// The first node that holds `v`, if one does.
pub open spec fn holder(m: HeapModel, v: int) -> Option<int> {
    choose|p: Option<int>| is_holder(m, v, p)
}

/// A node has one first holder.
proof fn lemma_holder_is(m: HeapModel, v: int, p: Option<int>)
    requires
        is_holder(m, v, p),
    ensures
        holder(m, v) == p,
{
    let h = holder(m, v);
    assert(is_holder(m, v, h));
    match (p, h) {
        (Some(i), Some(j)) => {
            if i < j {
                assert(!holds(m, i, v));
            } else if j < i {
                assert(!holds(m, j, v));
            }
        },
        (Some(i), None) => {
            assert(!holds(m, i, v));
        },
        (None, Some(j)) => {
            assert(!holds(m, j, v));
        },
        (None, None) => {},
    }
}

/// A node whose retaining path is worth showing.
pub open spec fn is_traceable(m: HeapModel, i: int) -> bool {
    m.detached(i) && (m.node_type(i) == "object"@ || m.node_type(i) == "native"@)
}

/// The nodes among the first `k` whose retaining paths are worth showing.
pub open spec fn traceable(m: HeapModel, k: nat) -> Seq<int>
    decreases k,
{
    if k == 0 {
        Seq::empty()
    } else {
        let before = traceable(m, (k - 1) as nat);
        if is_traceable(m, k - 1) {
            before.push(k - 1)
        } else {
            before
        }
    }
}

/// The nodes whose retaining paths are shown: the first ones that are worth it.
pub open spec fn sampled(m: HeapModel) -> Seq<int> {
    let all = traceable(m, m.node_count());
    if all.len() <= MAX_PATHS {
        all
    } else {
        all.take(MAX_PATHS as int)
    }
}

/// A way from holder to holder: the nodes on it, and where it would go on.
pub struct Trail {
    pub nodes: Seq<int>,
    pub next: Option<int>,
}

/// Goes on from holder to holder until the root is on the trail, or there is no holder, or the
/// holder is on the trail already, or the trail is full.
pub open spec fn follow(m: HeapModel, nodes: Seq<int>, next: Option<int>) -> Trail
    decreases MAX_STEPS - nodes.len(),
{
    match next {
        Some(v) => if nodes.contains(v) || nodes.len() >= MAX_STEPS {
            Trail { nodes, next }
        } else if v == 0 {
            Trail { nodes: nodes.push(v), next }
        } else {
            follow(m, nodes.push(v), holder(m, v))
        },
        None => Trail { nodes, next },
    }
}

/// The trail from node `i` towards the root.
pub open spec fn trail(m: HeapModel, i: int) -> Trail {
    follow(m, Seq::empty(), Some(i))
}

/// What a path shows: the labels of its nodes, and a note if it would go on to a node other
/// than the root.
pub open spec fn path_texts(m: HeapModel, t: Trail) -> Seq<Seq<char>> {
    let shown = Seq::new(t.nodes.len(), |j: int| m.path_label(t.nodes[j]));
    match t.next {
        Some(v) => if v > 0 {
            shown.push("…(root not reached)"@)
        } else {
            shown
        },
        None => shown,
    }
}

/// The retaining path of node `i`, as it is shown.
pub open spec fn path_text(m: HeapModel, i: int) -> Seq<char> {
    joined(path_texts(m, trail(m, i)), " ← "@)
}

/// The retaining paths that are shown.
pub open spec fn path_list(m: HeapModel) -> Seq<Seq<char>> {
    Seq::new(sampled(m).len(), |j: int| path_text(m, sampled(m)[j]))
}

/// The number of a node, or nothing for a negative number.
pub open spec fn as_node(p: i32) -> Option<int> {
    if p >= 0 {
        Some(p as int)
    } else {
        None
    }
}

/// What is known of the holder of `v` when all edges of the nodes before `i`, and the edges of
/// `i` before `e`, have been seen.
spec fn is_settled(m: HeapModel, v: int, p: i32, i: int, e: int) -> bool {
    if 0 <= p < i {
        holds(m, p as int, v) && forall|j: int| 0 <= j < p ==> !holds(m, j, v)
    } else {
        &&& forall|j: int| 0 <= j < i ==> !holds(m, j, v)
        &&& p == i ==> exists|d: int| d < e && is_strong_edge(m, d, i, v)
        &&& p != i ==> p == -1 && forall|d: int| d < e ==> !is_strong_edge(m, d, i, v)
    }
}

/// The number of the first edge of each node, and behind them the number after the last edge.
fn edge_starts(heap: &Heap) -> (r: Vec<u32>)
    requires
        heap@.readable(),
        heap@.is_traced(),
    ensures
        r@.len() == heap@.node_count() + 1,
        forall|i: int|
            0 <= i <= heap@.node_count() ==> (#[trigger] r@[i]) == heap@.edge_start(i as nat),
{
    let n: usize = heap.node_count();
    let mut starts: Vec<u32> = Vec::new();
    let mut next: u32 = 0;
    let mut i: usize = 0;
    while i < n
        invariant
            i <= n,
            n == heap@.node_count(),
            heap@.readable(),
            starts@.len() == i,
            next == heap@.edge_start(i as nat),
            forall|j: int| 0 <= j < i ==> (#[trigger] starts@[j]) == heap@.edge_start(j as nat),
        decreases n - i,
    {
        starts.push(next);
        next = next.saturating_add(heap.node_field(i, heap.layout.edges_at));
        i = i + 1;
    }
    starts.push(next);
    starts
}

/// Whether edge `e` is weak.
fn is_weak(heap: &Heap, e: usize) -> (r: bool)
    requires
        heap@.shape.edge_width > 0,
        heap@.has_edge_field(e as int, heap@.shape.edge_type_at),
    ensures
        r == (edge_kind(heap@, e as int) == "weak"@),
{
    let total: usize = heap.edges.len();
    proof {
        let w = heap@.shape.edge_width as int;
        assert(e * w >= 0) by (nonlinear_arith)
            requires
                e >= 0,
                w >= 0,
        ;
        reveal_strlit("weak");
        assert("weak"@.len() == 4);
    }
    let t: usize = heap.edges[e * heap.layout.edge_width + heap.layout.edge_type_at] as usize;
    if t < heap.edge_types.len() {
        same_text(heap.edge_types[t].as_str(), "weak")
    } else {
        false
    }
}

/// The first holder of each node; -1 where there is none.
#[verifier::rlimit(40)]
pub fn find_holders(heap: &Heap) -> (r: Vec<i32>)
    requires
        heap@.readable(),
        heap@.is_traced(),
    ensures
        r@.len() == heap@.node_count(),
        forall|v: int|
            0 <= v < r@.len() ==> holder(heap@, v) == as_node(#[trigger] r@[v]) && is_holder(
                heap@,
                v,
                as_node(r@[v]),
            ),
{
    let n: usize = heap.node_count();
    let starts = edge_starts(heap);
    let reach: usize = heap.edge_reach();
    let width: usize = heap.layout.edge_width;
    let to_at: usize = heap.layout.edge_to_at;
    let total: usize = heap.edges.len();
    let ghost m = heap@;
    let mut found: Vec<i32> = vec![-1i32; n];
    let mut i: usize = 0;
    proof {
        assert forall|v: int| 0 <= v < n implies #[trigger] found@[v] == -1 by {}
    }
    while i < n
        invariant
            m == heap@,
            m.readable(),
            m.is_traced(),
            n == m.node_count(),
            i <= n,
            found@.len() == n,
            starts@.len() == n + 1,
            width == m.shape.edge_width,
            to_at == m.shape.edge_to_at,
            total == m.edges.len(),
            forall|j: int| 0 <= j <= n ==> (#[trigger] starts@[j]) == m.edge_start(j as nat),
            forall|e: int|
                0 <= e ==> (#[trigger] m.has_edge_field(e, m.shape.edge_to_at) <==> e < reach),
            forall|v: int|
                0 <= v < n ==> is_settled(
                    m,
                    v,
                    #[trigger] found@[v],
                    i as int,
                    m.edge_start(i as nat) as int,
                ),
        decreases n - i,
    {
        let start: usize = starts[i] as usize;
        let all: usize = starts[i + 1] as usize;
        let end: usize = if all < reach { all } else { reach };
        let mut e: usize = start;
        proof {
            lemma_edge_start_grows(m, i as nat, (i + 1) as nat);
            lemma_edge_start_grows(m, (i + 1) as nat, n as nat);
        }
        while e < end
            invariant
                m == heap@,
                m.readable(),
                m.is_traced(),
                n == m.node_count(),
                i < n,
                found@.len() == n,
                width == m.shape.edge_width,
                to_at == m.shape.edge_to_at,
                total == m.edges.len(),
                total == heap.edges@.len(),
                start == m.edge_start(i as nat),
                start <= e,
                e <= end || e == start,
                end <= m.edge_start((i + 1) as nat) <= m.edge_start(n as nat),
                end <= reach,
                forall|d: int|
                    0 <= d ==> (#[trigger] m.has_edge_field(d, m.shape.edge_to_at) <==> d < reach),
                forall|v: int|
                    0 <= v < n ==> is_settled(m, v, #[trigger] found@[v], i as int, e as int),
            decreases end - e,
        {
            let ghost so_far = found@;
            proof {
                assert(m.has_edge_field(e as int, m.shape.edge_to_at));
                assert(m.has_edge_field(e as int, m.shape.edge_type_at));
                assert(e * width >= 0) by (nonlinear_arith)
                    requires
                        e >= 0,
                        width >= 0,
                ;
            }
            let target: usize = heap.edges[e * width + to_at] as usize / heap.layout.node_width;
            if target < n && found[target] == -1 {
                if !is_weak(heap, e) {
                    found.set(target, i as i32);
                }
            }
            proof {
                assert forall|v: int| 0 <= v < n implies is_settled(
                    m,
                    v,
                    #[trigger] found@[v],
                    i as int,
                    e + 1,
                ) by {
                    assert(is_settled(m, v, so_far[v], i as int, e as int));
                    if v == target {
                        if found@[v] == i && so_far[v] == -1 {
                            assert(is_strong_edge(m, e as int, i as int, v));
                        } else if so_far[v] == -1 {
                            assert(!is_strong_edge(m, e as int, i as int, v));
                        }
                    } else {
                        assert(!is_strong_edge(m, e as int, i as int, v));
                    }
                }
            }
            e = e + 1;
        }
        proof {
            let next = m.edge_start((i + 1) as nat) as int;
            assert forall|v: int| 0 <= v < n implies is_settled(
                m,
                v,
                #[trigger] found@[v],
                i + 1,
                next,
            ) by {
                let p = found@[v];
                assert(is_settled(m, v, p, i as int, e as int));
                assert forall|d: int| is_strong_edge(m, d, i as int, v) implies d < e by {
                    assert(m.has_edge_field(d, m.shape.edge_to_at));
                }
                if p == i {
                    let d = choose|d: int| d < e && is_strong_edge(m, d, i as int, v);
                    assert(holds(m, i as int, v));
                } else if p == -1 {
                    assert(!holds(m, i as int, v));
                }
            }
        }
        i = i + 1;
    }
    proof {
        assert forall|v: int| 0 <= v < found@.len() implies holder(m, v) == as_node(
            #[trigger] found@[v],
        ) && is_holder(m, v, as_node(found@[v])) by {
            assert(is_settled(m, v, found@[v], n as int, m.edge_start(n as nat) as int));
            lemma_holder_is(m, v, as_node(found@[v]));
        }
    }
    found
}

/// The nodes of a list, as mathematical integers.
pub open spec fn node_numbers(list: Seq<usize>) -> Seq<int> {
    Seq::new(list.len(), |i: int| list[i] as int)
}

/// Whether a node is in a list.
fn is_among(list: &Vec<usize>, v: usize) -> (r: bool)
    ensures
        r == node_numbers(list@).contains(v as int),
{
    let ghost all = node_numbers(list@);
    let mut i: usize = 0;
    while i < list.len()
        invariant
            i <= list@.len(),
            all == node_numbers(list@),
            forall|j: int| 0 <= j < i ==> all[j] != v,
        decreases list@.len() - i,
    {
        if list[i] == v {
            proof {
                assert(all[i as int] == v);
            }
            return true;
        }
        i = i + 1;
    }
    false
}

/// The retaining path of node `i`, given the first holder of each node.
pub fn trace(heap: &Heap, holders: &Vec<i32>, i: usize) -> (r: String)
    requires
        heap@.readable(),
        heap@.is_traced(),
        i < heap@.node_count(),
        holders@.len() == heap@.node_count(),
        forall|v: int|
            0 <= v < holders@.len() ==> holder(heap@, v) == as_node(#[trigger] holders@[v])
                && is_holder(heap@, v, as_node(holders@[v])),
    ensures
        r@ == path_text(heap@, i as int),
{
    let ghost m = heap@;
    let ghost goal = trail(m, i as int);
    let mut nodes: Vec<usize> = Vec::new();
    let mut shown: Vec<String> = Vec::new();
    let mut next: i32 = i as i32;
    let mut done = false;
    proof {
        assert(node_numbers(nodes@) =~= Seq::empty());
    }
    while !done
        invariant
            m == heap@,
            m.readable(),
            m.is_traced(),
            holders@.len() == m.node_count(),
            forall|v: int|
                0 <= v < holders@.len() ==> holder(m, v) == as_node(#[trigger] holders@[v])
                    && is_holder(m, v, as_node(holders@[v])),
            next < m.node_count(),
            nodes@.len() <= MAX_STEPS,
            shown@.len() == nodes@.len(),
            forall|j: int|
                0 <= j < shown@.len() ==> (#[trigger] shown@[j])@ == m.path_label(
                    nodes@[j] as int,
                ),
            !done ==> follow(m, node_numbers(nodes@), as_node(next)) == goal,
            done ==> goal == (Trail { nodes: node_numbers(nodes@), next: as_node(next) }),
        decreases (if done { 0 } else { 1 + MAX_STEPS - nodes@.len() }),
    {
        if next < 0 || nodes.len() >= MAX_STEPS || is_among(&nodes, next as usize) {
            done = true;
        } else {
            let v: usize = next as usize;
            let ghost so_far = nodes@;
            nodes.push(v);
            shown.push(heap.path_label(v));
            proof {
                assert(node_numbers(nodes@) =~= node_numbers(so_far).push(v as int));
            }
            if v == 0 {
                done = true;
            } else {
                proof {
                    assert(is_holder(m, v as int, as_node(holders@[v as int])));
                }
                next = holders[v];
            }
        }
    }
    if next > 0 {
        shown.push("…(root not reached)".to_string());
    }
    proof {
        assert(texts(shown@) =~= path_texts(m, goal));
    }
    join(&shown, " ← ")
}

/// The nodes worth a path among more nodes begin with those among fewer.
proof fn lemma_traceable_grows(m: HeapModel, j: nat, k: nat)
    requires
        j <= k,
    ensures
        traceable(m, j).len() <= traceable(m, k).len(),
        traceable(m, k).take(traceable(m, j).len() as int) == traceable(m, j),
    decreases k,
{
    let a = traceable(m, j);
    let b = traceable(m, k);
    if j == k {
        assert(b.take(a.len() as int) =~= a);
    } else {
        lemma_traceable_grows(m, j, (k - 1) as nat);
        let c = traceable(m, (k - 1) as nat);
        assert(b.take(a.len() as int) =~= c.take(a.len() as int));
    }
}

/// The retaining paths that are shown.
pub fn retaining_paths(heap: &Heap) -> (r: Vec<String>)
    requires
        heap@.readable(),
        heap@.is_traced(),
    ensures
        texts(r@) == path_list(heap@),
{
    let n: usize = heap.node_count();
    let holders = find_holders(heap);
    let ghost m = heap@;
    let mut paths: Vec<String> = Vec::new();
    let mut i: usize = 0;
    while i < n && paths.len() < MAX_PATHS
        invariant
            m == heap@,
            m.readable(),
            m.is_traced(),
            n == m.node_count(),
            i <= n,
            holders@.len() == n,
            forall|v: int|
                0 <= v < holders@.len() ==> holder(m, v) == as_node(#[trigger] holders@[v])
                    && is_holder(m, v, as_node(holders@[v])),
            paths@.len() == traceable(m, i as nat).len(),
            paths@.len() <= MAX_PATHS,
            forall|j: int|
                0 <= j < paths@.len() ==> (#[trigger] paths@[j])@ == path_text(
                    m,
                    traceable(m, i as nat)[j],
                ),
        decreases n - i,
    {
        if heap.is_detached(i) {
            let t = heap.node_type(i);
            if same_text(t, "object") || same_text(t, "native") {
                paths.push(trace(heap, &holders, i));
            }
        }
        i = i + 1;
    }
    proof {
        lemma_traceable_grows(m, i as nat, n as nat);
        let all = traceable(m, n as nat);
        let some = traceable(m, i as nat);
        assert(sampled(m) =~= some) by {
            if i == n {
                assert(all.take(all.len() as int) =~= all);
            } else {
                assert(all.take(MAX_PATHS as int) == some);
                if all.len() <= MAX_PATHS {
                    assert(all.take(MAX_PATHS as int) =~= all);
                }
            }
        }
        assert(texts(paths@) =~= path_list(m));
    }
    paths
}

/// The steps of a trail that is followed on from sound nodes are sound.
proof fn lemma_follow(m: HeapModel, nodes: Seq<int>, next: Option<int>)
    requires
        nodes.len() <= MAX_STEPS,
        nodes.no_duplicates(),
        forall|j: int|
            0 <= j < nodes.len() - 1 ==> holder(m, #[trigger] nodes[j]) == Some(nodes[j + 1]),
        nodes.len() > 0 ==> holder(m, nodes.last()) == next,
        nodes.len() == 0 ==> next is Some,
    ensures
        ({
            let t = follow(m, nodes, next);
            &&& t.nodes.len() <= MAX_STEPS
            &&& t.nodes.no_duplicates()
            &&& nodes.is_prefix_of(t.nodes)
            &&& nodes.len() == 0 ==> t.nodes.len() > 0 && t.nodes[0] == next->0
            &&& forall|j: int|
                0 <= j < t.nodes.len() - 1 ==> holder(m, #[trigger] t.nodes[j]) == Some(
                    t.nodes[j + 1],
                )
            &&& t.nodes.last() == 0 && t.next == Some(0int) || {
                &&& holder(m, t.nodes.last()) == t.next
                &&& t.next is None || t.nodes.contains(t.next->0) || t.nodes.len() == MAX_STEPS
            }
        }),
    decreases MAX_STEPS - nodes.len(),
{
    if let Some(v) = next {
        if !nodes.contains(v) && nodes.len() < MAX_STEPS {
            let more = nodes.push(v);
            assert(more.no_duplicates());
            assert forall|j: int| 0 <= j < more.len() - 1 implies holder(m, #[trigger] more[j])
                == Some(more[j + 1]) by {
                if j < nodes.len() - 1 {
                    assert(more[j] == nodes[j]);
                } else {
                    assert(more[j] == nodes.last());
                }
            }
            assert(nodes.is_prefix_of(more));
            if v != 0 {
                lemma_follow(m, more, holder(m, v));
                let t = follow(m, more, holder(m, v));
                assert(t.nodes[0] == more[0]);
            }
        }
    }
}

/// A trail begins with its node; each further node on it is the first holder of the one before;
/// no node is on it twice; and it is at most so long.
pub proof fn trail_goes_from_holder_to_holder(m: HeapModel, i: int)
    ensures
        1 <= trail(m, i).nodes.len() <= MAX_STEPS,
        trail(m, i).nodes[0] == i,
        trail(m, i).nodes.no_duplicates(),
        forall|j: int|
            0 <= j < trail(m, i).nodes.len() - 1 ==> holder(m, #[trigger] trail(m, i).nodes[j])
                == Some(trail(m, i).nodes[j + 1]),
{
    lemma_follow(m, Seq::empty(), Some(i));
}

/// A trail ends at the root, or at a node that nothing holds, or at a node whose first holder is
/// on the trail already, or when it is full.
pub proof fn trail_ends_for_a_reason(m: HeapModel, i: int)
    ensures
        ({
            let t = trail(m, i);
            ||| t.nodes.last() == 0 && t.next == Some(0int)
            ||| holder(m, t.nodes.last()) == t.next && (t.next is None || t.nodes.contains(
                t.next->0,
            ) || t.nodes.len() == MAX_STEPS)
        }),
{
    lemma_follow(m, Seq::empty(), Some(i));
}

/// Each step of a trail goes over an edge that is not weak, from a node of the heap.
pub proof fn trail_steps_are_strong_edges(m: HeapModel, i: int, j: int)
    requires
        0 <= j < trail(m, i).nodes.len() - 1,
    ensures
        holds(m, trail(m, i).nodes[j + 1], trail(m, i).nodes[j]),
        0 <= trail(m, i).nodes[j + 1] < m.node_count(),
{
    trail_goes_from_holder_to_holder(m, i);
    holder_is_the_first_to_hold(m, trail(m, i).nodes[j]);
}

/// A path that is shown without a note ends at the root, or at a node that nothing holds, or is
/// full and held by the root.
pub proof fn path_without_a_note_has_come_to_an_end(m: HeapModel, i: int)
    requires
        i >= 0,
        trail(m, i).next matches Some(v) ==> v <= 0,
    ensures
        ({
            let t = trail(m, i);
            let last = t.nodes.last();
            ||| last == 0
            ||| holder(m, last) is None
            ||| t.nodes.len() == MAX_STEPS && holder(m, last) == Some(0int)
        }),
{
    trail_ends_for_a_reason(m, i);
    let t = trail(m, i);
    let last = t.nodes.last();
    if last != 0 && holder(m, last) is Some {
        holder_is_the_first_to_hold(m, last);
        assert(t.next == Some(0int));
        if t.nodes.len() != MAX_STEPS {
            lemma_root_comes_last(m, Seq::empty(), Some(i));
        }
    }
}

/// On a trail that is followed on the root stands at the end, if at all.
proof fn lemma_root_comes_last(m: HeapModel, nodes: Seq<int>, next: Option<int>)
    requires
        nodes.len() <= MAX_STEPS,
        !nodes.contains(0),
    ensures
        follow(m, nodes, next).nodes.contains(0) ==> follow(m, nodes, next).nodes.last() == 0,
    decreases MAX_STEPS - nodes.len(),
{
    if let Some(v) = next {
        if !nodes.contains(v) && nodes.len() < MAX_STEPS && v != 0 {
            let more = nodes.push(v);
            assert(!more.contains(0));
            lemma_root_comes_last(m, more, holder(m, v));
        }
    }
}

/// At most so many paths are shown, each for a detached object or native node, in the order of
/// the nodes.
pub proof fn sampled_nodes_are_traceable(m: HeapModel)
    ensures
        sampled(m).len() <= MAX_PATHS,
        forall|j: int|
            0 <= j < sampled(m).len() ==> 0 <= (#[trigger] sampled(m)[j]) < m.node_count()
                && is_traceable(m, sampled(m)[j]),
        forall|i: int, j: int|
            0 <= i < j < sampled(m).len() ==> (#[trigger] sampled(m)[i]) < (#[trigger] sampled(
                m,
            )[j]),
{
    lemma_traceable_members(m, m.node_count());
}

proof fn lemma_traceable_members(m: HeapModel, k: nat)
    ensures
        forall|j: int|
            0 <= j < traceable(m, k).len() ==> 0 <= (#[trigger] traceable(m, k)[j]) < k
                && is_traceable(m, traceable(m, k)[j]),
        forall|i: int, j: int|
            0 <= i < j < traceable(m, k).len() ==> (#[trigger] traceable(m, k)[i])
                < (#[trigger] traceable(m, k)[j]),
    decreases k,
{
    if k > 0 {
        lemma_traceable_members(m, (k - 1) as nat);
        let before = traceable(m, (k - 1) as nat);
        let all = traceable(m, k);
        assert forall|j: int| 0 <= j < before.len() implies all[j] == #[trigger] before[j] by {}
        assert forall|j: int| 0 <= j < all.len() implies 0 <= (#[trigger] all[j]) < k
            && is_traceable(m, all[j]) by {
            if j < before.len() {
                assert(all[j] == before[j]);
            }
        }
        assert forall|i: int, j: int| 0 <= i < j < all.len() implies (#[trigger] all[i])
            < (#[trigger] all[j]) by {
            assert(all[i] == before[i]);
            if j < before.len() {
                assert(all[j] == before[j]);
            }
        }
    }
}

/// Each node has a first holder or none, and a first holder does hold the node by an edge that
/// is not weak, as no node before it does.
pub proof fn holder_is_the_first_to_hold(m: HeapModel, v: int)
    ensures
        is_holder(m, v, holder(m, v)),
{
    lemma_first_holder(m, v, 0);
}

/// Searches for the first holder from node `k` on.
proof fn lemma_first_holder(m: HeapModel, v: int, k: nat)
    requires
        k <= m.node_count(),
        forall|j: int| 0 <= j < k ==> !holds(m, j, v),
    ensures
        exists|p: Option<int>| is_holder(m, v, p),
    decreases m.node_count() - k,
{
    if k == m.node_count() {
        assert(is_holder(m, v, None));
    } else if holds(m, k as int, v) {
        assert(is_holder(m, v, Some(k as int)));
    } else {
        lemma_first_holder(m, v, k + 1);
    }
}

/// A node holds another if one of its edges leads there, whatever the type of the edge, but for
/// the type `weak`: an edge whose number lies in the range of the node, whose target stands in the
/// edge array, and whose type is another one, or is not listed.
pub proof fn all_edges_but_weak_ones_hold(m: HeapModel, i: int, v: int)
    requires
        i >= 0,
    ensures
        holds(m, i, v) <==> exists|e: int|
            {
                let at = #[trigger] (e * m.shape.edge_width);
                let t = m.edges[at + m.shape.edge_type_at] as int;
                &&& m.edge_start(i as nat) <= e < m.edge_start((i + 1) as nat)
                &&& at + m.shape.edge_to_at < m.edges.len()
                &&& m.edges[at + m.shape.edge_to_at] as nat / m.shape.node_width == v
                &&& !(t < m.edge_types.len() && m.edge_types[t] == "weak"@)
            },
{
    reveal_strlit("weak");
    assert("weak"@.len() == 4);
    if holds(m, i, v) {
        let e = choose|e: int| is_strong_edge(m, e, i, v);
        let at = e * m.shape.edge_width;
        let t = m.edges[at + m.shape.edge_type_at] as int;
        assert(!(t < m.edge_types.len() && m.edge_types[t] == "weak"@));
    }
    assert forall|e: int|
        {
            let at = #[trigger] (e * m.shape.edge_width);
            let t = m.edges[at + m.shape.edge_type_at] as int;
            &&& m.edge_start(i as nat) <= e < m.edge_start((i + 1) as nat)
            &&& at + m.shape.edge_to_at < m.edges.len()
            &&& m.edges[at + m.shape.edge_to_at] as nat / m.shape.node_width == v
            &&& !(t < m.edge_types.len() && m.edge_types[t] == "weak"@)
        } implies holds(m, i, v) by {
        assert(is_strong_edge(m, e, i, v));
    }
}

/// The holder of a node is the first node of the heap that holds it; a node that no node of the
/// heap holds has none.
pub proof fn the_first_node_that_holds_is_the_holder(m: HeapModel, v: int)
    ensures
        forall|i: int|
            holder(m, v) == Some(i) <==> 0 <= i < m.node_count() && #[trigger] holds(m, i, v)
                && forall|j: int| 0 <= j < i ==> !#[trigger] holds(m, j, v),
        holder(m, v) is None <==> forall|j: int|
            0 <= j < m.node_count() ==> !#[trigger] holds(m, j, v),
{
    holder_is_the_first_to_hold(m, v);
    assert forall|i: int|
        holder(m, v) == Some(i) <==> 0 <= i < m.node_count() && #[trigger] holds(m, i, v)
            && forall|j: int| 0 <= j < i ==> !#[trigger] holds(m, j, v) by {
        if 0 <= i < m.node_count() && holds(m, i, v) && forall|j: int|
            0 <= j < i ==> !#[trigger] holds(m, j, v) {
            lemma_holder_is(m, v, Some(i));
        }
    }
    if forall|j: int| 0 <= j < m.node_count() ==> !#[trigger] holds(m, j, v) {
        lemma_holder_is(m, v, None);
    }
}

/// A negative number stands for no node, any other for the node of that number.
pub proof fn negative_numbers_are_no_nodes(p: i32)
    ensures
        p < 0 ==> as_node(p) is None,
        p >= 0 ==> as_node(p) == Some(p as int),
{
}

/// On a trail that is followed on from other nodes the root is the end.
proof fn lemma_root_is_the_end(m: HeapModel, nodes: Seq<int>, next: Option<int>)
    requires
        nodes.len() <= MAX_STEPS,
        !nodes.contains(0),
        nodes.len() > 0 || next is Some,
    ensures
        ({
            let t = follow(m, nodes, next);
            &&& forall|j: int| 0 <= j < t.nodes.len() - 1 ==> #[trigger] t.nodes[j] != 0
            &&& t.nodes.last() == 0 ==> t.next == Some(0int)
        }),
    decreases MAX_STEPS - nodes.len(),
{
    assert forall|j: int| 0 <= j < nodes.len() implies #[trigger] nodes[j] != 0 by {
        assert(nodes.contains(nodes[j]));
    }
    if let Some(v) = next {
        if !nodes.contains(v) && nodes.len() < MAX_STEPS && v != 0 {
            let more = nodes.push(v);
            assert forall|j: int| 0 <= j < more.len() implies #[trigger] more[j] != 0 by {
                if j < nodes.len() {
                    assert(more[j] == nodes[j]);
                }
            }
            lemma_root_is_the_end(m, more, holder(m, v));
        }
    }
}

/// A trail climbs from holder to holder, never to a node twice, for at most twelve nodes. It ends
/// at the root; before that it ends only where there is no holder, or where the holder is on it
/// already, or at the twelfth node.
pub proof fn trail_climbs_towards_the_root(m: HeapModel, i: int)
    ensures
        ({
            let t = trail(m, i);
            let last = t.nodes.last();
            &&& 1 <= t.nodes.len() <= 12
            &&& t.nodes[0] == i
            &&& t.nodes.no_duplicates()
            &&& forall|j: int|
                0 <= j < t.nodes.len() - 1 ==> #[trigger] t.nodes[j] != 0 && holder(m, t.nodes[j])
                    == Some(t.nodes[j + 1])
            &&& last == 0 ==> t.next == Some(0int)
            &&& last != 0 ==> t.next == holder(m, last)
            &&& last != 0 ==> t.next is None || t.nodes.contains(t.next->0) || t.nodes.len() == 12
        }),
{
    lemma_follow(m, Seq::empty(), Some(i));
    lemma_root_is_the_end(m, Seq::empty(), Some(i));
}

/// A path shows the nodes of its trail with ` ← ` between them, and behind them a note that the
/// root was not reached if the trail would go on to a node other than the root; and only then.
pub proof fn path_shows_the_nodes_of_its_trail(m: HeapModel, i: int)
    ensures
        ({
            let t = trail(m, i);
            let shown = joined(t.nodes.map_values(|v: int| m.path_label(v)), " ← "@);
            let goes_on = t.next matches Some(v) && v > 0;
            &&& goes_on ==> path_text(m, i) == shown + " ← …(root not reached)"@
            &&& !goes_on ==> path_text(m, i) == shown
        }),
{
    trail_climbs_towards_the_root(m, i);
    let t = trail(m, i);
    let labels = t.nodes.map_values(|v: int| m.path_label(v));
    assert(Seq::new(t.nodes.len(), |j: int| m.path_label(t.nodes[j])) =~= labels);
    if t.next matches Some(v) && v > 0 {
        let note = "…(root not reached)"@;
        assert(labels.push(note) =~= labels + seq![note]);
        joining_lists_joins_their_texts(labels, seq![note], " ← "@, note);
        reveal_strlit(" ← ");
        reveal_strlit("…(root not reached)");
        reveal_strlit(" ← …(root not reached)");
        assert(" ← "@ + note =~= " ← …(root not reached)"@);
        let shown = joined(labels, " ← "@);
        assert(shown + " ← "@ + note =~= shown + (" ← "@ + note));
    }
}

proof fn lemma_traceable_is_filtered(m: HeapModel, k: nat)
    ensures
        traceable(m, k) == Seq::new(k, |i: int| i).filter(
            |i: int|
                m.detached(i) && (m.node_type(i) == "object"@ || m.node_type(i) == "native"@),
        ),
    decreases k,
{
    reveal(Seq::filter);
    let all = Seq::new(k, |i: int| i);
    if k > 0 {
        lemma_traceable_is_filtered(m, (k - 1) as nat);
        assert(all.drop_last() =~= Seq::new((k - 1) as nat, |i: int| i));
    }
}

/// The paths that are shown are those of the first eight detached nodes of the types `object` and
/// `native`, or of all of them where there are fewer, in their order.
pub proof fn first_detached_objects_and_native_nodes_are_sampled(m: HeapModel)
    ensures
        ({
            let all = Seq::new(m.node_count(), |i: int| i).filter(
                |i: int|
                    m.detached(i) && (m.node_type(i) == "object"@ || m.node_type(i)
                        == "native"@),
            );
            let shown = if all.len() <= 8 {
                all
            } else {
                all.take(8)
            };
            &&& sampled(m) == shown
            &&& path_list(m) == shown.map_values(|i: int| path_text(m, i))
        }),
{
    lemma_traceable_is_filtered(m, m.node_count());
    assert(path_list(m) =~= sampled(m).map_values(|i: int| path_text(m, i)));
}

/// A node that another node holds is shown with its first holder behind it: the path begins with
/// the two, but for the root and for a node that is its own first holder.
pub proof fn the_first_holder_is_shown_behind_its_node(m: HeapModel, i: int, j: int)
    requires
        i != 0,
        i != j,
        0 <= j < m.node_count(),
        holds(m, j, i),
        forall|h: int| 0 <= h < j ==> !#[trigger] holds(m, h, i),
    ensures
        (m.path_label(i) + " ← "@ + m.path_label(j)).is_prefix_of(path_text(m, i)),
{
    the_first_node_that_holds_is_the_holder(m, i);
    trail_climbs_towards_the_root(m, i);
    path_shows_the_nodes_of_its_trail(m, i);
    let t = trail(m, i);
    assert(holder(m, i) == Some(j));
    if t.nodes.len() == 1 {
        let k = choose|k: int| 0 <= k < t.nodes.len() && t.nodes[k] == j;
        assert(t.nodes[0] == j);
    }
    assert(t.nodes[0] == i && t.nodes[1] == j);
    let sep = " ← "@;
    let labels = t.nodes.map_values(|v: int| m.path_label(v));
    let first = seq![m.path_label(i)];
    let second = seq![m.path_label(j)];
    let two = m.path_label(i) + sep + m.path_label(j);
    joining_lists_joins_their_texts(first, second, sep, m.path_label(i));
    joining_lists_joins_their_texts(first, second, sep, m.path_label(j));
    let rest = labels.skip(2);
    assert(labels =~= (first + second) + rest);
    joining_lists_joins_their_texts(first + second, rest, sep, two);
    if rest.len() == 0 {
        assert((first + second) + rest =~= first + second);
    }
    assert(two.is_prefix_of(joined(labels, sep)));
}

} // verus!
