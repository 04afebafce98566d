//! The heap that a snapshot describes, read record by record.
use vstd::prelude::*;
use vstd::arithmetic::div_mod::*;
use vstd::arithmetic::mul::*;
use vstd::string::*;
use crate::schema::{first_enumeration, shape_of, HeapSnapshot, Layout, Shape};
use crate::schema::enumeration;
use crate::text::{same_text, texts};

verus! {

/// The most nodes for which retaining paths are traced.
pub const RETAIN_LIMIT: usize = 5000000;

/// The value of the `detachedness` column of a node that is detached.
pub const DETACHED: u32 = 2;

/// The contents of a heap snapshot.
pub struct HeapModel {
    pub nodes: Seq<u32>,
    pub edges: Seq<u32>,
    pub strings: Seq<Seq<char>>,
    pub node_types: Seq<Seq<char>>,
    pub edge_types: Seq<Seq<char>>,
    pub shape: Shape,
}

/// Nodes of these types are counted under their own name, if they have one.
pub open spec fn is_named_type(t: Seq<char>) -> bool {
    t == "object"@ || t == "closure"@ || t == "native"@ || t == "regexp"@
}

/// A type name in round brackets.
pub open spec fn bracketed(t: Seq<char>) -> Seq<char> {
    "("@ + t + ")"@
}

impl HeapModel {
    /// The number of whole node records.
    pub open spec fn node_count(self) -> nat {
        self.nodes.len() / self.shape.node_width
    }

    /// The number of whole edge records.
    pub open spec fn edge_count(self) -> nat {
        self.edges.len() / self.shape.edge_width
    }

    /// The column `at` of node `i`.
    pub open spec fn node_field(self, i: int, at: nat) -> nat {
        self.nodes[i * self.shape.node_width + at] as nat
    }

    /// The type of node `i`, or `?` if its type is not listed.
    pub open spec fn node_type(self, i: int) -> Seq<char> {
        let t = self.node_field(i, self.shape.type_at);
        if t < self.node_types.len() {
            self.node_types[t as int]
        } else {
            "?"@
        }
    }

    /// The name of node `i`; empty if the string is missing.
    pub open spec fn node_name(self, i: int) -> Seq<char> {
        let n = self.node_field(i, self.shape.name_at);
        if n < self.strings.len() {
            self.strings[n as int]
        } else {
            Seq::empty()
        }
    }

    /// The bytes that node `i` itself takes.
    pub open spec fn self_size(self, i: int) -> nat {
        self.node_field(i, self.shape.size_at)
    }

    /// Node `i` is marked as detached.
    pub open spec fn detached(self, i: int) -> bool {
        match self.shape.detached_at {
            Some(at) => self.node_field(i, at) == DETACHED,
            None => false,
        }
    }

    /// The constructor that node `i` counts for.
    pub open spec fn constructor(self, i: int) -> Seq<char> {
        if is_named_type(self.node_type(i)) && self.node_name(i).len() > 0 {
            self.node_name(i)
        } else {
            bracketed(self.node_type(i))
        }
    }

    /// The row of the table of detached nodes that node `i` counts for.
    pub open spec fn detached_label(self, i: int) -> Seq<char> {
        if self.node_name(i).len() == 0 {
            "Detached "@ + bracketed(self.node_type(i))
        } else {
            "Detached "@ + self.node_name(i)
        }
    }

    /// How node `i` is shown in a retaining path.
    pub open spec fn path_label(self, i: int) -> Seq<char> {
        if self.node_name(i).len() == 0 {
            bracketed(self.node_type(i))
        } else {
            self.node_type(i) + ":"@ + self.node_name(i)
        }
    }

    /// The bytes that the first `k` nodes take.
    pub open spec fn sizes(self, k: nat) -> nat
        decreases k,
    {
        if k == 0 {
            0
        } else {
            self.sizes((k - 1) as nat) + self.self_size(k - 1)
        }
    }

    /// The number of the first edge of node `i`: the edges of all nodes before it, counted up
    /// to the greatest 32-bit number.
    pub open spec fn edge_start(self, i: nat) -> nat
        decreases i,
    {
        if i == 0 {
            0
        } else {
            let sum = self.edge_start((i - 1) as nat) + self.node_field(
                i - 1,
                self.shape.edges_at,
            );
            if sum <= u32::MAX {
                sum
            } else {
                u32::MAX as nat
            }
        }
    }

    /// The column `at` of edge `e` lies inside the edge array.
    pub open spec fn has_edge_field(self, e: int, at: nat) -> bool {
        e * self.shape.edge_width + at < self.edges.len()
    }

    /// The column `at` of edge `e`.
    pub open spec fn edge_field(self, e: int, at: nat) -> nat {
        self.edges[e * self.shape.edge_width + at] as nat
    }

    /// The column `at` of every node lies inside the node array.
    pub open spec fn has_column(self, at: nat) -> bool {
        self.node_count() == 0 || (self.node_count() - 1) * self.shape.node_width + at
            < self.nodes.len()
    }

    /// Retaining paths are traced for this heap.
    pub open spec fn is_traced(self) -> bool {
        self.node_count() <= RETAIN_LIMIT
    }

    /// The records have columns, all columns that are read lie inside the arrays, and the sizes
    /// add up to a 64-bit number.
    pub open spec fn readable(self) -> bool {
        &&& self.shape.node_width > 0
        &&& self.shape.edge_width > 0
        &&& self.has_column(self.shape.type_at)
        &&& self.has_column(self.shape.name_at)
        &&& self.has_column(self.shape.size_at)
        &&& self.has_column(self.shape.edges_at)
        &&& self.shape.detached_at matches Some(at) ==> self.has_column(at)
        &&& self.sizes(self.node_count()) <= u64::MAX
        &&& self.is_traced() ==> forall|e: int|
            0 <= e < self.edge_start(self.node_count()) && self.has_edge_field(
                e,
                self.shape.edge_to_at,
            ) ==> #[trigger] self.has_edge_field(e, self.shape.edge_type_at)
    }
}

/// The heap that a snapshot describes.
pub open spec fn heap_of(snap: HeapSnapshot) -> HeapModel {
    HeapModel {
        nodes: snap.nodes@,
        edges: snap.edges@,
        strings: texts(snap.strings@),
        node_types: first_enumeration(snap.snapshot.meta.node_types@),
        edge_types: first_enumeration(snap.snapshot.meta.edge_types@),
        shape: shape_of(
            texts(snap.snapshot.meta.node_fields@),
            texts(snap.snapshot.meta.edge_fields@),
        ),
    }
}

/// A column that every node has is inside the node array for each node.
pub proof fn lemma_column_in_range(m: HeapModel, i: int, at: nat)
    requires
        m.shape.node_width > 0,
        m.has_column(at),
        0 <= i < m.node_count(),
    ensures
        0 <= i * m.shape.node_width,
        0 <= i * m.shape.node_width + at < m.nodes.len(),
{
    let w = m.shape.node_width as int;
    let n = m.node_count() as int;
    assert(0 <= i * w <= (n - 1) * w) by (nonlinear_arith)
        requires
            0 <= i <= n - 1,
            w > 0,
    ;
}

/// The sizes of fewer nodes are no greater.
pub proof fn lemma_sizes_grow(m: HeapModel, j: nat, k: nat)
    requires
        j <= k,
    ensures
        m.sizes(j) <= m.sizes(k),
    decreases k,
{
    if j < k {
        lemma_sizes_grow(m, j, (k - 1) as nat);
    }
}

/// Fewer nodes have their edges start no later.
pub proof fn lemma_edge_start_grows(m: HeapModel, j: nat, k: nat)
    requires
        j <= k,
    ensures
        m.edge_start(j) <= m.edge_start(k) <= u32::MAX,
    decreases k,
{
    if j < k {
        lemma_edge_start_grows(m, j, (k - 1) as nat);
    } else if k > 0 {
        lemma_edge_start_grows(m, (k - 1) as nat, (k - 1) as nat);
    }
}

/// A column that lies inside the edge array for one edge does so for the edges before it.
proof fn lemma_edge_field_before(m: HeapModel, d: int, e: int, at: nat)
    requires
        d <= e,
        m.has_edge_field(e, at),
    ensures
        m.has_edge_field(d, at),
{
    let w = m.shape.edge_width as int;
    assert(d * w <= e * w) by (nonlinear_arith)
        requires
            d <= e,
            w >= 0,
    ;
}

/// A heap snapshot, ready to be read.
pub struct Heap<'a> {
    pub nodes: &'a Vec<u32>,
    pub edges: &'a Vec<u32>,
    pub strings: &'a Vec<String>,
    pub node_types: Vec<String>,
    pub edge_types: Vec<String>,
    pub layout: Layout,
}

impl<'a> View for Heap<'a> {
    type V = HeapModel;

    open spec fn view(&self) -> HeapModel {
        HeapModel {
            nodes: self.nodes@,
            edges: self.edges@,
            strings: texts(self.strings@),
            node_types: texts(self.node_types@),
            edge_types: texts(self.edge_types@),
            shape: self.layout@,
        }
    }
}

/// The text in round brackets.
fn bracket(t: &str) -> (r: String)
    ensures
        r@ == bracketed(t@),
{
    let mut out = String::new();
    out.append("(");
    out.append(t);
    out.append(")");
    proof {
        assert(out@ =~= bracketed(t@));
    }
    out
}

impl<'a> Heap<'a> {
    /// The heap that a snapshot describes.
    pub fn of(snap: &'a HeapSnapshot) -> (r: Heap<'a>)
        ensures
            r@ == heap_of(*snap),
    {
        let meta = &snap.snapshot.meta;
        Heap {
            nodes: &snap.nodes,
            edges: &snap.edges,
            strings: &snap.strings,
            node_types: enumeration(&meta.node_types),
            edge_types: enumeration(&meta.edge_types),
            layout: Layout::of(meta),
        }
    }

    /// The number of nodes.
    pub fn node_count(&self) -> (r: usize)
        requires
            self@.shape.node_width > 0,
        ensures
            r == self@.node_count(),
    {
        self.nodes.len() / self.layout.node_width
    }

    /// The number of edges.
    pub fn edge_count(&self) -> (r: usize)
        requires
            self@.shape.edge_width > 0,
        ensures
            r == self@.edge_count(),
    {
        self.edges.len() / self.layout.edge_width
    }

    /// Whether the column `at` of every node lies inside the node array.
    fn check_column(&self, at: usize) -> (r: bool)
        requires
            self@.shape.node_width > 0,
        ensures
            r == self@.has_column(at as nat),
    {
        let n: usize = self.node_count();
        if n == 0 {
            return true;
        }
        let w: usize = self.layout.node_width;
        proof {
            assert((n - 1) * w <= u64::MAX * u64::MAX) by (nonlinear_arith)
                requires
                    0 <= n - 1 <= u64::MAX,
                    0 <= w <= u64::MAX,
            ;
        }
        (n as u128 - 1) * w as u128 + (at as u128) < self.nodes.len() as u128
    }

    /// Whether the sizes of all nodes add up to a 64-bit number.
    fn check_sizes(&self) -> (r: bool)
        requires
            self@.shape.node_width > 0,
            self@.has_column(self@.shape.size_at),
        ensures
            r == (self@.sizes(self@.node_count()) <= u64::MAX),
    {
        let n: usize = self.node_count();
        let mut total: u64 = 0;
        let mut i: usize = 0;
        while i < n
            invariant
                i <= n,
                n == self@.node_count(),
                self@.shape.node_width > 0,
                self@.has_column(self@.shape.size_at),
                total == self@.sizes(i as nat),
            decreases n - i,
        {
            let size: u64 = self.node_field(i, self.layout.size_at) as u64;
            if size > u64::MAX - total {
                proof {
                    lemma_sizes_grow(self@, (i + 1) as nat, n as nat);
                }
                return false;
            }
            total = total + size;
            i = i + 1;
        }
        true
    }

    /// Whether every edge that is traced has its type column inside the edge array.
    fn check_edges(&self) -> (r: bool)
        requires
            self@.shape.node_width > 0,
            self@.shape.edge_width > 0,
            self@.has_column(self@.shape.edges_at),
        ensures
            r == forall|e: int|
                0 <= e < self@.edge_start(self@.node_count()) && self@.has_edge_field(
                    e,
                    self@.shape.edge_to_at,
                ) ==> #[trigger] self@.has_edge_field(e, self@.shape.edge_type_at),
    {
        let n: usize = self.node_count();
        let last: u32 = self.last_edge(n);
        let reach: usize = self.edge_reach();
        let type_at: usize = self.layout.edge_type_at;
        let len: usize = self.edges.len();
        let w: usize = self.layout.edge_width;
        let ghost m = self@;
        // the number of edges that are traced and have their target inside the array
        let count: usize = if reach < last as usize { reach } else { last as usize };
        if count == 0 {
            return true;
        }
        let e: usize = count - 1;
        proof {
            assert(m.has_edge_field(e as int, m.shape.edge_to_at));
            if m.has_edge_field(e as int, m.shape.edge_type_at) {
                assert forall|d: int|
                    0 <= d < last && m.has_edge_field(
                        d,
                        m.shape.edge_to_at,
                    ) implies #[trigger] m.has_edge_field(d, m.shape.edge_type_at) by {
                    lemma_edge_field_before(m, d, e as int, m.shape.edge_type_at);
                }
            }
            assert(e * w <= u64::MAX * u64::MAX) by (nonlinear_arith)
                requires
                    0 <= e <= u64::MAX,
                    0 <= w <= u64::MAX,
            ;
        }
        (e as u128) * (w as u128) + (type_at as u128) < len as u128
    }

    /// The number of edges whose target column lies inside the edge array.
    pub fn edge_reach(&self) -> (r: usize)
        requires
            self@.shape.edge_width > 0,
        ensures
            forall|e: int|
                0 <= e ==> (#[trigger] self@.has_edge_field(e, self@.shape.edge_to_at) <==> e < r),
    {
        let to_at: usize = self.layout.edge_to_at;
        let len: usize = self.edges.len();
        let w: usize = self.layout.edge_width;
        let ghost m = self@;
        if len <= to_at {
            proof {
                assert forall|e: int| 0 <= e implies !m.has_edge_field(
                    e,
                    m.shape.edge_to_at,
                ) by {
                    assert(e * w >= 0) by (nonlinear_arith)
                        requires
                            e >= 0,
                            w >= 0,
                    ;
                }
            }
            return 0;
        }
        let room: usize = (len - 1 - to_at) / w;
        proof {
            lemma_fundamental_div_mod((len - 1 - to_at) as int, w as int);
            lemma_mod_bound((len - 1 - to_at) as int, w as int);
            let r = room as int;
            assert(r * w == w * r) by (nonlinear_arith);
            assert(m.has_edge_field(r, m.shape.edge_to_at));
            assert((r + 1) * w == r * w + w) by (nonlinear_arith);
            assert(!m.has_edge_field(r + 1, m.shape.edge_to_at));
            assert(r <= r * w) by (nonlinear_arith)
                requires
                    r >= 0,
                    w >= 1,
            ;
            assert forall|e: int| 0 <= e implies (#[trigger] m.has_edge_field(
                e,
                m.shape.edge_to_at,
            ) <==> e < r + 1) by {
                if e <= r {
                    lemma_edge_field_before(m, e, r, m.shape.edge_to_at);
                } else if m.has_edge_field(e, m.shape.edge_to_at) {
                    lemma_edge_field_before(m, r + 1, e, m.shape.edge_to_at);
                }
            }
        }
        room + 1
    }

    /// The number of edges that the first `n` nodes have, up to the greatest 32-bit number.
    fn last_edge(&self, n: usize) -> (r: u32)
        requires
            self@.shape.node_width > 0,
            self@.has_column(self@.shape.edges_at),
            n <= self@.node_count(),
        ensures
            r == self@.edge_start(n as nat),
    {
        let mut next: u32 = 0;
        let mut i: usize = 0;
        while i < n
            invariant
                i <= n <= self@.node_count(),
                self@.shape.node_width > 0,
                self@.has_column(self@.shape.edges_at),
                next == self@.edge_start(i as nat),
            decreases n - i,
        {
            next = next.saturating_add(self.node_field(i, self.layout.edges_at));
            i = i + 1;
        }
        next
    }

    /// Whether the heap can be read.
    pub fn is_readable(&self) -> (r: bool)
        ensures
            r == self@.readable(),
    {
        if self.layout.node_width == 0 || self.layout.edge_width == 0 {
            return false;
        }
        if !self.check_column(self.layout.type_at) || !self.check_column(self.layout.name_at)
            || !self.check_column(self.layout.size_at) || !self.check_column(self.layout.edges_at) {
            return false;
        }
        if let Some(at) = self.layout.detached_at {
            if !self.check_column(at) {
                return false;
            }
        }
        self.check_sizes() && (self.node_count() > RETAIN_LIMIT || self.check_edges())
    }

    /// The column `at` of node `i`.
    pub fn node_field(&self, i: usize, at: usize) -> (r: u32)
        requires
            self@.shape.node_width > 0,
            self@.has_column(at as nat),
            i < self@.node_count(),
        ensures
            r == self@.node_field(i as int, at as nat),
    {
        let total: usize = self.nodes.len();
        proof {
            lemma_column_in_range(self@, i as int, at as nat);
        }
        self.nodes[i * self.layout.node_width + at]
    }

    /// The type of node `i`.
    pub fn node_type(&self, i: usize) -> (r: &str)
        requires
            self@.readable(),
            i < self@.node_count(),
        ensures
            r@ == self@.node_type(i as int),
    {
        let t: usize = self.node_field(i, self.layout.type_at) as usize;
        if t < self.node_types.len() {
            self.node_types[t].as_str()
        } else {
            "?"
        }
    }

    /// The name of node `i`.
    pub fn node_name(&self, i: usize) -> (r: &str)
        requires
            self@.readable(),
            i < self@.node_count(),
        ensures
            r@ == self@.node_name(i as int),
    {
        let n: usize = self.node_field(i, self.layout.name_at) as usize;
        if n < self.strings.len() {
            self.strings[n].as_str()
        } else {
            proof {
                reveal_strlit("");
                assert(""@ =~= Seq::empty());
            }
            ""
        }
    }

    /// The bytes that node `i` itself takes.
    pub fn self_size(&self, i: usize) -> (r: u64)
        requires
            self@.readable(),
            i < self@.node_count(),
        ensures
            r == self@.self_size(i as int),
    {
        self.node_field(i, self.layout.size_at) as u64
    }

    /// Whether node `i` is marked as detached.
    pub fn is_detached(&self, i: usize) -> (r: bool)
        requires
            self@.readable(),
            i < self@.node_count(),
        ensures
            r == self@.detached(i as int),
    {
        match self.layout.detached_at {
            Some(at) => self.node_field(i, at) == DETACHED,
            None => false,
        }
    }

    /// The constructor that node `i` counts for.
    pub fn constructor(&self, i: usize) -> (r: String)
        requires
            self@.readable(),
            i < self@.node_count(),
        ensures
            r@ == self@.constructor(i as int),
    {
        let t = self.node_type(i);
        let name = self.node_name(i);
        let named = same_text(t, "object") || same_text(t, "closure") || same_text(t, "native")
            || same_text(t, "regexp");
        if named && !name.is_empty() {
            name.to_string()
        } else {
            bracket(t)
        }
    }

    /// The row of the table of detached nodes that node `i` counts for.
    pub fn detached_label(&self, i: usize) -> (r: String)
        requires
            self@.readable(),
            i < self@.node_count(),
        ensures
            r@ == self@.detached_label(i as int),
    {
        let name = self.node_name(i);
        let mut out = String::new();
        out.append("Detached ");
        if name.is_empty() {
            out.append(bracket(self.node_type(i)).as_str());
        } else {
            out.append(name);
        }
        proof {
            assert(out@ =~= self@.detached_label(i as int));
        }
        out
    }

    /// How node `i` is shown in a retaining path.
    pub fn path_label(&self, i: usize) -> (r: String)
        requires
            self@.readable(),
            i < self@.node_count(),
        ensures
            r@ == self@.path_label(i as int),
    {
        let t = self.node_type(i);
        let name = self.node_name(i);
        if name.is_empty() {
            return bracket(t);
        }
        let mut out = String::new();
        out.append(t);
        out.append(":");
        out.append(name);
        proof {
            assert(out@ =~= self@.path_label(i as int));
        }
        out
    }
}

/// The heap of a snapshot has its records, its strings and its type names.
pub proof fn heap_has_what_the_snapshot_has(snap: HeapSnapshot)
    ensures
        heap_of(snap).nodes == snap.nodes@,
        heap_of(snap).edges == snap.edges@,
        heap_of(snap).strings == snap.strings@.map_values(|s: String| s@),
        heap_of(snap).node_types == first_enumeration(snap.snapshot.meta.node_types@),
        heap_of(snap).edge_types == first_enumeration(snap.snapshot.meta.edge_types@),
        heap_of(snap).shape == shape_of(
            snap.snapshot.meta.node_fields@.map_values(|s: String| s@),
            snap.snapshot.meta.edge_fields@.map_values(|s: String| s@),
        ),
{
    assert(heap_of(snap).strings =~= snap.strings@.map_values(|s: String| s@));
    assert(texts(snap.snapshot.meta.node_fields@) =~= snap.snapshot.meta.node_fields@.map_values(
        |s: String| s@,
    ));
    assert(texts(snap.snapshot.meta.edge_fields@) =~= snap.snapshot.meta.edge_fields@.map_values(
        |s: String| s@,
    ));
}

/// There are as many nodes, and as many edges, as whole records.
pub proof fn only_whole_records_count(m: HeapModel)
    ensures
        m.shape.node_width > 0 ==> m.node_count() * m.shape.node_width <= m.nodes.len() < (
        m.node_count() + 1) * m.shape.node_width,
        m.shape.edge_width > 0 ==> m.edge_count() * m.shape.edge_width <= m.edges.len() < (
        m.edge_count() + 1) * m.shape.edge_width,
{
    if m.shape.node_width > 0 {
        lemma_fundamental_div_mod(m.nodes.len() as int, m.shape.node_width as int);
        lemma_mod_bound(m.nodes.len() as int, m.shape.node_width as int);
        let (n, w) = (m.node_count() as int, m.shape.node_width as int);
        assert((n + 1) * w == n * w + w && n * w == w * n) by (nonlinear_arith);
    }
    if m.shape.edge_width > 0 {
        lemma_fundamental_div_mod(m.edges.len() as int, m.shape.edge_width as int);
        lemma_mod_bound(m.edges.len() as int, m.shape.edge_width as int);
        let (n, w) = (m.edge_count() as int, m.shape.edge_width as int);
        assert((n + 1) * w == n * w + w && n * w == w * n) by (nonlinear_arith);
    }
}

/// The figures of a node stand in its record: its type and its name by their numbers among the
/// type names and the strings, its size, and whether it is detached, which 2 stands for.
pub proof fn node_is_what_its_record_says(m: HeapModel, i: int)
    ensures
        ({
            let start = i * m.shape.node_width;
            let t = m.nodes[start + m.shape.type_at] as int;
            let n = m.nodes[start + m.shape.name_at] as int;
            &&& t < m.node_types.len() ==> m.node_type(i) == m.node_types[t]
            &&& t >= m.node_types.len() ==> m.node_type(i) == "?"@
            &&& n < m.strings.len() ==> m.node_name(i) == m.strings[n]
            &&& n >= m.strings.len() ==> m.node_name(i) == ""@
            &&& m.self_size(i) == m.nodes[start + m.shape.size_at]
            &&& m.detached(i) <==> exists|at: nat|
                m.shape.detached_at == Some(at) && #[trigger] m.nodes[start + at] == 2
        }),
{
    reveal_strlit("");
    assert(""@ =~= Seq::empty());
    let start = i * m.shape.node_width;
    if let Some(at) = m.shape.detached_at {
        assert(m.detached(i) <==> m.nodes[start + at] == 2);
    }
}

/// A node counts under its name if it is an object, a closure, a native node or a regular
/// expression and has a name; any other node counts under its type in round brackets, whatever
/// its name is.
pub proof fn only_four_types_count_under_their_names(m: HeapModel, i: int)
    ensures
        ({
            let t = m.node_type(i);
            let name = m.node_name(i);
            let four = t == "object"@ || t == "closure"@ || t == "native"@ || t == "regexp"@;
            &&& four && name != ""@ ==> m.constructor(i) == name
            &&& !four ==> m.constructor(i) == "("@ + t + ")"@
            &&& name == ""@ ==> m.constructor(i) == "("@ + t + ")"@
        }),
{
    reveal_strlit("");
    if m.node_name(i).len() == 0 {
        assert(m.node_name(i) =~= ""@);
    }
}

/// Two nodes of the same type count under the same constructor, if the type is none of those that
/// count under their names, or if neither node has a name.
pub proof fn nodes_of_other_types_count_together(m: HeapModel, i: int, j: int)
    requires
        m.node_type(i) == m.node_type(j),
        !seq!["object"@, "closure"@, "native"@, "regexp"@].contains(m.node_type(i)) || (
        m.node_name(i) == ""@ && m.node_name(j) == ""@),
    ensures
        m.constructor(i) == m.constructor(j),
{
    let four = seq!["object"@, "closure"@, "native"@, "regexp"@];
    let t = m.node_type(i);
    assert(four[0] == "object"@ && four[1] == "closure"@);
    assert(four[2] == "native"@ && four[3] == "regexp"@);
    only_four_types_count_under_their_names(m, i);
    only_four_types_count_under_their_names(m, j);
}

/// A detached node is shown as `Detached` with its name, or with its type in round brackets for
/// want of a name; on a path a node is shown with its type and its name, or with its type in
/// round brackets.
pub proof fn labels_show_name_or_type(m: HeapModel, i: int)
    ensures
        m.node_name(i) != ""@ ==> m.detached_label(i) == "Detached "@ + m.node_name(i),
        m.node_name(i) == ""@ ==> m.detached_label(i) == "Detached ("@ + m.node_type(i) + ")"@,
        m.node_name(i) != ""@ ==> m.path_label(i) == m.node_type(i) + ":"@ + m.node_name(i),
        m.node_name(i) == ""@ ==> m.path_label(i) == "("@ + m.node_type(i) + ")"@,
{
    reveal_strlit("");
    reveal_strlit("(");
    reveal_strlit(")");
    reveal_strlit("Detached ");
    reveal_strlit("Detached (");
    if m.node_name(i).len() == 0 {
        assert(m.node_name(i) =~= ""@);
        assert("Detached "@ + ("("@ + m.node_type(i) + ")"@) =~= "Detached ("@ + m.node_type(i)
            + ")"@);
    }
}

proof fn lemma_sizes_add_up(m: HeapModel, k: nat, plus: spec_fn(int, int) -> int)
    requires
        forall|a: int, b: int| #[trigger] plus(a, b) == a + b,
    ensures
        m.sizes(k) == Seq::new(
            k,
            |i: int| m.nodes[i * m.shape.node_width + m.shape.size_at] as int,
        ).fold_left(0int, plus),
    decreases k,
{
    let all = Seq::new(k, |i: int| m.nodes[i * m.shape.node_width + m.shape.size_at] as int);
    if k > 0 {
        let less = Seq::new(
            (k - 1) as nat,
            |i: int| m.nodes[i * m.shape.node_width + m.shape.size_at] as int,
        );
        assert(all.drop_last() =~= less);
        lemma_sizes_add_up(m, (k - 1) as nat, plus);
    }
}

/// The size of some nodes together is the sum of what their records say.
pub proof fn sizes_are_added_up(m: HeapModel, k: nat)
    ensures
        m.sizes(k) == Seq::new(
            k,
            |i: int| m.nodes[i * m.shape.node_width + m.shape.size_at] as int,
        ).fold_left(0int, |a: int, b: int| a + b),
{
    lemma_sizes_add_up(m, k, |a: int, b: int| a + b);
}

proof fn lemma_edge_counts_add_up(m: HeapModel, k: nat, plus: spec_fn(int, int) -> int)
    requires
        forall|a: int, b: int| #[trigger] plus(a, b) == a + b,
    ensures
        ({
            let sum = Seq::new(
                k,
                |i: int| m.nodes[i * m.shape.node_width + m.shape.edges_at] as int,
            ).fold_left(0int, plus);
            m.edge_start(k) == (if sum <= u32::MAX { sum } else { u32::MAX as int })
        }),
    decreases k,
{
    let all = Seq::new(k, |i: int| m.nodes[i * m.shape.node_width + m.shape.edges_at] as int);
    if k > 0 {
        let less = Seq::new(
            (k - 1) as nat,
            |i: int| m.nodes[i * m.shape.node_width + m.shape.edges_at] as int,
        );
        assert(all.drop_last() =~= less);
        lemma_edge_counts_add_up(m, (k - 1) as nat, plus);
    }
}

/// The edges of a node follow on those of the nodes before it: the first has for its number the
/// sum of their edge counts, or the greatest 32-bit number where the sum is greater.
pub proof fn edges_follow_on_those_before(m: HeapModel, k: nat)
    ensures
        ({
            let sum = Seq::new(
                k,
                |i: int| m.nodes[i * m.shape.node_width + m.shape.edges_at] as int,
            ).fold_left(0int, |a: int, b: int| a + b);
            m.edge_start(k) == (if sum <= 4294967295 { sum } else { 4294967295 })
        }),
{
    lemma_edge_counts_add_up(m, k, |a: int, b: int| a + b);
}

/// A heap can be read if its records have columns, the columns of interest of its last node lie
/// inside the node array, all sizes together make a 64-bit number and, up to five million nodes,
/// no edge has its target inside the edge array and its type outside; and only then.
pub proof fn readable_is_what_can_be_read(m: HeapModel)
    ensures
        m.readable() <==> {
            let last = (m.node_count() - 1) * m.shape.node_width;
            &&& m.shape.node_width > 0
            &&& m.shape.edge_width > 0
            &&& m.node_count() > 0 ==> {
                &&& last + m.shape.type_at < m.nodes.len()
                &&& last + m.shape.name_at < m.nodes.len()
                &&& last + m.shape.size_at < m.nodes.len()
                &&& last + m.shape.edges_at < m.nodes.len()
                &&& m.shape.detached_at matches Some(at) ==> last + at < m.nodes.len()
            }
            &&& m.sizes(m.node_count()) < 18446744073709551616
            &&& m.node_count() <= 5000000 ==> forall|e: int|
                0 <= e < m.edge_start(m.node_count()) && #[trigger] (e * m.shape.edge_width)
                    + m.shape.edge_to_at < m.edges.len() ==> e * m.shape.edge_width
                    + m.shape.edge_type_at < m.edges.len()
        },
{
    if m.readable() && m.is_traced() {
        assert forall|e: int|
            0 <= e < m.edge_start(m.node_count()) && #[trigger] (e * m.shape.edge_width)
                + m.shape.edge_to_at < m.edges.len() implies e * m.shape.edge_width
            + m.shape.edge_type_at < m.edges.len() by {
            assert(m.has_edge_field(e, m.shape.edge_type_at));
        }
    }
}

} // verus!
