//! The parts of a `.heapsnapshot` file that the analysis reads.
use vstd::prelude::*;
use vstd::string::*;
use crate::text::{same_text, texts};

verus! {

/// Declares the JSON value type of `serde_json` to the verifier.
#[verifier::external_type_specification]
#[verifier::external_body]
pub struct ExJsonValue(serde_json::Value);

/// The items of a JSON value that is an array: what `serde_json::Value::as_array` returns.
pub uninterp spec fn json_items(v: serde_json::Value) -> Option<Seq<serde_json::Value>>;

/// The text of a JSON value that is a string: what `serde_json::Value::as_str` returns.
pub uninterp spec fn json_text(v: serde_json::Value) -> Option<Seq<char>>;

/// `serde_json::Value::as_array` gives the items of an array, and nothing of any other value.
pub assume_specification[ serde_json::Value::as_array ](v: &serde_json::Value) -> (r: Option<
    &Vec<serde_json::Value>,
>)
    ensures
        match r {
            Some(items) => json_items(*v) == Some(items@),
            None => json_items(*v) is None,
        },
;

/// `serde_json::Value::as_str` gives the text of a string, and nothing of any other value.
pub assume_specification[ serde_json::Value::as_str ](v: &serde_json::Value) -> (r: Option<&str>)
    ensures
        match r {
            Some(s) => json_text(*v) == Some(s@),
            None => json_text(*v) is None,
        },
;

/// What a snapshot says about the layout of its node and edge records.
pub struct HeapMeta {
    pub node_fields: Vec<String>,
    pub node_types: Vec<serde_json::Value>,
    pub edge_fields: Vec<String>,
    pub edge_types: Vec<serde_json::Value>,
}

/// The `snapshot` section of a snapshot.
pub struct SnapshotSection {
    pub meta: HeapMeta,
}

/// A heap snapshot: its description, and the flat arrays of its records.
pub struct HeapSnapshot {
    pub snapshot: SnapshotSection,
    pub nodes: Vec<u32>,
    pub edges: Vec<u32>,
    pub strings: Vec<String>,
}

/// The texts that are there among some items, in their order.
pub open spec fn present(items: Seq<Option<Seq<char>>>) -> Seq<Seq<char>>
    decreases items.len(),
{
    if items.len() == 0 {
        Seq::empty()
    } else {
        let before = present(items.drop_last());
        match items.last() {
            Some(text) => before.push(text),
            None => before,
        }
    }
}

/// What an optional string holds.
pub open spec fn optional_text(item: Option<String>) -> Option<Seq<char>> {
    match item {
        Some(s) => Some(s@),
        None => None,
    }
}

/// What a list of optional strings holds.
pub open spec fn optional_texts(list: Seq<Option<String>>) -> Seq<Option<Seq<char>>> {
    Seq::new(list.len(), |i: int| optional_text(list[i]))
}

/// The items of the array that stands first in a list of field types, each as its text if it
/// is a string; no items if no array stands there.
pub open spec fn first_column(types: Seq<serde_json::Value>) -> Seq<Option<Seq<char>>> {
    if types.len() == 0 {
        Seq::empty()
    } else {
        match json_items(types[0]) {
            Some(items) => Seq::new(items.len(), |i: int| json_text(items[i])),
            None => Seq::empty(),
        }
    }
}

/// The type names that a list of field types gives for its first field: the strings of the
/// array that stands first, if an array does.
pub open spec fn first_enumeration(types: Seq<serde_json::Value>) -> Seq<Seq<char>> {
    present(first_column(types))
}

/// Each item of an array that stands first in a list of field types, if it is a string.
fn read_first_column(types: &Vec<serde_json::Value>) -> (r: Vec<Option<String>>)
    ensures
        optional_texts(r@) == first_column(types@),
{
    let mut out: Vec<Option<String>> = Vec::new();
    if types.len() > 0 {
        if let Some(items) = types[0].as_array() {
            let mut i: usize = 0;
            while i < items.len()
                invariant
                    i <= items@.len(),
                    out@.len() == i,
                    forall|j: int|
                        0 <= j < i ==> optional_text(#[trigger] out@[j]) == json_text(items@[j]),
                decreases items@.len() - i,
            {
                let item: Option<String> = match items[i].as_str() {
                    Some(s) => Some(s.to_string()),
                    None => None,
                };
                out.push(item);
                i = i + 1;
            }
        }
    }
    proof {
        assert(optional_texts(out@) =~= first_column(types@));
    }
    out
}

/// Keeps the strings that are there, in their order.
pub fn keep_present(items: &Vec<Option<String>>) -> (r: Vec<String>)
    ensures
        texts(r@) == present(optional_texts(items@)),
{
    let mut out: Vec<String> = Vec::new();
    let ghost all = optional_texts(items@);
    let mut i: usize = 0;
    proof {
        assert(all.take(0) =~= Seq::empty());
        assert(texts(out@) =~= present(all.take(0)));
    }
    while i < items.len()
        invariant
            i <= items@.len(),
            all == optional_texts(items@),
            texts(out@) == present(all.take(i as int)),
        decreases items@.len() - i,
    {
        let ghost before = out@;
        proof {
            assert(all.take(i + 1).drop_last() =~= all.take(i as int));
        }
        if let Some(s) = &items[i] {
            out.push(s.clone());
            proof {
                assert(texts(out@) =~= texts(before).push(s@));
            }
        }
        i = i + 1;
    }
    proof {
        assert(all.take(i as int) =~= all);
    }
    out
}

/// The type names of the first field in a list of field types.
pub fn enumeration(types: &Vec<serde_json::Value>) -> (r: Vec<String>)
    ensures
        texts(r@) == first_enumeration(types@),
{
    keep_present(&read_first_column(types))
}

/// The first place of a name in a list of names.
pub open spec fn first_index(list: Seq<Seq<char>>, name: Seq<char>) -> Option<nat>
    decreases list.len(),
{
    if list.len() == 0 {
        None
    } else {
        match first_index(list.drop_last(), name) {
            Some(i) => Some(i),
            None => if list.last() == name {
                Some((list.len() - 1) as nat)
            } else {
                None
            },
        }
    }
}

/// The first place of a name in a list of names, or `default`.
pub open spec fn index_or(list: Seq<Seq<char>>, name: Seq<char>, default: nat) -> nat {
    match first_index(list, name) {
        Some(i) => i,
        None => default,
    }
}

/// A place found in a beginning of the list is the place in the whole list.
proof fn lemma_first_index_stays(list: Seq<Seq<char>>, name: Seq<char>, n: int)
    requires
        0 <= n <= list.len(),
        first_index(list.take(n), name) is Some,
    ensures
        first_index(list, name) == first_index(list.take(n), name),
    decreases list.len(),
{
    if n == list.len() {
        assert(list.take(n) =~= list);
    } else {
        assert(list.drop_last().take(n) =~= list.take(n));
        lemma_first_index_stays(list.drop_last(), name, n);
    }
}

/// What `first_index` finds is in the list, is the name, and is the first such.
pub proof fn first_index_is_the_first(list: Seq<Seq<char>>, name: Seq<char>)
    ensures
        match first_index(list, name) {
            Some(i) => i < list.len() && list[i as int] == name && forall|j: int|
                0 <= j < i ==> list[j] != name,
            None => !list.contains(name),
        },
    decreases list.len(),
{
    if list.len() > 0 {
        let shorter = list.drop_last();
        first_index_is_the_first(shorter, name);
        match first_index(shorter, name) {
            Some(i) => {
                assert(shorter[i as int] == list[i as int]);
                assert forall|j: int| 0 <= j < i implies list[j] != name by {
                    assert(shorter[j] == list[j]);
                }
            },
            None => {
                assert forall|j: int| 0 <= j < list.len() - 1 implies list[j] != name by {
                    assert(shorter[j] == list[j]);
                    assert(shorter.contains(shorter[j]));
                }
            },
        }
    }
}

/// The first place of a name in a list of names.
pub fn position(list: &Vec<String>, name: &str) -> (r: Option<usize>)
    ensures
        match r {
            Some(i) => first_index(texts(list@), name@) == Some(i as nat) && i < list@.len(),
            None => first_index(texts(list@), name@) is None,
        },
{
    let ghost all = texts(list@);
    let mut i: usize = 0;
    while i < list.len()
        invariant
            i <= list@.len(),
            all == texts(list@),
            first_index(all.take(i as int), name@) is None,
        decreases list@.len() - i,
    {
        proof {
            assert(all.take(i + 1).drop_last() =~= all.take(i as int));
        }
        if same_text(list[i].as_str(), name) {
            proof {
                lemma_first_index_stays(all, name@, i + 1);
            }
            return Some(i);
        }
        i = i + 1;
    }
    proof {
        assert(all.take(i as int) =~= all);
    }
    None
}

/// The first place of a name in a list of names, or `default`.
pub fn position_or(list: &Vec<String>, name: &str, default: usize) -> (r: usize)
    ensures
        r == index_or(texts(list@), name@, default as nat),
{
    match position(list, name) {
        Some(i) => i,
        None => default,
    }
}

/// Where the columns of interest stand in the node and edge records.
pub struct Shape {
    pub node_width: nat,
    pub type_at: nat,
    pub name_at: nat,
    pub size_at: nat,
    pub edges_at: nat,
    pub detached_at: Option<nat>,
    pub edge_width: nat,
    pub edge_type_at: nat,
    pub edge_to_at: nat,
}

/// The shape that the field names of a snapshot give; a column that is not named stands where
/// V8 usually has it, except `detachedness`, which may be missing.
pub open spec fn shape_of(node_fields: Seq<Seq<char>>, edge_fields: Seq<Seq<char>>) -> Shape {
    Shape {
        node_width: node_fields.len(),
        type_at: index_or(node_fields, "type"@, 0),
        name_at: index_or(node_fields, "name"@, 1),
        size_at: index_or(node_fields, "self_size"@, 3),
        edges_at: index_or(node_fields, "edge_count"@, 4),
        detached_at: first_index(node_fields, "detachedness"@),
        edge_width: edge_fields.len(),
        edge_type_at: index_or(edge_fields, "type"@, 0),
        edge_to_at: index_or(edge_fields, "to_node"@, 2),
    }
}

/// The columns of interest, as machine integers.
#[derive(Clone, Copy)]
pub struct Layout {
    pub node_width: usize,
    pub type_at: usize,
    pub name_at: usize,
    pub size_at: usize,
    pub edges_at: usize,
    pub detached_at: Option<usize>,
    pub edge_width: usize,
    pub edge_type_at: usize,
    pub edge_to_at: usize,
}

impl View for Layout {
    type V = Shape;

    open spec fn view(&self) -> Shape {
        Shape {
            node_width: self.node_width as nat,
            type_at: self.type_at as nat,
            name_at: self.name_at as nat,
            size_at: self.size_at as nat,
            edges_at: self.edges_at as nat,
            detached_at: match self.detached_at {
                Some(i) => Some(i as nat),
                None => None,
            },
            edge_width: self.edge_width as nat,
            edge_type_at: self.edge_type_at as nat,
            edge_to_at: self.edge_to_at as nat,
        }
    }
}

impl Layout {
    /// The layout that the field names of a snapshot give.
    pub fn of(meta: &HeapMeta) -> (r: Layout)
        ensures
            r@ == shape_of(texts(meta.node_fields@), texts(meta.edge_fields@)),
    {
        Layout {
            node_width: meta.node_fields.len(),
            type_at: position_or(&meta.node_fields, "type", 0),
            name_at: position_or(&meta.node_fields, "name", 1),
            size_at: position_or(&meta.node_fields, "self_size", 3),
            edges_at: position_or(&meta.node_fields, "edge_count", 4),
            detached_at: position(&meta.node_fields, "detachedness"),
            edge_width: meta.edge_fields.len(),
            edge_type_at: position_or(&meta.edge_fields, "type", 0),
            edge_to_at: position_or(&meta.edge_fields, "to_node", 2),
        }
    }
}

proof fn lemma_present_is_filtered(items: Seq<Option<Seq<char>>>)
    ensures
        present(items) == items.filter(|t: Option<Seq<char>>| t is Some).map_values(
            |t: Option<Seq<char>>| t->0,
        ),
    decreases items.len(),
{
    reveal(Seq::filter);
    let kept = items.filter(|t: Option<Seq<char>>| t is Some);
    let shown = kept.map_values(|t: Option<Seq<char>>| t->0);
    if items.len() == 0 {
        assert(shown =~= present(items));
    } else {
        lemma_present_is_filtered(items.drop_last());
        assert(shown =~= present(items));
    }
}

/// The texts that are there among some items are those that are left when the items without a
/// text go.
pub proof fn only_items_without_a_text_go(items: Seq<Option<Seq<char>>>)
    ensures
        present(items) == items.filter(|t: Option<Seq<char>>| t is Some).map_values(
            |t: Option<Seq<char>>| t->0,
        ),
{
    lemma_present_is_filtered(items);
}

/// The type names are the strings of the array that stands first, in their order, all of them and
/// no others; where no array stands first there are none.
pub proof fn type_names_are_the_strings_of_the_first_array(types: Seq<serde_json::Value>)
    ensures
        types.len() == 0 ==> first_enumeration(types) == Seq::<Seq<char>>::empty(),
        types.len() > 0 ==> match json_items(types[0]) {
            Some(items) => first_enumeration(types) == items.map_values(
                |v: serde_json::Value| json_text(v),
            ).filter(|t: Option<Seq<char>>| t is Some).map_values(|t: Option<Seq<char>>| t->0),
            None => first_enumeration(types) == Seq::<Seq<char>>::empty(),
        },
{
    lemma_present_is_filtered(first_column(types));
    if types.len() > 0 {
        if let Some(items) = json_items(types[0]) {
            assert(first_column(types) =~= items.map_values(
                |v: serde_json::Value| json_text(v),
            ));
        }
    }
}

proof fn lemma_first_index_is_the_index(list: Seq<Seq<char>>, name: Seq<char>)
    ensures
        match list.index_of_first(name) {
            Some(i) => first_index(list, name) == Some(i as nat) && i >= 0,
            None => first_index(list, name) is None,
        },
{
    first_index_is_the_first(list, name);
    list.index_of_first_ensures(name);
    if let Some(i) = list.index_of_first(name) {
        if let Some(k) = first_index(list, name) {
            if i < k {
                assert(list[i] != name);
            } else if k < i {
                assert(list[k as int] != name);
            }
        }
    }
}

/// A record has a column for each field name, and each column of interest stands where its name
/// first does; the columns that must be there have a usual place, if they are not named.
pub proof fn columns_stand_where_their_names_do(
    node_fields: Seq<Seq<char>>,
    edge_fields: Seq<Seq<char>>,
)
    ensures
        ({
            let s = shape_of(node_fields, edge_fields);
            &&& s.node_width == node_fields.len()
            &&& s.edge_width == edge_fields.len()
            &&& s.type_at == match node_fields.index_of_first("type"@) {
                Some(i) => i,
                None => 0,
            }
            &&& s.name_at == match node_fields.index_of_first("name"@) {
                Some(i) => i,
                None => 1,
            }
            &&& s.size_at == match node_fields.index_of_first("self_size"@) {
                Some(i) => i,
                None => 3,
            }
            &&& s.edges_at == match node_fields.index_of_first("edge_count"@) {
                Some(i) => i,
                None => 4,
            }
            &&& match (s.detached_at, node_fields.index_of_first("detachedness"@)) {
                (Some(at), Some(i)) => at == i,
                (None, None) => true,
                _ => false,
            }
            &&& s.edge_type_at == match edge_fields.index_of_first("type"@) {
                Some(i) => i,
                None => 0,
            }
            &&& s.edge_to_at == match edge_fields.index_of_first("to_node"@) {
                Some(i) => i,
                None => 2,
            }
        }),
{
    lemma_first_index_is_the_index(node_fields, "type"@);
    lemma_first_index_is_the_index(node_fields, "name"@);
    lemma_first_index_is_the_index(node_fields, "self_size"@);
    lemma_first_index_is_the_index(node_fields, "edge_count"@);
    lemma_first_index_is_the_index(node_fields, "detachedness"@);
    lemma_first_index_is_the_index(edge_fields, "type"@);
    lemma_first_index_is_the_index(edge_fields, "to_node"@);
}

/// A place is looked up by the first occurrence of its name; a name that is not on the list has
/// the default for its place.
pub proof fn places_are_looked_up_by_name(list: Seq<Seq<char>>, name: Seq<char>, default: nat)
    ensures
        match list.index_of_first(name) {
            Some(i) => first_index(list, name) == Some(i as nat) && index_or(list, name, default)
                == i,
            None => first_index(list, name) is None && index_or(list, name, default) == default,
        },
{
    lemma_first_index_is_the_index(list, name);
}

} // verus!
