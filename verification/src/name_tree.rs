//! Gathering the named destinations of a document.
//!
//! The names stand in a name tree below the catalog, whose nodes hold keys
//! with their values and point to further nodes, and in an older flat
//! dictionary of the catalog. Both are gathered, the flat dictionary after
//! the tree, so that its entries stand where a name is in both.

use vstd::prelude::*;
use lopdf::{Dictionary, Document, Object};
use crate::accessor::{catalog, dictionary_field, fetch_dictionary, field, resolved_field};
use crate::model::{
    as_entries, catalog_of, entry, fetched, key, resolved_entry, ObjectRef, Store, Value,
};
use crate::named_dests::{
    lemma_table_of_both, lemma_table_of_entries, pair_of, pairs_of, table_of, NamedDestinations,
    Pair,
};
use crate::pdf::{
    as_array, as_dict, as_name, as_reference, as_str, dictionary_entries, dictionary_pairs,
    document_objects, document_trailer, object_count, object_value, values_of,
};
use crate::visited::{lemma_fewer_left, Visited};
use crate::walk::{descent, lemma_walk_is_descent, walk, Next, Own};

verus! {

/// The bytes of a value that can serve as a key: a byte string or a name.
pub open spec fn key_bytes(value: Value) -> Option<Seq<u8>> {
    match value {
        Value::ByteString(bytes, _) => Some(bytes),
        Value::Name(bytes) => Some(bytes),
        _ => None,
    }
}

/// The pairs that the first `count` couples of `items` hold. The items are
/// read two by two, a key and then its value; a couple whose first item
/// cannot serve as a key holds none.
pub open spec fn pairs_in(items: Seq<Value>, count: nat) -> Seq<Pair>
    decreases count,
{
    if count == 0 {
        Seq::empty()
    } else {
        let before = pairs_in(items, (count - 1) as nat);
        match key_bytes(items[2 * (count - 1)]) {
            Some(bytes) => before.push((bytes, items[2 * count - 1])),
            None => before,
        }
    }
}

/// The pairs of a run of alternating keys and values. An item left over at
/// the end is ignored.
pub open spec fn name_pairs(items: Seq<Value>) -> Seq<Pair> {
    pairs_in(items, (items.len() / 2) as nat)
}

/// The identifiers that the references among `items` point to, in order.
pub open spec fn references_of(items: Seq<Value>) -> Seq<ObjectRef>
    decreases items.len(),
{
    if items.len() == 0 {
        Seq::empty()
    } else {
        match items[0] {
            Value::Reference(id) => seq![id] + references_of(items.skip(1)),
            _ => references_of(items.skip(1)),
        }
    }
}

/// The pairs that a node of the name tree holds itself.
pub open spec fn node_pairs(store: Store, node: Map<Seq<u8>, Value>) -> Seq<Pair> {
    match resolved_entry(store, node, key("Names")) {
        Some(Value::Array(items)) => name_pairs(items),
        _ => Seq::empty(),
    }
}

/// The nodes that a node of the name tree points to.
pub open spec fn node_kids(store: Store, node: Map<Seq<u8>, Value>) -> Seq<ObjectRef> {
    match resolved_entry(store, node, key("Kids")) {
        Some(Value::Array(items)) => references_of(items),
        _ => Seq::empty(),
    }
}

/// What a node of the name tree gives when it is visited: the pairs that
/// it holds itself.
pub open spec fn names_of(store: Store) -> Own<Pair> {
    |node: Map<Seq<u8>, Value>| node_pairs(store, node)
}

/// The nodes that a node of the name tree points to.
pub open spec fn kids_of(store: Store) -> Next {
    |node: Map<Seq<u8>, Value>| node_kids(store, node)
}

/// The pairs gathered from the nodes that are still to be visited: each node
/// gives its own pairs, and its kids are visited before the nodes that were
/// waiting, the first kid first.
pub open spec fn tree_pairs(store: Store, stack: Seq<ObjectRef>, visited: Set<ObjectRef>) -> Seq<
    Pair,
> {
    walk(store, names_of(store), kids_of(store), stack, visited)
}

/// The walk of a name tree from its root gives what the descent into the
/// tree gives: the pairs of the root, then for each of its kids in order
/// the pairs of the tree below that kid.
pub proof fn lemma_tree_is_descent(store: Store, root: ObjectRef)
    requires
        store.dom().finite(),
    ensures
        tree_pairs(store, seq![root], Set::empty()) == descent(
            store,
            names_of(store),
            kids_of(store),
            seq![root],
            Set::empty(),
            store.dom().len(),
        ).0,
{
    assert(seq![root].reverse() =~= seq![root]);
    lemma_walk_is_descent(store, names_of(store), kids_of(store), seq![root]);
}

/// The pairs of the name tree below `root`, which is the root node itself
/// or a reference to it.
pub open spec fn root_pairs(store: Store, root: Value) -> Seq<Pair> {
    match root {
        Value::Reference(id) => tree_pairs(store, seq![id], Set::empty()),
        Value::Dictionary(node) => node_pairs(store, node) + tree_pairs(
            store,
            node_kids(store, node).reverse(),
            Set::empty(),
        ),
        _ => Seq::empty(),
    }
}

/// The pairs of the name tree of destinations that a catalog leads to.
pub open spec fn tree_of_catalog(store: Store, catalog: Map<Seq<u8>, Value>) -> Seq<Pair> {
    match as_entries(resolved_entry(store, catalog, key("Names"))) {
        Some(names) => match entry(names, key("Dests")) {
            Some(root) => root_pairs(store, root),
            None => Seq::empty(),
        },
        None => Seq::empty(),
    }
}

/// The entries of the flat dictionary of destinations of a catalog.
pub open spec fn flat_of_catalog(store: Store, catalog: Map<Seq<u8>, Value>) -> Map<
    Seq<u8>,
    Value,
> {
    match as_entries(resolved_entry(store, catalog, key("Dests"))) {
        Some(entries) => entries,
        None => Map::empty(),
    }
}

/// The named destinations of a document: those of the name tree, and over
/// them those of the flat dictionary. A document without a catalog has none.
pub open spec fn named_destinations(store: Store, trailer: Map<Seq<u8>, Value>) -> Map<
    Seq<u8>,
    Value,
> {
    match catalog_of(store, trailer) {
        Some(catalog) => table_of(tree_of_catalog(store, catalog)).union_prefer_right(
            flat_of_catalog(store, catalog),
        ),
        None => Map::empty(),
    }
}

/// The pairs that nodes hold themselves, node after node.
pub open spec fn pairs_of_nodes(store: Store, ids: Seq<ObjectRef>) -> Seq<Pair>
    decreases ids.len(),
{
    if ids.len() == 0 {
        Seq::empty()
    } else {
        match as_entries(fetched(store, ids[0])) {
            Some(node) => node_pairs(store, node) + pairs_of_nodes(store, ids.skip(1)),
            None => pairs_of_nodes(store, ids.skip(1)),
        }
    }
}

/// The identifiers are those of leaves of the name tree: each is a
/// dictionary in the store that points to no further node, and none comes
/// twice.
pub open spec fn are_leaves(store: Store, ids: Seq<ObjectRef>) -> bool {
    &&& ids.no_duplicates()
    &&& forall|i: int|
        0 <= i < ids.len() ==> {
            &&& (#[trigger] as_entries(fetched(store, ids[i]))) matches Some(node)
            &&& node_kids(store, node).len() == 0
        }
}

/// Leaves that wait to be visited, the first of them next, give their pairs
/// in their order.
proof fn lemma_walk_of_leaves(store: Store, ids: Seq<ObjectRef>, visited: Set<ObjectRef>)
    requires
        store.dom().finite(),
        are_leaves(store, ids),
        forall|i: int| 0 <= i < ids.len() ==> !visited.contains(#[trigger] ids[i]),
    ensures
        tree_pairs(store, ids.reverse(), visited) == pairs_of_nodes(store, ids),
    decreases ids.len(),
{
    if ids.len() > 0 {
        let behind = ids.skip(1);
        assert(ids.reverse().drop_last() =~= behind.reverse());
        lemma_walk_of_leaves(store, behind, visited.insert(ids[0]));
    }
}

/// A name tree whose root points to leaves gives the pairs of the root and
/// then those of the leaves, in the order in which the root lists them.
pub proof fn lemma_tree_of_root_and_leaves(store: Store, root: ObjectRef, kids: Seq<ObjectRef>)
    requires
        store.dom().finite(),
        as_entries(fetched(store, root)) matches Some(node) && node_kids(store, node) == kids,
        are_leaves(store, kids),
        !kids.contains(root),
    ensures
        tree_pairs(store, seq![root], Set::empty()) == node_pairs(
            store,
            as_entries(fetched(store, root))->0,
        ) + pairs_of_nodes(store, kids),
{
    let none = Set::<ObjectRef>::empty();
    lemma_walk_of_leaves(store, kids, none.insert(root));
}

/// A name tree of one node gives the pairs of that node.
pub proof fn lemma_tree_of_one_node(store: Store, root: ObjectRef)
    requires
        store.dom().finite(),
        as_entries(fetched(store, root)) matches Some(node) && node_kids(store, node).len() == 0,
    ensures
        tree_pairs(store, seq![root], Set::empty()) == node_pairs(
            store,
            as_entries(fetched(store, root))->0,
        ),
{
    let none = Seq::<ObjectRef>::empty();
    assert(node_kids(store, as_entries(fetched(store, root))->0) =~= none);
    lemma_tree_of_root_and_leaves(store, root, none);
}

/// In the table of a document, an entry of the flat dictionary stands over
/// one of the name tree, and an entry of the name tree stands where the flat
/// dictionary has none under its key.
pub proof fn lemma_flat_stands_over_tree(
    store: Store,
    trailer: Map<Seq<u8>, Value>,
    name: Seq<u8>,
)
    requires
        catalog_of(store, trailer) is Some,
    ensures
        ({
            let catalog = catalog_of(store, trailer)->0;
            let flat = flat_of_catalog(store, catalog);
            let tree = table_of(tree_of_catalog(store, catalog));
            entry(named_destinations(store, trailer), name) == if flat.contains_key(name) {
                Some(flat[name])
            } else {
                entry(tree, name)
            }
        }),
{
}

/// The bytes of an object that can serve as a key.
fn key_of<'a>(object: &'a Object) -> (r: Option<&'a [u8]>)
    ensures
        match r {
            Some(bytes) => key_bytes(object_value(*object)) == Some(bytes@),
            None => key_bytes(object_value(*object)) is None,
        },
{
    match as_str(object) {
        Some(bytes) => Some(bytes),
        None => as_name(object),
    }
}

/// Puts the references among the items of a node's `Kids` on the stack, the
/// last one first, so that the first one is taken off next.
fn push_kids(document: &Document, node: &Dictionary, stack: &mut Vec<ObjectRef>)
    ensures
        final(stack)@ == old(stack)@ + node_kids(
            document_objects(*document),
            dictionary_entries(*node),
        ).reverse(),
{
    let ghost base = stack@;
    let items = match resolved_field(document, node, "Kids") {
        Some(object) => match as_array(object) {
            Some(items) => items,
            None => {
                return ;
            },
        },
        None => {
            return ;
        },
    };
    let ghost values = values_of(items@);
    let mut j: usize = items.len();
    while j > 0
        invariant
            j <= items@.len(),
            values == values_of(items@),
            stack@ == base + references_of(values.skip(j as int)).reverse(),
        decreases j,
    {
        j = j - 1;
        let kid = as_reference(&items[j]);
        assert(values.skip(j as int).skip(1) =~= values.skip(j + 1));
        match kid {
            Some(id) => {
                stack.push(id);
            },
            None => {},
        }
    }
    assert(values.skip(0) =~= values);
}

/// Gathers the pairs that a node of the name tree holds itself.
fn gather_names<'a>(
    document: &'a Document,
    node: &'a Dictionary,
    stored: &mut Vec<(&'a [u8], &'a Object)>,
)
    ensures
        pairs_of(final(stored)@) == pairs_of(old(stored)@) + node_pairs(
            document_objects(*document),
            dictionary_entries(*node),
        ),
{
    let ghost base = pairs_of(stored@);
    let items = match resolved_field(document, node, "Names") {
        Some(object) => match as_array(object) {
            Some(items) => items,
            None => {
                return ;
            },
        },
        None => {
            return ;
        },
    };
    let ghost values = values_of(items@);
    let count: usize = items.len() / 2;
    let mut c: usize = 0;
    while c < count
        invariant
            c <= count,
            count == items@.len() / 2,
            items@.len() <= usize::MAX,
            values == values_of(items@),
            pairs_of(stored@) == base + pairs_in(values, c as nat),
        decreases count - c,
    {
        let first = &items[2 * c];
        let second = &items[2 * c + 1];
        let ghost before = pairs_of(stored@);
        match key_of(first) {
            Some(bytes) => {
                stored.push((bytes, second));
                assert(pairs_of(stored@) =~= before.push((bytes@, object_value(*second))));
            },
            None => {},
        }
        c = c + 1;
    }
}

/// Gathers the pairs of the nodes on the stack and of all that they lead
/// to.
fn gather_nodes<'a>(
    document: &'a Document,
    stack: Vec<ObjectRef>,
    stored: &mut Vec<(&'a [u8], &'a Object)>,
)
    ensures
        pairs_of(final(stored)@) == pairs_of(old(stored)@) + tree_pairs(
            document_objects(*document),
            stack@,
            Set::empty(),
        ),
{
    let mut stack = stack;
    let ghost store = document_objects(*document);
    // A document holds finitely many objects, which is why the walk ends.
    let _ = object_count(document);
    let mut visited = Visited::new();
    let ghost target = pairs_of(stored@) + tree_pairs(store, stack@, visited@);
    while stack.len() > 0
        invariant
            store == document_objects(*document),
            store.dom().finite(),
            target == pairs_of(stored@) + tree_pairs(store, stack@, visited@),
        decreases store.dom().difference(visited@).len(), stack.len(),
    {
        let id = stack.pop().unwrap();
        if !visited.contains(id) {
            match fetch_dictionary(document, id) {
                Some(node) => {
                    proof {
                        lemma_fewer_left(store.dom(), visited@, id);
                    }
                    visited.insert(id);
                    gather_names(document, node, stored);
                    push_kids(document, node, &mut stack);
                },
                None => {},
            }
        }
    }
}

/// Gathers the pairs of the name tree below `root`, which is the root node
/// itself or a reference to it, behind the pairs that were gathered before.
pub fn gather_tree<'a>(
    document: &'a Document,
    root: &'a Object,
    stored: &mut Vec<(&'a [u8], &'a Object)>,
)
    ensures
        pairs_of(final(stored)@) == pairs_of(old(stored)@) + root_pairs(
            document_objects(*document),
            object_value(*root),
        ),
{
    match as_reference(root) {
        Some(id) => {
            let mut stack: Vec<ObjectRef> = Vec::new();
            stack.push(id);
            gather_nodes(document, stack, stored);
        },
        None => match as_dict(root) {
            Some(node) => {
                let mut stack: Vec<ObjectRef> = Vec::new();
                gather_names(document, node, stored);
                push_kids(document, node, &mut stack);
                gather_nodes(document, stack, stored);
            },
            None => {},
        },
    }
}

/// Gathers every entry of a flat dictionary of destinations, behind the
/// pairs that were gathered before: its entries stand over theirs.
pub fn gather_entries<'a>(flat: &'a Dictionary, stored: &mut Vec<(&'a [u8], &'a Object)>)
    ensures
        pairs_of(old(stored)@).is_prefix_of(pairs_of(final(stored)@)),
        table_of(pairs_of(final(stored)@).skip(old(stored)@.len() as int)) == dictionary_entries(
            *flat,
        ),
        table_of(pairs_of(final(stored)@)) == table_of(pairs_of(old(stored)@)).union_prefer_right(
            dictionary_entries(*flat),
        ),
{
    let entries = dictionary_pairs(flat);
    let ghost base = pairs_of(stored@);
    let ghost listed = pairs_of(entries@);
    let mut i: usize = 0;
    while i < entries.len()
        invariant
            i <= entries@.len(),
            listed == pairs_of(entries@),
            pairs_of(stored@) == base + listed.take(i as int),
        decreases entries.len() - i,
    {
        let (key, destination) = entries[i];
        let ghost before = pairs_of(stored@);
        stored.push((key, destination));
        assert(pairs_of(stored@) =~= before.push(pair_of(entries@[i as int])));
        i = i + 1;
    }
    proof {
        assert(listed.take(entries@.len() as int) =~= listed);
        lemma_table_of_both(base, listed);
        assert forall|key: Seq<u8>| #[trigger]
            dictionary_entries(*flat).contains_key(key) implies exists|i: int|
            0 <= i < listed.len() && (#[trigger] listed[i]).0 == key by {
            let i = choose|i: int| 0 <= i < entries@.len() && (#[trigger] entries@[i]).0@ == key;
            assert(listed[i] == pair_of(entries@[i]));
        }
        lemma_table_of_entries(listed, dictionary_entries(*flat));
        assert(pairs_of(stored@).skip(base.len() as int) =~= listed);
        assert(pairs_of(stored@).take(base.len() as int) =~= base);
    }
}

/// Gathers the pairs of a document: those of the name tree below the
/// catalog, then those of the catalog's flat dictionary.
fn gather<'a>(document: &'a Document) -> (stored: Vec<(&'a [u8], &'a Object)>)
    ensures
        table_of(pairs_of(stored@)) == named_destinations(
            document_objects(*document),
            document_trailer(*document),
        ),
{
    let mut stored: Vec<(&'a [u8], &'a Object)> = Vec::new();
    match catalog(document) {
        Some(found) => {
            match dictionary_field(document, found, "Names") {
                Some(names) => match field(names, "Dests") {
                    Some(root) => {
                        gather_tree(document, root, &mut stored);
                    },
                    None => {},
                },
                None => {},
            }
            match dictionary_field(document, found, "Dests") {
                Some(flat) => {
                    gather_entries(flat, &mut stored);
                },
                None => {},
            }
        },
        None => {},
    }
    stored
}

impl<'a> NamedDestinations<'a> {
    /// Gathers the named destinations of a document: those of the name tree
    /// below the catalog, and over them those of the catalog's flat
    /// dictionary.
    pub fn build(document: &'a Document) -> (table: NamedDestinations<'a>)
        ensures
            table@ == named_destinations(document_objects(*document), document_trailer(*document)),
    {
        NamedDestinations::from_pairs(gather(document))
    }
}

} // verus!
