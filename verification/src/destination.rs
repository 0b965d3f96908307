//! Resolving a destination to a page number.
//!
//! A destination is written as an array whose first item refers to a page
//! object, or as a name or byte string that stands for an entry of the table
//! of named destinations. A named entry is itself such an array, or a
//! dictionary that holds one under `D`. Nothing else is a destination: a
//! name is looked up once, and never leads to another name.

use vstd::prelude::*;
use lopdf::{Document, Object};
use crate::accessor::{resolve, resolved_field};
use crate::model::{entry, key, resolved, resolved_entry, ObjectRef, Store, Value};
use crate::name_tree::key_bytes;
use crate::named_dests::NamedDestinations;
use crate::page_index::PageIndex;
use crate::pdf::{as_array, as_dict, as_name, as_reference, as_str, document_objects, object_value};

verus! {

/// The page that an explicit destination leads to: the page of the object
/// that the first item of the array refers to.
pub open spec fn array_page(value: Value, pages: Map<ObjectRef, u32>) -> Option<u32> {
    match value {
        Value::Array(items) => if items.len() > 0 {
            match items[0] {
                Value::Reference(id) => if pages.contains_key(id) {
                    Some(pages[id])
                } else {
                    None
                },
                _ => None,
            }
        } else {
            None
        },
        _ => None,
    }
}

/// The page that an entry of the table of named destinations leads to.
pub open spec fn named_page(store: Store, target: Value, pages: Map<ObjectRef, u32>) -> Option<
    u32,
> {
    match resolved(store, target) {
        Some(Value::Array(items)) => array_page(Value::Array(items), pages),
        Some(Value::Dictionary(entries)) => match resolved_entry(store, entries, key("D")) {
            Some(inner) => array_page(inner, pages),
            None => None,
        },
        _ => None,
    }
}

/// The page that a destination leads to, if it leads to one.
pub open spec fn destination_page(
    store: Store,
    value: Value,
    pages: Map<ObjectRef, u32>,
    table: Map<Seq<u8>, Value>,
) -> Option<u32> {
    match resolved(store, value) {
        Some(Value::Array(items)) => array_page(Value::Array(items), pages),
        Some(found) => match key_bytes(found) {
            Some(name) => match entry(table, name) {
                Some(target) => named_page(store, target, pages),
                None => None,
            },
            None => None,
        },
        None => None,
    }
}

/// A name that the table knows, and whose entry is an array that begins
/// with a reference to a page, leads to that page, whether the name is
/// written as a name or as a byte string.
pub proof fn lemma_named_array_leads_to_page(
    store: Store,
    name: Seq<u8>,
    items: Seq<Value>,
    id: ObjectRef,
    pages: Map<ObjectRef, u32>,
    table: Map<Seq<u8>, Value>,
)
    requires
        table.contains_key(name),
        table[name] == Value::Array(items),
        items.len() > 0,
        items[0] == Value::Reference(id),
        pages.contains_key(id),
    ensures
        destination_page(store, Value::Name(name), pages, table) == Some(pages[id]),
        forall|format: crate::model::StringFormat|
            #[trigger] destination_page(store, Value::ByteString(name, format), pages, table)
                == Some(pages[id]),
{
}

/// A name that the table does not know leads nowhere.
pub proof fn lemma_unknown_name_leads_nowhere(
    store: Store,
    name: Seq<u8>,
    pages: Map<ObjectRef, u32>,
    table: Map<Seq<u8>, Value>,
)
    requires
        !table.contains_key(name),
    ensures
        destination_page(store, Value::Name(name), pages, table) is None,
{
}

/// A name is looked up once: where its entry is another name, whether as
/// it stands or under `D`, it leads nowhere, whatever the table holds under
/// that other name.
pub proof fn lemma_name_is_followed_once(
    store: Store,
    target: Value,
    other: Seq<u8>,
    pages: Map<ObjectRef, u32>,
)
    requires
        target == Value::Name(other) || (target matches Value::Dictionary(entries)
            && resolved_entry(store, entries, key("D")) == Some(Value::Name(other))),
    ensures
        named_page(store, target, pages) is None,
{
}

/// The page of an explicit destination.
fn page_of_array(items: &Vec<Object>, pages: &PageIndex) -> (r: Option<u32>)
    ensures
        r == array_page(Value::Array(crate::pdf::values_of(items@)), pages@),
{
    if items.len() == 0 {
        return None;
    }
    match as_reference(&items[0]) {
        Some(id) => pages.page_of(id),
        None => None,
    }
}

/// The page of an entry of the table of named destinations.
fn page_of_named(document: &Document, target: &Object, pages: &PageIndex) -> (r: Option<u32>)
    ensures
        r == named_page(document_objects(*document), object_value(*target), pages@),
{
    let found = match resolve(document, target) {
        Some(found) => found,
        None => {
            return None;
        },
    };
    match as_array(found) {
        Some(items) => page_of_array(items, pages),
        None => match as_dict(found) {
            Some(entries) => match resolved_field(document, entries, "D") {
                Some(inner) => match as_array(inner) {
                    Some(items) => page_of_array(items, pages),
                    None => None,
                },
                None => None,
            },
            None => None,
        },
    }
}

/// Resolves a destination to its page number. There is none where the
/// destination has another shape than those that are known, where a name is
/// not in the table, or where the object referred to is no page.
pub fn resolve_destination(
    document: &Document,
    value: &Object,
    pages: &PageIndex,
    table: &NamedDestinations<'_>,
) -> (r: Option<u32>)
    ensures
        r == destination_page(document_objects(*document), object_value(*value), pages@, table@),
{
    let found = match resolve(document, value) {
        Some(found) => found,
        None => {
            return None;
        },
    };
    match as_array(found) {
        Some(items) => page_of_array(items, pages),
        None => {
            let name = match as_str(found) {
                Some(bytes) => Some(bytes),
                None => as_name(found),
            };
            match name {
                Some(bytes) => match table.get(bytes) {
                    Some(target) => page_of_named(document, target, pages),
                    None => None,
                },
                None => None,
            }
        },
    }
}

} // verus!
