//! Reading objects: fetching by identifier, following a reference, and
//! looking a key up in a dictionary.
//!
//! A field of a dictionary may be written in place or as a reference to
//! another object, so a reader follows the reference before it looks at what
//! kind of value it has.

use vstd::prelude::*;
use lopdf::{Dictionary, Document, Object};
use crate::model::{
    as_entries, catalog_of, entry, fetched, key, resolved, resolved_entry, ObjectRef, Value,
};
use crate::pdf::{
    as_dict, as_reference, dictionary_entries, dictionary_get, document_objects,
    document_trailer, get_object, object_value, trailer,
};

verus! {

/// The value of an object that may be missing.
pub open spec fn value_of(object: Option<&Object>) -> Option<Value> {
    match object {
        Some(object) => Some(object_value(*object)),
        None => None,
    }
}

/// The entries of a dictionary that may be missing.
pub open spec fn entries_of(dictionary: Option<&Dictionary>) -> Option<Map<Seq<u8>, Value>> {
    match dictionary {
        Some(dictionary) => Some(dictionary_entries(*dictionary)),
        None => None,
    }
}

/// Follows a reference: hands back the object itself unless it is a
/// reference, and then the object that the document holds under it.
pub fn resolve<'a>(document: &'a Document, object: &'a Object) -> (r: Option<&'a Object>)
    ensures
        value_of(r) == resolved(document_objects(*document), object_value(*object)),
{
    match as_reference(object) {
        Some(id) => get_object(document, id),
        None => Some(object),
    }
}

/// The entry of a dictionary under a key, as it is written.
pub fn field<'a>(dictionary: &'a Dictionary, name: &str) -> (r: Option<&'a Object>)
    ensures
        value_of(r) == entry(dictionary_entries(*dictionary), key(name)),
{
    dictionary_get(dictionary, name.as_bytes())
}

/// The entry of a dictionary under a key, with a reference followed.
pub fn resolved_field<'a>(document: &'a Document, dictionary: &'a Dictionary, name: &str) -> (r:
    Option<&'a Object>)
    ensures
        value_of(r) == resolved_entry(
            document_objects(*document),
            dictionary_entries(*dictionary),
            key(name),
        ),
{
    match field(dictionary, name) {
        Some(object) => resolve(document, object),
        None => None,
    }
}

/// The dictionary that the document holds under an identifier.
pub fn fetch_dictionary<'a>(document: &'a Document, id: ObjectRef) -> (r: Option<
    &'a Dictionary,
>)
    ensures
        entries_of(r) == as_entries(fetched(document_objects(*document), id)),
{
    match get_object(document, id) {
        Some(object) => as_dict(object),
        None => None,
    }
}

/// The dictionary under a key of another dictionary, with a reference
/// followed.
pub fn dictionary_field<'a>(document: &'a Document, dictionary: &'a Dictionary, name: &str) -> (r:
    Option<&'a Dictionary>)
    ensures
        entries_of(r) == as_entries(
            resolved_entry(document_objects(*document), dictionary_entries(*dictionary), key(name)),
        ),
{
    match resolved_field(document, dictionary, name) {
        Some(object) => as_dict(object),
        None => None,
    }
}

/// The catalog of a document.
pub fn catalog<'a>(document: &'a Document) -> (r: Option<&'a Dictionary>)
    ensures
        entries_of(r) == catalog_of(document_objects(*document), document_trailer(*document)),
{
    match field(trailer(document), "Root") {
        Some(root) => match as_reference(root) {
            Some(id) => fetch_dictionary(document, id),
            None => None,
        },
        None => None,
    }
}

} // verus!
