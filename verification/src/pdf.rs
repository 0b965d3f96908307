//! The boundary to `lopdf`: its types, and one small wrapper for each call.
//!
//! Nothing in this file is proved. The types of `lopdf` are opaque here:
//! what an object, a dictionary or a document holds has a name, and the
//! contract of each wrapper says over those names what the source of
//! `lopdf` shows of the call.

use vstd::prelude::*;
use crate::model::{ObjectRef, Value};

verus! {

/// `lopdf::Document`: a document with its objects, its trailer and its pages.
#[verifier::external_type_specification]
#[verifier::external_body]
pub struct ExDocument(lopdf::Document);

/// `lopdf::Object`: one object of a document.
#[verifier::external_type_specification]
#[verifier::external_body]
pub struct ExObject(lopdf::Object);

/// `lopdf::Dictionary`: a dictionary object, from keys to objects.
#[verifier::external_type_specification]
#[verifier::external_body]
pub struct ExDictionary(lopdf::Dictionary);

/// What an object holds.
pub uninterp spec fn object_value(object: lopdf::Object) -> Value;

/// The entries of a dictionary, by key.
pub uninterp spec fn dictionary_entries(dictionary: lopdf::Dictionary) -> Map<Seq<u8>, Value>;

/// What `Document::get_object` yields for each identifier it accepts.
pub uninterp spec fn document_objects(document: lopdf::Document) -> Map<ObjectRef, Value>;

/// The entries of a document's trailer, by key.
pub uninterp spec fn document_trailer(document: lopdf::Document) -> Map<Seq<u8>, Value>;

/// The page objects of a document in the order of its pages: what
/// `Document::page_iter` yields, one after the other.
pub uninterp spec fn document_pages(document: lopdf::Document) -> Seq<ObjectRef>;

/// The values of a run of objects, in order.
pub open spec fn values_of(items: Seq<lopdf::Object>) -> Seq<Value> {
    Seq::new(items.len(), |i: int| object_value(items[i]))
}

/// `lopdf::Document::get_object`: the object stored under `id`, with any
/// chain of references from it followed; nothing when the identifier is
/// absent or the chain cannot be followed.
#[verifier::external_body]
pub(crate) fn get_object<'a>(document: &'a lopdf::Document, id: ObjectRef) -> (r: Option<
    &'a lopdf::Object,
>)
    ensures
        match r {
            Some(object) => document_objects(*document).contains_key(id)
                && document_objects(*document)[id] == object_value(*object),
            None => !document_objects(*document).contains_key(id),
        },
{
    document.get_object((id.number, id.generation)).ok()
}

/// `lopdf::Object::as_array`: the items when the object is an array.
#[verifier::external_body]
pub(crate) fn as_array<'a>(object: &'a lopdf::Object) -> (r: Option<&'a Vec<lopdf::Object>>)
    ensures
        match r {
            Some(items) => object_value(*object) == Value::Array(values_of(items@)),
            None => !(object_value(*object) is Array),
        },
{
    object.as_array().ok()
}

/// `lopdf::Object::as_dict`: the dictionary when the object is one.
#[verifier::external_body]
pub(crate) fn as_dict<'a>(object: &'a lopdf::Object) -> (r: Option<&'a lopdf::Dictionary>)
    ensures
        match r {
            Some(dictionary) => object_value(*object) == Value::Dictionary(
                dictionary_entries(*dictionary),
            ),
            None => !(object_value(*object) is Dictionary),
        },
{
    object.as_dict().ok()
}

/// `lopdf::Dictionary::get`: the entry under `key`, if there is one.
#[verifier::external_body]
pub(crate) fn dictionary_get<'a>(dictionary: &'a lopdf::Dictionary, key: &[u8]) -> (r: Option<
    &'a lopdf::Object,
>)
    ensures
        match r {
            Some(object) => dictionary_entries(*dictionary).contains_key(key@)
                && dictionary_entries(*dictionary)[key@] == object_value(*object),
            None => !dictionary_entries(*dictionary).contains_key(key@),
        },
{
    dictionary.get(key).ok()
}

/// `lopdf::Object::as_reference`: the identifier when the object is a
/// reference to another object.
#[verifier::external_body]
pub(crate) fn as_reference(object: &lopdf::Object) -> (r: Option<ObjectRef>)
    ensures
        match r {
            Some(id) => object_value(*object) == Value::Reference(id),
            None => !(object_value(*object) is Reference),
        },
{
    object.as_reference().ok().map(|id| ObjectRef { number: id.0, generation: id.1 })
}

/// `lopdf::Object::as_str`: the bytes when the object is a byte string.
#[verifier::external_body]
pub(crate) fn as_str<'a>(object: &'a lopdf::Object) -> (r: Option<&'a [u8]>)
    ensures
        match r {
            Some(bytes) => object_value(*object) matches Value::ByteString(b, _) && b == bytes@,
            None => !(object_value(*object) is ByteString),
        },
{
    object.as_str().ok()
}

/// `lopdf::Object::as_name`: the bytes when the object is a name.
#[verifier::external_body]
pub(crate) fn as_name<'a>(object: &'a lopdf::Object) -> (r: Option<&'a [u8]>)
    ensures
        match r {
            Some(bytes) => object_value(*object) == Value::Name(bytes@),
            None => !(object_value(*object) is Name),
        },
{
    object.as_name().ok()
}

/// `lopdf::Dictionary::iter`: every entry once, each key with its object.
#[verifier::external_body]
pub(crate) fn dictionary_pairs<'a>(dictionary: &'a lopdf::Dictionary) -> (r: Vec<
    (&'a [u8], &'a lopdf::Object),
>)
    ensures
        forall|i: int|
            0 <= i < r@.len() ==> {
                &&& dictionary_entries(*dictionary).contains_key((#[trigger] r@[i]).0@)
                &&& dictionary_entries(*dictionary)[r@[i].0@] == object_value(*r@[i].1)
            },
        forall|i: int, j: int|
            0 <= i < j < r@.len() ==> (#[trigger] r@[i]).0@ != (#[trigger] r@[j]).0@,
        forall|key: Seq<u8>| #[trigger]
            dictionary_entries(*dictionary).contains_key(key) ==> exists|i: int|
                0 <= i < r@.len() && (#[trigger] r@[i]).0@ == key,
{
    dictionary.iter().map(|(key, object)| (key.as_slice(), object)).collect()
}

/// The `trailer` field of `lopdf::Document`.
#[verifier::external_body]
pub(crate) fn trailer<'a>(document: &'a lopdf::Document) -> (r: &'a lopdf::Dictionary)
    ensures
        dictionary_entries(*r) == document_trailer(*document),
{
    &document.trailer
}

/// `lopdf::Document::page_iter`: the page objects in the order of the
/// pages. The iterator is walked item by item and asked for nothing else,
/// so that no room is set aside for pages that a document only claims to
/// have.
#[verifier::external_body]
pub(crate) fn page_objects(document: &lopdf::Document) -> (r: Vec<ObjectRef>)
    ensures
        r@ == document_pages(*document),
{
    let mut listed = Vec::new();
    for id in document.page_iter() {
        listed.push(ObjectRef { number: id.0, generation: id.1 });
    }
    listed
}

/// A set with no more than `count` members.
pub open spec fn at_most(ids: Set<ObjectRef>, count: nat) -> bool {
    ids.finite() && ids.len() <= count
}

/// The length of the `objects` map of `lopdf::Document`. `get_object` finds
/// only identifiers that are keys of that map, so no more than this many can
/// be fetched.
#[verifier::external_body]
pub(crate) fn object_count(document: &lopdf::Document) -> (count: usize)
    ensures
        at_most(document_objects(*document).dom(), count as nat),
{
    document.objects.len()
}

} // verus!
