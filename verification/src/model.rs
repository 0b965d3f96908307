//! The mathematical model of a document's objects.

use vstd::prelude::*;
use vstd::string::StringSliceAdditionalSpecFns;

verus! {

/// Identifier of an indirect object: object number and generation number.
#[derive(Clone, Copy, Debug, PartialEq, Eq, Hash, Structural)]
pub struct ObjectRef {
    pub number: u32,
    pub generation: u16,
}

/// How a byte string was written in the document.
pub enum StringFormat {
    Literal,
    Hexadecimal,
}

/// What a document object holds, as a mathematical value.
///
/// Executable code never builds one of these: it handles `lopdf::Object`
/// values, and contracts speak of them through [`crate::pdf::object_value`].
/// A real number and the payload of a stream are not modelled, because
/// nothing in outline resolution reads them.
pub enum Value {
    Null,
    Boolean(bool),
    Integer(int),
    Real,
    ByteString(Seq<u8>, StringFormat),
    Name(Seq<u8>),
    Array(Seq<Value>),
    Dictionary(Map<Seq<u8>, Value>),
    Stream(Map<Seq<u8>, Value>),
    Reference(ObjectRef),
}

/// The objects of a document that can be fetched, by identifier.
pub type Store = Map<ObjectRef, Value>;

/// The integer that stands for an identifier where one is needed as a key.
pub open spec fn code(id: ObjectRef) -> u64 {
    (id.number as int * 65536 + id.generation as int) as u64
}

/// Two identifiers have one code only if they are the same.
pub proof fn lemma_code_injective(a: ObjectRef, b: ObjectRef)
    requires
        code(a) == code(b),
    ensures
        a == b,
{
}

impl ObjectRef {
    /// The identifier with these two numbers.
    pub fn new(number: u32, generation: u16) -> (r: ObjectRef)
        ensures
            r.number == number,
            r.generation == generation,
    {
        ObjectRef { number, generation }
    }

    /// The integer that stands for the identifier as a key.
    pub fn code(&self) -> (r: u64)
        ensures
            r == code(*self),
    {
        self.number as u64 * 65536 + self.generation as u64
    }
}

/// The bytes of a dictionary key that is written as text.
pub open spec fn key(name: &str) -> Seq<u8> {
    name.spec_bytes()
}

/// The key of a text of ASCII characters has one byte for each character.
pub proof fn lemma_key_of_ascii(name: &str)
    requires
        vstd::string::is_ascii(name),
    ensures
        key(name) == Seq::new(name@.len(), |i: int| name@[i] as u8),
{
    vstd::string::is_ascii_spec_bytes(name);
}

/// The object stored under `id`, if the store has one.
pub open spec fn fetched(store: Store, id: ObjectRef) -> Option<Value> {
    if store.contains_key(id) {
        Some(store[id])
    } else {
        None
    }
}

/// A value with a reference followed: the value itself unless it is a
/// reference, and then what the store holds under the identifier. There is
/// none where the store holds nothing there.
pub open spec fn resolved(store: Store, value: Value) -> Option<Value> {
    match value {
        Value::Reference(id) => fetched(store, id),
        _ => Some(value),
    }
}

/// The entry of a dictionary under `key`, as it is written.
pub open spec fn entry(entries: Map<Seq<u8>, Value>, key: Seq<u8>) -> Option<Value> {
    if entries.contains_key(key) {
        Some(entries[key])
    } else {
        None
    }
}

/// The entry of a dictionary under `key`, with a reference followed.
pub open spec fn resolved_entry(store: Store, entries: Map<Seq<u8>, Value>, key: Seq<u8>) -> Option<
    Value,
> {
    match entry(entries, key) {
        Some(value) => resolved(store, value),
        None => None,
    }
}

/// The entries of a value that is a dictionary.
pub open spec fn as_entries(value: Option<Value>) -> Option<Map<Seq<u8>, Value>> {
    match value {
        Some(Value::Dictionary(entries)) => Some(entries),
        _ => None,
    }
}

/// The catalog of a document: the dictionary that the trailer's `Root`
/// refers to.
pub open spec fn catalog_of(store: Store, trailer: Map<Seq<u8>, Value>) -> Option<
    Map<Seq<u8>, Value>,
> {
    match entry(trailer, key("Root")) {
        Some(Value::Reference(id)) => as_entries(fetched(store, id)),
        _ => None,
    }
}

} // verus!
