//! The set of objects that a walk has visited.
//!
//! The objects of a document point to one another, and nothing keeps a
//! damaged document from pointing in a circle. A walk therefore notes which
//! objects it has visited and visits none twice. As a document holds
//! finitely many objects, such a walk comes to an end.

use vstd::prelude::*;
use std::collections::HashSet;
use crate::model::{code, lemma_code_injective, ObjectRef};

verus! {

broadcast use vstd::std_specs::hash::group_hash_axioms;

/// Visiting one more member of a finite set leaves fewer unvisited.
pub proof fn lemma_fewer_left(all: Set<ObjectRef>, visited: Set<ObjectRef>, id: ObjectRef)
    requires
        all.finite(),
        all.contains(id),
        !visited.contains(id),
    ensures
        all.difference(visited.insert(id)).len() < all.difference(visited).len(),
{
    let before = all.difference(visited);
    let after = all.difference(visited.insert(id));
    vstd::set_lib::lemma_len_difference(all, visited);
    assert(after =~= before.remove(id));
}

/// A set of object identifiers.
pub struct Visited {
    codes: HashSet<u64>,
}

impl View for Visited {
    type V = Set<ObjectRef>;

    closed spec fn view(&self) -> Set<ObjectRef> {
        Set::new(|id: ObjectRef| self.codes@.contains(code(id)))
    }
}

impl Visited {
    /// The empty set.
    pub fn new() -> (visited: Visited)
        ensures
            visited@ == Set::<ObjectRef>::empty(),
    {
        let visited = Visited { codes: HashSet::new() };
        visited
    }

    /// Whether the set holds an identifier.
    pub fn contains(&self, id: ObjectRef) -> (r: bool)
        ensures
            r == self@.contains(id),
    {
        let filed = id.code();
        self.codes.contains(&filed)
    }

    /// Puts an identifier in the set.
    pub fn insert(&mut self, id: ObjectRef)
        ensures
            final(self)@ == old(self)@.insert(id),
    {
        let filed = id.code();
        self.codes.insert(filed);
        proof {
            // No other identifier has this code.
            assert forall|other: ObjectRef| code(other) == filed implies other == id by {
                lemma_code_injective(other, id);
            }
            assert(self@ =~= old(self)@.insert(id));
        }
    }
}

} // verus!
