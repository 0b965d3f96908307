//! Walking the objects of a document.
//!
//! The name tree and the outline are both walked in the same way: a node is
//! visited, then the nodes that it points to, in the order in which it lists
//! them, and each of those with all that it leads to before the next. The
//! walk is written here once, for any kind of node, in two forms: as the
//! stack of nodes still to visit that the executable code keeps, and as the
//! descent that the shape of a tree suggests. The two give the same.

use vstd::prelude::*;
use crate::model::{as_entries, fetched, ObjectRef, Store, Value};
use crate::visited::lemma_fewer_left;

verus! {

/// What a node gives when it is visited, from its entries.
pub type Own<T> = spec_fn(Map<Seq<u8>, Value>) -> Seq<T>;

/// The nodes that a node points to, from its entries, in the order in which
/// they are to be visited.
pub type Next = spec_fn(Map<Seq<u8>, Value>) -> Seq<ObjectRef>;

/// What the nodes that are still to be visited give.
///
/// `stack` holds the nodes to visit, the next one last. A node is visited
/// once: one that was visited before, or that is no dictionary in the store,
/// is passed over. A visited node gives what is its own, and the nodes that
/// it points to are taken up before the rest, the first of them first. So a
/// tree is walked depth first in the order in which the document writes it,
/// and a document whose nodes point back at one another is still walked to
/// an end.
pub open spec fn walk<T>(
    store: Store,
    own: Own<T>,
    next: Next,
    stack: Seq<ObjectRef>,
    visited: Set<ObjectRef>,
) -> Seq<T>
    decreases store.dom().difference(visited).len(), stack.len(),
    when store.dom().finite()
    via walk_decreases::<T>
{
    if stack.len() == 0 {
        Seq::empty()
    } else {
        let id = stack.last();
        let rest = stack.drop_last();
        match as_entries(fetched(store, id)) {
            Some(node) => if visited.contains(id) {
                walk(store, own, next, rest, visited)
            } else {
                own(node) + walk(store, own, next, rest + next(node).reverse(), visited.insert(id))
            },
            None => walk(store, own, next, rest, visited),
        }
    }
}

#[via_fn]
proof fn walk_decreases<T>(
    store: Store,
    own: Own<T>,
    next: Next,
    stack: Seq<ObjectRef>,
    visited: Set<ObjectRef>,
) {
    if stack.len() > 0 {
        let id = stack.last();
        if store.contains_key(id) && !visited.contains(id) {
            lemma_fewer_left(store.dom(), visited, id);
        }
    }
}

/// What a descent into the nodes `ids`, one after the other, gives, and the
/// nodes that are visited after it.
///
/// A node that was visited before, or that is no dictionary in the store,
/// gives nothing. Any other node gives what is its own, and then what the
/// descent into the nodes that it points to gives. `fuel` bounds the depth
/// of the descent; it only serves to show that the descent ends, and the
/// number of nodes not yet visited is always enough.
pub open spec fn descent<T>(
    store: Store,
    own: Own<T>,
    next: Next,
    ids: Seq<ObjectRef>,
    visited: Set<ObjectRef>,
    fuel: nat,
) -> (Seq<T>, Set<ObjectRef>)
    decreases fuel, ids.len(),
{
    if ids.len() == 0 {
        (Seq::empty(), visited)
    } else {
        let id = ids[0];
        let behind = ids.skip(1);
        match as_entries(fetched(store, id)) {
            Some(node) => if visited.contains(id) {
                descent(store, own, next, behind, visited, fuel)
            } else if fuel == 0 {
                (Seq::empty(), visited)
            } else {
                let less = (fuel - 1) as nat;
                let below = descent(store, own, next, next(node), visited.insert(id), less);
                let after = descent(store, own, next, behind, below.1, less);
                (own(node) + below.0 + after.0, after.1)
            },
            None => descent(store, own, next, behind, visited, fuel),
        }
    }
}

/// A descent forgets no node that was visited, and visits only nodes of the
/// store.
pub proof fn lemma_descent_visits_more<T>(
    store: Store,
    own: Own<T>,
    next: Next,
    ids: Seq<ObjectRef>,
    visited: Set<ObjectRef>,
    fuel: nat,
)
    ensures
        visited.subset_of(descent(store, own, next, ids, visited, fuel).1),
        forall|id: ObjectRef|
            #[trigger] descent(store, own, next, ids, visited, fuel).1.contains(id)
                ==> visited.contains(id) || store.contains_key(id),
    decreases fuel, ids.len(),
{
    if ids.len() > 0 {
        let id = ids[0];
        let behind = ids.skip(1);
        match as_entries(fetched(store, id)) {
            Some(node) => {
                if visited.contains(id) {
                    lemma_descent_visits_more(store, own, next, behind, visited, fuel);
                } else if fuel > 0 {
                    let less = (fuel - 1) as nat;
                    let marked = visited.insert(id);
                    let below = descent(store, own, next, next(node), marked, less);
                    lemma_descent_visits_more(store, own, next, next(node), marked, less);
                    lemma_descent_visits_more(store, own, next, behind, below.1, less);
                }
            },
            None => {
                lemma_descent_visits_more(store, own, next, behind, visited, fuel);
            },
        }
    }
}

/// Fewer nodes are left unvisited in a larger set of visited nodes.
proof fn lemma_fewer_left_in_larger(
    all: Set<ObjectRef>,
    smaller: Set<ObjectRef>,
    larger: Set<ObjectRef>,
)
    requires
        all.finite(),
        smaller.subset_of(larger),
    ensures
        all.difference(larger).len() <= all.difference(smaller).len(),
{
    vstd::set_lib::lemma_len_difference(all, smaller);
    assert(all.difference(smaller).finite());
    vstd::set_lib::lemma_len_subset(all.difference(larger), all.difference(smaller));
}

/// The walk of the nodes `ids`, put over the nodes `rest` that were waiting,
/// gives what the descent into `ids` gives, and then what the walk of `rest`
/// gives with the nodes of the descent visited.
pub proof fn lemma_walk_descends<T>(
    store: Store,
    own: Own<T>,
    next: Next,
    rest: Seq<ObjectRef>,
    ids: Seq<ObjectRef>,
    visited: Set<ObjectRef>,
    fuel: nat,
)
    requires
        store.dom().finite(),
        store.dom().difference(visited).len() <= fuel,
    ensures
        walk(store, own, next, rest + ids.reverse(), visited) == descent(
            store,
            own,
            next,
            ids,
            visited,
            fuel,
        ).0 + walk(store, own, next, rest, descent(store, own, next, ids, visited, fuel).1),
    decreases fuel, ids.len(),
{
    let stack = rest + ids.reverse();
    if ids.len() == 0 {
        assert(stack =~= rest);
        assert(Seq::<T>::empty() + walk(store, own, next, rest, visited) =~= walk(
            store,
            own,
            next,
            rest,
            visited,
        ));
    } else {
        let id = ids[0];
        let behind = ids.skip(1);
        let waiting = rest + behind.reverse();
        assert(stack.last() == id);
        assert(stack.drop_last() =~= waiting);
        match as_entries(fetched(store, id)) {
            Some(node) => {
                if visited.contains(id) {
                    lemma_walk_descends(store, own, next, rest, behind, visited, fuel);
                } else {
                    lemma_fewer_left(store.dom(), visited, id);
                    let less = (fuel - 1) as nat;
                    let marked = visited.insert(id);
                    let below = descent(store, own, next, next(node), marked, less);
                    let after = descent(store, own, next, behind, below.1, less);
                    lemma_walk_descends(store, own, next, waiting, next(node), marked, less);
                    lemma_descent_visits_more(store, own, next, next(node), marked, less);
                    lemma_fewer_left_in_larger(store.dom(), marked, below.1);
                    lemma_walk_descends(store, own, next, rest, behind, below.1, less);
                    let tail = walk(store, own, next, rest, after.1);
                    assert(own(node) + (below.0 + (after.0 + tail)) =~= (own(node) + below.0
                        + after.0) + tail);
                }
            },
            None => {
                lemma_walk_descends(store, own, next, rest, behind, visited, fuel);
            },
        }
    }
}

/// Fuel beyond the number of nodes not yet visited changes nothing.
pub proof fn lemma_enough_fuel<T>(
    store: Store,
    own: Own<T>,
    next: Next,
    ids: Seq<ObjectRef>,
    visited: Set<ObjectRef>,
    fuel: nat,
    more: nat,
)
    requires
        store.dom().finite(),
        store.dom().difference(visited).len() <= fuel <= more,
    ensures
        descent(store, own, next, ids, visited, fuel).0 == descent(
            store,
            own,
            next,
            ids,
            visited,
            more,
        ).0,
{
    let none = Seq::<ObjectRef>::empty();
    lemma_walk_descends(store, own, next, none, ids, visited, fuel);
    lemma_walk_descends(store, own, next, none, ids, visited, more);
    let with_fuel = descent(store, own, next, ids, visited, fuel);
    let with_more = descent(store, own, next, ids, visited, more);
    assert(with_fuel.0 + Seq::<T>::empty() =~= with_fuel.0);
    assert(with_more.0 + Seq::<T>::empty() =~= with_more.0);
}

/// The walk of nodes, the first of them on top of the stack, gives what the
/// descent into them gives.
pub proof fn lemma_walk_is_descent<T>(store: Store, own: Own<T>, next: Next, ids: Seq<ObjectRef>)
    requires
        store.dom().finite(),
    ensures
        walk(store, own, next, ids.reverse(), Set::empty()) == descent(
            store,
            own,
            next,
            ids,
            Set::empty(),
            store.dom().len(),
        ).0,
{
    let none = Set::<ObjectRef>::empty();
    let fuel = store.dom().len();
    assert(store.dom().difference(none) =~= store.dom());
    lemma_walk_descends(store, own, next, Seq::empty(), ids, none, fuel);
    assert(Seq::<ObjectRef>::empty() + ids.reverse() =~= ids.reverse());
    let gathered = descent(store, own, next, ids, none, fuel);
    assert(gathered.0 + Seq::<T>::empty() =~= gathered.0);
}

} // verus!
