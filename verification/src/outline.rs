//! Walking the outline: the tree of bookmarks of a document.
//!
//! A bookmark is a dictionary with a title and a destination. It points to
//! its first child under `First` and to its next sibling under `Next`. The
//! walk visits a bookmark, then its children, then its siblings, and notes
//! for each bookmark the page it leads to, or that it leads to none.

use vstd::prelude::*;
use lopdf::{Dictionary, Document};
use crate::accessor::{catalog, dictionary_field, fetch_dictionary, field, resolved_field};
use crate::bytes::same_bytes;
use crate::destination::{destination_page, resolve_destination};
use crate::model::{
    as_entries, catalog_of, entry, fetched, key, resolved_entry, ObjectRef, Store, Value,
};
use crate::named_dests::NamedDestinations;
use crate::page_index::PageIndex;
use crate::pdf::{
    as_name, as_reference, as_str, dictionary_entries, document_objects, document_trailer,
    object_count,
};
use crate::text::{decode, decoded};
use crate::visited::{lemma_fewer_left, Visited};
use crate::walk::{descent, lemma_walk_is_descent, walk, Next, Own};

verus! {

/// What the walk notes of one bookmark: its title, and the page that it
/// leads to, if it leads to one.
pub struct Visit {
    pub page: Option<u32>,
    pub title: Seq<char>,
}

/// The start of a chapter: a page and a title.
pub struct Start {
    pub page: u32,
    pub title: Seq<char>,
}

/// A bookmark that leads to a page.
#[derive(Debug)]
pub struct Bookmark {
    pub page: u32,
    pub title: String,
}

impl View for Bookmark {
    type V = Start;

    open spec fn view(&self) -> Start {
        Start { page: self.page, title: self.title@ }
    }
}

/// What a walk of the outline found.
#[derive(Debug)]
pub struct OutlineScan {
    /// The bookmarks that lead to a page, in the order of the walk.
    pub bookmarks: Vec<Bookmark>,
    /// The titles of the bookmarks that lead to no page, in the order of
    /// the walk.
    pub skipped: Vec<String>,
}

/// The chapter starts that bookmarks stand for.
pub open spec fn starts_of(bookmarks: Seq<Bookmark>) -> Seq<Start> {
    Seq::new(bookmarks.len(), |i: int| bookmarks[i]@)
}

/// The texts of strings.
pub open spec fn texts_of(strings: Seq<String>) -> Seq<Seq<char>> {
    Seq::new(strings.len(), |i: int| strings[i]@)
}

/// The title of a bookmark: its `Title` decoded, or a fixed text where it
/// has no byte string there.
pub open spec fn title_of(store: Store, node: Map<Seq<u8>, Value>) -> Seq<char> {
    match resolved_entry(store, node, key("Title")) {
        Some(Value::ByteString(bytes, _)) => decoded(bytes),
        _ => "No Title"@,
    }
}

/// The action is one that goes to a destination.
pub open spec fn is_goto(store: Store, action: Map<Seq<u8>, Value>) -> bool {
    resolved_entry(store, action, key("S")) == Some(Value::Name(key("GoTo")))
}

/// The page that the action of a bookmark leads to. Only an action that
/// goes to a destination leads to a page.
pub open spec fn action_page(
    store: Store,
    node: Map<Seq<u8>, Value>,
    pages: Map<ObjectRef, u32>,
    table: Map<Seq<u8>, Value>,
) -> Option<u32> {
    match as_entries(resolved_entry(store, node, key("A"))) {
        Some(action) => if is_goto(store, action) {
            match entry(action, key("D")) {
                Some(destination) => destination_page(store, destination, pages, table),
                None => None,
            }
        } else {
            None
        },
        None => None,
    }
}

/// The page that a bookmark leads to: that of its `Dest`, and where that
/// gives none, that of its action.
pub open spec fn bookmark_page(
    store: Store,
    node: Map<Seq<u8>, Value>,
    pages: Map<ObjectRef, u32>,
    table: Map<Seq<u8>, Value>,
) -> Option<u32> {
    let direct = match entry(node, key("Dest")) {
        Some(destination) => destination_page(store, destination, pages, table),
        None => None,
    };
    if direct is Some {
        direct
    } else {
        action_page(store, node, pages, table)
    }
}

/// The bookmark that a bookmark points to under `name`.
pub open spec fn link(node: Map<Seq<u8>, Value>, name: &str) -> Option<ObjectRef> {
    match entry(node, key(name)) {
        Some(Value::Reference(id)) => Some(id),
        _ => None,
    }
}

/// The bookmarks that a bookmark points to, in the order in which they are
/// visited: its first child, then its next sibling.
pub open spec fn links_of(node: Map<Seq<u8>, Value>) -> Seq<ObjectRef> {
    let child = match link(node, "First") {
        Some(first) => seq![first],
        None => Seq::empty(),
    };
    match link(node, "Next") {
        Some(next) => child.push(next),
        None => child,
    }
}

/// What the walk notes of one bookmark.
pub open spec fn visit_of(
    store: Store,
    node: Map<Seq<u8>, Value>,
    pages: Map<ObjectRef, u32>,
    table: Map<Seq<u8>, Value>,
) -> Visit {
    Visit { page: bookmark_page(store, node, pages, table), title: title_of(store, node) }
}

/// What a bookmark gives when it is visited: what the walk notes of it.
pub open spec fn notes_of(
    store: Store,
    pages: Map<ObjectRef, u32>,
    table: Map<Seq<u8>, Value>,
) -> Own<Visit> {
    |node: Map<Seq<u8>, Value>| seq![visit_of(store, node, pages, table)]
}

/// The bookmarks that a bookmark points to.
pub open spec fn links() -> Next {
    |node: Map<Seq<u8>, Value>| links_of(node)
}

/// What the walk notes of the bookmarks that are still to be visited: each
/// bookmark is noted, and its children are visited before its siblings, and
/// these before the bookmarks that were waiting. A bookmark that was visited
/// before, or that is no dictionary in the store, is passed over, and the
/// chain of siblings ends there.
pub open spec fn outline_visits(
    store: Store,
    stack: Seq<ObjectRef>,
    visited: Set<ObjectRef>,
    pages: Map<ObjectRef, u32>,
    table: Map<Seq<u8>, Value>,
) -> Seq<Visit> {
    walk(store, notes_of(store, pages, table), links(), stack, visited)
}

/// The walk of an outline from its first bookmark gives what the descent
/// into the outline gives: the bookmark is noted, then the outline below its
/// first child is walked, and then the outline from its next sibling on.
pub proof fn lemma_outline_is_descent(
    store: Store,
    first: ObjectRef,
    pages: Map<ObjectRef, u32>,
    table: Map<Seq<u8>, Value>,
)
    requires
        store.dom().finite(),
    ensures
        outline_visits(store, seq![first], Set::empty(), pages, table) == descent(
            store,
            notes_of(store, pages, table),
            links(),
            seq![first],
            Set::empty(),
            store.dom().len(),
        ).0,
{
    assert(seq![first].reverse() =~= seq![first]);
    lemma_walk_is_descent(store, notes_of(store, pages, table), links(), seq![first]);
}

/// The chapter starts among what the walk noted, in order.
pub open spec fn found(visits: Seq<Visit>) -> Seq<Start>
    decreases visits.len(),
{
    if visits.len() == 0 {
        Seq::empty()
    } else {
        let before = found(visits.drop_last());
        match visits.last().page {
            Some(page) => before.push(Start { page, title: visits.last().title }),
            None => before,
        }
    }
}

/// The titles of the bookmarks that led to no page, in order.
pub open spec fn skipped(visits: Seq<Visit>) -> Seq<Seq<char>>
    decreases visits.len(),
{
    if visits.len() == 0 {
        Seq::empty()
    } else {
        let before = skipped(visits.drop_last());
        match visits.last().page {
            Some(_) => before,
            None => before.push(visits.last().title),
        }
    }
}

/// A bookmark without a `Dest` leads to a page only through an action that
/// goes to a destination: with no action, or with another one, it leads to
/// none.
pub proof fn lemma_other_action_leads_nowhere(
    store: Store,
    node: Map<Seq<u8>, Value>,
    pages: Map<ObjectRef, u32>,
    table: Map<Seq<u8>, Value>,
)
    requires
        entry(node, key("Dest")) is None,
        match as_entries(resolved_entry(store, node, key("A"))) {
            Some(action) => !is_goto(store, action),
            None => true,
        },
    ensures
        bookmark_page(store, node, pages, table) is None,
{
}

/// Every bookmark that the walk notes is counted once: as a chapter start
/// where it leads to a page, and among the skipped where it does not.
pub proof fn lemma_visits_are_parted(visits: Seq<Visit>)
    ensures
        found(visits).len() + skipped(visits).len() == visits.len(),
        forall|i: int|
            0 <= i < visits.len() && (#[trigger] visits[i]).page is None ==> skipped(
                visits,
            ).contains(visits[i].title),
        forall|i: int|
            0 <= i < visits.len() && (#[trigger] visits[i]).page is Some ==> found(visits).contains(
                Start { page: visits[i].page->0, title: visits[i].title },
            ),
        forall|k: int|
            0 <= k < found(visits).len() ==> exists|i: int|
                0 <= i < visits.len() && (#[trigger] visits[i]).page == Some(
                    (#[trigger] found(visits)[k]).page,
                ) && visits[i].title == found(visits)[k].title,
    decreases visits.len(),
{
    if visits.len() > 0 {
        let front = visits.drop_last();
        lemma_visits_are_parted(front);
        assert forall|i: int|
            0 <= i < visits.len() && (#[trigger] visits[i]).page is None implies skipped(
            visits,
        ).contains(visits[i].title) by {
            if i < front.len() {
                assert(front[i] == visits[i]);
                let at = choose|at: int|
                    0 <= at < skipped(front).len() && skipped(front)[at] == visits[i].title;
                assert(skipped(visits)[at] == visits[i].title);
            } else {
                assert(skipped(visits).last() == visits[i].title);
            }
        }
        assert forall|i: int|
            0 <= i < visits.len() && (#[trigger] visits[i]).page is Some implies found(
            visits,
        ).contains(Start { page: visits[i].page->0, title: visits[i].title }) by {
            let start = Start { page: visits[i].page->0, title: visits[i].title };
            if i < front.len() {
                assert(front[i] == visits[i]);
                let at = choose|at: int| 0 <= at < found(front).len() && found(front)[at] == start;
                assert(found(visits)[at] == start);
            } else {
                assert(found(visits).last() == start);
            }
        }
    }
}

/// The identifiers are those of a chain of bookmarks without children: each
/// is a dictionary in the store, none comes twice, each points to the one
/// behind it as its next sibling, and the last points to none.
pub open spec fn is_chain(store: Store, ids: Seq<ObjectRef>) -> bool {
    &&& ids.no_duplicates()
    &&& forall|i: int|
        0 <= i < ids.len() ==> {
            &&& (#[trigger] as_entries(fetched(store, ids[i]))) matches Some(node)
            &&& link(node, "First") is None
            &&& link(node, "Next") == if i + 1 < ids.len() {
                Some(ids[i + 1])
            } else {
                None
            }
        }
}

/// What the walk notes of a chain of bookmarks, one after the other.
pub open spec fn chain_visits(
    store: Store,
    ids: Seq<ObjectRef>,
    pages: Map<ObjectRef, u32>,
    table: Map<Seq<u8>, Value>,
) -> Seq<Visit> {
    Seq::new(
        ids.len(),
        |i: int| visit_of(store, as_entries(fetched(store, ids[i]))->0, pages, table),
    )
}

/// The first `count + 1` of a run of identifiers are the first `count` and
/// the one behind them.
proof fn lemma_one_more_taken(ids: Seq<ObjectRef>, count: int)
    requires
        0 <= count < ids.len(),
    ensures
        ids.take(count + 1).to_set() == ids.take(count).to_set().insert(ids[count]),
{
    let before = ids.take(count);
    let upto = ids.take(count + 1);
    assert forall|other: ObjectRef|
        upto.to_set().contains(other) <==> before.to_set().insert(ids[count]).contains(
            other,
        ) by {
        if before.to_set().contains(other) {
            let k = choose|k: int| 0 <= k < before.len() && before[k] == other;
            assert(upto[k] == other);
        }
        if other == ids[count] {
            assert(upto[count] == other);
        }
        if upto.to_set().contains(other) {
            let k = choose|k: int| 0 <= k < upto.len() && upto[k] == other;
            if k < count {
                assert(before[k] == other);
            }
        }
    }
    assert(upto.to_set() =~= before.to_set().insert(ids[count]));
}

/// The walk of a chain from its bookmark `from` on, with those before it
/// visited, notes the bookmarks from there on, in order.
proof fn lemma_rest_of_chain(
    store: Store,
    ids: Seq<ObjectRef>,
    from: int,
    pages: Map<ObjectRef, u32>,
    table: Map<Seq<u8>, Value>,
)
    requires
        store.dom().finite(),
        is_chain(store, ids),
        0 <= from < ids.len(),
    ensures
        outline_visits(store, seq![ids[from]], ids.take(from).to_set(), pages, table)
            == chain_visits(store, ids, pages, table).skip(from),
    decreases ids.len() - from,
{
    let visited = ids.take(from).to_set();
    let id = ids[from];
    let all = chain_visits(store, ids, pages, table);
    let none = Seq::<ObjectRef>::empty();
    // The bookmark is a dictionary of the store, and is not visited yet.
    assert(as_entries(fetched(store, ids[from])) is Some);
    let node = as_entries(fetched(store, id))->0;
    assert(!visited.contains(id)) by {
        if visited.contains(id) {
            let earlier = ids.take(from);
            let k = choose|k: int| 0 <= k < earlier.len() && earlier[k] == id;
            assert(ids[k] == ids[from]);
        }
    }
    // So the walk notes it, and goes on with its next sibling, if it has one.
    let stack = seq![id];
    assert(stack.last() == id && stack.drop_last() =~= none);
    lemma_one_more_taken(ids, from);
    if from + 1 < ids.len() {
        assert(none + links_of(node).reverse() =~= seq![ids[from + 1]]);
        lemma_rest_of_chain(store, ids, from + 1, pages, table);
        assert(seq![all[from]] + all.skip(from + 1) =~= all.skip(from));
    } else {
        assert(none + links_of(node).reverse() =~= none);
        let rest = outline_visits(store, none, visited.insert(id), pages, table);
        assert(rest =~= Seq::<Visit>::empty());
        assert(seq![all[from]] + rest =~= all.skip(from));
    }
}

/// An outline that is a chain of bookmarks without children is walked from
/// its first bookmark to its last: the walk notes each bookmark once, in the
/// order of the chain.
pub proof fn lemma_walk_of_chain(
    store: Store,
    ids: Seq<ObjectRef>,
    pages: Map<ObjectRef, u32>,
    table: Map<Seq<u8>, Value>,
)
    requires
        store.dom().finite(),
        is_chain(store, ids),
        ids.len() > 0,
    ensures
        outline_visits(store, seq![ids[0]], Set::empty(), pages, table) == chain_visits(
            store,
            ids,
            pages,
            table,
        ),
{
    lemma_rest_of_chain(store, ids, 0, pages, table);
    assert(ids.take(0).to_set() =~= Set::<ObjectRef>::empty());
}

/// Where every bookmark that the walk notes leads to a page, each is a
/// chapter start, in the order of the walk, and none is skipped.
pub proof fn lemma_found_all(visits: Seq<Visit>)
    requires
        forall|i: int| 0 <= i < visits.len() ==> (#[trigger] visits[i]).page is Some,
    ensures
        found(visits) == Seq::new(
            visits.len(),
            |i: int| Start { page: visits[i].page->0, title: visits[i].title },
        ),
        skipped(visits) == Seq::<Seq<char>>::empty(),
    decreases visits.len(),
{
    if visits.len() > 0 {
        lemma_found_all(visits.drop_last());
    }
}

/// The first bookmark of the outline that a document's catalog points to.
pub open spec fn first_bookmark(store: Store, trailer: Map<Seq<u8>, Value>) -> Option<ObjectRef> {
    match catalog_of(store, trailer) {
        Some(found) => match as_entries(resolved_entry(store, found, key("Outlines"))) {
            Some(outlines) => link(outlines, "First"),
            None => None,
        },
        None => None,
    }
}

/// What a walk of a document's whole outline notes. A document without an
/// outline gives nothing.
pub open spec fn document_visits(
    store: Store,
    trailer: Map<Seq<u8>, Value>,
    pages: Map<ObjectRef, u32>,
    table: Map<Seq<u8>, Value>,
) -> Seq<Visit> {
    match first_bookmark(store, trailer) {
        Some(first) => outline_visits(store, seq![first], Set::empty(), pages, table),
        None => Seq::empty(),
    }
}

/// The title of a bookmark.
fn read_title(document: &Document, node: &Dictionary) -> (title: String)
    ensures
        title@ == title_of(document_objects(*document), dictionary_entries(*node)),
{
    match resolved_field(document, node, "Title") {
        Some(object) => match as_str(object) {
            Some(bytes) => decode(bytes),
            None => "No Title".to_owned(),
        },
        None => "No Title".to_owned(),
    }
}

/// The bookmark that a bookmark points to under `name`.
fn read_link(node: &Dictionary, name: &str) -> (r: Option<ObjectRef>)
    ensures
        r == link(dictionary_entries(*node), name),
{
    match field(node, name) {
        Some(object) => as_reference(object),
        None => None,
    }
}

/// The page that the action of a bookmark leads to.
fn read_action_page(
    document: &Document,
    node: &Dictionary,
    pages: &PageIndex,
    table: &NamedDestinations<'_>,
) -> (r: Option<u32>)
    ensures
        r == action_page(document_objects(*document), dictionary_entries(*node), pages@, table@),
{
    let action = match dictionary_field(document, node, "A") {
        Some(action) => action,
        None => {
            return None;
        },
    };
    let goes = match resolved_field(document, action, "S") {
        Some(subtype) => match as_name(subtype) {
            Some(bytes) => same_bytes(bytes, "GoTo".as_bytes()),
            None => false,
        },
        None => false,
    };
    if !goes {
        return None;
    }
    match field(action, "D") {
        Some(destination) => resolve_destination(document, destination, pages, table),
        None => None,
    }
}

/// The page that a bookmark leads to.
pub fn read_bookmark_page(
    document: &Document,
    node: &Dictionary,
    pages: &PageIndex,
    table: &NamedDestinations<'_>,
) -> (r: Option<u32>)
    ensures
        r == bookmark_page(
            document_objects(*document),
            dictionary_entries(*node),
            pages@,
            table@,
        ),
{
    let direct = match field(node, "Dest") {
        Some(destination) => resolve_destination(document, destination, pages, table),
        None => None,
    };
    match direct {
        Some(page) => Some(page),
        None => read_action_page(document, node, pages, table),
    }
}

/// Walks the outline from its first bookmark and sorts what it finds: the
/// bookmarks that lead to a page, and the titles of those that do not.
pub fn walk_outline(
    document: &Document,
    first: ObjectRef,
    pages: &PageIndex,
    table: &NamedDestinations<'_>,
) -> (scan: OutlineScan)
    ensures
        starts_of(scan.bookmarks@) == found(
            outline_visits(document_objects(*document), seq![first], Set::empty(), pages@, table@),
        ),
        texts_of(scan.skipped@) == skipped(
            outline_visits(document_objects(*document), seq![first], Set::empty(), pages@, table@),
        ),
{
    let ghost store = document_objects(*document);
    // A document holds finitely many objects, which is why the walk ends.
    let _ = object_count(document);
    let mut bookmarks: Vec<Bookmark> = Vec::new();
    let mut left_out: Vec<String> = Vec::new();
    let mut stack: Vec<ObjectRef> = Vec::new();
    stack.push(first);
    let mut visited = Visited::new();
    let ghost mut done: Seq<Visit> = Seq::empty();
    let ghost target = outline_visits(store, seq![first], Set::empty(), pages@, table@);
    while stack.len() > 0
        invariant
            store == document_objects(*document),
            store.dom().finite(),
            target == done + outline_visits(store, stack@, visited@, pages@, table@),
            starts_of(bookmarks@) == found(done),
            texts_of(left_out@) == skipped(done),
        decreases store.dom().difference(visited@).len(), stack.len(),
    {
        let ghost done_before = done;
        let id = stack.pop().unwrap();
        let ghost rest = stack@;
        if !visited.contains(id) {
            match fetch_dictionary(document, id) {
                Some(node) => {
                    proof {
                        lemma_fewer_left(store.dom(), visited@, id);
                    }
                    visited.insert(id);
                    let title = read_title(document, node);
                    let page = read_bookmark_page(document, node, pages, table);
                    let ghost visit = Visit { page, title: title@ };
                    match page {
                        Some(number) => {
                            bookmarks.push(Bookmark { page: number, title });
                        },
                        None => {
                            left_out.push(title);
                        },
                    }
                    match read_link(node, "Next") {
                        Some(next) => {
                            stack.push(next);
                        },
                        None => {},
                    }
                    match read_link(node, "First") {
                        Some(child) => {
                            stack.push(child);
                        },
                        None => {},
                    }
                    proof {
                        let entries = dictionary_entries(*node);
                        assert(stack@ =~= rest + links_of(entries).reverse());
                        done = done.push(visit);
                        assert(done.drop_last() =~= done_before);
                    }
                },
                None => {},
            }
        }
    }
    OutlineScan { bookmarks, skipped: left_out }
}

/// The first bookmark of a document's outline.
pub fn outline_first(document: &Document) -> (r: Option<ObjectRef>)
    ensures
        r == first_bookmark(document_objects(*document), document_trailer(*document)),
{
    match catalog(document) {
        Some(found) => match dictionary_field(document, found, "Outlines") {
            Some(outlines) => read_link(outlines, "First"),
            None => None,
        },
        None => None,
    }
}

/// Walks the whole outline of a document.
pub fn scan_outline(document: &Document, pages: &PageIndex, table: &NamedDestinations<'_>) -> (scan:
    OutlineScan)
    ensures
        starts_of(scan.bookmarks@) == found(
            document_visits(
                document_objects(*document),
                document_trailer(*document),
                pages@,
                table@,
            ),
        ),
        texts_of(scan.skipped@) == skipped(
            document_visits(
                document_objects(*document),
                document_trailer(*document),
                pages@,
                table@,
            ),
        ),
{
    match outline_first(document) {
        Some(first) => walk_outline(document, first, pages, table),
        None => {
            let scan = OutlineScan { bookmarks: Vec::new(), skipped: Vec::new() };
            scan
        },
    }
}

} // verus!
