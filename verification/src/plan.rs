//! From a document to its chapters.

use vstd::prelude::*;
use lopdf::Document;
use crate::chapters::{
    chapter_boundaries, chapter_spans, covered, holds_page, lemma_one_chapter_per_bookmark,
    spans_of, Chapter, Span,
};
use crate::model::{ObjectRef, Store, Value};
use crate::name_tree::named_destinations;
use crate::named_dests::NamedDestinations;
use crate::outline::{
    chain_visits, document_visits, found, is_chain, lemma_found_all, lemma_walk_of_chain,
    outline_visits, scan_outline, skipped, texts_of, Visit,
};
use crate::page_index::{index_of_pages, numbered, page_count, PageIndex};
use crate::pdf::{document_objects, document_pages, document_trailer};

verus! {

/// What was worked out of a document: its chapters, and what a caller needs
/// to carve them out and to report on the work.
pub struct Plan {
    /// The chapters, in the order of their pages.
    pub chapters: Vec<Chapter>,
    /// The titles of the bookmarks that lead to no page.
    pub skipped: Vec<String>,
    /// The pages of the document.
    pub pages: PageIndex,
    /// The number of keys in the table of named destinations.
    pub named_destinations: usize,
    /// The number of bookmarks that lead to a page.
    pub bookmarks: usize,
}

/// What the outline of a document with these objects, trailer and pages
/// notes of its bookmarks.
pub open spec fn visits_of(
    store: Store,
    trailer: Map<Seq<u8>, Value>,
    pages: Seq<(u32, ObjectRef)>,
) -> Seq<Visit> {
    document_visits(store, trailer, index_of_pages(pages), named_destinations(store, trailer))
}

/// The chapters of a document with these objects, trailer and pages.
pub open spec fn chapters_of(
    store: Store,
    trailer: Map<Seq<u8>, Value>,
    pages: Seq<(u32, ObjectRef)>,
) -> Seq<Span> {
    chapter_spans(found(visits_of(store, trailer, pages)), page_count(pages))
}

/// An outline of top-level bookmarks alone, each leading to a page, on
/// pages that go up from each bookmark to the next, the first of them on
/// the first page of the document and none behind its last page, gives one
/// chapter for each bookmark: the chapter begins on the page of the bookmark
/// and carries its title. Every page of the document then lies in exactly
/// one chapter.
pub proof fn lemma_one_chapter_per_top_level_bookmark(
    store: Store,
    ids: Seq<ObjectRef>,
    pages: Map<ObjectRef, u32>,
    table: Map<Seq<u8>, Value>,
    total_pages: u32,
)
    requires
        store.dom().finite(),
        is_chain(store, ids),
        ids.len() > 0,
        forall|i: int|
            0 <= i < ids.len() ==> (#[trigger] chain_visits(store, ids, pages, table)[i]).page
                is Some,
        forall|i: int, j: int|
            0 <= i < j < ids.len() ==> (#[trigger] chain_visits(
                store,
                ids,
                pages,
                table,
            )[i]).page->0 < (#[trigger] chain_visits(store, ids, pages, table)[j]).page->0,
        chain_visits(store, ids, pages, table)[0].page == Some(1u32),
        chain_visits(store, ids, pages, table).last().page->0 <= total_pages,
    ensures
        ({
            let visits = chain_visits(store, ids, pages, table);
            let chapters = chapter_spans(
                found(outline_visits(store, seq![ids[0]], Set::empty(), pages, table)),
                total_pages,
            );
            &&& chapters.len() == ids.len()
            &&& forall|i: int|
                0 <= i < ids.len() ==> (#[trigger] chapters[i]).start_page == visits[i].page->0
                    && chapters[i].title == visits[i].title
            &&& forall|page: int| 1 <= page <= total_pages ==> #[trigger] covered(chapters, page)
            &&& forall|i: int, j: int, page: int|
                0 <= i < ids.len() && 0 <= j < ids.len() && #[trigger] holds_page(chapters[i], page)
                    && #[trigger] holds_page(chapters[j], page) ==> i == j
        }),
{
    let visits = chain_visits(store, ids, pages, table);
    lemma_walk_of_chain(store, ids, pages, table);
    lemma_found_all(visits);
    let starts = found(visits);
    assert forall|i: int, j: int| 0 <= i < j < starts.len() implies (#[trigger] starts[i]).page
        < (#[trigger] starts[j]).page by {
        assert(visits[i].page->0 < visits[j].page->0);
    }
    lemma_one_chapter_per_bookmark(starts, total_pages);
}

/// Works out the chapters of a document: indexes its pages, gathers its
/// named destinations, walks its outline, and turns the bookmarks that lead
/// to a page into chapters. A document without an outline, or whose
/// bookmarks all lead nowhere, is one chapter.
pub fn plan_chapters(document: &Document) -> (plan: Plan)
    ensures
        plan.pages.listed() == numbered(document_pages(*document)),
        spans_of(plan.chapters@) == chapters_of(
            document_objects(*document),
            document_trailer(*document),
            numbered(document_pages(*document)),
        ),
        texts_of(plan.skipped@) == skipped(
            visits_of(
                document_objects(*document),
                document_trailer(*document),
                numbered(document_pages(*document)),
            ),
        ),
        plan.named_destinations == named_destinations(
            document_objects(*document),
            document_trailer(*document),
        ).dom().len(),
        plan.bookmarks == found(
            visits_of(
                document_objects(*document),
                document_trailer(*document),
                numbered(document_pages(*document)),
            ),
        ).len(),
{
    let pages = PageIndex::from_document(document);
    let table = NamedDestinations::build(document);
    let scan = scan_outline(document, &pages, &table);
    let chapters = chapter_boundaries(&scan.bookmarks, pages.total_pages());
    Plan {
        chapters,
        skipped: scan.skipped,
        named_destinations: table.len(),
        bookmarks: scan.bookmarks.len(),
        pages,
    }
}

} // verus!
