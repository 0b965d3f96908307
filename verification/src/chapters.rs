//! Chapter boundaries: from chapter starts to page ranges.
//!
//! The starts come as the walk of the outline found them: in any order, and
//! several perhaps on one page. They are put in the order of their pages,
//! one start is kept for each page, and each chapter is given the pages up
//! to the next start.

use vstd::prelude::*;
use crate::outline::{starts_of, Bookmark, Start};

verus! {

/// A chapter: a range of pages with a title.
#[derive(Debug)]
pub struct Chapter {
    pub start_page: u32,
    pub end_page: u32,
    pub title: String,
}

/// A chapter as a mathematical value.
pub struct Span {
    pub start_page: u32,
    pub end_page: u32,
    pub title: Seq<char>,
}

impl View for Chapter {
    type V = Span;

    open spec fn view(&self) -> Span {
        Span { start_page: self.start_page, end_page: self.end_page, title: self.title@ }
    }
}

/// The spans that chapters stand for.
pub open spec fn spans_of(chapters: Seq<Chapter>) -> Seq<Span> {
    Seq::new(chapters.len(), |i: int| chapters[i]@)
}

/// The starts to work from: those given, or, where none is given, one start
/// on the first page that stands for the whole document.
pub open spec fn with_fallback(starts: Seq<Start>) -> Seq<Start> {
    if starts.len() == 0 {
        seq![Start { page: 1, title: "FullDocument"@ }]
    } else {
        starts
    }
}

/// A start put in its place among starts in the order of their pages:
/// behind every start whose page is not greater than its own.
pub open spec fn placed(sorted: Seq<Start>, start: Start) -> Seq<Start>
    decreases sorted.len(),
{
    if sorted.len() == 0 {
        seq![start]
    } else if sorted.last().page <= start.page {
        sorted.push(start)
    } else {
        placed(sorted.drop_last(), start).push(sorted.last())
    }
}

/// The starts in the order of their pages. Starts on one page keep the
/// order in which they came.
pub open spec fn sorted_by_page(starts: Seq<Start>) -> Seq<Start>
    decreases starts.len(),
{
    if starts.len() == 0 {
        Seq::empty()
    } else {
        placed(sorted_by_page(starts.drop_last()), starts.last())
    }
}

/// The starts without those whose page is that of the start kept just
/// before: of the starts on one page, the first is kept.
pub open spec fn first_of_each_page(sorted: Seq<Start>) -> Seq<Start>
    decreases sorted.len(),
{
    if sorted.len() == 0 {
        Seq::empty()
    } else {
        let before = first_of_each_page(sorted.drop_last());
        if before.len() > 0 && before.last().page == sorted.last().page {
            before
        } else {
            before.push(sorted.last())
        }
    }
}

/// The last page of the chapter that begins with start `i`: the page before
/// the next start, but never a page before its own start; for the last
/// chapter, the last page of the document.
pub open spec fn end_of(kept: Seq<Start>, i: int, total_pages: u32) -> u32 {
    if i + 1 < kept.len() {
        if kept[i + 1].page - 1 >= kept[i].page {
            (kept[i + 1].page - 1) as u32
        } else {
            kept[i].page
        }
    } else {
        total_pages
    }
}

/// Each start with the pages up to the next one.
pub open spec fn ranged(kept: Seq<Start>, total_pages: u32) -> Seq<Span> {
    Seq::new(
        kept.len(),
        |i: int|
            Span {
                start_page: kept[i].page,
                end_page: end_of(kept, i, total_pages),
                title: kept[i].title,
            },
    )
}

/// The span holds at least one page.
pub open spec fn is_proper(span: Span) -> bool {
    span.start_page <= span.end_page
}

/// The test by which spans are kept: a span that holds no page is not.
pub open spec fn proper() -> spec_fn(Span) -> bool {
    |span: Span| is_proper(span)
}

/// The chapters of a document with `total_pages` pages whose outline gave
/// `starts`.
pub open spec fn chapter_spans(starts: Seq<Start>, total_pages: u32) -> Seq<Span> {
    ranged(first_of_each_page(sorted_by_page(with_fallback(starts))), total_pages).filter(proper())
}

/// The page lies in the span.
pub open spec fn holds_page(span: Span, page: int) -> bool {
    span.start_page <= page <= span.end_page
}

/// The page lies in one of the spans.
pub open spec fn covered(spans: Seq<Span>, page: int) -> bool {
    exists|i: int| 0 <= i < spans.len() && holds_page(#[trigger] spans[i], page)
}

/// The pages of the starts never go down.
pub open spec fn ascending(starts: Seq<Start>) -> bool {
    forall|i: int, j: int|
        0 <= i < j < starts.len() ==> (#[trigger] starts[i]).page <= (#[trigger] starts[j]).page
}

/// The pages of the starts go up from each start to the next.
pub open spec fn strictly_ascending(starts: Seq<Start>) -> bool {
    forall|i: int, j: int|
        0 <= i < j < starts.len() ==> (#[trigger] starts[i]).page < (#[trigger] starts[j]).page
}

/// Where `position` parts the starts of a page not greater than that of
/// `start` from those of a greater page, it is the place of `start`.
pub proof fn lemma_placed_at(sorted: Seq<Start>, start: Start, position: int)
    requires
        0 <= position <= sorted.len(),
        forall|k: int| position <= k < sorted.len() ==> (#[trigger] sorted[k]).page > start.page,
        position > 0 ==> sorted[position - 1].page <= start.page,
    ensures
        placed(sorted, start) == sorted.insert(position, start),
    decreases sorted.len(),
{
    if position < sorted.len() {
        lemma_placed_at(sorted.drop_last(), start, position);
    }
}

/// The place of a start among sorted starts.
proof fn lemma_place_exists(sorted: Seq<Start>, start: Start) -> (position: int)
    ensures
        0 <= position <= sorted.len(),
        forall|k: int| position <= k < sorted.len() ==> (#[trigger] sorted[k]).page > start.page,
        position > 0 ==> sorted[position - 1].page <= start.page,
        placed(sorted, start) == sorted.insert(position, start),
    decreases sorted.len(),
{
    let position = if sorted.len() == 0 || sorted.last().page <= start.page {
        sorted.len() as int
    } else {
        let front = sorted.drop_last();
        let inner = lemma_place_exists(front, start);
        assert forall|k: int| inner <= k < sorted.len() implies (#[trigger] sorted[k]).page
            > start.page by {
            if k < front.len() {
                assert(front[k] == sorted[k]);
            }
        }
        inner
    };
    lemma_placed_at(sorted, start, position);
    position
}

/// Putting a start in its place keeps the starts in the order of their pages.
proof fn lemma_placed_ascending(sorted: Seq<Start>, start: Start)
    requires
        ascending(sorted),
    ensures
        ascending(placed(sorted, start)),
        placed(sorted, start).len() == sorted.len() + 1,
{
    lemma_place_exists(sorted, start);
}

/// Sorting puts the starts in the order of their pages and loses none.
pub proof fn lemma_sorted_ascending(starts: Seq<Start>)
    ensures
        ascending(sorted_by_page(starts)),
        sorted_by_page(starts).len() == starts.len(),
    decreases starts.len(),
{
    if starts.len() > 0 {
        lemma_sorted_ascending(starts.drop_last());
        lemma_placed_ascending(sorted_by_page(starts.drop_last()), starts.last());
    }
}

/// Starts that are in the order of their pages already are left as they are.
pub proof fn lemma_sorted_of_ascending(starts: Seq<Start>)
    requires
        ascending(starts),
    ensures
        sorted_by_page(starts) == starts,
    decreases starts.len(),
{
    if starts.len() > 0 {
        let front = starts.drop_last();
        lemma_sorted_of_ascending(front);
    }
}

/// Of sorted starts, those kept have pages that go up from each to the
/// next, and the last kept is on the page of the last start.
pub proof fn lemma_kept_strictly_ascending(sorted: Seq<Start>)
    requires
        ascending(sorted),
    ensures
        strictly_ascending(first_of_each_page(sorted)),
        first_of_each_page(sorted).len() <= sorted.len(),
        sorted.len() > 0 ==> first_of_each_page(sorted).len() > 0 && first_of_each_page(
            sorted,
        ).last().page == sorted.last().page,
    decreases sorted.len(),
{
    if sorted.len() > 0 {
        let front = sorted.drop_last();
        lemma_kept_strictly_ascending(front);
    }
}

/// Starts whose pages go up from each to the next are all kept.
pub proof fn lemma_kept_of_strictly_ascending(starts: Seq<Start>)
    requires
        strictly_ascending(starts),
    ensures
        first_of_each_page(starts) == starts,
    decreases starts.len(),
{
    if starts.len() > 0 {
        let front = starts.drop_last();
        lemma_kept_of_strictly_ascending(front);
    }
}

/// Spans that all hold a page are all kept.
pub proof fn lemma_all_proper_kept(spans: Seq<Span>)
    requires
        forall|i: int| 0 <= i < spans.len() ==> is_proper(#[trigger] spans[i]),
    ensures
        spans.filter(proper()) == spans,
    decreases spans.len(),
{
    reveal(Seq::filter);
    if spans.len() > 0 {
        let front = spans.drop_last();
        lemma_all_proper_kept(front);
    }
}

/// The chapters are the ranged starts, but for the last where it begins
/// behind the last page of the document.
pub proof fn lemma_chapters_are_ranged(kept: Seq<Start>, total_pages: u32)
    requires
        strictly_ascending(kept),
    ensures
        ranged(kept, total_pages).filter(proper()) == if kept.len() > 0 && kept.last().page
            > total_pages {
            ranged(kept, total_pages).drop_last()
        } else {
            ranged(kept, total_pages)
        },
{
    let all = ranged(kept, total_pages);
    reveal(Seq::filter);
    if kept.len() > 0 {
        let front = all.drop_last();
        lemma_all_proper_kept(front);
    }
}

/// The chapters of any document: they come in the order of their pages
/// with no two beginning on one page, none is without a page, and each ends
/// on the page before the next begins, so that no two overlap and no page
/// lies between them.
pub proof fn lemma_chapters_well_formed(starts: Seq<Start>, total_pages: u32)
    ensures
        forall|i: int, j: int|
            0 <= i < j < chapter_spans(starts, total_pages).len() ==> (#[trigger] chapter_spans(
                starts,
                total_pages,
            )[i]).start_page < (#[trigger] chapter_spans(starts, total_pages)[j]).start_page,
        forall|i: int|
            0 <= i < chapter_spans(starts, total_pages).len() ==> (#[trigger] chapter_spans(
                starts,
                total_pages,
            )[i]).start_page <= chapter_spans(starts, total_pages)[i].end_page,
        forall|i: int|
            0 <= i < chapter_spans(starts, total_pages).len() - 1 ==> (#[trigger] chapter_spans(
                starts,
                total_pages,
            )[i]).end_page + 1 == chapter_spans(starts, total_pages)[i + 1].start_page,
        chapter_spans(starts, total_pages).len() <= with_fallback(starts).len(),
{
    let sorted = sorted_by_page(with_fallback(starts));
    lemma_sorted_ascending(with_fallback(starts));
    lemma_kept_strictly_ascending(sorted);
    let kept = first_of_each_page(sorted);
    lemma_chapters_are_ranged(kept, total_pages);
}

/// A document without bookmarks is one chapter, from the first page to the
/// last, under a fixed title. Only a document without pages has no chapter.
pub proof fn lemma_whole_document(total_pages: u32)
    ensures
        chapter_spans(Seq::empty(), total_pages) == if total_pages >= 1 {
            seq![Span { start_page: 1, end_page: total_pages, title: "FullDocument"@ }]
        } else {
            Seq::empty()
        },
{
    let starts = with_fallback(Seq::empty());
    lemma_sorted_of_ascending(starts);
    lemma_kept_of_strictly_ascending(starts);
    lemma_chapters_are_ranged(starts, total_pages);
}

/// The page lies in one of the first spans, up to span `upto`.
proof fn lemma_page_is_covered(spans: Seq<Span>, page: int, upto: int)
    requires
        0 <= upto < spans.len(),
        spans[0].start_page <= page <= spans[upto].end_page,
        forall|i: int|
            0 <= i < spans.len() - 1 ==> (#[trigger] spans[i]).end_page + 1 == spans[i
                + 1].start_page,
    ensures
        covered(spans, page),
    decreases upto,
{
    if page < spans[upto].start_page {
        lemma_page_is_covered(spans, page, upto - 1);
    }
}

/// Bookmarks on pages that go up from each to the next, the first of them
/// on the first page of the document and none behind its last page, give
/// one chapter each: chapter `i` begins on the page of bookmark `i` and
/// carries its title. Every page of the document then lies in exactly one
/// chapter.
pub proof fn lemma_one_chapter_per_bookmark(starts: Seq<Start>, total_pages: u32)
    requires
        starts.len() > 0,
        strictly_ascending(starts),
        starts[0].page == 1,
        starts.last().page <= total_pages,
    ensures
        chapter_spans(starts, total_pages).len() == starts.len(),
        forall|i: int|
            0 <= i < starts.len() ==> (#[trigger] chapter_spans(starts, total_pages)[i]).start_page
                == starts[i].page && chapter_spans(starts, total_pages)[i].title == starts[i].title,
        forall|page: int|
            1 <= page <= total_pages ==> #[trigger] covered(
                chapter_spans(starts, total_pages),
                page,
            ),
        forall|i: int, j: int, page: int|
            0 <= i < starts.len() && 0 <= j < starts.len() && #[trigger] holds_page(
                chapter_spans(starts, total_pages)[i],
                page,
            ) && #[trigger] holds_page(chapter_spans(starts, total_pages)[j], page) ==> i == j,
        forall|i: int|
            0 <= i < starts.len() ==> 1 <= (#[trigger] chapter_spans(
                starts,
                total_pages,
            )[i]).start_page && chapter_spans(starts, total_pages)[i].end_page <= total_pages,
{
    lemma_sorted_of_ascending(starts);
    lemma_kept_of_strictly_ascending(starts);
    lemma_chapters_are_ranged(starts, total_pages);
    lemma_chapters_well_formed(starts, total_pages);
    let chapters = chapter_spans(starts, total_pages);
    assert forall|page: int| 1 <= page <= total_pages implies #[trigger] covered(
        chapters,
        page,
    ) by {
        lemma_page_is_covered(chapters, page, chapters.len() - 1);
    }
}

/// Puts the bookmarks in the order of their pages.
fn sort_by_page(bookmarks: &Vec<Bookmark>) -> (sorted: Vec<Bookmark>)
    ensures
        starts_of(sorted@) == sorted_by_page(starts_of(bookmarks@)),
{
    let ghost starts = starts_of(bookmarks@);
    let mut sorted: Vec<Bookmark> = Vec::new();
    let mut i: usize = 0;
    while i < bookmarks.len()
        invariant
            i <= bookmarks@.len(),
            starts == starts_of(bookmarks@),
            starts_of(sorted@) == sorted_by_page(starts.take(i as int)),
        decreases bookmarks.len() - i,
    {
        let page = bookmarks[i].page;
        let title = bookmarks[i].title.clone();
        let ghost before = starts_of(sorted@);
        let mut position: usize = sorted.len();
        while position > 0 && sorted[position - 1].page > page
            invariant
                position <= sorted@.len(),
                before == starts_of(sorted@),
                forall|k: int| position <= k < before.len() ==> (#[trigger] before[k]).page > page,
            decreases position,
        {
            position = position - 1;
        }
        let ghost start = Start { page, title: title@ };
        proof {
            lemma_placed_at(before, start, position as int);
            let upto = starts.take(i + 1);
            assert(upto.drop_last() =~= starts.take(i as int));
        }
        sorted.insert(position, Bookmark { page, title });
        i = i + 1;
    }
    assert(starts.take(bookmarks@.len() as int) =~= starts);
    sorted
}

/// Keeps the first bookmark of each page.
fn keep_first_of_each_page(sorted: &Vec<Bookmark>) -> (kept: Vec<Bookmark>)
    ensures
        starts_of(kept@) == first_of_each_page(starts_of(sorted@)),
{
    let ghost starts = starts_of(sorted@);
    let mut kept: Vec<Bookmark> = Vec::new();
    let mut i: usize = 0;
    while i < sorted.len()
        invariant
            i <= sorted@.len(),
            starts == starts_of(sorted@),
            starts_of(kept@) == first_of_each_page(starts.take(i as int)),
        decreases sorted.len() - i,
    {
        let page = sorted[i].page;
        proof {
            let upto = starts.take(i + 1);
            assert(upto.drop_last() =~= starts.take(i as int));
        }
        let repeats = kept.len() > 0 && kept[kept.len() - 1].page == page;
        if !repeats {
            let title = sorted[i].title.clone();
            kept.push(Bookmark { page, title });
        }
        i = i + 1;
    }
    assert(starts.take(sorted@.len() as int) =~= starts);
    kept
}

/// Gives each kept start its pages and leaves out what holds no page.
fn give_ranges(kept: &Vec<Bookmark>, total_pages: u32) -> (chapters: Vec<Chapter>)
    ensures
        spans_of(chapters@) == ranged(starts_of(kept@), total_pages).filter(proper()),
{
    let ghost starts = starts_of(kept@);
    let ghost all = ranged(starts, total_pages);
    let mut chapters: Vec<Chapter> = Vec::new();
    let mut i: usize = 0;
    while i < kept.len()
        invariant
            i <= kept@.len(),
            starts == starts_of(kept@),
            all == ranged(starts, total_pages),
            spans_of(chapters@) == all.take(i as int).filter(proper()),
        decreases kept.len() - i,
    {
        let start_page = kept[i].page;
        let end_page = if i + 1 < kept.len() {
            let next = kept[i + 1].page;
            if next > start_page {
                next - 1
            } else {
                start_page
            }
        } else {
            total_pages
        };
        proof {
            let upto = all.take(i + 1);
            assert(upto.drop_last() =~= all.take(i as int));
            reveal(Seq::filter);
        }
        if start_page <= end_page {
            let title = kept[i].title.clone();
            chapters.push(Chapter { start_page, end_page, title });
        }
        i = i + 1;
    }
    assert(all.take(kept@.len() as int) =~= all);
    chapters
}

/// Works out the chapters of a document with `total_pages` pages from the
/// bookmarks that its outline gave.
///
/// The chapters come in the order of their pages, no two begin on one page,
/// each ends on the page before the next begins, and none is without a page.
/// Where there is no bookmark, the whole document is one chapter.
pub fn chapter_boundaries(bookmarks: &Vec<Bookmark>, total_pages: u32) -> (chapters: Vec<Chapter>)
    ensures
        spans_of(chapters@) == chapter_spans(starts_of(bookmarks@), total_pages),
        chapters@.len() == chapter_spans(starts_of(bookmarks@), total_pages).len(),
        forall|i: int, j: int|
            0 <= i < j < chapters@.len() ==> (#[trigger] chapters@[i]).start_page
                < (#[trigger] chapters@[j]).start_page,
        forall|i: int|
            0 <= i < chapters@.len() ==> (#[trigger] chapters@[i]).start_page
                <= chapters@[i].end_page,
        forall|i: int|
            0 <= i < chapters@.len() - 1 ==> (#[trigger] chapters@[i]).end_page + 1
                == chapters@[i + 1].start_page,
{
    let ghost given = starts_of(bookmarks@);
    proof {
        lemma_chapters_well_formed(given, total_pages);
    }
    let sorted = if bookmarks.len() == 0 {
        let mut whole: Vec<Bookmark> = Vec::new();
        whole.push(Bookmark { page: 1, title: "FullDocument".to_owned() });
        assert(starts_of(whole@) =~= with_fallback(given));
        sort_by_page(&whole)
    } else {
        sort_by_page(bookmarks)
    };
    let kept = keep_first_of_each_page(&sorted);
    let chapters = give_ranges(&kept, total_pages);
    proof {
        // Each chapter is the span in its place.
        let spans = chapter_spans(given, total_pages);
        assert forall|i: int| 0 <= i < chapters@.len() implies (#[trigger] chapters@[i])@
            == spans[i] by {}
    }
    chapters
}

} // verus!
