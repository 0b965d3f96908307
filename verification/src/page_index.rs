//! The page index: which page number each page object has.
//!
//! The pages of a document are numbered from 1 in the order in which the
//! document lists them.

use vstd::prelude::*;
use std::collections::HashMap;
use lopdf::Document;
use crate::model::{code, lemma_code_injective, ObjectRef};
use crate::pdf::{document_pages, page_objects};

verus! {

broadcast use vstd::std_specs::hash::group_hash_axioms;

/// How many of `pages` pages have a number: all of them, as far as a `u32`
/// can count.
pub open spec fn countable(pages: nat) -> nat {
    if pages <= u32::MAX {
        pages
    } else {
        u32::MAX as nat
    }
}

/// The page objects with their page numbers: they are numbered from 1 in
/// their order. A page behind the last number that a `u32` holds has no
/// number and is left out.
pub open spec fn numbered(objects: Seq<ObjectRef>) -> Seq<(u32, ObjectRef)> {
    Seq::new(countable(objects.len()), |i: int| ((i + 1) as u32, objects[i]))
}

/// The numbers of the pages go up by one from 1, so that no two pages have
/// one number.
pub proof fn lemma_numbered_in_order(objects: Seq<ObjectRef>)
    ensures
        numbered(objects).len() <= u32::MAX,
        objects.len() <= u32::MAX ==> numbered(objects).len() == objects.len(),
        forall|i: int|
            0 <= i < numbered(objects).len() ==> (#[trigger] numbered(objects)[i]) == ((i
                + 1) as u32, objects[i]) && numbered(objects)[i].0 == i + 1,
        forall|i: int, j: int|
            0 <= i < j < numbered(objects).len() ==> (#[trigger] numbered(objects)[i]).0
                < (#[trigger] numbered(objects)[j]).0,
{
}

/// No two page objects of a document share a page number.
pub proof fn lemma_page_numbers_unique(objects: Seq<ObjectRef>, a: ObjectRef, b: ObjectRef)
    requires
        index_of_pages(numbered(objects)).contains_key(a),
        index_of_pages(numbered(objects)).contains_key(b),
        index_of_pages(numbered(objects))[a] == index_of_pages(numbered(objects))[b],
    ensures
        a == b,
{
    lemma_numbered_in_order(objects);
    lemma_index_numbers_unique(numbered(objects), a, b);
}

/// The index that a list of pages gives: each page object with its number.
/// Where an object is listed twice, the later number stands.
pub open spec fn index_of_pages(pages: Seq<(u32, ObjectRef)>) -> Map<ObjectRef, u32>
    decreases pages.len(),
{
    if pages.len() == 0 {
        Map::empty()
    } else {
        index_of_pages(pages.drop_last()).insert(pages.last().1, pages.last().0)
    }
}

/// The page numbers of a list of pages, in its order.
pub open spec fn numbers_of(pages: Seq<(u32, ObjectRef)>) -> Seq<u32> {
    Seq::new(pages.len(), |i: int| pages[i].0)
}

/// The number of pages, as far as a `u32` can count.
pub open spec fn page_count(pages: Seq<(u32, ObjectRef)>) -> u32 {
    if pages.len() <= u32::MAX {
        pages.len() as u32
    } else {
        u32::MAX
    }
}

/// The test that a page number lies outside the range from `start` to `end`.
pub open spec fn outside(start: u32, end: u32) -> spec_fn(u32) -> bool {
    |n: u32| n < start || n > end
}

/// Every number in the index is the number of a listed page, and an object
/// is in the index exactly when it is listed.
pub proof fn lemma_index_from_list(pages: Seq<(u32, ObjectRef)>, id: ObjectRef)
    ensures
        index_of_pages(pages).contains_key(id) <==> exists|i: int|
            0 <= i < pages.len() && (#[trigger] pages[i]).1 == id,
        index_of_pages(pages).contains_key(id) ==> exists|i: int|
            0 <= i < pages.len() && #[trigger] pages[i] == (index_of_pages(pages)[id], id),
    decreases pages.len(),
{
    if pages.len() > 0 {
        let front = pages.drop_last();
        lemma_index_from_list(front, id);
        if pages.last().1 == id {
            assert(pages[pages.len() - 1] == (index_of_pages(pages)[id], id));
        } else if index_of_pages(front).contains_key(id) {
            let i = choose|i: int|
                0 <= i < front.len() && #[trigger] front[i] == (index_of_pages(front)[id], id);
            assert(pages[i] == front[i]);
            let j = choose|j: int| 0 <= j < front.len() && (#[trigger] front[j]).1 == id;
            assert(pages[j] == front[j]);
        } else {
            if exists|i: int| 0 <= i < pages.len() && (#[trigger] pages[i]).1 == id {
                let i = choose|i: int| 0 <= i < pages.len() && (#[trigger] pages[i]).1 == id;
                assert(front[i] == pages[i]);
            }
        }
    }
}

/// No two page objects share a page number, where no number is listed twice.
pub proof fn lemma_index_numbers_unique(pages: Seq<(u32, ObjectRef)>, a: ObjectRef, b: ObjectRef)
    requires
        forall|i: int, j: int|
            0 <= i < j < pages.len() ==> (#[trigger] pages[i]).0 != (#[trigger] pages[j]).0,
        index_of_pages(pages).contains_key(a),
        index_of_pages(pages).contains_key(b),
        index_of_pages(pages)[a] == index_of_pages(pages)[b],
    ensures
        a == b,
{
    lemma_index_from_list(pages, a);
    lemma_index_from_list(pages, b);
    let i = choose|i: int|
        0 <= i < pages.len() && #[trigger] pages[i] == (index_of_pages(pages)[a], a);
    let j = choose|j: int|
        0 <= j < pages.len() && #[trigger] pages[j] == (index_of_pages(pages)[b], b);
    if i < j {
        assert(pages[i].0 != pages[j].0);
    } else if j < i {
        assert(pages[j].0 != pages[i].0);
    }
}

/// The pages of a document, and for each page object its page number.
pub struct PageIndex {
    pages: Vec<(u32, ObjectRef)>,
    by_code: HashMap<u64, u32>,
}

impl View for PageIndex {
    type V = Map<ObjectRef, u32>;

    closed spec fn view(&self) -> Map<ObjectRef, u32> {
        index_of_pages(self.pages@)
    }
}

/// The table files every object of the index under its code, with its number.
spec fn files(by_code: Map<u64, u32>, index: Map<ObjectRef, u32>) -> bool {
    forall|id: ObjectRef|
        #![trigger code(id)]
        {
            &&& by_code.contains_key(code(id)) <==> index.contains_key(id)
            &&& index.contains_key(id) ==> by_code[code(id)] == index[id]
        }
}

impl PageIndex {
    #[verifier::type_invariant]
    spec fn well_formed(self) -> bool {
        &&& files(self.by_code@, index_of_pages(self.pages@))
        &&& self.pages@.len() <= u32::MAX
    }

    /// The pages of the index with their numbers, in the order of the
    /// document.
    pub closed spec fn listed(&self) -> Seq<(u32, ObjectRef)> {
        self.pages@
    }

    /// What the view is: the index of the listed pages.
    pub proof fn lemma_view(&self)
        ensures
            self@ == index_of_pages(self.listed()),
    {
    }

    /// Builds the index of the page objects of a document, which come in
    /// the order of its pages: numbers them from 1 and files each under its
    /// number.
    pub fn build(objects: Vec<ObjectRef>) -> (index: PageIndex)
        ensures
            index.listed() == numbered(objects@),
            index@ == index_of_pages(numbered(objects@)),
    {
        let ghost wanted = numbered(objects@);
        let count: usize = if objects.len() <= u32::MAX as usize {
            objects.len()
        } else {
            u32::MAX as usize
        };
        let mut pages: Vec<(u32, ObjectRef)> = Vec::new();
        let mut by_code: HashMap<u64, u32> = HashMap::new();
        let mut i: usize = 0;
        while i < count
            invariant
                i <= count,
                count == countable(objects@.len()),
                wanted == numbered(objects@),
                pages@ == wanted.take(i as int),
                files(by_code@, index_of_pages(pages@)),
            decreases count - i,
        {
            let id = objects[i];
            let number: u32 = (i + 1) as u32;
            let filed: u64 = id.code();
            proof {
                // The index of one more page has this page in it, and no
                // other identifier is filed under its code.
                assert(wanted.take(i + 1).drop_last() =~= wanted.take(i as int));
                assert(wanted.take(i + 1).last() == (number, id));
                assert forall|other: ObjectRef| code(other) == filed implies other == id by {
                    lemma_code_injective(other, id);
                }
            }
            pages.push((number, id));
            by_code.insert(filed, number);
            assert(pages@ =~= wanted.take(i + 1));
            i = i + 1;
        }
        assert(wanted.take(count as int) =~= wanted);
        PageIndex { pages, by_code }
    }

    /// Builds the index of a document's pages.
    pub fn from_document(document: &Document) -> (index: PageIndex)
        ensures
            index.listed() == numbered(document_pages(*document)),
            index@ == index_of_pages(numbered(document_pages(*document))),
    {
        PageIndex::build(page_objects(document))
    }

    /// The page number of a page object; none for an object that is no page.
    pub fn page_of(&self, id: ObjectRef) -> (r: Option<u32>)
        ensures
            r == (if self@.contains_key(id) {
                Some(self@[id])
            } else {
                None
            }),
    {
        proof {
            use_type_invariant(self);
        }
        let filed: u64 = id.code();
        match self.by_code.get(&filed) {
            Some(number) => Some(*number),
            None => None,
        }
    }

    /// The number of pages in the document.
    pub fn total_pages(&self) -> (r: u32)
        ensures
            r == self.listed().len(),
            r == page_count(self.listed()),
    {
        proof {
            use_type_invariant(self);
        }
        self.pages.len() as u32
    }

    /// The page numbers that lie outside a range of pages, in the order of
    /// the document: what has to go for the range alone to stay.
    pub fn pages_outside(&self, start: u32, end: u32) -> (r: Vec<u32>)
        ensures
            r@ == numbers_of(self.listed()).filter(outside(start, end)),
    {
        let mut numbers_out: Vec<u32> = Vec::new();
        let ghost numbers = numbers_of(self.pages@);
        let ghost wanted = outside(start, end);
        let mut i: usize = 0;
        while i < self.pages.len()
            invariant
                i <= self.pages.len(),
                numbers == numbers_of(self.pages@),
                wanted == outside(start, end),
                numbers_out@ == numbers.take(i as int).filter(wanted),
            decreases self.pages.len() - i,
        {
            let number = self.pages[i].0;
            proof {
                let before = numbers.take(i as int);
                let after = numbers.take(i + 1);
                assert(after.drop_last() =~= before);
                reveal(Seq::filter);
            }
            if number < start || number > end {
                numbers_out.push(number);
            }
            i = i + 1;
        }
        assert(numbers.take(self.pages.len() as int) =~= numbers);
        numbers_out
    }
}

} // verus!
