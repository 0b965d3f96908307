use lopdf::{Dictionary, Document, Object, StringFormat};
use pdf_chapters::accessor::{catalog, fetch_dictionary, field, resolve, resolved_field};
use pdf_chapters::destination::resolve_destination;
use pdf_chapters::model::ObjectRef;
use pdf_chapters::name_tree::{gather_entries, gather_tree};
use pdf_chapters::named_dests::NamedDestinations;
use pdf_chapters::outline::{outline_first, scan_outline, walk_outline, Bookmark};
use pdf_chapters::page_index::PageIndex;
use pdf_chapters::plan::plan_chapters;

fn name(text: &str) -> Object {
    Object::Name(text.as_bytes().to_vec())
}

fn string(text: &str) -> Object {
    Object::String(text.as_bytes().to_vec(), StringFormat::Literal)
}

fn refer(number: u32) -> Object {
    Object::Reference((number, 0))
}

fn dict(entries: Vec<(&str, Object)>) -> Dictionary {
    let mut made = Dictionary::new();
    for (key, value) in entries {
        made.set(key, value);
    }
    made
}

fn put(document: &mut Document, number: u32, entries: Vec<(&str, Object)>) {
    document.objects.insert((number, 0), Object::Dictionary(dict(entries)));
}

/// The object number of page `page`.
fn page_object(page: u32) -> u32 {
    100 + page
}

/// An explicit destination on page `page`.
fn to_page(page: u32) -> Object {
    Object::Array(vec![refer(page_object(page)), name("Fit")])
}

/// A document with `count` pages. The catalog is object 1 and the page tree
/// object 2.
fn document_with_pages(count: u32) -> Document {
    let mut document = Document::new();
    document.trailer.set("Root", refer(1));
    put(&mut document, 1, vec![("Type", name("Catalog")), ("Pages", refer(2))]);
    let kids: Vec<Object> = (1..=count).map(|page| refer(page_object(page))).collect();
    put(
        &mut document,
        2,
        vec![("Type", name("Pages")), ("Kids", Object::Array(kids)), ("Count", Object::Integer(count as i64))],
    );
    for page in 1..=count {
        put(&mut document, page_object(page), vec![("Type", name("Page")), ("Parent", refer(2))]);
    }
    document
}

fn set_in_catalog(document: &mut Document, key: &str, value: Object) {
    let catalog = document.objects.get_mut(&(1, 0)).unwrap().as_dict_mut().unwrap();
    catalog.set(key, value);
}

/// Makes object 3 the outline, with `first` as its first bookmark.
fn set_outline(document: &mut Document, first: u32) {
    put(document, 3, vec![("Type", name("Outlines")), ("First", refer(first))]);
    set_in_catalog(document, "Outlines", refer(3));
}

fn plain(bookmarks: &[Bookmark]) -> Vec<(u32, String)> {
    bookmarks.iter().map(|b| (b.page, b.title.clone())).collect()
}

fn expect(entries: &[(u32, &str)]) -> Vec<(u32, String)> {
    entries.iter().map(|(page, title)| (*page, title.to_string())).collect()
}

#[test]
fn page_index_numbers_the_pages_of_a_document() {
    let document = document_with_pages(3);
    let pages = PageIndex::from_document(&document);
    assert_eq!(pages.total_pages(), 3);
    assert_eq!(pages.page_of(ObjectRef::new(page_object(1), 0)), Some(1));
    assert_eq!(pages.page_of(ObjectRef::new(page_object(2), 0)), Some(2));
    assert_eq!(pages.page_of(ObjectRef::new(page_object(3), 0)), Some(3));
    assert_eq!(pages.page_of(ObjectRef::new(2, 0)), None);
    assert_eq!(pages.page_of(ObjectRef::new(page_object(1), 1)), None);
    assert_eq!(pages.pages_outside(2, 2), vec![1, 3]);
}

#[test]
fn page_index_of_a_document_without_pages_is_empty() {
    let document = Document::new();
    let pages = PageIndex::from_document(&document);
    assert_eq!(pages.total_pages(), 0);
    assert_eq!(pages.page_of(ObjectRef::new(1, 0)), None);
}

/// A document whose page tree holds one page and a branch without pages
/// that claims to have `claimed` of them.
fn document_with_overstated_count(claimed: i64) -> Document {
    let mut document = Document::new();
    document.trailer.set("Root", refer(1));
    put(&mut document, 1, vec![("Type", name("Catalog")), ("Pages", refer(2))]);
    put(
        &mut document,
        2,
        vec![
            ("Type", name("Pages")),
            ("Kids", Object::Array(vec![refer(page_object(1)), refer(50)])),
            ("Count", Object::Integer(1)),
        ],
    );
    put(&mut document, page_object(1), vec![("Type", name("Page")), ("Parent", refer(2))]);
    put(
        &mut document,
        50,
        vec![
            ("Type", name("Pages")),
            ("Parent", refer(2)),
            ("Kids", Object::Array(vec![])),
            ("Count", Object::Integer(claimed)),
        ],
    );
    document
}

#[test]
fn pages_that_a_document_only_claims_are_not_counted() {
    for claimed in [4611686018427387904, i64::MAX, 1 << 40, 1000, -5] {
        let document = document_with_overstated_count(claimed);
        let pages = PageIndex::from_document(&document);
        assert_eq!(pages.total_pages(), 1);
        assert_eq!(pages.page_of(ObjectRef::new(page_object(1), 0)), Some(1));
        assert_eq!(pages.page_of(ObjectRef::new(50, 0)), None);
        assert_eq!(pages.pages_outside(2, 9), vec![1]);
    }
}

#[test]
fn plan_of_a_document_that_claims_pages_it_has_not_is_one_chapter() {
    let mut document = document_with_overstated_count(4611686018427387904);
    set_outline(&mut document, 40);
    put(&mut document, 40, vec![("Title", string("Only")), ("Dest", to_page(1))]);
    let plan = plan_chapters(&document);
    assert_eq!(plan.pages.total_pages(), 1);
    assert_eq!(plan.chapters.len(), 1);
    assert_eq!(plan.chapters[0].start_page, 1);
    assert_eq!(plan.chapters[0].end_page, 1);
    assert_eq!(plan.chapters[0].title, "Only");
}

#[test]
fn pages_of_nested_branches_are_numbered_in_the_order_of_the_document() {
    let mut document = Document::new();
    document.trailer.set("Root", refer(1));
    put(&mut document, 1, vec![("Type", name("Catalog")), ("Pages", refer(2))]);
    put(
        &mut document,
        2,
        vec![("Type", name("Pages")), ("Kids", Object::Array(vec![refer(60), refer(50), refer(61)]))],
    );
    put(
        &mut document,
        50,
        vec![("Type", name("Pages")), ("Kids", Object::Array(vec![refer(62), refer(63)]))],
    );
    for number in 60..=63 {
        put(&mut document, number, vec![("Type", name("Page"))]);
    }
    let pages = PageIndex::from_document(&document);
    assert_eq!(pages.total_pages(), 4);
    assert_eq!(pages.page_of(ObjectRef::new(60, 0)), Some(1));
    assert_eq!(pages.page_of(ObjectRef::new(62, 0)), Some(2));
    assert_eq!(pages.page_of(ObjectRef::new(63, 0)), Some(3));
    assert_eq!(pages.page_of(ObjectRef::new(61, 0)), Some(4));
    assert_eq!(pages.page_of(ObjectRef::new(50, 0)), None);
}

#[test]
fn resolve_follows_a_reference_and_keeps_other_values() {
    let mut document = document_with_pages(1);
    document.objects.insert((40, 0), string("stored"));
    let direct = string("direct");
    assert_eq!(resolve(&document, &direct), Some(&direct));
    let stored = refer(40);
    assert_eq!(resolve(&document, &stored), Some(&string("stored")));
    let missing = refer(41);
    assert_eq!(resolve(&document, &missing), None);
}

#[test]
fn resolve_follows_a_chain_of_references() {
    let mut document = document_with_pages(1);
    document.objects.insert((40, 0), refer(41));
    document.objects.insert((41, 0), refer(42));
    document.objects.insert((42, 0), string("end"));
    assert_eq!(resolve(&document, &refer(40)), Some(&string("end")));
    document.objects.insert((50, 0), refer(51));
    assert_eq!(resolve(&document, &refer(50)), None);
}

#[test]
fn field_reads_an_entry_as_written() {
    let mut document = document_with_pages(1);
    document.objects.insert((40, 0), string("stored"));
    let holder = dict(vec![("Here", string("x")), ("There", refer(40))]);
    assert_eq!(field(&holder, "Here"), Some(&string("x")));
    assert_eq!(field(&holder, "There"), Some(&refer(40)));
    assert_eq!(field(&holder, "Nowhere"), None);
    assert_eq!(field(&holder, "here"), None);
    assert_eq!(resolved_field(&document, &holder, "There"), Some(&string("stored")));
    assert_eq!(resolved_field(&document, &holder, "Here"), Some(&string("x")));
    assert_eq!(resolved_field(&document, &holder, "Nowhere"), None);
}

#[test]
fn catalog_is_the_dictionary_under_root() {
    let document = document_with_pages(2);
    let found = catalog(&document).unwrap();
    assert_eq!(found.get(b"Pages").unwrap(), &refer(2));
    assert!(catalog(&Document::new()).is_none());
    let mut direct = document_with_pages(1);
    direct.trailer.set("Root", Object::Dictionary(dict(vec![("Pages", refer(2))])));
    assert!(catalog(&direct).is_none());
    let mut wrong = document_with_pages(1);
    wrong.trailer.set("Root", refer(77));
    assert!(catalog(&wrong).is_none());
}

#[test]
fn fetch_dictionary_gives_only_dictionaries() {
    let mut document = document_with_pages(1);
    document.objects.insert((40, 0), string("text"));
    assert!(fetch_dictionary(&document, ObjectRef::new(1, 0)).is_some());
    assert!(fetch_dictionary(&document, ObjectRef::new(40, 0)).is_none());
    assert!(fetch_dictionary(&document, ObjectRef::new(41, 0)).is_none());
}

#[test]
fn explicit_destination_resolves_to_its_page() {
    let document = document_with_pages(5);
    let pages = PageIndex::from_document(&document);
    let table = NamedDestinations::build(&document);
    assert_eq!(resolve_destination(&document, &to_page(4), &pages, &table), Some(4));
    assert_eq!(resolve_destination(&document, &to_page(1), &pages, &table), Some(1));
}

#[test]
fn explicit_destination_behind_a_reference_resolves() {
    let mut document = document_with_pages(5);
    document.objects.insert((40, 0), to_page(3));
    let pages = PageIndex::from_document(&document);
    let table = NamedDestinations::build(&document);
    assert_eq!(resolve_destination(&document, &refer(40), &pages, &table), Some(3));
    assert_eq!(resolve_destination(&document, &refer(41), &pages, &table), None);
}

#[test]
fn destinations_of_other_shapes_resolve_to_nothing() {
    let document = document_with_pages(5);
    let pages = PageIndex::from_document(&document);
    let table = NamedDestinations::build(&document);
    let empty = Object::Array(vec![]);
    assert_eq!(resolve_destination(&document, &empty, &pages, &table), None);
    let number_first = Object::Array(vec![Object::Integer(3), name("Fit")]);
    assert_eq!(resolve_destination(&document, &number_first, &pages, &table), None);
    let no_page = Object::Array(vec![refer(2), name("Fit")]);
    assert_eq!(resolve_destination(&document, &no_page, &pages, &table), None);
    assert_eq!(resolve_destination(&document, &Object::Null, &pages, &table), None);
    assert_eq!(resolve_destination(&document, &Object::Integer(3), &pages, &table), None);
    assert_eq!(resolve_destination(&document, &Object::Boolean(true), &pages, &table), None);
    let table_like = Object::Dictionary(dict(vec![("D", to_page(2))]));
    assert_eq!(resolve_destination(&document, &table_like, &pages, &table), None);
    assert_eq!(resolve_destination(&document, &name("unknown"), &pages, &table), None);
}

#[test]
fn named_destination_resolves_through_the_table() {
    let mut document = document_with_pages(9);
    set_in_catalog(&mut document, "Names", Object::Dictionary(dict(vec![("Dests", refer(20))])));
    put(&mut document, 20, vec![("Names", Object::Array(vec![string("chap1"), to_page(7)]))]);
    let pages = PageIndex::from_document(&document);
    let table = NamedDestinations::build(&document);
    assert_eq!(table.len(), 1);
    assert_eq!(table.get(b"chap1"), Some(&to_page(7)));
    assert_eq!(table.get(b"chap2"), None);
    assert_eq!(resolve_destination(&document, &name("chap1"), &pages, &table), Some(7));
    assert_eq!(resolve_destination(&document, &string("chap1"), &pages, &table), Some(7));
    assert_eq!(resolve_destination(&document, &name("chap2"), &pages, &table), None);
}

#[test]
fn named_destination_may_be_a_dictionary_with_d() {
    let mut document = document_with_pages(9);
    set_in_catalog(&mut document, "Dests", refer(20));
    put(
        &mut document,
        20,
        vec![
            ("direct", Object::Dictionary(dict(vec![("D", to_page(2))]))),
            ("stored", refer(21)),
            ("inner", Object::Dictionary(dict(vec![("D", refer(22))]))),
            ("again", Object::Dictionary(dict(vec![("D", name("direct"))]))),
            ("bare", Object::Dictionary(dict(vec![("S", name("GoTo"))]))),
            ("number", Object::Integer(4)),
            ("lost", refer(99)),
            ("array", refer(22)),
        ],
    );
    put(&mut document, 21, vec![("D", to_page(3))]);
    document.objects.insert((22, 0), to_page(4));
    let pages = PageIndex::from_document(&document);
    let table = NamedDestinations::build(&document);
    assert_eq!(resolve_destination(&document, &name("direct"), &pages, &table), Some(2));
    assert_eq!(resolve_destination(&document, &name("stored"), &pages, &table), Some(3));
    assert_eq!(resolve_destination(&document, &name("inner"), &pages, &table), Some(4));
    assert_eq!(resolve_destination(&document, &name("array"), &pages, &table), Some(4));
    // A name leads to a page in one step or not at all.
    assert_eq!(resolve_destination(&document, &name("again"), &pages, &table), None);
    assert_eq!(resolve_destination(&document, &name("bare"), &pages, &table), None);
    assert_eq!(resolve_destination(&document, &name("number"), &pages, &table), None);
    assert_eq!(resolve_destination(&document, &name("lost"), &pages, &table), None);
}

#[test]
fn name_tree_is_gathered_through_its_kids() {
    let mut document = document_with_pages(9);
    set_in_catalog(&mut document, "Names", refer(19));
    put(&mut document, 19, vec![("Dests", refer(20))]);
    put(
        &mut document,
        20,
        vec![
            ("Names", Object::Array(vec![string("root"), to_page(1)])),
            ("Kids", Object::Array(vec![refer(21), Object::Integer(5), refer(22), refer(98)])),
        ],
    );
    put(
        &mut document,
        21,
        vec![
            ("Names", refer(30)),
            ("Kids", refer(31)),
        ],
    );
    document.objects.insert(
        (30, 0),
        Object::Array(vec![
            name("a"),
            to_page(2),
            Object::Integer(7),
            to_page(9),
            string("b"),
            to_page(3),
            string("odd"),
        ]),
    );
    document.objects.insert((31, 0), Object::Array(vec![refer(23)]));
    put(&mut document, 22, vec![("Names", Object::Array(vec![string("c"), to_page(4)]))]);
    put(&mut document, 23, vec![("Names", Object::Array(vec![string("d"), to_page(5)]))]);
    let pages = PageIndex::from_document(&document);
    let table = NamedDestinations::build(&document);
    assert_eq!(table.len(), 5);
    assert_eq!(resolve_destination(&document, &name("root"), &pages, &table), Some(1));
    assert_eq!(resolve_destination(&document, &name("a"), &pages, &table), Some(2));
    assert_eq!(resolve_destination(&document, &name("b"), &pages, &table), Some(3));
    assert_eq!(resolve_destination(&document, &name("c"), &pages, &table), Some(4));
    assert_eq!(resolve_destination(&document, &name("d"), &pages, &table), Some(5));
    assert_eq!(table.get(b"odd"), None);
}

#[test]
fn name_tree_root_may_be_written_in_place() {
    let mut document = document_with_pages(9);
    let root = dict(vec![
        ("Names", Object::Array(vec![string("here"), to_page(6)])),
        ("Kids", Object::Array(vec![refer(21)])),
    ]);
    set_in_catalog(
        &mut document,
        "Names",
        Object::Dictionary(dict(vec![("Dests", Object::Dictionary(root))])),
    );
    put(&mut document, 21, vec![("Names", Object::Array(vec![string("below"), to_page(8)]))]);
    let pages = PageIndex::from_document(&document);
    let table = NamedDestinations::build(&document);
    assert_eq!(resolve_destination(&document, &name("here"), &pages, &table), Some(6));
    assert_eq!(resolve_destination(&document, &name("below"), &pages, &table), Some(8));
}

#[test]
fn later_entries_of_the_name_tree_stand() {
    let mut document = document_with_pages(9);
    set_in_catalog(&mut document, "Names", Object::Dictionary(dict(vec![("Dests", refer(20))])));
    put(
        &mut document,
        20,
        vec![
            ("Names", Object::Array(vec![string("k"), to_page(1), string("k"), to_page(2)])),
            ("Kids", Object::Array(vec![refer(21)])),
        ],
    );
    put(&mut document, 21, vec![("Names", Object::Array(vec![string("k"), to_page(3)]))]);
    let pages = PageIndex::from_document(&document);
    let table = NamedDestinations::build(&document);
    assert_eq!(table.get(b"k"), Some(&to_page(3)));
    assert_eq!(resolve_destination(&document, &name("k"), &pages, &table), Some(3));
}

#[test]
fn flat_dictionary_stands_over_the_name_tree() {
    let mut document = document_with_pages(9);
    set_in_catalog(&mut document, "Names", Object::Dictionary(dict(vec![("Dests", refer(20))])));
    put(
        &mut document,
        20,
        vec![("Names", Object::Array(vec![string("both"), to_page(1), string("tree"), to_page(2)]))],
    );
    set_in_catalog(
        &mut document,
        "Dests",
        Object::Dictionary(dict(vec![("both", to_page(5)), ("flat", to_page(6))])),
    );
    let pages = PageIndex::from_document(&document);
    let table = NamedDestinations::build(&document);
    assert_eq!(resolve_destination(&document, &name("both"), &pages, &table), Some(5));
    assert_eq!(resolve_destination(&document, &name("tree"), &pages, &table), Some(2));
    assert_eq!(resolve_destination(&document, &name("flat"), &pages, &table), Some(6));
}

#[test]
fn a_document_without_names_has_an_empty_table() {
    let document = document_with_pages(2);
    let table = NamedDestinations::build(&document);
    assert_eq!(table.len(), 0);
    assert_eq!(table.get(b"any"), None);
    let empty = Document::new();
    let bare = NamedDestinations::build(&empty);
    assert_eq!(bare.len(), 0);
}

#[test]
fn a_name_tree_that_points_back_at_itself_is_walked_to_an_end() {
    let mut document = document_with_pages(9);
    set_in_catalog(&mut document, "Names", Object::Dictionary(dict(vec![("Dests", refer(20))])));
    put(
        &mut document,
        20,
        vec![
            ("Names", Object::Array(vec![string("a"), to_page(1)])),
            ("Kids", Object::Array(vec![refer(21), refer(20), refer(21)])),
        ],
    );
    put(
        &mut document,
        21,
        vec![
            ("Names", Object::Array(vec![string("b"), to_page(2)])),
            ("Kids", Object::Array(vec![refer(20), refer(21)])),
        ],
    );
    let table = NamedDestinations::build(&document);
    assert_eq!(table.len(), 2);
    assert_eq!(table.get(b"a"), Some(&to_page(1)));
    assert_eq!(table.get(b"b"), Some(&to_page(2)));
}

#[test]
fn gathering_goes_on_behind_what_was_gathered_before() {
    let mut document = document_with_pages(9);
    put(
        &mut document,
        20,
        vec![
            ("Names", Object::Array(vec![string("b"), to_page(2), string("c"), to_page(3)])),
            ("Kids", Object::Array(vec![refer(21)])),
        ],
    );
    put(&mut document, 21, vec![("Names", Object::Array(vec![string("d"), to_page(4)]))]);
    let flat = dict(vec![("c", to_page(7)), ("e", to_page(8))]);
    let before = to_page(1);
    let root = refer(20);
    let mut stored: Vec<(&[u8], &Object)> = vec![(b"a", &before), (b"b", &before)];
    gather_tree(&document, &root, &mut stored);
    let keys: Vec<&[u8]> = stored.iter().map(|pair| pair.0).collect();
    let expected: Vec<&[u8]> = vec![b"a", b"b", b"b", b"c", b"d"];
    assert_eq!(keys, expected);
    gather_entries(&flat, &mut stored);
    assert_eq!(stored.len(), 7);
    let table = NamedDestinations::from_pairs(stored);
    assert_eq!(table.len(), 5);
    assert_eq!(table.get(b"a"), Some(&to_page(1)));
    assert_eq!(table.get(b"b"), Some(&to_page(2)));
    assert_eq!(table.get(b"c"), Some(&to_page(7)));
    assert_eq!(table.get(b"d"), Some(&to_page(4)));
    assert_eq!(table.get(b"e"), Some(&to_page(8)));
}

#[test]
fn from_pairs_lets_the_later_destination_stand() {
    let first = to_page(1);
    let second = to_page(2);
    let empty = NamedDestinations::from_pairs(Vec::new());
    assert_eq!(empty.get(b"k"), None);
    assert_eq!(empty.len(), 0);
    let pairs: Vec<(&[u8], &Object)> =
        vec![(b"k", &first), (b"other", &first), (b"k", &second), (b"", &second)];
    let table = NamedDestinations::from_pairs(pairs);
    assert_eq!(table.get(b"k"), Some(&second));
    assert_eq!(table.get(b"other"), Some(&first));
    assert_eq!(table.get(b""), Some(&second));
    assert_eq!(table.get(b"K"), None);
    assert_eq!(table.get(b"othe"), None);
    assert_eq!(table.len(), 3);
}

#[test]
fn from_pairs_finds_each_of_many_keys() {
    let targets: Vec<Object> = (0..7).map(|page| to_page(page)).collect();
    let keys: Vec<Vec<u8>> = (0..2000u32).map(|n| format!("dest.{}", n % 1500).into_bytes()).collect();
    let pairs: Vec<(&[u8], &Object)> =
        keys.iter().enumerate().map(|(i, key)| (key.as_slice(), &targets[i % 7])).collect();
    let table = NamedDestinations::from_pairs(pairs);
    assert_eq!(table.len(), 1500);
    for n in 0..1500usize {
        let key = format!("dest.{}", n).into_bytes();
        // Keys 0 to 499 come twice, and their second destination stands.
        let last = if n < 500 { n + 1500 } else { n };
        assert_eq!(table.get(&key), Some(&targets[last % 7]));
    }
    assert_eq!(table.get(b"dest.1500"), None);
    assert_eq!(table.get(b"dest."), None);
}

#[test]
fn outline_is_walked_children_first() {
    let mut document = document_with_pages(9);
    set_outline(&mut document, 40);
    put(
        &mut document,
        40,
        vec![("Title", string("One")), ("Dest", to_page(1)), ("First", refer(41)), ("Next", refer(44))],
    );
    put(&mut document, 41, vec![("Title", string("One.a")), ("Dest", to_page(2)), ("Next", refer(42))]);
    put(
        &mut document,
        42,
        vec![("Title", string("One.b")), ("Dest", to_page(3)), ("First", refer(43))],
    );
    put(&mut document, 43, vec![("Title", string("One.b.i")), ("Dest", to_page(4))]);
    put(&mut document, 44, vec![("Title", string("Two")), ("Dest", to_page(5))]);
    let pages = PageIndex::from_document(&document);
    let table = NamedDestinations::build(&document);
    assert_eq!(outline_first(&document), Some(ObjectRef::new(40, 0)));
    let scan = scan_outline(&document, &pages, &table);
    assert_eq!(
        plain(&scan.bookmarks),
        expect(&[(1, "One"), (2, "One.a"), (3, "One.b"), (4, "One.b.i"), (5, "Two")])
    );
    assert!(scan.skipped.is_empty());
    let below = walk_outline(&document, ObjectRef::new(42, 0), &pages, &table);
    assert_eq!(plain(&below.bookmarks), expect(&[(3, "One.b"), (4, "One.b.i")]));
}

#[test]
fn a_bookmark_with_another_action_is_skipped() {
    let mut document = document_with_pages(9);
    set_outline(&mut document, 40);
    let uri = dict(vec![("S", name("URI")), ("URI", string("http://example.org")), ("D", to_page(2))]);
    put(
        &mut document,
        40,
        vec![("Title", string("Link")), ("A", Object::Dictionary(uri)), ("Next", refer(41))],
    );
    put(&mut document, 41, vec![("Title", string("Real")), ("Dest", to_page(3))]);
    let pages = PageIndex::from_document(&document);
    let table = NamedDestinations::build(&document);
    let scan = scan_outline(&document, &pages, &table);
    assert_eq!(plain(&scan.bookmarks), expect(&[(3, "Real")]));
    assert_eq!(scan.skipped, vec!["Link".to_string()]);
}

#[test]
fn a_goto_action_stands_in_for_a_missing_destination() {
    let mut document = document_with_pages(9);
    set_outline(&mut document, 40);
    let goto = dict(vec![("S", name("GoTo")), ("D", to_page(6))]);
    put(
        &mut document,
        40,
        vec![("Title", string("Action")), ("A", Object::Dictionary(goto)), ("Next", refer(41))],
    );
    put(&mut document, 45, vec![("S", refer(46)), ("D", name("named"))]);
    document.objects.insert((46, 0), name("GoTo"));
    put(
        &mut document,
        41,
        vec![("Title", string("Stored")), ("A", refer(45)), ("Next", refer(42))],
    );
    let both = dict(vec![("S", name("GoTo")), ("D", to_page(8))]);
    put(
        &mut document,
        42,
        vec![
            ("Title", string("Both")),
            ("Dest", to_page(7)),
            ("A", Object::Dictionary(both)),
            ("Next", refer(43)),
        ],
    );
    let rescue = dict(vec![("S", name("GoTo")), ("D", to_page(9))]);
    put(
        &mut document,
        43,
        vec![
            ("Title", string("Rescued")),
            ("Dest", name("missing")),
            ("A", Object::Dictionary(rescue)),
            ("Next", refer(44)),
        ],
    );
    let text_kind = dict(vec![("S", string("GoTo")), ("D", to_page(1))]);
    put(
        &mut document,
        44,
        vec![("Title", string("Text kind")), ("A", Object::Dictionary(text_kind)), ("Next", refer(47))],
    );
    let empty_goto = dict(vec![("S", name("GoTo"))]);
    put(&mut document, 47, vec![("Title", string("No D")), ("A", Object::Dictionary(empty_goto))]);
    set_in_catalog(&mut document, "Dests", Object::Dictionary(dict(vec![("named", to_page(2))])));
    let pages = PageIndex::from_document(&document);
    let table = NamedDestinations::build(&document);
    let scan = scan_outline(&document, &pages, &table);
    assert_eq!(
        plain(&scan.bookmarks),
        expect(&[(6, "Action"), (2, "Stored"), (7, "Both"), (9, "Rescued")])
    );
    assert_eq!(scan.skipped, vec!["Text kind".to_string(), "No D".to_string()]);
}

#[test]
fn titles_are_decoded() {
    let mut document = document_with_pages(9);
    set_outline(&mut document, 40);
    let utf16 = Object::String(vec![0xFE, 0xFF, 0x7B, 0x2C, 0x00, 0x31, 0x7A, 0xE0], StringFormat::Hexadecimal);
    put(&mut document, 40, vec![("Title", utf16), ("Dest", to_page(1)), ("Next", refer(41))]);
    put(&mut document, 41, vec![("Dest", to_page(2)), ("Next", refer(42))]);
    put(&mut document, 42, vec![("Title", name("AName")), ("Dest", to_page(3)), ("Next", refer(43))]);
    put(&mut document, 43, vec![("Title", refer(50)), ("Dest", to_page(4)), ("Next", refer(44))]);
    document.objects.insert((50, 0), string("Stored title"));
    put(&mut document, 44, vec![("Title", Object::Integer(5))]);
    let pages = PageIndex::from_document(&document);
    let table = NamedDestinations::build(&document);
    let scan = scan_outline(&document, &pages, &table);
    assert_eq!(
        plain(&scan.bookmarks),
        expect(&[(1, "第1章"), (2, "No Title"), (3, "No Title"), (4, "Stored title")])
    );
    assert_eq!(scan.skipped, vec!["No Title".to_string()]);
}

#[test]
fn a_chain_of_siblings_ends_where_a_bookmark_cannot_be_fetched() {
    let mut document = document_with_pages(9);
    set_outline(&mut document, 40);
    put(
        &mut document,
        40,
        vec![("Title", string("One")), ("Dest", to_page(1)), ("First", refer(41)), ("Next", refer(44))],
    );
    put(&mut document, 41, vec![("Title", string("Child")), ("Dest", to_page(2)), ("Next", refer(90))]);
    put(&mut document, 44, vec![("Title", string("Two")), ("Dest", to_page(3)), ("Next", refer(45))]);
    document.objects.insert((45, 0), string("no bookmark"));
    let pages = PageIndex::from_document(&document);
    let table = NamedDestinations::build(&document);
    let scan = scan_outline(&document, &pages, &table);
    assert_eq!(plain(&scan.bookmarks), expect(&[(1, "One"), (2, "Child"), (3, "Two")]));
}

#[test]
fn links_must_be_references() {
    let mut document = document_with_pages(9);
    set_outline(&mut document, 40);
    let inline = dict(vec![("Title", string("Inline")), ("Dest", to_page(5))]);
    put(
        &mut document,
        40,
        vec![("Title", string("One")), ("Dest", to_page(1)), ("Next", Object::Dictionary(inline))],
    );
    let pages = PageIndex::from_document(&document);
    let table = NamedDestinations::build(&document);
    let scan = scan_outline(&document, &pages, &table);
    assert_eq!(plain(&scan.bookmarks), expect(&[(1, "One")]));
}

#[test]
fn an_outline_that_points_back_at_itself_is_walked_to_an_end() {
    let mut document = document_with_pages(9);
    set_outline(&mut document, 40);
    put(
        &mut document,
        40,
        vec![("Title", string("One")), ("Dest", to_page(1)), ("First", refer(40)), ("Next", refer(41))],
    );
    put(
        &mut document,
        41,
        vec![("Title", string("Two")), ("Dest", to_page(2)), ("First", refer(42)), ("Next", refer(40))],
    );
    put(&mut document, 42, vec![("Title", string("Three")), ("Dest", to_page(3)), ("Next", refer(41))]);
    let pages = PageIndex::from_document(&document);
    let table = NamedDestinations::build(&document);
    let scan = scan_outline(&document, &pages, &table);
    assert_eq!(plain(&scan.bookmarks), expect(&[(1, "One"), (2, "Two"), (3, "Three")]));
}

#[test]
fn a_document_without_an_outline_has_no_bookmarks() {
    let document = document_with_pages(4);
    let pages = PageIndex::from_document(&document);
    let table = NamedDestinations::build(&document);
    assert_eq!(outline_first(&document), None);
    let scan = scan_outline(&document, &pages, &table);
    assert!(scan.bookmarks.is_empty());
    assert!(scan.skipped.is_empty());
    let mut hollow = document_with_pages(4);
    put(&mut hollow, 3, vec![("Type", name("Outlines"))]);
    set_in_catalog(&mut hollow, "Outlines", refer(3));
    assert_eq!(outline_first(&hollow), None);
}

#[test]
fn plan_turns_the_outline_into_chapters() {
    let mut document = document_with_pages(12);
    set_outline(&mut document, 40);
    set_in_catalog(&mut document, "Names", Object::Dictionary(dict(vec![("Dests", refer(20))])));
    put(&mut document, 20, vec![("Names", Object::Array(vec![string("chap2"), to_page(5)]))]);
    put(&mut document, 40, vec![("Title", string("Intro")), ("Dest", to_page(1)), ("Next", refer(41))]);
    put(&mut document, 41, vec![("Title", string("Body")), ("Dest", name("chap2")), ("Next", refer(42))]);
    put(&mut document, 42, vec![("Title", string("Lost")), ("Dest", name("nowhere")), ("Next", refer(43))]);
    put(&mut document, 43, vec![("Title", string("Again")), ("Dest", to_page(5)), ("Next", refer(44))]);
    put(&mut document, 44, vec![("Title", string("End")), ("Dest", to_page(9))]);
    let plan = plan_chapters(&document);
    let chapters: Vec<(u32, u32, String)> =
        plan.chapters.iter().map(|c| (c.start_page, c.end_page, c.title.clone())).collect();
    assert_eq!(
        chapters,
        vec![
            (1, 4, "Intro".to_string()),
            (5, 8, "Body".to_string()),
            (9, 12, "End".to_string()),
        ]
    );
    assert_eq!(plan.skipped, vec!["Lost".to_string()]);
    assert_eq!(plan.bookmarks, 4);
    assert_eq!(plan.named_destinations, 1);
    assert_eq!(plan.pages.total_pages(), 12);
    assert_eq!(plan.pages.pages_outside(5, 8), vec![1, 2, 3, 4, 9, 10, 11, 12]);
}

#[test]
fn plan_of_a_document_without_outline_is_one_chapter() {
    let document = document_with_pages(6);
    let plan = plan_chapters(&document);
    assert_eq!(plan.chapters.len(), 1);
    assert_eq!(plan.chapters[0].start_page, 1);
    assert_eq!(plan.chapters[0].end_page, 6);
    assert_eq!(plan.chapters[0].title, "FullDocument");
    assert!(plan.skipped.is_empty());
    assert_eq!(plan.bookmarks, 0);
}

#[test]
fn plan_of_a_document_whose_bookmarks_lead_nowhere_is_one_chapter() {
    let mut document = document_with_pages(6);
    set_outline(&mut document, 40);
    put(&mut document, 40, vec![("Title", string("Nowhere")), ("Dest", name("missing"))]);
    let plan = plan_chapters(&document);
    assert_eq!(plan.chapters.len(), 1);
    assert_eq!(plan.chapters[0].start_page, 1);
    assert_eq!(plan.chapters[0].end_page, 6);
    assert_eq!(plan.chapters[0].title, "FullDocument");
    assert_eq!(plan.skipped, vec!["Nowhere".to_string()]);
}
