use scripture_search::corpus::{Book, BookOfMormon, Chapter, DoctrineAndCovenants, NewTestament,
    NewTestamentTitlePage, OldTestament, PearlOfGreatPrice, Section, TitlePage, Verse, VersePath};
use scripture_search::encode::{encode_words_index, EncodeError};
use scripture_search::index::{build_index, paths_to_verse_paths_index, Posting, WordEntry,
    WordsIndex};
use scripture_search::preferences::{IncludedBooks, IncludedSources, SearchPreferences};
use scripture_search::search::{bootstrap_searcher, check_collection_searchable,
    full_match_search, make_link, IndexHandle};
use scripture_search::text::{get_word_ranges, make_splittable, split_whitespace_terms};
use scripture_search::corpus::{prepare_book_paths, HasBooks};
use scripture_search::encode::CompactPosting;
use scripture_search::packing::{pack_indices, pack_lengths};
use scripture_search::render::{extract_highlights, highlight_matches};

fn verse(number: u16, text: &str) -> Verse {
    Verse {
        heading: None,
        pilcrow: None,
        reference: format!("ref {}", number),
        subheading: None,
        text: String::from(text),
        verse: number,
    }
}

fn one_chapter_book(title: &str, slug: &str, verses: Vec<Verse>) -> Book {
    Book {
        book: String::from(title),
        chapters: vec![Chapter {
            chapter: 1,
            heading: None,
            note: None,
            reference: String::from("c1"),
            verses,
        }],
        facsimiles: None,
        full_subtitle: None,
        full_title: String::from(title),
        heading: None,
        lds_slug: String::from(slug),
        note: None,
    }
}

fn old_testament(books: Vec<Book>) -> OldTestament {
    OldTestament {
        books,
        last_modified: String::new(),
        lds_slug: String::from("ot"),
        the_end: String::new(),
        title: String::from("Old Testament"),
        version: 1,
    }
}

fn new_testament() -> NewTestament {
    NewTestament {
        books: vec![],
        last_modified: String::new(),
        lds_slug: String::from("nt"),
        title: String::from("New Testament"),
        title_page: NewTestamentTitlePage {
            subtitle: String::new(),
            text: String::new(),
            title: String::new(),
        },
        version: 1,
    }
}

fn book_of_mormon(books: Vec<Book>) -> BookOfMormon {
    BookOfMormon {
        books,
        last_modified: String::new(),
        lds_slug: String::from("bofm"),
        subtitle: String::new(),
        testimonies: vec![],
        title: String::from("Book of Mormon"),
        title_page: TitlePage {
            subtitle: String::new(),
            text: vec![],
            title: String::new(),
            translated_by: String::new(),
        },
        version: 1,
    }
}

fn doctrine_and_covenants(sections: Vec<Section>) -> DoctrineAndCovenants {
    DoctrineAndCovenants {
        last_modified: String::new(),
        lds_slug: String::from("dc-testament"),
        sections,
        subsubtitle: String::new(),
        subtitle: String::new(),
        title: String::from("Doctrine and Covenants"),
        version: 1,
    }
}

fn pearl_of_great_price() -> PearlOfGreatPrice {
    PearlOfGreatPrice {
        books: vec![],
        last_modified: String::new(),
        lds_slug: String::from("pgp"),
        subtitle: String::new(),
        title: String::from("Pearl of Great Price"),
        version: 1,
    }
}

fn all_books_preferences() -> SearchPreferences {
    SearchPreferences {
        and: true,
        case_sensitive: false,
        exact: false,
        included_sources: IncludedSources { ot: true, nt: true, bom: true, dc: true, pogp: true },
        included_books: IncludedBooks {
            ot: vec![String::from("Genesis")],
            nt: vec![String::from("Matthew")],
            bom: vec![String::from("1 Nephi")],
            dc: (0, 255),
            pogp: vec![String::from("Abraham")],
        },
    }
}

fn genesis_handle() -> IndexHandle {
    let ot = old_testament(vec![one_chapter_book(
        "Genesis",
        "gen",
        vec![verse(1, "In the beginning God created the heaven and the earth.")],
    )]);
    IndexHandle::new(
        ot,
        new_testament(),
        book_of_mormon(vec![]),
        doctrine_and_covenants(vec![]),
        pearl_of_great_price(),
    )
    .unwrap()
}

fn empty_handle() -> IndexHandle {
    IndexHandle::new(
        old_testament(vec![]),
        new_testament(),
        book_of_mormon(vec![]),
        doctrine_and_covenants(vec![]),
        pearl_of_great_price(),
    )
    .unwrap()
}

#[test]
fn genesis_god_query_renders_one_highlighted_line() {
    let handle = genesis_handle();
    let results = full_match_search(&handle, String::from("god"), &all_books_preferences());
    assert_eq!(results.len(), 1);
    let expected = "<li><a target=\"_blank\" rel=\"noopener noreferrer\" href=\"https://www.churchofjesuschrist.org/study/scriptures/ot/gen/1.1\">ref 1</a>: In the beginning <span class=\"match\">God</span> created the heaven and the earth.</li>";
    assert_eq!(results[0], expected);
}

#[test]
fn all_terms_required_on_empty_corpus_gives_nothing() {
    let handle = empty_handle();
    let results = full_match_search(
        &handle,
        String::from("god and the faith"),
        &all_books_preferences(),
    );
    assert_eq!(results.len(), 0);
}

#[test]
fn disjoint_terms_under_and_give_nothing() {
    let ot = old_testament(vec![one_chapter_book(
        "Genesis",
        "gen",
        vec![verse(1, "apple orchard."), verse(2, "banana grove.")],
    )]);
    let handle = IndexHandle::new(
        ot,
        new_testament(),
        book_of_mormon(vec![]),
        doctrine_and_covenants(vec![]),
        pearl_of_great_price(),
    )
    .unwrap();
    let results = full_match_search(
        &handle,
        String::from("apple banana"),
        &all_books_preferences(),
    );
    assert_eq!(results.len(), 0);
}

#[test]
fn excluded_collection_is_never_returned() {
    let ot = old_testament(vec![one_chapter_book(
        "Genesis",
        "gen",
        vec![verse(1, "God spoke.")],
    )]);
    let bom = book_of_mormon(vec![one_chapter_book(
        "1 Nephi",
        "1-ne",
        vec![verse(1, "God spoke.")],
    )]);
    let handle = IndexHandle::new(
        ot,
        new_testament(),
        bom,
        doctrine_and_covenants(vec![]),
        pearl_of_great_price(),
    )
    .unwrap();
    let mut preferences = all_books_preferences();
    preferences.included_sources.bom = false;
    let results = full_match_search(&handle, String::from("god"), &preferences);
    assert_eq!(results.len(), 1);
    assert!(results[0].contains("/ot/gen/"));
    assert!(!results[0].contains("1-ne"));
}

#[test]
fn empty_query_returns_empty_result_set() {
    let handle = genesis_handle();
    let results = full_match_search(&handle, String::new(), &all_books_preferences());
    assert_eq!(results.len(), 0);
}

#[test]
fn building_twice_gives_identical_indices() {
    let make = || {
        (
            old_testament(vec![one_chapter_book(
                "Genesis",
                "gen",
                vec![verse(1, "In the beginning God created the heaven and the earth.")],
            )]),
            new_testament(),
            book_of_mormon(vec![one_chapter_book(
                "1 Nephi",
                "1-ne",
                vec![verse(1, "I, Nephi, having been born of goodly parents.")],
            )]),
            doctrine_and_covenants(vec![Section {
                section: 1,
                reference: String::from("s1"),
                verses: vec![verse(1, "Hearken, O ye people.")],
                signature: None,
            }]),
            pearl_of_great_price(),
        )
    };
    let (ot1, nt1, bom1, dc1, pogp1) = make();
    let (ot2, nt2, bom2, dc2, pogp2) = make();
    let (words1, paths1) = build_index(&ot1, &nt1, &bom1, &dc1, &pogp1);
    let (words2, paths2) = build_index(&ot2, &nt2, &bom2, &dc2, &pogp2);
    assert_eq!(words1, words2);
    assert_eq!(paths1, paths2);
    let compact1 = encode_words_index(&words1).unwrap();
    let compact2 = encode_words_index(&words2).unwrap();
    assert_eq!(compact1, compact2);
}

#[test]
fn scripture_ids_are_assigned_in_collection_order() {
    let ot = old_testament(vec![one_chapter_book(
        "Genesis",
        "gen",
        vec![verse(1, "first."), verse(2, "second.")],
    )]);
    let dc = doctrine_and_covenants(vec![Section {
        section: 1,
        reference: String::from("s1"),
        verses: vec![verse(1, "third.")],
        signature: None,
    }]);
    let (_, paths) = build_index(
        &ot,
        &new_testament(),
        &book_of_mormon(vec![]),
        &dc,
        &pearl_of_great_price(),
    );
    assert_eq!(
        paths.paths,
        vec![
            VersePath::PathOT(0, 0, 0),
            VersePath::PathOT(0, 0, 1),
            VersePath::PathDC(0, 0),
        ]
    );
    let reverse = paths_to_verse_paths_index(&paths);
    assert_eq!(reverse.get_id(&VersePath::PathDC(0, 0)), Some(3));
    assert_eq!(reverse.get_id(&VersePath::PathDC(0, 1)), None);
}

#[test]
fn uppercase_query_matches_lowercase_text() {
    let handle = genesis_handle();
    let results = full_match_search(&handle, String::from("GOD"), &all_books_preferences());
    assert_eq!(results.len(), 1);
}

#[test]
fn inflected_query_matches_stemmed_index() {
    // "heavens" and "heaven" share the stem; the match proves the
    // stemmer ran on both sides.
    let handle = genesis_handle();
    let results = full_match_search(
        &handle,
        String::from("heavens"),
        &all_books_preferences(),
    );
    assert_eq!(results.len(), 1);
    assert!(results[0].contains("<span class=\"match\">heaven</span>"));
}

#[test]
fn duplicate_terms_highlight_once() {
    // The repeated term is deduplicated; the rendered line wraps the
    // word once.
    let handle = genesis_handle();
    let results = full_match_search(
        &handle,
        String::from("god god"),
        &all_books_preferences(),
    );
    assert_eq!(results.len(), 1);
    assert_eq!(results[0].matches("<span class=\"match\">").count(), 1);
}

#[test]
fn word_ranges_split_on_non_word_characters() {
    let ranges = get_word_ranges(&String::from("an apple."));
    assert_eq!(ranges, vec![(0, 2), (3, 8)]);
    let trailing = get_word_ranges(&String::from("no dot"));
    assert_eq!(trailing, vec![(0, 2), (3, 6)]);
}

#[test]
fn splitting_terms_uses_whitespace() {
    let terms = split_whitespace_terms(&String::from(" god  and\tthe "));
    assert_eq!(terms, vec![
        String::from("god"),
        String::from("and"),
        String::from("the"),
    ]);
}

#[test]
fn normalization_strips_possessives_dashes_and_symbols() {
    let normalized = make_splittable(&String::from("God's word—here; now"));
    assert_eq!(normalized, String::from("god word here now"));
}

#[test]
fn encode_rejects_each_broken_ceiling() {
    let index_with = |spans: Vec<(usize, usize)>| WordsIndex {
        words: vec![WordEntry {
            stem: String::from("x"),
            postings: vec![Posting { id: 1, spans }],
        }],
    };
    assert_eq!(
        encode_words_index(&index_with(vec![(0, 1); 23])).unwrap_err(),
        EncodeError::TooManyOccurrences,
    );
    assert_eq!(
        encode_words_index(&index_with(vec![(2047, 1)])).unwrap_err(),
        EncodeError::OffsetTooLarge,
    );
    assert_eq!(
        encode_words_index(&index_with(vec![(3, 0)])).unwrap_err(),
        EncodeError::ZeroLength,
    );
    assert_eq!(
        encode_words_index(&index_with(vec![(3, 32)])).unwrap_err(),
        EncodeError::LengthTooLarge,
    );
    assert!(encode_words_index(&index_with(vec![(2046, 31); 22])).is_ok());
}

#[test]
fn section_range_filters_doctrine_and_covenants() {
    let dc = doctrine_and_covenants(vec![
        Section {
            section: 1,
            reference: String::from("s1"),
            verses: vec![verse(1, "alpha words.")],
            signature: None,
        },
        Section {
            section: 2,
            reference: String::from("s2"),
            verses: vec![verse(1, "alpha words.")],
            signature: None,
        },
    ]);
    let handle = IndexHandle::new(
        old_testament(vec![]),
        new_testament(),
        book_of_mormon(vec![]),
        dc,
        pearl_of_great_price(),
    )
    .unwrap();
    let mut preferences = all_books_preferences();
    preferences.included_books.dc = (0, 0);
    let results = full_match_search(&handle, String::from("alpha"), &preferences);
    assert_eq!(results.len(), 1);
    assert!(results[0].contains("/dc-testament/1.1"));
}

#[test]
fn pearl_of_great_price_links_carry_the_language_tag() {
    let pogp = PearlOfGreatPrice {
        books: vec![one_chapter_book("Abraham", "abr", vec![verse(1, "alpha words.")])],
        last_modified: String::new(),
        lds_slug: String::from("pgp"),
        subtitle: String::new(),
        title: String::from("Pearl of Great Price"),
        version: 1,
    };
    let handle = IndexHandle::new(
        old_testament(vec![]),
        new_testament(),
        book_of_mormon(vec![]),
        doctrine_and_covenants(vec![]),
        pogp,
    )
    .unwrap();
    let results = full_match_search(&handle, String::from("alpha"), &all_books_preferences());
    assert_eq!(results.len(), 1);
    assert!(results[0].contains("/pgp/abr/1.1?lang=eng"));
}

#[test]
fn unknown_term_imposes_no_restriction() {
    // A term with no postings at all contributes no restriction to the
    // intersection; only terms that have postings narrow the result.
    let handle = genesis_handle();
    let results = full_match_search(
        &handle,
        String::from("god zzzqqq"),
        &all_books_preferences(),
    );
    assert_eq!(results.len(), 1);
}

#[test]
fn prepare_book_paths_walks_in_canonical_order() {
    let ot = old_testament(vec![
        one_chapter_book("Genesis", "gen", vec![verse(1, "a."), verse(2, "b.")]),
        one_chapter_book("Exodus", "ex", vec![verse(1, "c.")]),
    ]);
    let triples = prepare_book_paths(HasBooks::OT(&ot));
    assert_eq!(triples, vec![(0, 0, 0), (0, 0, 1), (1, 0, 0)]);
}

#[test]
fn extract_highlights_zips_offsets_with_lengths() {
    let posting = CompactPosting {
        id: 7,
        offsets: pack_indices(&vec![4, 90]),
        lengths: pack_lengths(&vec![3, 5]),
    };
    assert_eq!(extract_highlights(&posting), vec![(4u16, 3u8), (90u16, 5u8)]);
}

#[test]
fn highlight_matches_wraps_back_to_front() {
    let text = String::from("one two three");
    let wrapped = highlight_matches(&text, &vec![(0, 3), (8, 13)]);
    assert_eq!(
        wrapped,
        "<span class=\"match\">one</span> two <span class=\"match\">three</span>",
    );
}

#[test]
fn links_follow_the_study_url_shape() {
    let handle = genesis_handle();
    let link = make_link(&handle, &VersePath::PathOT(0, 0, 0));
    assert_eq!(
        link,
        "https://www.churchofjesuschrist.org/study/scriptures/ot/gen/1.1",
    );
}

#[test]
fn collection_filter_reads_book_allow_lists() {
    let handle = genesis_handle();
    let mut preferences = all_books_preferences();
    assert!(check_collection_searchable(
        &handle,
        &VersePath::PathOT(0, 0, 0),
        &preferences,
    ));
    preferences.included_books.ot = vec![String::from("Exodus")];
    assert!(!check_collection_searchable(
        &handle,
        &VersePath::PathOT(0, 0, 0),
        &preferences,
    ));
}

#[test]
fn bootstrap_builds_a_working_handle() {
    let ot = old_testament(vec![one_chapter_book(
        "Genesis",
        "gen",
        vec![verse(1, "In the beginning God created the heaven and the earth.")],
    )]);
    let handle = bootstrap_searcher(
        ot,
        new_testament(),
        book_of_mormon(vec![]),
        doctrine_and_covenants(vec![]),
        pearl_of_great_price(),
    )
    .unwrap();
    let results = full_match_search(&handle, String::from("earth"), &all_books_preferences());
    assert_eq!(results.len(), 1);
}
