use scripture_search::preferences::{check_can_search, make_empty_preferences, IncludedBooks,
    IncludedSources, SearchPreferences};

#[test]
fn check_search_empty_blank_string_is_false() {
    let preferences = SearchPreferences {
        and: false,
        case_sensitive: true,
        exact: false,
        included_sources: IncludedSources { ot: true, nt: true, bom: true, dc: true, pogp: true },
        included_books: IncludedBooks {
            ot: vec![],
            nt: vec![],
            bom: vec![String::from("Alma")],
            dc: (1, 1),
            pogp: vec![],
        },
    };
    let search = String::from("");
    assert_eq!(false, check_can_search(&search, &preferences));
}

#[test]
fn check_search_empty_no_sources_is_false() {
    let preferences = SearchPreferences {
        and: false,
        case_sensitive: true,
        exact: false,
        included_sources: IncludedSources {
            ot: false,
            nt: false,
            bom: false,
            dc: false,
            pogp: false,
        },
        included_books: IncludedBooks {
            ot: vec![],
            nt: vec![],
            bom: vec![String::from("Alma")],
            dc: (1, 1),
            pogp: vec![],
        },
    };
    let search = String::from("asdf");
    assert_eq!(false, check_can_search(&search, &preferences));
}

#[test]
fn check_search_empty_no_books_is_false() {
    let preferences = SearchPreferences {
        and: false,
        case_sensitive: true,
        exact: false,
        included_sources: IncludedSources { ot: true, nt: true, bom: true, dc: true, pogp: true },
        included_books: IncludedBooks {
            ot: vec![],
            nt: vec![],
            bom: vec![],
            dc: (1, 1),
            pogp: vec![],
        },
    };
    let search = String::from("asdf");
    assert_eq!(false, check_can_search(&search, &preferences));
}

#[test]
fn check_search_empty_with_search_sources_and_books_is_true() {
    let preferences = SearchPreferences {
        and: false,
        case_sensitive: true,
        exact: false,
        included_sources: IncludedSources {
            ot: false,
            nt: false,
            bom: true,
            dc: true,
            pogp: false,
        },
        included_books: IncludedBooks {
            ot: vec![],
            nt: vec![],
            bom: vec![String::from("Alma")],
            dc: (1, 1),
            pogp: vec![],
        },
    };
    let search = String::from("asdf");
    assert_eq!(true, check_can_search(&search, &preferences));
}

#[test]
fn empty_preferences_allow_searching() {
    let preferences = make_empty_preferences();
    let search = String::from("god");
    assert_eq!(true, check_can_search(&search, &preferences));
    assert_eq!(false, preferences.and);
}
