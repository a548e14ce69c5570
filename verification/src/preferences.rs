//! Search preferences: which collections and books a query may touch,
//! and how multiple terms combine.
use vstd::prelude::*;

verus! {

/// Which of the five collections a search may return results from.
#[derive(Clone, Copy, Debug, PartialEq, Eq, Structural)]
pub struct IncludedSources {
    pub ot: bool,
    pub nt: bool,
    pub bom: bool,
    pub dc: bool,
    pub pogp: bool,
}

/// Per-collection book allow-lists.  The four book-based collections list
/// book titles; the section-based collection gives an inclusive-exclusive
/// numeric section range instead.
#[derive(Debug)]
pub struct IncludedBooks {
    pub ot: Vec<String>,
    pub nt: Vec<String>,
    pub bom: Vec<String>,
    pub dc: (u8, u8),
    pub pogp: Vec<String>,
}

/// The preferences a query runs under, fixed for the whole query.
#[derive(Debug)]
pub struct SearchPreferences {
    pub and: bool,
    pub case_sensitive: bool,
    pub exact: bool,
    pub included_sources: IncludedSources,
    pub included_books: IncludedBooks,
}

/// When a search is worth running at all: the query is nonempty and some
/// enabled collection still has an eligible book (for the section-based
/// collection, a nonempty section range).
pub open spec fn spec_can_search(search: Seq<char>, p: SearchPreferences) -> bool {
    &&& search.len() > 0
    &&& {
        ||| p.included_sources.ot && p.included_books.ot@.len() > 0
        ||| p.included_sources.nt && p.included_books.nt@.len() > 0
        ||| p.included_sources.bom && p.included_books.bom@.len() > 0
        ||| p.included_sources.dc && p.included_books.dc.1 > p.included_books.dc.0
        ||| p.included_sources.pogp && p.included_books.pogp@.len() > 0
    }
}

/// Decides whether a query can return anything under these preferences.
/// An empty query, no enabled collection, or no eligible book all make
/// the answer no; none of them is an error.
pub fn check_can_search(search: &String, preferences: &SearchPreferences) -> (r: bool)
    ensures
        r == spec_can_search(search@, *preferences),
{
    if search.as_str().is_empty() {
        return false;
    }
    let included_sources = preferences.included_sources;
    if !included_sources.ot && !included_sources.nt && !included_sources.bom
        && !included_sources.dc && !included_sources.pogp {
        return false;
    }
    let included_books = &preferences.included_books;
    (included_sources.ot && included_books.ot.len() > 0) || (included_sources.nt
        && included_books.nt.len() > 0) || (included_sources.bom && included_books.bom.len() > 0)
        || (included_sources.dc && included_books.dc.1 > included_books.dc.0) || (
    included_sources.pogp && included_books.pogp.len() > 0)
}

/// A baseline preference set: every collection enabled, one book allowed
/// in each, and a short section range.
pub fn make_empty_preferences() -> (r: SearchPreferences)
    ensures
        !r.and,
        r.case_sensitive,
        !r.exact,
        r.included_sources == (IncludedSources { ot: true, nt: true, bom: true, dc: true, pogp: true }),
        r.included_books.ot@.len() == 1,
        r.included_books.nt@.len() == 1,
        r.included_books.bom@.len() == 1,
        r.included_books.pogp@.len() == 1,
        r.included_books.ot@[0]@ == "Genesis"@,
        r.included_books.nt@[0]@ == "Matthew"@,
        r.included_books.bom@[0]@ == "1 Nephi"@,
        r.included_books.pogp@[0]@ == "Abraham"@,
        r.included_books.dc == (1u8, 20u8),
{
    let mut ot_books: Vec<String> = Vec::new();
    ot_books.push(String::from_str("Genesis"));
    let mut nt_books: Vec<String> = Vec::new();
    nt_books.push(String::from_str("Matthew"));
    let mut bom_books: Vec<String> = Vec::new();
    bom_books.push(String::from_str("1 Nephi"));
    let mut pogp_books: Vec<String> = Vec::new();
    pogp_books.push(String::from_str("Abraham"));
    SearchPreferences {
        and: false,
        case_sensitive: true,
        exact: false,
        included_sources: IncludedSources { ot: true, nt: true, bom: true, dc: true, pogp: true },
        included_books: IncludedBooks {
            ot: ot_books,
            nt: nt_books,
            bom: bom_books,
            dc: (1, 20),
            pogp: pogp_books,
        },
    }
}

} // verus!
