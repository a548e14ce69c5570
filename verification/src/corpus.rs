//! The corpus model: five scripture collections with their nested
//! book / chapter / verse (or section / verse) structure, and the tagged
//! verse locations that the indices speak of.
use vstd::prelude::*;

verus! {

/// One verse: its text, its human-readable reference, and its one-based
/// number within the chapter or section.
#[derive(Debug)]
pub struct Verse {
    pub heading: Option<String>,
    pub pilcrow: Option<bool>,
    pub reference: String,
    pub subheading: Option<String>,
    pub text: String,
    pub verse: u16,
}

/// One chapter with its one-based number within the book.
#[derive(Debug)]
pub struct Chapter {
    pub chapter: u8,
    pub heading: Option<String>,
    pub note: Option<String>,
    pub reference: String,
    pub verses: Vec<Verse>,
}

/// A facsimile plate attached to a book.
#[derive(Debug)]
pub struct Facsimile {
    pub explanations: Vec<String>,
    pub image_url: String,
    pub lds_slug: String,
    pub note: Option<String>,
    pub number: u64,
    pub title: String,
}

/// One book of a book-based collection.
#[derive(Debug)]
pub struct Book {
    pub book: String,
    pub chapters: Vec<Chapter>,
    pub facsimiles: Option<Vec<Facsimile>>,
    pub full_subtitle: Option<String>,
    pub full_title: String,
    pub heading: Option<String>,
    pub lds_slug: String,
    pub note: Option<String>,
}

/// One numbered section of the section-based collection.
#[derive(Debug)]
pub struct Section {
    pub section: u8,
    pub reference: String,
    pub verses: Vec<Verse>,
    pub signature: Option<String>,
}

/// The title page of the Book of Mormon.
#[derive(Debug)]
pub struct TitlePage {
    pub subtitle: String,
    pub text: Vec<String>,
    pub title: String,
    pub translated_by: String,
}

/// A witness testimony attached to the Book of Mormon.
#[derive(Debug)]
pub struct Testimony {
    pub text: String,
    pub title: String,
    pub witnesses: Vec<String>,
}

/// The Book of Mormon collection.
#[derive(Debug)]
pub struct BookOfMormon {
    pub books: Vec<Book>,
    pub last_modified: String,
    pub lds_slug: String,
    pub subtitle: String,
    pub testimonies: Vec<Testimony>,
    pub title: String,
    pub title_page: TitlePage,
    pub version: u8,
}

/// The title page of the New Testament.
#[derive(Debug)]
pub struct NewTestamentTitlePage {
    pub subtitle: String,
    pub text: String,
    pub title: String,
}

/// The New Testament collection.
#[derive(Debug)]
pub struct NewTestament {
    pub books: Vec<Book>,
    pub last_modified: String,
    pub lds_slug: String,
    pub title: String,
    pub title_page: NewTestamentTitlePage,
    pub version: u8,
}

/// The Old Testament collection.
#[derive(Debug)]
pub struct OldTestament {
    pub books: Vec<Book>,
    pub last_modified: String,
    pub lds_slug: String,
    pub the_end: String,
    pub title: String,
    pub version: u8,
}

/// The Doctrine and Covenants collection.
#[derive(Debug)]
pub struct DoctrineAndCovenants {
    pub last_modified: String,
    pub lds_slug: String,
    pub sections: Vec<Section>,
    pub subsubtitle: String,
    pub subtitle: String,
    pub title: String,
    pub version: u8,
}

/// The Pearl of Great Price collection.
#[derive(Debug)]
pub struct PearlOfGreatPrice {
    pub books: Vec<Book>,
    pub last_modified: String,
    pub lds_slug: String,
    pub subtitle: String,
    pub title: String,
    pub version: u8,
}

/// A tagged verse location: one variant per collection, carrying
/// zero-based indices into that collection's arrays.
#[derive(Debug, Clone, Copy, PartialEq, Eq, Hash, Structural)]
pub enum VersePath {
    PathBoM(u8, u8, u16),
    PathOT(u8, u8, u16),
    PathNT(u8, u8, u16),
    PathPOGP(u8, u8, u16),
    PathDC(u8, u16),
}

/// A borrowed view of any of the four book-based collections.
#[derive(Clone, Copy)]
pub enum HasBooks<'a> {
    OT(&'a OldTestament),
    NT(&'a NewTestament),
    BOM(&'a BookOfMormon),
    POGP(&'a PearlOfGreatPrice),
}

impl<'a> HasBooks<'a> {
    /// The books of the borrowed collection.
    pub open spec fn spec_books(self) -> Seq<Book> {
        match self {
            HasBooks::OT(x) => x.books@,
            HasBooks::NT(x) => x.books@,
            HasBooks::BOM(x) => x.books@,
            HasBooks::POGP(x) => x.books@,
        }
    }
}

/// A chapter is well formed at position `ci` when its number is `ci + 1`
/// and its verses are numbered one-based in array order, each with a text
/// the machine can index.
pub open spec fn wf_chapter(c: Chapter, ci: int) -> bool {
    &&& c.chapter == ci + 1
    &&& forall|vi: int|
        0 <= vi < c.verses@.len() ==> ((#[trigger] c.verses@[vi]).verse == vi + 1
            && c.verses@[vi].text@.len() <= usize::MAX)
}

/// A book is well formed when each chapter is, at its position.
pub open spec fn wf_book(b: Book) -> bool {
    forall|ci: int| 0 <= ci < b.chapters@.len() ==> wf_chapter(#[trigger] b.chapters@[ci], ci)
}

/// A book list is well formed when it fits the book coordinate width and
/// each book is well formed.
pub open spec fn wf_books(books: Seq<Book>) -> bool {
    &&& books.len() <= 256
    &&& forall|bi: int| 0 <= bi < books.len() ==> wf_book(#[trigger] books[bi])
}

/// A section list is well formed when sections are numbered one-based in
/// array order and their verses are too.
pub open spec fn wf_sections(sections: Seq<Section>) -> bool {
    forall|si: int|
        0 <= si < sections.len() ==> ((#[trigger] sections[si]).section == si + 1
            && (forall|vi: int|
            0 <= vi < sections[si].verses@.len() ==> ((#[trigger] sections[si].verses@[vi]).verse
                == vi + 1 && sections[si].verses@[vi].text@.len() <= usize::MAX)))
}

/// The verse coordinates of one chapter, as (book, chapter, verse) index
/// triples.
pub open spec fn verse_row(bi: int, ci: int, n: int) -> Seq<(u8, u8, u16)> {
    Seq::new(n as nat, |k: int| (bi as u8, ci as u8, k as u16))
}

/// The verse coordinate triples of the first `m` chapters of one book.
pub open spec fn book_triples(b: Book, bi: int, m: int) -> Seq<(u8, u8, u16)>
    decreases m,
{
    if m <= 0 {
        Seq::empty()
    } else {
        book_triples(b, bi, m - 1) + verse_row(bi, m - 1, b.chapters@[m - 1].verses@.len() as int)
    }
}

/// The verse coordinate triples of the first `n` books.
pub open spec fn books_triples(books: Seq<Book>, n: int) -> Seq<(u8, u8, u16)>
    decreases n,
{
    if n <= 0 {
        Seq::empty()
    } else {
        books_triples(books, n - 1) + book_triples(
            books[n - 1],
            n - 1,
            books[n - 1].chapters@.len() as int,
        )
    }
}

/// Every verse coordinate of a book list, in book, chapter, verse order.
pub open spec fn flat_book_paths(books: Seq<Book>) -> Seq<(u8, u8, u16)> {
    books_triples(books, books.len() as int)
}

/// The verse coordinates of one section, as (section, verse) pairs.
pub open spec fn section_row(si: int, n: int) -> Seq<(u8, u16)> {
    Seq::new(n as nat, |k: int| (si as u8, k as u16))
}

/// The verse coordinate pairs of the first `n` sections.
pub open spec fn sections_pairs(sections: Seq<Section>, n: int) -> Seq<(u8, u16)>
    decreases n,
{
    if n <= 0 {
        Seq::empty()
    } else {
        sections_pairs(sections, n - 1) + section_row(
            n - 1,
            sections[n - 1].verses@.len() as int,
        )
    }
}

/// Every verse coordinate of a section list, in section, verse order.
pub open spec fn flat_section_paths(sections: Seq<Section>) -> Seq<(u8, u16)> {
    sections_pairs(sections, sections.len() as int)
}

/// Walks one book-based collection and lists every verse coordinate as a
/// (book, chapter, verse) index triple, in canonical order.
pub fn prepare_book_paths<'a>(coll: HasBooks<'a>) -> (r: Vec<(u8, u8, u16)>)
    requires
        wf_books(coll.spec_books()),
    ensures
        r@ == flat_book_paths(coll.spec_books()),
{
    let books: &Vec<Book> = match &coll {
        HasBooks::OT(x) => &x.books,
        HasBooks::NT(x) => &x.books,
        HasBooks::BOM(x) => &x.books,
        HasBooks::POGP(x) => &x.books,
    };
    let mut r: Vec<(u8, u8, u16)> = Vec::new();
    let mut bi: usize = 0;
    while bi < books.len()
        invariant
            bi <= books@.len(),
            books@ == coll.spec_books(),
            r@ == books_triples(books@, bi as int),
        decreases books@.len() - bi,
    {
        let book = &books[bi];
        let mut ci: usize = 0;
        while ci < book.chapters.len()
            invariant
                ci <= book.chapters@.len(),
                bi < books@.len(),
                *book == books@[bi as int],
                books@ == coll.spec_books(),
                r@ == books_triples(books@, bi as int) + book_triples(*book, bi as int, ci as int),
            decreases book.chapters@.len() - ci,
        {
            let chapter = &book.chapters[ci];
            let mut vi: usize = 0;
            while vi < chapter.verses.len()
                invariant
                    vi <= chapter.verses@.len(),
                    ci < book.chapters@.len(),
                    bi < books@.len(),
                    *chapter == book.chapters@[ci as int],
                    *book == books@[bi as int],
                    books@ == coll.spec_books(),
                    r@ == books_triples(books@, bi as int) + book_triples(
                        *book,
                        bi as int,
                        ci as int,
                    ) + verse_row(bi as int, ci as int, vi as int),
                decreases chapter.verses@.len() - vi,
            {
                proof {
                    assert(wf_chapter(books@[bi as int].chapters@[ci as int], ci as int));
                    assert(books@[bi as int].chapters@[ci as int].verses@[vi as int].verse == vi
                        + 1);
                    assert(verse_row(bi as int, ci as int, vi as int).push(
                        (bi as u8, ci as u8, vi as u16),
                    ) =~= verse_row(bi as int, ci as int, vi + 1 as int));
                }
                r.push((bi as u8, ci as u8, vi as u16));
                vi = vi + 1;
            }
            proof {
                assert(r@ =~= books_triples(books@, bi as int) + book_triples(
                    *book,
                    bi as int,
                    ci + 1 as int,
                ));
            }
            ci = ci + 1;
        }
        proof {
            assert(book_triples(*book, bi as int, book.chapters@.len() as int) == book_triples(
                books@[bi as int],
                bi as int,
                books@[bi as int].chapters@.len() as int,
            ));
            assert(r@ =~= books_triples(books@, bi + 1 as int));
        }
        bi = bi + 1;
    }
    r
}

/// Walks the section-based collection and lists every verse coordinate as
/// a (section, verse) index pair, in canonical order.
pub fn prepare_section_paths(dc: &DoctrineAndCovenants) -> (r: Vec<(u8, u16)>)
    requires
        wf_sections(dc.sections@),
    ensures
        r@ == flat_section_paths(dc.sections@),
{
    let mut r: Vec<(u8, u16)> = Vec::new();
    let mut si: usize = 0;
    while si < dc.sections.len()
        invariant
            si <= dc.sections@.len(),
            r@ == sections_pairs(dc.sections@, si as int),
        decreases dc.sections@.len() - si,
    {
        let section = &dc.sections[si];
        let mut vi: usize = 0;
        while vi < section.verses.len()
            invariant
                vi <= section.verses@.len(),
                si < dc.sections@.len(),
                *section == dc.sections@[si as int],
                r@ == sections_pairs(dc.sections@, si as int) + section_row(si as int, vi as int),
            decreases section.verses@.len() - vi,
        {
            proof {
                assert(dc.sections@[si as int].section == si + 1);
                assert(dc.sections@[si as int].verses@[vi as int].verse == vi + 1);
                assert(section_row(si as int, vi as int).push((si as u8, vi as u16)) =~= section_row(
                    si as int,
                    vi + 1 as int,
                ));
            }
            r.push((si as u8, vi as u16));
            vi = vi + 1;
        }
        proof {
            assert(r@ =~= sections_pairs(dc.sections@, si + 1 as int));
        }
        si = si + 1;
    }
    r
}

} // verus!
