//! The index builder: one pass over the corpus that assigns each verse a
//! dense ScriptureId and fills the paths index (id to location) and the
//! words index (stem to per-verse occurrence spans).
use vstd::prelude::*;
use crate::corpus::{VersePath, Verse, Book, OldTestament, NewTestament, BookOfMormon,
    DoctrineAndCovenants, PearlOfGreatPrice, HasBooks, wf_books, wf_book, wf_chapter, wf_sections,
    flat_book_paths, flat_section_paths, books_triples, book_triples, verse_row, section_row,
    sections_pairs, prepare_book_paths, prepare_section_paths};
use crate::text::{word_spans, lower_of, stem_of, is_word_char, span_wf, lemma_scan_spans_wf,
    get_word_ranges, lowercase, stem_word};

verus! {

/// The id-to-location index.  ScriptureIds are dense and one-based: id
/// `i` names the verse at position `i - 1`.
#[derive(Debug, PartialEq, Eq)]
pub struct PathsIndex {
    pub paths: Vec<VersePath>,
}

impl PathsIndex {
    /// Whether an id is assigned.
    pub open spec fn contains_id(self, id: u16) -> bool {
        1 <= id <= self.paths@.len()
    }

    /// The location an assigned id names.
    pub open spec fn spec_path_of(self, id: u16) -> VersePath {
        self.paths@[id - 1]
    }

    /// How many verses the index covers.
    pub fn len(&self) -> (n: usize)
        ensures
            n == self.paths@.len(),
    {
        self.paths.len()
    }

    /// Looks an id up; None exactly when the id was never assigned.
    pub fn get(&self, id: u16) -> (r: Option<&VersePath>)
        ensures
            match r {
                Option::Some(p) => self.contains_id(id) && *p == self.spec_path_of(id),
                Option::None => !self.contains_id(id),
            },
    {
        if id >= 1 && (id as usize) <= self.paths.len() {
            Option::Some(&self.paths[(id - 1) as usize])
        } else {
            Option::None
        }
    }
}

/// The reverse location-to-id index, derived from a PathsIndex and used
/// only to obtain a stable sort key; pairs stand in id order.
#[derive(Debug, PartialEq, Eq)]
pub struct VersePathsIndex {
    pub pairs: Vec<(VersePath, u16)>,
}

impl VersePathsIndex {
    /// Looks a location up; the id of the first pair that carries it.
    pub fn get_id(&self, p: &VersePath) -> (r: Option<u16>)
        ensures
            match r {
                Option::Some(id) => exists|k: int|
                    0 <= k < self.pairs@.len() && self.pairs@[k] == (*p, id),
                Option::None => forall|k: int|
                    0 <= k < self.pairs@.len() ==> (#[trigger] self.pairs@[k]).0 != *p,
            },
    {
        let mut k: usize = 0;
        while k < self.pairs.len()
            invariant
                k <= self.pairs@.len(),
                forall|j: int| 0 <= j < k ==> (#[trigger] self.pairs@[j]).0 != *p,
            decreases self.pairs@.len() - k,
        {
            if self.pairs[k].0 == *p {
                return Option::Some(self.pairs[k].1);
            }
            k = k + 1;
        }
        Option::None
    }
}

/// Derives the reverse index: pair `k` carries the location of id
/// `k + 1`, so canonical corpus order is pair order.
pub fn paths_to_verse_paths_index(paths: &PathsIndex) -> (r: VersePathsIndex)
    requires
        paths.paths@.len() <= 0xFFFF,
    ensures
        r.pairs@.len() == paths.paths@.len(),
        forall|k: int|
            0 <= k < r.pairs@.len() ==> #[trigger] r.pairs@[k] == (
            paths.paths@[k],
            (k + 1) as u16,
            ),
{
    let mut pairs: Vec<(VersePath, u16)> = Vec::new();
    let mut k: usize = 0;
    while k < paths.paths.len()
        invariant
            k <= paths.paths@.len(),
            pairs@.len() == k,
            forall|j: int|
                0 <= j < k ==> #[trigger] pairs@[j] == (paths.paths@[j], (j + 1) as u16),
        decreases paths.paths@.len() - k,
    {
        pairs.push((paths.paths[k], (k + 1) as u16));
        k = k + 1;
    }
    VersePathsIndex { pairs }
}

/// One verse's occurrence list under one stem: the verse's id and the
/// (start, length) spans of each occurrence, in text order.
#[derive(Debug, PartialEq, Eq)]
pub struct Posting {
    pub id: u16,
    pub spans: Vec<(usize, usize)>,
}

/// One stem's bucket: every verse the stem occurs in, with its spans.
#[derive(Debug, PartialEq, Eq)]
pub struct WordEntry {
    pub stem: String,
    pub postings: Vec<Posting>,
}

/// The stem-to-occurrences index, in first-occurrence stem order.
#[derive(Debug, PartialEq, Eq)]
pub struct WordsIndex {
    pub words: Vec<WordEntry>,
}

/// The mathematical content of a words index: stem, then per-verse id
/// and spans.
pub type WordsIndexView = Seq<(Seq<char>, Seq<(u16, Seq<(usize, usize)>)>)>;

/// The content of one bucket.
pub open spec fn entry_view(e: WordEntry) -> (Seq<char>, Seq<(u16, Seq<(usize, usize)>)>) {
    (e.stem@, e.postings@.map_values(|p: Posting| (p.id, p.spans@)))
}

/// The content of a words index.
pub open spec fn words_view(w: WordsIndex) -> WordsIndexView {
    w.words@.map_values(|e: WordEntry| entry_view(e))
}

/// The position of a stem in the index, scanning from `j`; negative when
/// absent.
pub open spec fn find_stem_from(w: WordsIndexView, stem: Seq<char>, j: int) -> int
    decreases w.len() - j,
{
    if j < 0 || j >= w.len() {
        -1
    } else if w[j].0 == stem {
        j
    } else {
        find_stem_from(w, stem, j + 1)
    }
}

/// The position of a stem in the index; negative when absent.
pub open spec fn find_stem(w: WordsIndexView, stem: Seq<char>) -> int {
    find_stem_from(w, stem, 0)
}

/// One occurrence recorded: a new bucket for a new stem; a new posting
/// for a known stem in a new verse; one more span when the verse already
/// stands last in the bucket (ids only grow during a build).
pub open spec fn add_word(
    w: WordsIndexView,
    stem: Seq<char>,
    id: u16,
    span: (usize, usize),
) -> WordsIndexView {
    let j = find_stem(w, stem);
    if j < 0 {
        w.push((stem, seq![(id, seq![span])]))
    } else {
        let e = w[j];
        let posts = e.1;
        let updated = if posts.len() > 0 && posts.last().0 == id {
            posts.drop_last().push((id, posts.last().1.push(span)))
        } else {
            posts.push((id, seq![span]))
        };
        w.update(j, (e.0, updated))
    }
}

/// A words index after every word of one verse text is recorded, the
/// first `k` word spans in.
pub open spec fn verse_words_upto(
    w: WordsIndexView,
    text: Seq<char>,
    id: u16,
    k: int,
) -> WordsIndexView
    decreases k,
{
    if k <= 0 {
        w
    } else {
        let sp = word_spans(text)[k - 1];
        add_word(
            verse_words_upto(w, text, id, k - 1),
            stem_of(lower_of(text.subrange(sp.0 as int, sp.1 as int))),
            id,
            (sp.0, (sp.1 - sp.0) as usize),
        )
    }
}

/// A words index after every word of one verse text is recorded.
pub open spec fn verse_words(w: WordsIndexView, text: Seq<char>, id: u16) -> WordsIndexView {
    verse_words_upto(w, text, id, word_spans(text).len() as int)
}

impl WordsIndex {
    /// The position of a stem's bucket, if the stem is indexed.
    pub fn find(&self, stem: &String) -> (r: Option<usize>)
        ensures
            match r {
                Option::Some(j) => find_stem(words_view(*self), stem@) == j && j < self.words@.len(),
                Option::None => find_stem(words_view(*self), stem@) < 0,
            },
    {
        let ghost v = words_view(*self);
        let mut j: usize = 0;
        while j < self.words.len()
            invariant
                j <= self.words@.len(),
                v == words_view(*self),
                v.len() == self.words@.len(),
                find_stem(v, stem@) == find_stem_from(v, stem@, j as int),
                forall|i: int| 0 <= i < v.len() ==> (#[trigger] v[i]).0 == self.words@[i].stem@,
            decreases self.words@.len() - j,
        {
            if self.words[j].stem.eq(stem) {
                return Option::Some(j);
            }
            j = j + 1;
        }
        Option::None
    }

    /// Records one occurrence of a stem in a verse.
    fn add(&mut self, stem: String, id: u16, span: (usize, usize))
        ensures
            words_view(*final(self)) == add_word(words_view(*old(self)), stem@, id, span),
    {
        let ghost v0 = words_view(*old(self));
        let ghost stv = stem@;
        let found = self.find(&stem);
        match found {
            Option::None => {
                let ghost prev = self.words@;
                let mut spans: Vec<(usize, usize)> = Vec::new();
                spans.push(span);
                let mut postings: Vec<Posting> = Vec::new();
                postings.push(Posting { id, spans });
                self.words.push(WordEntry { stem, postings });
                proof {
                    assert forall|k: int| 0 <= k < words_view(*self).len() implies words_view(
                        *self,
                    )[k] == v0.push((stv, seq![(id, seq![span])]))[k] by {
                        if k < prev.len() {
                            assert(self.words@[k] == prev[k]);
                        } else {
                            assert(entry_view(self.words@[k]).1 =~~= seq![(id, seq![span])]);
                        }
                    }
                    assert(words_view(*self) =~~= v0.push((stv, seq![(id, seq![span])])));
                }
            },
            Option::Some(j) => {
                let ghost prev = self.words@;
                let mut entry = self.words.remove(j);
                let ghost old_posts = entry.postings@;
                let n = entry.postings.len();
                if n > 0 && entry.postings[n - 1].id == id {
                    let mut last = match entry.postings.pop() {
                        Option::Some(p) => p,
                        Option::None => unreached(),
                    };
                    last.spans.push(span);
                    entry.postings.push(last);
                } else {
                    let mut spans: Vec<(usize, usize)> = Vec::new();
                    spans.push(span);
                    entry.postings.push(Posting { id, spans });
                }
                let ghost new_entry = entry;
                self.words.insert(j, entry);
                proof {
                    let e = v0[j as int];
                    let posts = e.1;
                    let updated = if posts.len() > 0 && posts.last().0 == id {
                        posts.drop_last().push((id, posts.last().1.push(span)))
                    } else {
                        posts.push((id, seq![span]))
                    };
                    assert(entry_view(prev[j as int]) == e);
                    assert(posts.len() == old_posts.len());
                    if posts.len() > 0 {
                        assert(posts.last() == (old_posts.last().id, old_posts.last().spans@));
                    }
                    assert(entry_view(new_entry).1 =~~= updated);
                    assert forall|k: int| 0 <= k < words_view(*self).len() implies words_view(
                        *self,
                    )[k] == v0.update(j as int, (e.0, updated))[k] by {
                        if k < j as int {
                            assert(self.words@[k] == prev[k]);
                        } else if k == j as int {
                            assert(self.words@[k] == new_entry);
                        } else {
                            assert(self.words@[k] == prev[k]);
                        }
                    }
                    assert(words_view(*self) =~~= v0.update(j as int, (e.0, updated)));
                }
            },
        }
    }
}

/// Records every word of one verse text under the verse's id.
fn index_verse(words: &mut WordsIndex, text: &String, id: u16)
    ensures
        words_view(*final(words)) == verse_words(words_view(*old(words)), text@, id),
{
    let ghost v0 = words_view(*old(words));
    let ranges = get_word_ranges(text);
    let s = text.as_str();
    // The span lemma needs the text length to fit a machine word.
    let _n: usize = s.unicode_len();
    proof {
        lemma_scan_spans_wf(text@, 0, Option::None, |c: char| is_word_char(c));
    }
    let mut k: usize = 0;
    while k < ranges.len()
        invariant
            k <= ranges@.len(),
            ranges@ == word_spans(text@),
            words_view(*words) == verse_words_upto(v0, text@, id, k as int),
            forall|m: int|
                0 <= m < ranges@.len() ==> span_wf(#[trigger] ranges@[m], 0, text@.len() as int),
        decreases ranges@.len() - k,
    {
        let (f, t) = ranges[k];
        let slice = s.substring_char(f, t);
        let lower = lowercase(slice);
        let stemmed = stem_word(lower.as_str());
        words.add(stemmed, id, (f, t - f));
        k = k + 1;
    }
}


/// A book-based collection's verses in canonical order, each with the
/// location that names it.
pub open spec fn coll_path(coll: HasBooks, t: (u8, u8, u16)) -> VersePath {
    match coll {
        HasBooks::OT(_) => VersePath::PathOT(t.0, t.1, t.2),
        HasBooks::NT(_) => VersePath::PathNT(t.0, t.1, t.2),
        HasBooks::BOM(_) => VersePath::PathBoM(t.0, t.1, t.2),
        HasBooks::POGP(_) => VersePath::PathPOGP(t.0, t.1, t.2),
    }
}

/// The (location, verse) pairs of one book-based collection, in
/// canonical order.
pub open spec fn coll_pairs(coll: HasBooks) -> Seq<(VersePath, Verse)> {
    flat_book_paths(coll.spec_books()).map_values(
        |t: (u8, u8, u16)|
            (
                coll_path(coll, t),
                coll.spec_books()[t.0 as int].chapters@[t.1 as int].verses@[t.2 as int],
            ),
    )
}

/// The (location, verse) pairs of the section-based collection, in
/// canonical order.
pub open spec fn dc_pairs(dc: &DoctrineAndCovenants) -> Seq<(VersePath, Verse)> {
    flat_section_paths(dc.sections@).map_values(
        |t: (u8, u16)| (VersePath::PathDC(t.0, t.1), dc.sections@[t.0 as int].verses@[t.1 as int]),
    )
}

/// Every verse of the corpus in canonical order: the five collections in
/// their fixed order, each walked book, chapter, verse.  The verse at
/// position `k` gets ScriptureId `k + 1`.
pub open spec fn corpus_pairs(
    ot: &OldTestament,
    nt: &NewTestament,
    bom: &BookOfMormon,
    dc: &DoctrineAndCovenants,
    pogp: &PearlOfGreatPrice,
) -> Seq<(VersePath, Verse)> {
    coll_pairs(HasBooks::OT(ot)) + coll_pairs(HasBooks::NT(nt)) + coll_pairs(HasBooks::BOM(bom))
        + dc_pairs(dc) + coll_pairs(HasBooks::POGP(pogp))
}

/// The whole corpus is well formed: every collection's numbering matches
/// its array positions.
pub open spec fn corpus_wf(
    ot: &OldTestament,
    nt: &NewTestament,
    bom: &BookOfMormon,
    dc: &DoctrineAndCovenants,
    pogp: &PearlOfGreatPrice,
) -> bool {
    &&& wf_books(ot.books@)
    &&& wf_books(nt.books@)
    &&& wf_books(bom.books@)
    &&& wf_sections(dc.sections@)
    &&& wf_books(pogp.books@)
}

/// The words index after the first `n` verses of `pairs` are recorded,
/// verse `k` under ScriptureId `base + k + 1`.
pub open spec fn words_fold(
    w0: WordsIndexView,
    pairs: Seq<(VersePath, Verse)>,
    base: int,
    n: int,
) -> WordsIndexView
    decreases n,
{
    if n <= 0 {
        w0
    } else {
        verse_words(words_fold(w0, pairs, base, n - 1), pairs[n - 1].1.text@, (base + n) as u16)
    }
}

/// The locations of a pair list, in order.
pub open spec fn pair_paths(pairs: Seq<(VersePath, Verse)>) -> Seq<VersePath> {
    pairs.map_values(|p: (VersePath, Verse)| p.0)
}

/// What one build of the index returns: the words index folded over
/// every verse, and the location of each id in order.
pub open spec fn spec_build_index(
    ot: &OldTestament,
    nt: &NewTestament,
    bom: &BookOfMormon,
    dc: &DoctrineAndCovenants,
    pogp: &PearlOfGreatPrice,
) -> (WordsIndexView, Seq<VersePath>) {
    let pairs = corpus_pairs(ot, nt, bom, dc, pogp);
    (words_fold(Seq::empty(), pairs, 0, pairs.len() as int), pair_paths(pairs))
}

/// Folding verses of a concatenation is folding each part in turn.
proof fn lemma_words_fold_concat(
    w0: WordsIndexView,
    a: Seq<(VersePath, Verse)>,
    b: Seq<(VersePath, Verse)>,
    base: int,
)
    ensures
        words_fold(w0, a + b, base, (a + b).len() as int) == words_fold(
            words_fold(w0, a, base, a.len() as int),
            b,
            base + a.len(),
            b.len() as int,
        ),
    decreases b.len(),
{
    if b.len() == 0 {
        assert(a + b =~= a);
        lemma_words_fold_prefix(w0, a + b, a, base, a.len() as int);
    } else {
        lemma_words_fold_concat(w0, a, b.drop_last(), base);
        assert(a + b.drop_last() =~= (a + b).take((a + b).len() - 1));
        lemma_words_fold_prefix(w0, a + b, a + b.drop_last(), base, (a + b).len() - 1);
        let inner = words_fold(w0, a, base, a.len() as int);
        lemma_words_fold_prefix(inner, b, b.drop_last(), base + a.len(), b.len() - 1);
        assert((a + b)[(a + b).len() - 1] == b.last());
        assert((a + b.drop_last()).len() == (a + b).len() - 1);
    }
}

/// Folding the first `n` verses reads only the first `n` pairs.
proof fn lemma_words_fold_prefix(
    w0: WordsIndexView,
    pairs: Seq<(VersePath, Verse)>,
    prefix: Seq<(VersePath, Verse)>,
    base: int,
    n: int,
)
    requires
        0 <= n <= pairs.len(),
        n <= prefix.len(),
        forall|k: int| 0 <= k < n ==> pairs[k] == prefix[k],
    ensures
        words_fold(w0, pairs, base, n) == words_fold(w0, prefix, base, n),
    decreases n,
{
    if n > 0 {
        lemma_words_fold_prefix(w0, pairs, prefix, base, n - 1);
    }
}

/// A well-formed book fits its coordinate widths: at most 255 chapters,
/// each with at most 65535 verses.
proof fn lemma_wf_book_bounds(b: Book)
    requires
        wf_book(b),
    ensures
        b.chapters@.len() <= 255,
        forall|ci: int|
            0 <= ci < b.chapters@.len() ==> (#[trigger] b.chapters@[ci]).verses@.len() <= 65535,
{
    if b.chapters@.len() > 255 {
        assert(wf_chapter(b.chapters@[255], 255));
        assert(false);
    }
    assert forall|ci: int|
        0 <= ci < b.chapters@.len() implies (#[trigger] b.chapters@[ci]).verses@.len()
        <= 65535 by {
        assert(wf_chapter(b.chapters@[ci], ci));
        if b.chapters@[ci].verses@.len() > 65535 {
            assert(b.chapters@[ci].verses@[65535].verse == 65536);
        }
    }
}

/// A coordinate triple that indexes the book list validly.
pub open spec fn valid_coord(books: Seq<Book>, t: (u8, u8, u16)) -> bool {
    &&& (t.0 as int) < books.len()
    &&& (t.1 as int) < books[t.0 as int].chapters@.len()
    &&& (t.2 as int) < books[t.0 as int].chapters@[t.1 as int].verses@.len()
}

/// Every triple of one book's walk indexes that book validly.
proof fn lemma_book_triples_wf(b: Book, bi: int, m: int)
    requires
        wf_book(b),
        0 <= bi <= 255,
        0 <= m <= b.chapters@.len(),
    ensures
        forall|k: int|
            0 <= k < book_triples(b, bi, m).len() ==> {
                let t = #[trigger] book_triples(b, bi, m)[k];
                &&& t.0 == bi as u8
                &&& (t.1 as int) < m
                &&& (t.2 as int) < b.chapters@[t.1 as int].verses@.len()
            },
    decreases m,
{
    lemma_wf_book_bounds(b);
    if m > 0 {
        lemma_book_triples_wf(b, bi, m - 1);
        let head = book_triples(b, bi, m - 1);
        let row = verse_row(bi, m - 1, b.chapters@[m - 1].verses@.len() as int);
        assert forall|k: int|
            0 <= k < book_triples(b, bi, m).len() implies {
            let t = #[trigger] book_triples(b, bi, m)[k];
            &&& t.0 == bi as u8
            &&& (t.1 as int) < m
            &&& (t.2 as int) < b.chapters@[t.1 as int].verses@.len()
        } by {
            if k < head.len() {
                assert(book_triples(b, bi, m)[k] == head[k]);
            } else {
                assert(book_triples(b, bi, m)[k] == row[k - head.len()]);
            }
        }
    }
}

/// Every triple of a book list's walk indexes the list validly and names
/// a book before `n`.
proof fn lemma_books_triples_wf(books: Seq<Book>, n: int)
    requires
        wf_books(books),
        0 <= n <= books.len(),
    ensures
        forall|k: int|
            0 <= k < books_triples(books, n).len() ==> valid_coord(
                books,
                #[trigger] books_triples(books, n)[k],
            ) && (books_triples(books, n)[k].0 as int) < n,
    decreases n,
{
    if n > 0 {
        lemma_books_triples_wf(books, n - 1);
        let head = books_triples(books, n - 1);
        let tail = book_triples(books[n - 1], n - 1, books[n - 1].chapters@.len() as int);
        lemma_book_triples_wf(books[n - 1], n - 1, books[n - 1].chapters@.len() as int);
        assert forall|k: int|
            0 <= k < books_triples(books, n).len() implies valid_coord(
            books,
            #[trigger] books_triples(books, n)[k],
        ) && (books_triples(books, n)[k].0 as int) < n by {
            if k < head.len() {
                assert(books_triples(books, n)[k] == head[k]);
            } else {
                assert(books_triples(books, n)[k] == tail[k - head.len()]);
            }
        }
    }
}

/// A well-formed section list fits its coordinate widths.
proof fn lemma_wf_sections_bounds(sections: Seq<crate::corpus::Section>)
    requires
        wf_sections(sections),
    ensures
        sections.len() <= 255,
        forall|si: int|
            0 <= si < sections.len() ==> (#[trigger] sections[si]).verses@.len() <= 65535,
{
    if sections.len() > 255 {
        assert(sections[255].section == 256);
        assert(false);
    }
    assert forall|si: int|
        0 <= si < sections.len() implies (#[trigger] sections[si]).verses@.len() <= 65535 by {
        if sections[si].verses@.len() > 65535 {
            assert(sections[si].verses@[65535].verse == 65536);
        }
    }
}

/// Every pair of a section walk indexes the section list validly.
proof fn lemma_sections_pairs_wf(sections: Seq<crate::corpus::Section>, n: int)
    requires
        wf_sections(sections),
        0 <= n <= sections.len(),
    ensures
        forall|k: int|
            0 <= k < sections_pairs(sections, n).len() ==> {
                let t = #[trigger] sections_pairs(sections, n)[k];
                &&& (t.0 as int) < n
                &&& (t.1 as int) < sections[t.0 as int].verses@.len()
            },
    decreases n,
{
    lemma_wf_sections_bounds(sections);
    if n > 0 {
        lemma_sections_pairs_wf(sections, n - 1);
        let head = sections_pairs(sections, n - 1);
        let row = section_row(n - 1, sections[n - 1].verses@.len() as int);
        assert forall|k: int|
            0 <= k < sections_pairs(sections, n).len() implies {
            let t = #[trigger] sections_pairs(sections, n)[k];
            &&& (t.0 as int) < n
            &&& (t.1 as int) < sections[t.0 as int].verses@.len()
        } by {
            if k < head.len() {
                assert(sections_pairs(sections, n)[k] == head[k]);
            } else {
                assert(sections_pairs(sections, n)[k] == row[k - head.len()]);
            }
        }
    }
}

/// Builds the location for one coordinate triple of a collection.
fn make_coll_path(coll: HasBooks, t: (u8, u8, u16)) -> (r: VersePath)
    ensures
        r == coll_path(coll, t),
{
    match coll {
        HasBooks::OT(_) => VersePath::PathOT(t.0, t.1, t.2),
        HasBooks::NT(_) => VersePath::PathNT(t.0, t.1, t.2),
        HasBooks::BOM(_) => VersePath::PathBoM(t.0, t.1, t.2),
        HasBooks::POGP(_) => VersePath::PathPOGP(t.0, t.1, t.2),
    }
}

/// Walks one book-based collection, assigning the next ids in order and
/// recording every verse in both indices.
fn index_collection(words: &mut WordsIndex, paths: &mut PathsIndex, coll: HasBooks<'_>)
    requires
        wf_books(coll.spec_books()),
        old(paths).paths@.len() + coll_pairs(coll).len() <= 0xFFFF,
    ensures
        final(paths).paths@ == old(paths).paths@ + pair_paths(coll_pairs(coll)),
        words_view(*final(words)) == words_fold(
            words_view(*old(words)),
            coll_pairs(coll),
            old(paths).paths@.len() as int,
            coll_pairs(coll).len() as int,
        ),
{
    let ghost w0 = words_view(*old(words));
    let ghost p0 = paths.paths@;
    let ghost base = paths.paths@.len() as int;
    let ghost pairs = coll_pairs(coll);
    let ghost pp = pair_paths(pairs);
    let triples = prepare_book_paths(coll);
    proof {
        lemma_books_triples_wf(coll.spec_books(), coll.spec_books().len() as int);
    }
    let books: &Vec<Book> = match &coll {
        HasBooks::OT(x) => &x.books,
        HasBooks::NT(x) => &x.books,
        HasBooks::BOM(x) => &x.books,
        HasBooks::POGP(x) => &x.books,
    };
    let mut k: usize = 0;
    proof {
        assert(p0 + pp.take(0int) =~= p0);
    }
    while k < triples.len()
        invariant
            k <= triples@.len(),
            triples@ == flat_book_paths(coll.spec_books()),
            triples@.len() == pairs.len(),
            books@ == coll.spec_books(),
            pairs == coll_pairs(coll),
            pp == pair_paths(pairs),
            base + pairs.len() <= 0xFFFF,
            paths.paths@ == p0 + pp.take(k as int),
            paths.paths@.len() == base + k,
            words_view(*words) == words_fold(w0, pairs, base, k as int),
            forall|m: int|
                0 <= m < triples@.len() ==> valid_coord(books@, #[trigger] triples@[m]),
        decreases triples@.len() - k,
    {
        let t = triples[k];
        proof {
            assert(valid_coord(books@, triples@[k as int]));
        }
        let verse = &books[t.0 as usize].chapters[t.1 as usize].verses[t.2 as usize];
        let id: u16 = (paths.len() + 1) as u16;
        let ghost prev_paths = paths.paths@;
        paths.paths.push(make_coll_path(coll, t));
        index_verse(words, &verse.text, id);
        proof {
            assert(pairs[k as int] == (
                coll_path(coll, t),
                books@[t.0 as int].chapters@[t.1 as int].verses@[t.2 as int],
            ));
            assert(pp[k as int] == coll_path(coll, t));
            assert(p0 + pp.take(k + 1int) =~= prev_paths.push(pp[k as int]));
            assert(words_view(*words) == words_fold(w0, pairs, base, k + 1int));
        }
        k = k + 1;
    }
    proof {
        assert(pp.take(pairs.len() as int) =~= pp);
    }
}

/// Walks the section-based collection, assigning the next ids in order
/// and recording every verse in both indices.
fn index_sections(words: &mut WordsIndex, paths: &mut PathsIndex, dc: &DoctrineAndCovenants)
    requires
        wf_sections(dc.sections@),
        old(paths).paths@.len() + dc_pairs(dc).len() <= 0xFFFF,
    ensures
        final(paths).paths@ == old(paths).paths@ + pair_paths(dc_pairs(dc)),
        words_view(*final(words)) == words_fold(
            words_view(*old(words)),
            dc_pairs(dc),
            old(paths).paths@.len() as int,
            dc_pairs(dc).len() as int,
        ),
{
    let ghost w0 = words_view(*old(words));
    let ghost p0 = paths.paths@;
    let ghost base = paths.paths@.len() as int;
    let ghost pairs = dc_pairs(dc);
    let ghost pp = pair_paths(pairs);
    let triples = prepare_section_paths(dc);
    proof {
        lemma_sections_pairs_wf(dc.sections@, dc.sections@.len() as int);
    }
    let mut k: usize = 0;
    proof {
        assert(p0 + pp.take(0int) =~= p0);
    }
    while k < triples.len()
        invariant
            k <= triples@.len(),
            triples@ == flat_section_paths(dc.sections@),
            triples@.len() == pairs.len(),
            pairs == dc_pairs(dc),
            pp == pair_paths(pairs),
            base + pairs.len() <= 0xFFFF,
            paths.paths@ == p0 + pp.take(k as int),
            paths.paths@.len() == base + k,
            words_view(*words) == words_fold(w0, pairs, base, k as int),
            forall|m: int|
                0 <= m < triples@.len() ==> {
                    let t = #[trigger] triples@[m];
                    (t.0 as int) < dc.sections@.len() && (t.1 as int)
                        < dc.sections@[t.0 as int].verses@.len()
                },
        decreases triples@.len() - k,
    {
        let t = triples[k];
        let verse = &dc.sections[t.0 as usize].verses[t.1 as usize];
        let id: u16 = (paths.len() + 1) as u16;
        let ghost prev_paths = paths.paths@;
        paths.paths.push(VersePath::PathDC(t.0, t.1));
        index_verse(words, &verse.text, id);
        proof {
            assert(pairs[k as int] == (
                VersePath::PathDC(t.0, t.1),
                dc.sections@[t.0 as int].verses@[t.1 as int],
            ));
            assert(pp[k as int] == VersePath::PathDC(t.0, t.1));
            assert(p0 + pp.take(k + 1int) =~= prev_paths.push(pp[k as int]));
            assert(words_view(*words) == words_fold(w0, pairs, base, k + 1int));
        }
        k = k + 1;
    }
    proof {
        assert(pp.take(pairs.len() as int) =~= pp);
    }
}

/// Builds both indices in one pass over the corpus: collections in their
/// fixed order, each verse given the next ScriptureId starting at 1.
/// Building twice from the same corpus gives the same indices: the
/// result is a function of the corpus alone.
pub fn build_index(
    ot: &OldTestament,
    nt: &NewTestament,
    bom: &BookOfMormon,
    dc: &DoctrineAndCovenants,
    pogp: &PearlOfGreatPrice,
) -> (r: (WordsIndex, PathsIndex))
    requires
        corpus_wf(ot, nt, bom, dc, pogp),
        corpus_pairs(ot, nt, bom, dc, pogp).len() <= 0xFFFF,
    ensures
        words_view(r.0) == spec_build_index(ot, nt, bom, dc, pogp).0,
        r.1.paths@ == spec_build_index(ot, nt, bom, dc, pogp).1,
{
    let ghost all = corpus_pairs(ot, nt, bom, dc, pogp);
    let ghost a1 = coll_pairs(HasBooks::OT(ot));
    let ghost a2 = coll_pairs(HasBooks::NT(nt));
    let ghost a3 = coll_pairs(HasBooks::BOM(bom));
    let ghost a4 = dc_pairs(dc);
    let ghost a5 = coll_pairs(HasBooks::POGP(pogp));
    let mut words = WordsIndex { words: Vec::new() };
    let mut paths = PathsIndex { paths: Vec::new() };
    proof {
        assert(words_view(words) =~~= Seq::<(Seq<char>, Seq<(u16, Seq<(usize, usize)>)>)>::empty());
    }
    index_collection(&mut words, &mut paths, HasBooks::OT(ot));
    index_collection(&mut words, &mut paths, HasBooks::NT(nt));
    index_collection(&mut words, &mut paths, HasBooks::BOM(bom));
    index_sections(&mut words, &mut paths, dc);
    index_collection(&mut words, &mut paths, HasBooks::POGP(pogp));
    proof {
        let w0 = Seq::<(Seq<char>, Seq<(u16, Seq<(usize, usize)>)>)>::empty();
        lemma_words_fold_concat(w0, a1, a2, 0);
        lemma_words_fold_concat(w0, a1 + a2, a3, 0);
        lemma_words_fold_concat(w0, a1 + a2 + a3, a4, 0);
        lemma_words_fold_concat(w0, a1 + a2 + a3 + a4, a5, 0);
        assert(paths.paths@ =~= pair_paths(all)) by {
            assert forall|k: int| 0 <= k < all.len() implies pair_paths(all)[k] == all[k].0 by {}
            assert(Seq::<VersePath>::empty() + pair_paths(a1) + pair_paths(a2) + pair_paths(a3)
                + pair_paths(a4) + pair_paths(a5) =~= pair_paths(all));
        }
    }
    (words, paths)
}


/// Every posting of the words index names an assigned id (one-based, at
/// most `hi`) and every recorded span lies inside that verse's text.
pub open spec fn postings_ok(w: WordsIndexView, pairs: Seq<(VersePath, Verse)>, hi: int) -> bool {
    forall|j: int, k: int|
        0 <= j < w.len() && 0 <= k < w[j].1.len() ==> {
            let post = #[trigger] w[j].1[k];
            &&& 1 <= post.0 <= hi
            &&& forall|m: int|
                0 <= m < post.1.len() ==> (#[trigger] post.1[m]).0 + post.1[m].1 <= pairs[post.0
                    - 1].1.text@.len()
        }
}

/// A stem search lands in range, on the stem, or reports absence.
proof fn lemma_find_stem_from_range(w: WordsIndexView, stem: Seq<char>, j: int)
    requires
        0 <= j,
    ensures
        find_stem_from(w, stem, j) == -1 || (j <= find_stem_from(w, stem, j) < w.len() && w[
            find_stem_from(w, stem, j)].0 == stem),
    decreases w.len() - j,
{
    if j < w.len() && w[j].0 != stem {
        lemma_find_stem_from_range(w, stem, j + 1);
    }
}

/// Recording one occurrence keeps every posting well placed, given the
/// new id is assigned and the new span lies inside its verse's text.
proof fn lemma_add_word_ok(
    w: WordsIndexView,
    pairs: Seq<(VersePath, Verse)>,
    hi: int,
    stem: Seq<char>,
    id: u16,
    span: (usize, usize),
)
    requires
        postings_ok(w, pairs, hi),
        1 <= id <= hi,
        span.0 + span.1 <= pairs[id - 1].1.text@.len(),
    ensures
        postings_ok(add_word(w, stem, id, span), pairs, hi),
{
    lemma_find_stem_from_range(w, stem, 0);
    let j = find_stem(w, stem);
    let w2 = add_word(w, stem, id, span);
    if j < 0 {
        assert forall|jj: int, kk: int|
            0 <= jj < w2.len() && 0 <= kk < w2[jj].1.len() implies {
            let post = #[trigger] w2[jj].1[kk];
            &&& 1 <= post.0 <= hi
            &&& forall|m: int|
                0 <= m < post.1.len() ==> (#[trigger] post.1[m]).0 + post.1[m].1 <= pairs[post.0
                    - 1].1.text@.len()
        } by {
            if jj < w.len() {
                assert(w2[jj] == w[jj]);
                assert(w[jj].1[kk] == w2[jj].1[kk]);
            } else {
                assert(w2[jj].1 == seq![(id, seq![span])]);
                assert(w2[jj].1[kk] == (id, seq![span]));
            }
        }
    } else {
        let e = w[j];
        let posts = e.1;
        let updated = if posts.len() > 0 && posts.last().0 == id {
            posts.drop_last().push((id, posts.last().1.push(span)))
        } else {
            posts.push((id, seq![span]))
        };
        assert forall|jj: int, kk: int|
            0 <= jj < w2.len() && 0 <= kk < w2[jj].1.len() implies {
            let post = #[trigger] w2[jj].1[kk];
            &&& 1 <= post.0 <= hi
            &&& forall|m: int|
                0 <= m < post.1.len() ==> (#[trigger] post.1[m]).0 + post.1[m].1 <= pairs[post.0
                    - 1].1.text@.len()
        } by {
            if jj != j {
                assert(w2[jj] == w[jj]);
                assert(w[jj].1[kk] == w2[jj].1[kk]);
            } else {
                assert(w2[j] == (e.0, updated));
                if posts.len() > 0 && posts.last().0 == id {
                    let grown = (id, posts.last().1.push(span));
                    if kk < posts.len() - 1 {
                        assert(updated[kk] == posts[kk]);
                        assert(w[j].1[kk] == posts[kk]);
                    } else {
                        assert(updated[kk] == grown);
                        assert(w[j].1[posts.len() - 1] == posts.last());
                        let old_spans = posts.last().1;
                        assert forall|m: int|
                            0 <= m < grown.1.len() implies (#[trigger] grown.1[m]).0 + grown.1[m].1
                            <= pairs[id - 1].1.text@.len() by {
                            if m < old_spans.len() {
                                assert(grown.1[m] == old_spans[m]);
                            } else {
                                assert(grown.1[m] == span);
                            }
                        }
                    }
                } else {
                    if kk < posts.len() {
                        assert(updated[kk] == posts[kk]);
                        assert(w[j].1[kk] == posts[kk]);
                    } else {
                        assert(updated[kk] == (id, seq![span]));
                    }
                }
            }
        }
    }
}

/// Recording every word of one verse keeps every posting well placed.
proof fn lemma_verse_words_ok(
    w: WordsIndexView,
    pairs: Seq<(VersePath, Verse)>,
    hi: int,
    id: u16,
    k: int,
)
    requires
        postings_ok(w, pairs, hi),
        1 <= id <= hi <= pairs.len(),
        pairs[id - 1].1.text@.len() <= usize::MAX,
        0 <= k <= word_spans(pairs[id - 1].1.text@).len(),
    ensures
        postings_ok(verse_words_upto(w, pairs[id - 1].1.text@, id, k), pairs, hi),
    decreases k,
{
    let text = pairs[id - 1].1.text@;
    if k > 0 {
        lemma_verse_words_ok(w, pairs, hi, id, k - 1);
        lemma_scan_spans_wf(text, 0, Option::None, |c: char| is_word_char(c));
        let sp = word_spans(text)[k - 1];
        assert(span_wf(sp, 0, text.len() as int));
        lemma_add_word_ok(
            verse_words_upto(w, text, id, k - 1),
            pairs,
            hi,
            stem_of(lower_of(text.subrange(sp.0 as int, sp.1 as int))),
            id,
            (sp.0, (sp.1 - sp.0) as usize),
        );
    }
}

/// After a build over the first `n` verses, every posting is well
/// placed: its id is assigned and its spans lie inside that verse's
/// text.
proof fn lemma_words_fold_ok(pairs: Seq<(VersePath, Verse)>, n: int)
    requires
        0 <= n <= pairs.len() <= 0xFFFF,
        forall|k: int| 0 <= k < pairs.len() ==> (#[trigger] pairs[k]).1.text@.len() <= usize::MAX,
    ensures
        postings_ok(
            words_fold(Seq::<(Seq<char>, Seq<(u16, Seq<(usize, usize)>)>)>::empty(), pairs, 0, n),
            pairs,
            n,
        ),
    decreases n,
{
    let w0 = Seq::<(Seq<char>, Seq<(u16, Seq<(usize, usize)>)>)>::empty();
    if n > 0 {
        lemma_words_fold_ok(pairs, n - 1);
        let prev = words_fold(w0, pairs, 0, n - 1);
        assert(postings_ok(prev, pairs, n)) by {
            assert forall|j: int, k: int|
                0 <= j < prev.len() && 0 <= k < prev[j].1.len() implies {
                let post = #[trigger] prev[j].1[k];
                &&& 1 <= post.0 <= n
                &&& forall|m: int|
                    0 <= m < post.1.len() ==> (#[trigger] post.1[m]).0 + post.1[m].1 <= pairs[
                        post.0 - 1].1.text@.len()
            } by {
                assert(prev[j].1[k] == prev[j].1[k]);
            }
        }
        lemma_verse_words_ok(
            prev,
            pairs,
            n,
            n as u16,
            word_spans(pairs[n - 1].1.text@).len() as int,
        );
    }
}

/// Every text of the corpus, in canonical order, is one the machine can
/// index.
proof fn lemma_corpus_texts_bounded(
    ot: &OldTestament,
    nt: &NewTestament,
    bom: &BookOfMormon,
    dc: &DoctrineAndCovenants,
    pogp: &PearlOfGreatPrice,
)
    requires
        corpus_wf(ot, nt, bom, dc, pogp),
    ensures
        forall|k: int|
            0 <= k < corpus_pairs(ot, nt, bom, dc, pogp).len() ==> (#[trigger] corpus_pairs(
                ot,
                nt,
                bom,
                dc,
                pogp,
            )[k]).1.text@.len() <= usize::MAX,
{
    lemma_coll_pairs_texts_bounded(HasBooks::OT(ot));
    lemma_coll_pairs_texts_bounded(HasBooks::NT(nt));
    lemma_coll_pairs_texts_bounded(HasBooks::BOM(bom));
    lemma_dc_pairs_texts_bounded(dc);
    lemma_coll_pairs_texts_bounded(HasBooks::POGP(pogp));
    let a1 = coll_pairs(HasBooks::OT(ot));
    let a2 = coll_pairs(HasBooks::NT(nt));
    let a3 = coll_pairs(HasBooks::BOM(bom));
    let a4 = dc_pairs(dc);
    let a5 = coll_pairs(HasBooks::POGP(pogp));
    let all = corpus_pairs(ot, nt, bom, dc, pogp);
    assert forall|k: int| 0 <= k < all.len() implies (#[trigger] all[k]).1.text@.len()
        <= usize::MAX by {
        if k < a1.len() {
            assert(all[k] == a1[k]);
        } else if k < a1.len() + a2.len() {
            assert(all[k] == a2[k - a1.len()]);
        } else if k < a1.len() + a2.len() + a3.len() {
            assert(all[k] == a3[k - a1.len() - a2.len()]);
        } else if k < a1.len() + a2.len() + a3.len() + a4.len() {
            assert(all[k] == a4[k - a1.len() - a2.len() - a3.len()]);
        } else {
            assert(all[k] == a5[k - a1.len() - a2.len() - a3.len() - a4.len()]);
        }
    }
}

/// Every text of one book-based collection is one the machine can index.
proof fn lemma_coll_pairs_texts_bounded(coll: HasBooks<'_>)
    requires
        wf_books(coll.spec_books()),
    ensures
        forall|k: int|
            0 <= k < coll_pairs(coll).len() ==> (#[trigger] coll_pairs(coll)[k]).1.text@.len()
                <= usize::MAX,
{
    let books = coll.spec_books();
    lemma_books_triples_wf(books, books.len() as int);
    assert forall|k: int| 0 <= k < coll_pairs(coll).len() implies (#[trigger] coll_pairs(
        coll,
    )[k]).1.text@.len() <= usize::MAX by {
        let t = flat_book_paths(books)[k];
        assert(valid_coord(books, t));
        assert(wf_chapter(books[t.0 as int].chapters@[t.1 as int], t.1 as int));
        assert(coll_pairs(coll)[k].1 == books[t.0 as int].chapters@[t.1 as int].verses@[t.2
            as int]);
    }
}

/// Every text of the section-based collection is one the machine can
/// index.
proof fn lemma_dc_pairs_texts_bounded(dc: &DoctrineAndCovenants)
    requires
        wf_sections(dc.sections@),
    ensures
        forall|k: int|
            0 <= k < dc_pairs(dc).len() ==> (#[trigger] dc_pairs(dc)[k]).1.text@.len()
                <= usize::MAX,
{
    lemma_sections_pairs_wf(dc.sections@, dc.sections@.len() as int);
    assert forall|k: int| 0 <= k < dc_pairs(dc).len() implies (#[trigger] dc_pairs(
        dc,
    )[k]).1.text@.len() <= usize::MAX by {
        let t = flat_section_paths(dc.sections@)[k];
        assert((t.0 as int) < dc.sections@.len() && (t.1 as int) < dc.sections@[t.0
            as int].verses@.len());
        assert(dc_pairs(dc)[k].1 == dc.sections@[t.0 as int].verses@[t.1 as int]);
    }
}

/// Referential integrity: every ScriptureId appearing in any bucket of a
/// built words index is assigned in the built paths index, and every
/// recorded span lies inside that verse's text.
pub proof fn lemma_referential_integrity(
    ot: &OldTestament,
    nt: &NewTestament,
    bom: &BookOfMormon,
    dc: &DoctrineAndCovenants,
    pogp: &PearlOfGreatPrice,
)
    requires
        corpus_wf(ot, nt, bom, dc, pogp),
        corpus_pairs(ot, nt, bom, dc, pogp).len() <= 0xFFFF,
    ensures
        postings_ok(
            spec_build_index(ot, nt, bom, dc, pogp).0,
            corpus_pairs(ot, nt, bom, dc, pogp),
            spec_build_index(ot, nt, bom, dc, pogp).1.len() as int,
        ),
{
    let pairs = corpus_pairs(ot, nt, bom, dc, pogp);
    lemma_corpus_texts_bounded(ot, nt, bom, dc, pogp);
    lemma_words_fold_ok(pairs, pairs.len() as int);
}


/// Each pair of a book-based collection carries the location of its
/// walk triple and the verse that triple indexes, and the triple indexes
/// the collection validly.
pub proof fn lemma_coll_triples_valid(coll: HasBooks<'_>)
    requires
        wf_books(coll.spec_books()),
    ensures
        forall|k: int|
            0 <= k < coll_pairs(coll).len() ==> {
                let t = flat_book_paths(coll.spec_books())[k];
                &&& valid_coord(coll.spec_books(), t)
                &&& (#[trigger] coll_pairs(coll)[k]).0 == coll_path(coll, t)
                &&& coll_pairs(coll)[k].1 == coll.spec_books()[t.0 as int].chapters@[t.1
                    as int].verses@[t.2 as int]
            },
{
    lemma_books_triples_wf(coll.spec_books(), coll.spec_books().len() as int);
}

/// Each pair of the section-based collection carries the location of its
/// walk pair and the verse that pair indexes, and the pair indexes the
/// section list validly.
pub proof fn lemma_dc_triples_valid(dc: &DoctrineAndCovenants)
    requires
        wf_sections(dc.sections@),
    ensures
        forall|k: int|
            0 <= k < dc_pairs(dc).len() ==> {
                let t = flat_section_paths(dc.sections@)[k];
                &&& (t.0 as int) < dc.sections@.len()
                &&& (t.1 as int) < dc.sections@[t.0 as int].verses@.len()
                &&& (#[trigger] dc_pairs(dc)[k]).0 == VersePath::PathDC(t.0, t.1)
                &&& dc_pairs(dc)[k].1 == dc.sections@[t.0 as int].verses@[t.1 as int]
            },
{
    lemma_sections_pairs_wf(dc.sections@, dc.sections@.len() as int);
}

} // verus!
