//! The query engine: an immutable handle over the corpus and its packed
//! indices, built once and read by every search.
use vstd::prelude::*;
use crate::corpus::{VersePath, Verse, OldTestament, NewTestament, BookOfMormon,
    DoctrineAndCovenants, PearlOfGreatPrice, HasBooks};
use crate::index::{PathsIndex, VersePathsIndex, paths_to_verse_paths_index, build_index,
    spec_build_index, corpus_pairs, corpus_wf, pair_paths, coll_pairs, dc_pairs, valid_coord,
    postings_ok, lemma_referential_integrity};
use crate::encode::{CompactWordsIndex, CompactEntry, CompactPosting, EncodeError,
    encode_words_index, encodes, encodable, encode_error_witness, offsets_of, lengths_of,
    span_list_encodable};
use crate::preferences::{SearchPreferences, spec_can_search, check_can_search};
use crate::render::{dec_of, append_decimal, zip_spans, extract_highlights, sort_spans,
    sort_highlights, widen_spans, widen_highlights, merge_spans, ranges_wf, starts_sorted,
    apply_highlights, highlight_matches, span_le, lemma_sort_spans_props,
    lemma_merge_spans_props};
use crate::packing::{unpack_indices_value, unpack_lengths_value, well_formed_packed};
use crate::text::{lower_of, stem_of, spec_splittable, token_spans, spans_to_texts, strings_view,
    make_splittable, split_whitespace_terms, lowercase, stem_word};

verus! {

/// The one object a host constructs at startup and hands, read-only, to
/// every query: the corpus and the three indices built from it.
pub struct IndexHandle {
    pub ot: OldTestament,
    pub nt: NewTestament,
    pub bom: BookOfMormon,
    pub dc: DoctrineAndCovenants,
    pub pogp: PearlOfGreatPrice,
    pub words: CompactWordsIndex,
    pub paths: PathsIndex,
    pub verse_paths: VersePathsIndex,
}

impl IndexHandle {
    /// The corpus verses in canonical order.
    pub open spec fn spec_pairs(self) -> Seq<(VersePath, Verse)> {
        corpus_pairs(&self.ot, &self.nt, &self.bom, &self.dc, &self.pogp)
    }

    /// A handle whose indices are exactly what one build of its corpus
    /// yields.
    pub open spec fn wf(self) -> bool {
        &&& corpus_wf(&self.ot, &self.nt, &self.bom, &self.dc, &self.pogp)
        &&& self.spec_pairs().len() <= 0xFFFF
        &&& self.paths.paths@ == pair_paths(self.spec_pairs())
        &&& encodable(spec_build_index(&self.ot, &self.nt, &self.bom, &self.dc, &self.pogp).0)
        &&& encodes(
            self.words,
            spec_build_index(&self.ot, &self.nt, &self.bom, &self.dc, &self.pogp).0,
        )
        &&& self.verse_paths.pairs@.len() == self.paths.paths@.len()
        &&& forall|k: int|
            0 <= k < self.verse_paths.pairs@.len() ==> #[trigger] self.verse_paths.pairs@[k] == (
            self.paths.paths@[k],
            (k + 1) as u16,
            )
    }

    /// Builds the handle from a corpus: index build, compact encoding,
    /// and the derived reverse index.  Fails exactly when some span list
    /// breaks an encoder ceiling; that is a fatal build error.
    pub fn new(
        ot: OldTestament,
        nt: NewTestament,
        bom: BookOfMormon,
        dc: DoctrineAndCovenants,
        pogp: PearlOfGreatPrice,
    ) -> (r: Result<IndexHandle, EncodeError>)
        requires
            corpus_wf(&ot, &nt, &bom, &dc, &pogp),
            corpus_pairs(&ot, &nt, &bom, &dc, &pogp).len() <= 0xFFFF,
        ensures
            match r {
                Result::Ok(h) => h.wf() && h.ot == ot && h.nt == nt && h.bom == bom && h.dc == dc
                    && h.pogp == pogp,
                Result::Err(e) => !encodable(spec_build_index(&ot, &nt, &bom, &dc, &pogp).0)
                    && encode_error_witness(spec_build_index(&ot, &nt, &bom, &dc, &pogp).0, e),
            },
    {
        let (words_idx, paths) = build_index(&ot, &nt, &bom, &dc, &pogp);
        let words = match encode_words_index(&words_idx) {
            Result::Ok(c) => c,
            Result::Err(e) => {
                return Result::Err(e);
            },
        };
        let verse_paths = paths_to_verse_paths_index(&paths);
        Result::Ok(IndexHandle { ot, nt, bom, dc, pogp, words, paths, verse_paths })
    }
}

/// A location whose coordinates index the handle's corpus validly.
pub open spec fn path_valid(h: IndexHandle, p: VersePath) -> bool {
    match p {
        VersePath::PathOT(b, c, v) => valid_coord(h.ot.books@, (b, c, v)),
        VersePath::PathNT(b, c, v) => valid_coord(h.nt.books@, (b, c, v)),
        VersePath::PathBoM(b, c, v) => valid_coord(h.bom.books@, (b, c, v)),
        VersePath::PathPOGP(b, c, v) => valid_coord(h.pogp.books@, (b, c, v)),
        VersePath::PathDC(s, v) => (s as int) < h.dc.sections@.len() && (v as int)
            < h.dc.sections@[s as int].verses@.len(),
    }
}

/// The verse a location names.
pub open spec fn spec_resolve(h: IndexHandle, p: VersePath) -> Verse {
    match p {
        VersePath::PathOT(b, c, v) => h.ot.books@[b as int].chapters@[c as int].verses@[v as int],
        VersePath::PathNT(b, c, v) => h.nt.books@[b as int].chapters@[c as int].verses@[v as int],
        VersePath::PathBoM(b, c, v) => h.bom.books@[b as int].chapters@[c as int].verses@[v
            as int],
        VersePath::PathPOGP(b, c, v) => h.pogp.books@[b as int].chapters@[c as int].verses@[v
            as int],
        VersePath::PathDC(s, v) => h.dc.sections@[s as int].verses@[v as int],
    }
}

/// Every location in the paths index is valid and resolves to the verse
/// it was assigned for.
pub proof fn lemma_corpus_paths_valid(h: IndexHandle)
    requires
        h.wf(),
    ensures
        forall|k: int|
            0 <= k < h.paths.paths@.len() ==> path_valid(h, #[trigger] h.paths.paths@[k])
                && spec_resolve(h, h.paths.paths@[k]) == h.spec_pairs()[k].1,
{
    let all = h.spec_pairs();
    let a1 = coll_pairs(HasBooks::OT(&h.ot));
    let a2 = coll_pairs(HasBooks::NT(&h.nt));
    let a3 = coll_pairs(HasBooks::BOM(&h.bom));
    let a4 = dc_pairs(&h.dc);
    let a5 = coll_pairs(HasBooks::POGP(&h.pogp));
    crate::index::lemma_coll_triples_valid(HasBooks::OT(&h.ot));
    crate::index::lemma_coll_triples_valid(HasBooks::NT(&h.nt));
    crate::index::lemma_coll_triples_valid(HasBooks::BOM(&h.bom));
    crate::index::lemma_dc_triples_valid(&h.dc);
    crate::index::lemma_coll_triples_valid(HasBooks::POGP(&h.pogp));
    assert forall|k: int|
        0 <= k < h.paths.paths@.len() implies path_valid(h, #[trigger] h.paths.paths@[k])
        && spec_resolve(h, h.paths.paths@[k]) == h.spec_pairs()[k].1 by {
        assert(h.paths.paths@[k] == all[k].0);
        if k < a1.len() {
            assert(all[k] == a1[k]);
        } else if k < a1.len() + a2.len() {
            assert(all[k] == a2[k - a1.len()]);
        } else if k < a1.len() + a2.len() + a3.len() {
            assert(all[k] == a3[k - a1.len() - a2.len()]);
        } else if k < a1.len() + a2.len() + a3.len() + a4.len() {
            assert(all[k] == a4[k - a1.len() - a2.len() - a3.len()]);
        } else {
            assert(all[k] == a5[k - a1.len() - a2.len() - a3.len() - a4.len()]);
        }
    }
}

/// Resolves a location to its verse in the handle's corpus.  A location
/// outside the corpus would be an internal-consistency fault; the paths
/// index never hands one out.
pub fn resolve_verse_path<'a>(
    handle: &'a IndexHandle,
    path: &VersePath,
    _preferences: &SearchPreferences,
) -> (r: &'a Verse)
    requires
        path_valid(*handle, *path),
    ensures
        *r == spec_resolve(*handle, *path),
{
    match path {
        VersePath::PathOT(b, c, v) => &handle.ot.books[*b as usize].chapters[*c
            as usize].verses[*v as usize],
        VersePath::PathNT(b, c, v) => &handle.nt.books[*b as usize].chapters[*c
            as usize].verses[*v as usize],
        VersePath::PathBoM(b, c, v) => &handle.bom.books[*b as usize].chapters[*c
            as usize].verses[*v as usize],
        VersePath::PathPOGP(b, c, v) => &handle.pogp.books[*b as usize].chapters[*c
            as usize].verses[*v as usize],
        VersePath::PathDC(s, v) => &handle.dc.sections[*s as usize].verses[*v as usize],
    }
}

/// Whether a name stands in a book allow-list.
pub open spec fn contains_text(list: Seq<String>, name: Seq<char>) -> bool {
    exists|i: int| 0 <= i < list.len() && list[i]@ == name
}

/// Linear scan of a book allow-list for a name.
fn book_list_contains(list: &Vec<String>, name: &String) -> (r: bool)
    ensures
        r == contains_text(list@, name@),
{
    let mut i: usize = 0;
    while i < list.len()
        invariant
            i <= list@.len(),
            forall|j: int| 0 <= j < i ==> list@[j]@ != name@,
        decreases list@.len() - i,
    {
        if list[i].eq(name) {
            return true;
        }
        i = i + 1;
    }
    false
}

/// A verse passes the filter when its collection is enabled and its book
/// title stands in that collection's allow-list (for the section-based
/// collection: its section coordinate lies in the numeric range).
pub open spec fn spec_searchable(h: IndexHandle, p: VersePath, prefs: SearchPreferences) -> bool {
    match p {
        VersePath::PathOT(b, _, _) => prefs.included_sources.ot && contains_text(
            prefs.included_books.ot@,
            h.ot.books@[b as int].book@,
        ),
        VersePath::PathNT(b, _, _) => prefs.included_sources.nt && contains_text(
            prefs.included_books.nt@,
            h.nt.books@[b as int].book@,
        ),
        VersePath::PathBoM(b, _, _) => prefs.included_sources.bom && contains_text(
            prefs.included_books.bom@,
            h.bom.books@[b as int].book@,
        ),
        VersePath::PathPOGP(b, _, _) => prefs.included_sources.pogp && contains_text(
            prefs.included_books.pogp@,
            h.pogp.books@[b as int].book@,
        ),
        VersePath::PathDC(s, _) => prefs.included_sources.dc && prefs.included_books.dc.0 <= s
            && s <= prefs.included_books.dc.1,
    }
}

/// Decides the collection/book filter for one located verse.
pub fn check_collection_searchable(
    handle: &IndexHandle,
    verse_path: &VersePath,
    preferences: &SearchPreferences,
) -> (r: bool)
    requires
        path_valid(*handle, *verse_path),
    ensures
        r == spec_searchable(*handle, *verse_path, *preferences),
{
    match verse_path {
        VersePath::PathOT(book, _, _) => preferences.included_sources.ot && book_list_contains(
            &preferences.included_books.ot,
            &handle.ot.books[*book as usize].book,
        ),
        VersePath::PathNT(book, _, _) => preferences.included_sources.nt && book_list_contains(
            &preferences.included_books.nt,
            &handle.nt.books[*book as usize].book,
        ),
        VersePath::PathBoM(book, _, _) => preferences.included_sources.bom && book_list_contains(
            &preferences.included_books.bom,
            &handle.bom.books[*book as usize].book,
        ),
        VersePath::PathPOGP(book, _, _) => preferences.included_sources.pogp
            && book_list_contains(
            &preferences.included_books.pogp,
            &handle.pogp.books[*book as usize].book,
        ),
        VersePath::PathDC(sec, _) => preferences.included_sources.dc
            && *sec >= preferences.included_books.dc.0 && *sec <= preferences.included_books.dc.1,
    }
}

/// The study URL prefix every link starts with.
pub open spec fn base_url() -> Seq<char> {
    "https://www.churchofjesuschrist.org/study/scriptures"@
}

/// The study URL of a located verse: base, collection slug, book slug
/// where the collection has books, then one-based chapter (or section)
/// and verse.
pub open spec fn spec_link(h: IndexHandle, p: VersePath) -> Seq<char> {
    match p {
        VersePath::PathOT(b, c, v) => base_url() + "/"@ + h.ot.lds_slug@ + "/"@ + h.ot.books@[b
            as int].lds_slug@ + "/"@ + dec_of(c + 1) + "."@ + dec_of(v + 1),
        VersePath::PathNT(b, c, v) => base_url() + "/"@ + h.nt.lds_slug@ + "/"@ + h.nt.books@[b
            as int].lds_slug@ + "/"@ + dec_of(c + 1) + "."@ + dec_of(v + 1),
        VersePath::PathBoM(b, c, v) => base_url() + "/"@ + h.bom.lds_slug@ + "/"@ + h.bom.books@[b
            as int].lds_slug@ + "/"@ + dec_of(c + 1) + "."@ + dec_of(v + 1),
        VersePath::PathPOGP(b, c, v) => base_url() + "/"@ + h.pogp.lds_slug@ + "/"@
            + h.pogp.books@[b as int].lds_slug@ + "/"@ + dec_of(c + 1) + "."@ + dec_of(v + 1)
            + "?lang=eng"@,
        VersePath::PathDC(s, v) => base_url() + "/"@ + h.dc.lds_slug@ + "/"@ + dec_of(s + 1)
            + "."@ + dec_of(v + 1),
    }
}

/// Builds the study URL of a located verse.
pub fn make_link(handle: &IndexHandle, verse_path: &VersePath) -> (r: String)
    requires
        path_valid(*handle, *verse_path),
    ensures
        r@ == spec_link(*handle, *verse_path),
{
    let mut out = String::new();
    out.append("https://www.churchofjesuschrist.org/study/scriptures");
    out.append("/");
    match verse_path {
        VersePath::PathOT(b, c, v) => {
            out.append(handle.ot.lds_slug.as_str());
            out.append("/");
            out.append(handle.ot.books[*b as usize].lds_slug.as_str());
            out.append("/");
            append_decimal(&mut out, *c as u32 + 1);
            out.append(".");
            append_decimal(&mut out, *v as u32 + 1);
        },
        VersePath::PathNT(b, c, v) => {
            out.append(handle.nt.lds_slug.as_str());
            out.append("/");
            out.append(handle.nt.books[*b as usize].lds_slug.as_str());
            out.append("/");
            append_decimal(&mut out, *c as u32 + 1);
            out.append(".");
            append_decimal(&mut out, *v as u32 + 1);
        },
        VersePath::PathBoM(b, c, v) => {
            out.append(handle.bom.lds_slug.as_str());
            out.append("/");
            out.append(handle.bom.books[*b as usize].lds_slug.as_str());
            out.append("/");
            append_decimal(&mut out, *c as u32 + 1);
            out.append(".");
            append_decimal(&mut out, *v as u32 + 1);
        },
        VersePath::PathPOGP(b, c, v) => {
            out.append(handle.pogp.lds_slug.as_str());
            out.append("/");
            out.append(handle.pogp.books[*b as usize].lds_slug.as_str());
            out.append("/");
            append_decimal(&mut out, *c as u32 + 1);
            out.append(".");
            append_decimal(&mut out, *v as u32 + 1);
            out.append("?lang=eng");
        },
        VersePath::PathDC(s, v) => {
            out.append(handle.dc.lds_slug.as_str());
            out.append("/");
            append_decimal(&mut out, *s as u32 + 1);
            out.append(".");
            append_decimal(&mut out, *v as u32 + 1);
        },
    }
    proof {
        assert(out@ =~= spec_link(*handle, *verse_path));
    }
    out
}

/// One rendered result line: the link, the verse reference, and the
/// verse text with every merged highlight wrapped in a match marker.
pub open spec fn spec_format_verse(
    h: IndexHandle,
    p: VersePath,
    v: Verse,
    hl: Seq<(u16, u8)>,
) -> Seq<char> {
    "<li><a target=\"_blank\" rel=\"noopener noreferrer\" href=\""@ + spec_link(h, p) + "\">"@
        + v.reference@ + "</a>: "@ + apply_highlights(
        v.text@,
        merge_spans(widen_spans(sort_spans(hl))),
    ) + "</li>"@
}

/// Renders one matched verse: highlights are sorted, overlapping ones
/// merged, and each merged stretch wrapped, back to front.
pub fn format_verse(
    handle: &IndexHandle,
    p: &VersePath,
    v: &Verse,
    highlights: &Vec<(u16, u8)>,
) -> (r: String)
    requires
        path_valid(*handle, *p),
        forall|i: int|
            0 <= i < highlights@.len() ==> ((#[trigger] highlights@[i]).1 >= 1 && highlights@[i].0
                + highlights@[i].1 <= v.text@.len()),
    ensures
        r@ == spec_format_verse(*handle, *p, *v, highlights@),
{
    let sorted = sort_highlights(highlights);
    let widened = widen_highlights(&sorted);
    proof {
        lemma_sort_spans_props(highlights@);
        assert forall|i: int|
            0 <= i < widened@.len() implies ((#[trigger] widened@[i]).0 < widened@[i].1
            && widened@[i].1 <= v.text@.len() as int) by {
            assert(highlights@.contains(sorted@[i]));
            let m = choose|m: int| 0 <= m < highlights@.len() && highlights@[m] == sorted@[i];
            assert(highlights@[m].1 >= 1 && highlights@[m].0 + highlights@[m].1 <= v.text@.len());
            assert(widened@[i] == (sorted@[i].0 as usize, (sorted@[i].0 + sorted@[i].1) as usize));
        }
        assert(ranges_wf(widened@, v.text@.len() as int));
        assert forall|i: int, j: int|
            0 <= i < j < widened@.len() implies (#[trigger] widened@[i]).0 <= (
        #[trigger] widened@[j]).0 by {
            assert(span_le(sorted@[i], sorted@[j]));
            assert(widened@[i] == (sorted@[i].0 as usize, (sorted@[i].0 + sorted@[i].1) as usize));
            assert(widened@[j] == (sorted@[j].0 as usize, (sorted@[j].0 + sorted@[j].1) as usize));
        }
        assert(starts_sorted(widened@));
        lemma_merge_spans_props(widened@, v.text@.len() as int);
    }
    let merged = merge_highlight_spans(&widened);
    let body = highlight_matches(&v.text, &merged);
    let mut out = String::new();
    out.append("<li><a target=\"_blank\" rel=\"noopener noreferrer\" href=\"");
    let link = make_link(handle, p);
    out.append(link.as_str());
    out.append("\">");
    out.append(v.reference.as_str());
    out.append("</a>: ");
    out.append(body.as_str());
    out.append("</li>");
    proof {
        assert(out@ =~= spec_format_verse(*handle, *p, *v, highlights@));
    }
    out
}

/// Folds overlapping or touching ranges together, left to right.
pub fn merge_highlight_spans(v: &Vec<(usize, usize)>) -> (r: Vec<(usize, usize)>)
    ensures
        r@ == merge_spans(v@),
{
    let mut out: Vec<(usize, usize)> = Vec::new();
    let mut k: usize = 0;
    proof {
        assert(v@.take(0int) =~= Seq::<(usize, usize)>::empty());
    }
    while k < v.len()
        invariant
            k <= v@.len(),
            out@ == merge_spans(v@.take(k as int)),
            out@.len() <= k,
            k > 0 ==> out@.len() > 0,
        decreases v@.len() - k,
    {
        let x = v[k];
        let ghost prev = out@;
        proof {
            assert(v@.take(k + 1int).drop_last() =~= v@.take(k as int));
            assert(v@.take(k + 1int).last() == v@[k as int]);
        }
        if out.len() == 0 {
            out.push(x);
        } else {
            let lastpos = out.len() - 1;
            let last = out[lastpos];
            if x.0 <= last.1 {
                let joined = (
                    last.0,
                    if x.1 >= last.1 {
                        x.1
                    } else {
                        last.1
                    },
                );
                let _ = out.pop();
                out.push(joined);
                proof {
                    assert(out@ =~= prev.drop_last().push(joined));
                }
            } else {
                out.push(x);
            }
        }
        k = k + 1;
    }
    proof {
        assert(v@.take(v@.len() as int) =~= v@);
    }
    out
}


/// A stem list with later repeats removed, keeping first occurrences in
/// order.
pub open spec fn dedup_texts(s: Seq<Seq<char>>) -> Seq<Seq<char>>
    decreases s.len(),
{
    if s.len() == 0 {
        s
    } else {
        let d = dedup_texts(s.drop_last());
        if d.contains(s.last()) {
            d
        } else {
            d.push(s.last())
        }
    }
}

/// The search terms of a raw query: lowercased, normalized, split at
/// whitespace, stemmed, deduplicated.
pub open spec fn spec_query_stems(raw: Seq<char>) -> Seq<Seq<char>> {
    let norm = spec_splittable(lower_of(raw));
    dedup_texts(spans_to_texts(norm, token_spans(norm)).map_values(|t: Seq<char>| stem_of(t)))
}

/// The position of a stem's bucket in the compact index, scanning from
/// `j`; negative when the stem is not indexed.
pub open spec fn find_entry_from(entries: Seq<CompactEntry>, stem: Seq<char>, j: int) -> int
    decreases entries.len() - j,
{
    if j < 0 || j >= entries.len() {
        -1
    } else if entries[j].stem@ == stem {
        j
    } else {
        find_entry_from(entries, stem, j + 1)
    }
}

/// The position of a stem's bucket; negative when the stem is absent.
pub open spec fn find_entry(entries: Seq<CompactEntry>, stem: Seq<char>) -> int {
    find_entry_from(entries, stem, 0)
}

/// An entry search lands in range, on the stem, or reports absence.
proof fn lemma_find_entry_from_range(entries: Seq<CompactEntry>, stem: Seq<char>, j: int)
    requires
        0 <= j,
    ensures
        find_entry_from(entries, stem, j) == -1 || (j <= find_entry_from(entries, stem, j)
            < entries.len() && entries[find_entry_from(entries, stem, j)].stem@ == stem),
    decreases entries.len() - j,
{
    if j < entries.len() && entries[j].stem@ != stem {
        lemma_find_entry_from_range(entries, stem, j + 1);
    }
}

/// The postings of a stem's bucket; an absent stem contributes an empty
/// bucket, not an error.
pub open spec fn bucket_postings(h: IndexHandle, stem: Seq<char>) -> Seq<CompactPosting> {
    let j = find_entry(h.words.entries@, stem);
    if j < 0 {
        Seq::empty()
    } else {
        h.words.entries@[j].postings@
    }
}

/// The position of a verse's posting in a bucket, scanning from `k`;
/// negative when the verse is not in the bucket.
pub open spec fn find_posting_from(posts: Seq<CompactPosting>, id: u16, k: int) -> int
    decreases posts.len() - k,
{
    if k < 0 || k >= posts.len() {
        -1
    } else if posts[k].id == id {
        k
    } else {
        find_posting_from(posts, id, k + 1)
    }
}

/// The position of a verse's posting in a bucket.
pub open spec fn find_posting(posts: Seq<CompactPosting>, id: u16) -> int {
    find_posting_from(posts, id, 0)
}

/// A posting search lands in range, on the id, or reports absence.
proof fn lemma_find_posting_from_range(posts: Seq<CompactPosting>, id: u16, k: int)
    requires
        0 <= k,
    ensures
        find_posting_from(posts, id, k) == -1 || (k <= find_posting_from(posts, id, k)
            < posts.len() && posts[find_posting_from(posts, id, k)].id == id),
    decreases posts.len() - k,
{
    if k < posts.len() && posts[k].id != id {
        lemma_find_posting_from_range(posts, id, k + 1);
    }
}

/// Whether a stem's bucket lists a verse.
pub open spec fn bucket_has(h: IndexHandle, stem: Seq<char>, id: u16) -> bool {
    find_posting(bucket_postings(h, stem), id) >= 0
}

/// Whether a stem has any postings at all.
pub open spec fn bucket_nonempty(h: IndexHandle, stem: Seq<char>) -> bool {
    bucket_postings(h, stem).len() > 0
}

/// The highlight pairs one stem's bucket holds for one verse.
pub open spec fn bucket_spans(h: IndexHandle, stem: Seq<char>, id: u16) -> Seq<(u16, u8)> {
    let posts = bucket_postings(h, stem);
    let k = find_posting(posts, id);
    if k < 0 {
        Seq::empty()
    } else {
        zip_spans(
            unpack_indices_value(posts[k].offsets.value()),
            unpack_lengths_value(posts[k].lengths as nat),
        )
    }
}

/// A verse matches when it is assigned, passes the collection/book
/// filter, is listed by at least one search term, and is listed by every
/// search term that has postings at all (the AND-set).
pub open spec fn spec_matched(
    h: IndexHandle,
    stems: Seq<Seq<char>>,
    prefs: SearchPreferences,
    id: u16,
) -> bool {
    &&& 1 <= id <= h.paths.paths@.len()
    &&& spec_searchable(h, h.paths.paths@[id - 1], prefs)
    &&& exists|i: int| 0 <= i < stems.len() && bucket_has(h, #[trigger] stems[i], id)
    &&& forall|i: int|
        0 <= i < stems.len() ==> (bucket_nonempty(h, #[trigger] stems[i]) ==> bucket_has(
            h,
            stems[i],
            id,
        ))
}

/// The highlight pairs the first `n` search terms contribute to a verse,
/// in term order.
pub open spec fn gathered_upto(
    h: IndexHandle,
    stems: Seq<Seq<char>>,
    id: u16,
    n: int,
) -> Seq<(u16, u8)>
    decreases n,
{
    if n <= 0 {
        Seq::empty()
    } else {
        gathered_upto(h, stems, id, n - 1) + bucket_spans(h, stems[n - 1], id)
    }
}

/// One matched verse rendered, with every term's highlights.
pub open spec fn spec_render_verse(h: IndexHandle, stems: Seq<Seq<char>>, id: u16) -> Seq<char> {
    let p = h.paths.paths@[id - 1];
    spec_format_verse(h, p, spec_resolve(h, p), gathered_upto(h, stems, id, stems.len() as int))
}

/// The rendered lines of every matched verse with id at most `n`, in
/// canonical corpus order.
pub open spec fn spec_results_upto(
    h: IndexHandle,
    stems: Seq<Seq<char>>,
    prefs: SearchPreferences,
    n: int,
) -> Seq<Seq<char>>
    decreases n,
{
    if n <= 0 {
        Seq::empty()
    } else {
        let prev = spec_results_upto(h, stems, prefs, n - 1);
        if spec_matched(h, stems, prefs, n as u16) {
            prev.push(spec_render_verse(h, stems, n as u16))
        } else {
            prev
        }
    }
}

/// The whole search: nothing when the query or the preferences allow
/// nothing; otherwise every matched verse rendered in canonical order.
pub open spec fn spec_search(
    h: IndexHandle,
    raw: Seq<char>,
    prefs: SearchPreferences,
) -> Seq<Seq<char>> {
    if !spec_can_search(raw, prefs) {
        Seq::empty()
    } else {
        spec_results_upto(h, spec_query_stems(raw), prefs, h.paths.paths@.len() as int)
    }
}

/// Finds a stem's bucket in the compact index.
fn find_entry_exec<'a>(words: &'a CompactWordsIndex, stem: &String) -> (r: Option<
    &'a CompactEntry,
>)
    ensures
        match r {
            Option::Some(e) => find_entry(words.entries@, stem@) >= 0 && *e == words.entries@[
                find_entry(words.entries@, stem@)],
            Option::None => find_entry(words.entries@, stem@) < 0,
        },
{
    let mut j: usize = 0;
    while j < words.entries.len()
        invariant
            j <= words.entries@.len(),
            find_entry(words.entries@, stem@) == find_entry_from(words.entries@, stem@, j as int),
        decreases words.entries@.len() - j,
    {
        if words.entries[j].stem.eq(stem) {
            return Option::Some(&words.entries[j]);
        }
        j = j + 1;
    }
    Option::None
}

/// Finds a verse's posting in a bucket.
fn find_posting_exec<'a>(posts: &'a Vec<CompactPosting>, id: u16) -> (r: Option<(
    usize,
    &'a CompactPosting,
)>)
    ensures
        match r {
            Option::Some(p) => find_posting(posts@, id) == p.0 as int && *p.1 == posts@[p.0 as int],
            Option::None => find_posting(posts@, id) < 0,
        },
{
    let mut k: usize = 0;
    while k < posts.len()
        invariant
            k <= posts@.len(),
            find_posting(posts@, id) == find_posting_from(posts@, id, k as int),
        decreases posts@.len() - k,
    {
        if posts[k].id == id {
            return Option::Some((k, &posts[k]));
        }
        k = k + 1;
    }
    Option::None
}

/// Whether a stem's bucket lists a verse.
fn bucket_has_exec(handle: &IndexHandle, stem: &String, id: u16) -> (r: bool)
    ensures
        r == bucket_has(*handle, stem@, id),
{
    match find_entry_exec(&handle.words, stem) {
        Option::Some(e) => match find_posting_exec(&e.postings, id) {
            Option::Some(_) => true,
            Option::None => false,
        },
        Option::None => false,
    }
}

/// Whether a stem has any postings.
fn bucket_nonempty_exec(handle: &IndexHandle, stem: &String) -> (r: bool)
    ensures
        r == bucket_nonempty(*handle, stem@),
{
    match find_entry_exec(&handle.words, stem) {
        Option::Some(e) => e.postings.len() > 0,
        Option::None => false,
    }
}

/// Unpacks the highlight pairs one stem contributes to one verse.
fn bucket_spans_exec(handle: &IndexHandle, stem: &String, id: u16) -> (r: Vec<(u16, u8)>)
    requires
        handle.wf(),
    ensures
        r@ == bucket_spans(*handle, stem@, id),
{
    let ghost w = spec_build_index(&handle.ot, &handle.nt, &handle.bom, &handle.dc,
        &handle.pogp).0;
    match find_entry_exec(&handle.words, stem) {
        Option::Some(e) => {
            match find_posting_exec(&e.postings, id) {
                Option::Some((k, p)) => {
                    proof {
                        lemma_find_entry_from_range(handle.words.entries@, stem@, 0);
                        let j = find_entry(handle.words.entries@, stem@);
                        assert(handle.words.entries@[j] == *e);
                        lemma_find_posting_from_range(e.postings@, id, 0);
                        assert(e.postings@.len() == w[j].1.len());
                        assert(0 <= k < w[j].1.len());
                        assert(well_formed_packed(e.postings@[k as int].offsets.value()));
                    }
                    extract_highlights(p)
                },
                Option::None => {
                    let r: Vec<(u16, u8)> = Vec::new();
                    proof {
                        assert(r@ =~= bucket_spans(*handle, stem@, id));
                    }
                    r
                },
            }
        },
        Option::None => {
            let r: Vec<(u16, u8)> = Vec::new();
            proof {
                assert(r@ =~= bucket_spans(*handle, stem@, id));
            }
            r
        },
    }
}

/// Every highlight a stem contributes to an assigned verse is at least
/// one position long and lies inside that verse's text.
proof fn lemma_bucket_spans_ok(h: IndexHandle, stem: Seq<char>, id: u16)
    requires
        h.wf(),
        1 <= id <= h.paths.paths@.len(),
    ensures
        forall|m: int|
            0 <= m < bucket_spans(h, stem, id).len() ==> ((#[trigger] bucket_spans(
                h,
                stem,
                id,
            )[m]).1 >= 1 && bucket_spans(h, stem, id)[m].0 + bucket_spans(h, stem, id)[m].1
                <= spec_resolve(h, h.paths.paths@[id - 1]).text@.len()),
{
    let w = spec_build_index(&h.ot, &h.nt, &h.bom, &h.dc, &h.pogp).0;
    let pairs = h.spec_pairs();
    lemma_referential_integrity(&h.ot, &h.nt, &h.bom, &h.dc, &h.pogp);
    lemma_corpus_paths_valid(h);
    lemma_find_entry_from_range(h.words.entries@, stem, 0);
    let j = find_entry(h.words.entries@, stem);
    if j >= 0 {
        let posts = bucket_postings(h, stem);
        lemma_find_posting_from_range(posts, id, 0);
        let k = find_posting(posts, id);
        if k >= 0 {
            let sp = w[j].1[k].1;
            assert(posts[k] == h.words.entries@[j].postings@[k]);
            assert(posts[k].id == w[j].1[k].0);
            assert(unpack_indices_value(posts[k].offsets.value()) == offsets_of(sp));
            assert(unpack_lengths_value(posts[k].lengths as nat) == lengths_of(sp));
            assert(span_list_encodable(sp));
            assert(postings_ok(w, pairs, h.paths.paths@.len() as int));
            assert(w[j].1[k].0 == posts[k].id);
            let r = bucket_spans(h, stem, id);
            assert forall|m: int| 0 <= m < r.len() implies ((#[trigger] r[m]).1 >= 1 && r[m].0
                + r[m].1 <= spec_resolve(h, h.paths.paths@[id - 1]).text@.len()) by {
                assert(r[m] == (offsets_of(sp)[m], lengths_of(sp)[m]));
                assert(offsets_of(sp)[m] == sp[m].0 as u16);
                assert(lengths_of(sp)[m] == sp[m].1 as u8);
                assert(sp[m].0 <= 2046 && 1 <= sp[m].1 <= 31);
                assert(sp[m].0 + sp[m].1 <= pairs[id - 1].1.text@.len());
                assert(spec_resolve(h, h.paths.paths@[id - 1]) == pairs[id - 1].1);
            }
        }
    }
}

/// Every highlight the search terms contribute to an assigned verse is
/// at least one position long and lies inside that verse's text.
proof fn lemma_gathered_ok(h: IndexHandle, stems: Seq<Seq<char>>, id: u16, n: int)
    requires
        h.wf(),
        1 <= id <= h.paths.paths@.len(),
        0 <= n <= stems.len(),
    ensures
        forall|m: int|
            0 <= m < gathered_upto(h, stems, id, n).len() ==> ((#[trigger] gathered_upto(
                h,
                stems,
                id,
                n,
            )[m]).1 >= 1 && gathered_upto(h, stems, id, n)[m].0 + gathered_upto(
                h,
                stems,
                id,
                n,
            )[m].1 <= spec_resolve(h, h.paths.paths@[id - 1]).text@.len()),
    decreases n,
{
    if n > 0 {
        lemma_gathered_ok(h, stems, id, n - 1);
        lemma_bucket_spans_ok(h, stems[n - 1], id);
        let head = gathered_upto(h, stems, id, n - 1);
        let tl = bucket_spans(h, stems[n - 1], id);
        let r = gathered_upto(h, stems, id, n);
        assert forall|m: int| 0 <= m < r.len() implies ((#[trigger] r[m]).1 >= 1 && r[m].0
            + r[m].1 <= spec_resolve(h, h.paths.paths@[id - 1]).text@.len()) by {
            if m < head.len() {
                assert(r[m] == head[m]);
            } else {
                assert(r[m] == tl[m - head.len()]);
            }
        }
    }
}

/// Answers one query against the handle: rejects queries that can match
/// nothing, stems the rest, intersects the postings of every term that
/// has any, filters by collection and book, and renders each matched
/// verse with its merged highlights, in canonical corpus order.
pub fn full_match_search(
    handle: &IndexHandle,
    search_term_raw: String,
    search_preferences: &SearchPreferences,
) -> (r: Vec<String>)
    requires
        handle.wf(),
    ensures
        strings_view(r@) == spec_search(*handle, search_term_raw@, *search_preferences),
{
    if !check_can_search(&search_term_raw, search_preferences) {
        let no_results: Vec<String> = Vec::new();
        proof {
            assert(strings_view(no_results@) =~~= spec_search(
                *handle,
                search_term_raw@,
                *search_preferences,
            ));
        }
        return no_results;
    }
    let lowered = lowercase(search_term_raw.as_str());
    let search_term = make_splittable(&lowered);
    let tokens = split_whitespace_terms(&search_term);
    let ghost toks = spans_to_texts(search_term@, token_spans(search_term@));
    let ghost mapped = toks.map_values(|t: Seq<char>| stem_of(t));
    let mut stems: Vec<String> = Vec::new();
    let mut k: usize = 0;
    proof {
        assert(strings_view(stems@) =~~= dedup_texts(mapped.take(0int)));
    }
    while k < tokens.len()
        invariant
            k <= tokens@.len(),
            strings_view(tokens@) == toks,
            tokens@.len() == toks.len(),
            mapped == toks.map_values(|t: Seq<char>| stem_of(t)),
            strings_view(stems@) == dedup_texts(mapped.take(k as int)),
        decreases tokens@.len() - k,
    {
        let st = stem_word(tokens[k].as_str());
        proof {
            assert(tokens@[k as int]@ == toks[k as int]);
            assert(st@ == mapped[k as int]);
            assert(mapped.take(k + 1int).drop_last() =~= mapped.take(k as int));
        }
        let ghost d = dedup_texts(mapped.take(k as int));
        let present = book_list_contains(&stems, &st);
        proof {
            if present {
                let i = choose|i: int| 0 <= i < stems@.len() && stems@[i]@ == st@;
                assert(d[i] == stems@[i]@);
                assert(d.contains(st@));
            } else {
                if d.contains(st@) {
                    let i = choose|i: int| 0 <= i < d.len() && d[i] == st@;
                    assert(stems@[i]@ == d[i]);
                    assert(contains_text(stems@, st@));
                }
            }
        }
        if !present {
            stems.push(st);
            proof {
                assert(strings_view(stems@) =~~= dedup_texts(mapped.take(k + 1int)));
            }
        }
        k = k + 1;
    }
    proof {
        assert(mapped.take(mapped.len() as int) =~= mapped);
    }
    let ghost stems_spec = spec_query_stems(search_term_raw@);
    proof {
        assert(stems_spec == strings_view(stems@));
    }
    let mut results: Vec<String> = Vec::new();
    let n = handle.paths.len();
    let mut idu: usize = 0;
    proof {
        lemma_corpus_paths_valid(*handle);
        assert(strings_view(results@) =~~= spec_results_upto(
            *handle,
            stems_spec,
            *search_preferences,
            0,
        ));
    }
    while idu < n
        invariant
            idu <= n,
            n == handle.paths.paths@.len(),
            handle.wf(),
            stems_spec == strings_view(stems@),
            stems_spec.len() == stems@.len(),
            forall|i: int|
                0 <= i < n ==> path_valid(*handle, #[trigger] handle.paths.paths@[i])
                    && spec_resolve(*handle, handle.paths.paths@[i])
                    == handle.spec_pairs()[i].1,
            strings_view(results@) == spec_results_upto(
                *handle,
                stems_spec,
                *search_preferences,
                idu as int,
            ),
        decreases n - idu,
    {
        let id: u16 = (idu + 1) as u16;
        let path = handle.paths.paths[idu];
        let searchable = check_collection_searchable(handle, &path, search_preferences);
        let mut any = false;
        let mut all = true;
        let mut si: usize = 0;
        while si < stems.len()
            invariant
                si <= stems@.len(),
                stems_spec == strings_view(stems@),
                stems_spec.len() == stems@.len(),
                any == exists|i: int|
                    0 <= i < si && bucket_has(*handle, #[trigger] stems_spec[i], id),
                all == forall|i: int|
                    0 <= i < si ==> (bucket_nonempty(*handle, #[trigger] stems_spec[i])
                        ==> bucket_has(*handle, stems_spec[i], id)),
            decreases stems@.len() - si,
        {
            proof {
                assert(stems@[si as int]@ == stems_spec[si as int]);
            }
            let listed = bucket_has_exec(handle, &stems[si], id);
            let nonempty = bucket_nonempty_exec(handle, &stems[si]);
            if listed {
                any = true;
            }
            if nonempty && !listed {
                all = false;
            }
            proof {
                if any {
                    if listed {
                        assert(bucket_has(*handle, stems_spec[si as int], id));
                    }
                }
                assert(any == exists|i: int|
                    0 <= i < si + 1 && bucket_has(*handle, #[trigger] stems_spec[i], id));
                assert(all == forall|i: int|
                    0 <= i < si + 1 ==> (bucket_nonempty(*handle, #[trigger] stems_spec[i])
                        ==> bucket_has(*handle, stems_spec[i], id)));
            }
            si = si + 1;
        }
        let matched = searchable && any && all;
        proof {
            assert(matched == spec_matched(*handle, stems_spec, *search_preferences, id));
        }
        if matched {
            let mut hl: Vec<(u16, u8)> = Vec::new();
            let mut s2: usize = 0;
            proof {
                assert(hl@ =~= gathered_upto(*handle, stems_spec, id, 0));
            }
            while s2 < stems.len()
                invariant
                    s2 <= stems@.len(),
                    handle.wf(),
                    stems_spec == strings_view(stems@),
                    stems_spec.len() == stems@.len(),
                    hl@ == gathered_upto(*handle, stems_spec, id, s2 as int),
                decreases stems@.len() - s2,
            {
                proof {
                    assert(stems@[s2 as int]@ == stems_spec[s2 as int]);
                }
                let mut bs = bucket_spans_exec(handle, &stems[s2], id);
                hl.append(&mut bs);
                proof {
                    assert(hl@ == gathered_upto(*handle, stems_spec, id, s2 + 1int));
                }
                s2 = s2 + 1;
            }
            proof {
                lemma_gathered_ok(*handle, stems_spec, id, stems_spec.len() as int);
            }
            let verse = resolve_verse_path(handle, &path, search_preferences);
            let line = format_verse(handle, &path, verse, &hl);
            results.push(line);
            proof {
                assert(line@ == spec_render_verse(*handle, stems_spec, id));
                assert(strings_view(results@) =~~= spec_results_upto(
                    *handle,
                    stems_spec,
                    *search_preferences,
                    idu + 1int,
                ));
            }
        } else {
            proof {
                assert(strings_view(results@) =~~= spec_results_upto(
                    *handle,
                    stems_spec,
                    *search_preferences,
                    idu + 1int,
                ));
            }
        }
        idu = idu + 1;
    }
    results
}


/// No verse matches, so no line is rendered.
proof fn lemma_no_match_no_results(
    h: IndexHandle,
    stems: Seq<Seq<char>>,
    prefs: SearchPreferences,
    n: int,
)
    requires
        0 <= n <= 0xFFFF,
        forall|id: u16| 1 <= id <= n ==> !spec_matched(h, stems, prefs, id),
    ensures
        spec_results_upto(h, stems, prefs, n) == Seq::<Seq<char>>::empty(),
    decreases n,
{
    if n > 0 {
        lemma_no_match_no_results(h, stems, prefs, n - 1);
        assert(!spec_matched(h, stems, prefs, n as u16));
    }
}

/// The conjunction of all terms decides a search: when two of the
/// query's stems both have postings but share no verse, the result set
/// is empty.
pub proof fn lemma_and_disjoint_terms_empty(
    h: IndexHandle,
    raw: Seq<char>,
    prefs: SearchPreferences,
    a: int,
    b: int,
)
    requires
        h.paths.paths@.len() <= 0xFFFF,
        0 <= a < spec_query_stems(raw).len(),
        0 <= b < spec_query_stems(raw).len(),
        bucket_nonempty(h, spec_query_stems(raw)[a]),
        bucket_nonempty(h, spec_query_stems(raw)[b]),
        forall|id: u16|
            !(bucket_has(h, spec_query_stems(raw)[a], id) && bucket_has(
                h,
                spec_query_stems(raw)[b],
                id,
            )),
    ensures
        spec_search(h, raw, prefs) == Seq::<Seq<char>>::empty(),
{
    let stems = spec_query_stems(raw);
    assert forall|id: u16| 1 <= id <= h.paths.paths@.len() implies !spec_matched(
        h,
        stems,
        prefs,
        id,
    ) by {
        if spec_matched(h, stems, prefs, id) {
            assert(bucket_has(h, stems[a], id));
            assert(bucket_has(h, stems[b], id));
        }
    }
    lemma_no_match_no_results(h, stems, prefs, h.paths.paths@.len() as int);
}

/// The collection filter decides a search: a verse of a disabled
/// collection never matches, whatever its text holds.
pub proof fn lemma_excluded_collection_never_matches(
    h: IndexHandle,
    stems: Seq<Seq<char>>,
    prefs: SearchPreferences,
    id: u16,
)
    requires
        spec_matched(h, stems, prefs, id),
    ensures
        match h.paths.paths@[id - 1] {
            VersePath::PathOT(_, _, _) => prefs.included_sources.ot,
            VersePath::PathNT(_, _, _) => prefs.included_sources.nt,
            VersePath::PathBoM(_, _, _) => prefs.included_sources.bom,
            VersePath::PathPOGP(_, _, _) => prefs.included_sources.pogp,
            VersePath::PathDC(_, _) => prefs.included_sources.dc,
        },
{
}

/// An empty query returns the empty result set, without an error.
pub proof fn lemma_empty_query_empty_result(
    h: IndexHandle,
    raw: Seq<char>,
    prefs: SearchPreferences,
)
    requires
        raw.len() == 0,
    ensures
        spec_search(h, raw, prefs) == Seq::<Seq<char>>::empty(),
{
}

/// Builds the search handle from a corpus and warms it with one query of
/// common words, so that user searches find every structure ready.
pub fn bootstrap_searcher(
    ot: OldTestament,
    nt: NewTestament,
    bom: BookOfMormon,
    dc: DoctrineAndCovenants,
    pogp: PearlOfGreatPrice,
) -> (r: Result<IndexHandle, EncodeError>)
    requires
        corpus_wf(&ot, &nt, &bom, &dc, &pogp),
        corpus_pairs(&ot, &nt, &bom, &dc, &pogp).len() <= 0xFFFF,
    ensures
        match r {
            Result::Ok(h) => h.wf() && h.ot == ot && h.nt == nt && h.bom == bom && h.dc == dc
                && h.pogp == pogp,
            Result::Err(e) => !encodable(spec_build_index(&ot, &nt, &bom, &dc, &pogp).0)
                && encode_error_witness(spec_build_index(&ot, &nt, &bom, &dc, &pogp).0, e),
        },
{
    let handle = match IndexHandle::new(ot, nt, bom, dc, pogp) {
        Result::Ok(h) => h,
        Result::Err(e) => {
            return Result::Err(e);
        },
    };
    let empty_preferences = crate::preferences::make_empty_preferences();
    let warmup = full_match_search(
        &handle,
        String::from_str("god and the faith"),
        &empty_preferences,
    );
    let _ = warmup.len();
    Result::Ok(handle)
}

} // verus!
