//! Tokenizing and normalizing text.
//!
//! The same normalization runs at index-build time and at query time; a
//! stem produced from a verse can only match a stem produced from a query
//! because both sides go through these functions.
use vstd::prelude::*;

verus! {

/// What char::is_alphanumeric returns for a character.
pub uninterp spec fn is_alphanum(c: char) -> bool;

/// What char::is_whitespace returns for a character.
pub uninterp spec fn is_white(c: char) -> bool;

/// What str::to_lowercase returns for a text.
pub uninterp spec fn lower_of(s: Seq<char>) -> Seq<char>;

/// What the English stemmer returns for a word.
pub uninterp spec fn stem_of(s: Seq<char>) -> Seq<char>;

/// Relies on char::is_alphanumeric: whether the character is in one of
/// Unicode's alphabetic or numeric general categories, a property of the
/// character alone.
pub assume_specification[ char::is_alphanumeric ](c: char) -> (r: bool)
    ensures
        r == is_alphanum(c),
;

/// Relies on char::is_whitespace: whether the character has Unicode's
/// White_Space property, a property of the character alone.
pub assume_specification[ char::is_whitespace ](c: char) -> (r: bool)
    ensures
        r == is_white(c),
;

/// Relies on str::to_lowercase: the lowercased text is a function of the
/// characters alone.
#[verifier::external_body]
pub(crate) fn lowercase(s: &str) -> (r: String)
    ensures
        r@ == lower_of(s@),
{
    s.to_lowercase()
}

/// Relies on rust_stemmers::Stemmer with the English algorithm: the stem
/// is a function of the word alone.
#[verifier::external_body]
pub(crate) fn stem_word(w: &str) -> (r: String)
    ensures
        r@ == stem_of(w@),
{
    rust_stemmers::Stemmer::create(rust_stemmers::Algorithm::English).stem(w).into_owned()
}

/// A character that can be part of an indexed word.
pub open spec fn is_word_char(c: char) -> bool {
    is_alphanum(c) || c == 'æ' || c == '-'
}

/// The spans that a left-to-right scan of `s` from position `i` still
/// yields, where `word` says which characters belong to a word and `open`
/// is the start of the word the scan stands in, if any.
pub open spec fn scan_spans(
    s: Seq<char>,
    i: int,
    open: Option<int>,
    word: spec_fn(char) -> bool,
) -> Seq<(usize, usize)>
    decreases s.len() - i,
{
    if i < 0 || i >= s.len() {
        match open {
            Option::None => Seq::empty(),
            Option::Some(o) => seq![(o as usize, s.len() as usize)],
        }
    } else if word(s[i]) {
        match open {
            Option::None => scan_spans(s, i + 1, Option::Some(i), word),
            Option::Some(o) => scan_spans(s, i + 1, open, word),
        }
    } else {
        match open {
            Option::None => scan_spans(s, i + 1, Option::None, word),
            Option::Some(o) => seq![(o as usize, i as usize)] + scan_spans(
                s,
                i + 1,
                Option::None,
                word,
            ),
        }
    }
}

/// The word spans of a text, begin inclusive, end exclusive, in text
/// order.
pub open spec fn word_spans(s: Seq<char>) -> Seq<(usize, usize)> {
    scan_spans(s, 0, Option::None, |c: char| is_word_char(c))
}

/// The maximal whitespace-free spans of a text, in text order.
pub open spec fn token_spans(s: Seq<char>) -> Seq<(usize, usize)> {
    scan_spans(s, 0, Option::None, |c: char| !is_white(c))
}

/// A span that lies inside a text of length `len`, is nonempty, and
/// starts at or after `lo`.
pub open spec fn span_wf(sp: (usize, usize), lo: int, len: int) -> bool {
    lo <= sp.0 && sp.0 < sp.1 && sp.1 <= len
}

/// Every span a scan yields is nonempty, lies inside the text, and does
/// not start before the open word (or the scan position).
pub proof fn lemma_scan_spans_wf(
    s: Seq<char>,
    i: int,
    open: Option<int>,
    word: spec_fn(char) -> bool,
)
    requires
        s.len() <= usize::MAX,
        0 <= i <= s.len(),
        open is Some ==> 0 <= open->0 < i,
    ensures
        forall|k: int|
            0 <= k < scan_spans(s, i, open, word).len() ==> span_wf(
                #[trigger] scan_spans(s, i, open, word)[k],
                if open is Some {
                    open->0
                } else {
                    i
                },
                s.len() as int,
            ),
    decreases s.len() - i,
{
    let r = scan_spans(s, i, open, word);
    let lo: int = if open is Some {
        open->0
    } else {
        i
    };
    let len = s.len() as int;
    if i >= s.len() {
        match open {
            Option::None => {},
            Option::Some(o) => {
                assert(r == seq![(o as usize, s.len() as usize)]);
                assert(span_wf(r[0], lo, len));
            },
        }
    } else if word(s[i]) {
        match open {
            Option::None => {
                lemma_scan_spans_wf(s, i + 1, Option::Some(i), word);
                assert(r == scan_spans(s, i + 1, Option::Some(i), word));
            },
            Option::Some(o) => {
                lemma_scan_spans_wf(s, i + 1, open, word);
                assert(r == scan_spans(s, i + 1, open, word));
            },
        }
    } else {
        lemma_scan_spans_wf(s, i + 1, Option::None, word);
        let tail = scan_spans(s, i + 1, Option::None, word);
        match open {
            Option::None => {
                assert(r == tail);
                assert forall|k: int| 0 <= k < r.len() implies span_wf(#[trigger] r[k], lo, len) by {
                    assert(span_wf(tail[k], i + 1, len));
                }
            },
            Option::Some(o) => {
                assert(r == seq![(o as usize, i as usize)] + tail);
                assert forall|k: int| 0 <= k < r.len() implies span_wf(#[trigger] r[k], lo, len) by {
                    if k == 0 {
                        assert(r[0] == (o as usize, i as usize));
                    } else {
                        assert(r[k] == tail[k - 1]);
                        assert(span_wf(tail[k - 1], i + 1, len));
                    }
                }
            },
        }
    }
}

/// Lists the word spans of a verse text against the original text, so
/// that a highlight cut from a span shows the word as it was written.
pub fn get_word_ranges(text: &String) -> (r: Vec<(usize, usize)>)
    ensures
        r@ == word_spans(text@),
{
    let s = text.as_str();
    let n = s.unicode_len();
    let mut result: Vec<(usize, usize)> = Vec::new();
    let mut open: Option<usize> = Option::None;
    let mut i: usize = 0;
    while i < n
        invariant
            i <= n,
            n == text@.len(),
            match open {
                Option::Some(o) => o < i,
                Option::None => true,
            },
            word_spans(text@) == result@ + scan_spans(
                text@,
                i as int,
                match open {
                    Option::Some(o) => Option::Some(o as int),
                    Option::None => Option::None,
                },
                |c: char| is_word_char(c),
            ),
        decreases n - i,
    {
        let ghost prev = result@;
        let c = s.get_char(i);
        if c.is_alphanumeric() || c == 'æ' || c == '-' {
            if open.is_none() {
                open = Option::Some(i);
            }
        } else {
            match open {
                Option::Some(o) => {
                    result.push((o, i));
                    proof {
                        assert(prev + (seq![(o, i)] + scan_spans(
                            text@,
                            i + 1int,
                            Option::None,
                            |c: char| is_word_char(c),
                        )) =~= result@ + scan_spans(
                            text@,
                            i + 1int,
                            Option::None,
                            |c: char| is_word_char(c),
                        ));
                    }
                    open = Option::None;
                },
                Option::None => {},
            }
        }
        i = i + 1;
    }
    match open {
        Option::Some(o) => {
            let ghost prev = result@;
            result.push((o, n));
            proof {
                assert(prev + seq![(o, n)] =~= result@);
                assert(result@ + Seq::<(usize, usize)>::empty() =~= result@);
            }
        },
        Option::None => {
            proof {
                assert(result@ + Seq::<(usize, usize)>::empty() =~= result@);
            }
        },
    }
    result
}

/// En-dash and em-dash become a space; everything else stays.
pub open spec fn map_dash(c: char) -> char {
    if c == '–' || c == '—' {
        ' '
    } else {
        c
    }
}

/// A text with its dashes turned into spaces.
pub open spec fn dashes_mapped(s: Seq<char>) -> Seq<char> {
    s.map_values(|c: char| map_dash(c))
}

/// Replaces en-dash and em-dash with a space, character for character.
pub fn replace_dashes(text: &String) -> (r: String)
    ensures
        r@ == dashes_mapped(text@),
{
    let s = text.as_str();
    let n = s.unicode_len();
    let mut out = String::new();
    let mut i: usize = 0;
    while i < n
        invariant
            i <= n,
            n == text@.len(),
            out@ == dashes_mapped(text@).take(i as int),
        decreases n - i,
    {
        let ghost prev = out@;
        let c = s.get_char(i);
        if c == '–' || c == '—' {
            out.append(" ");
            proof {
                reveal_strlit(" ");
            }
        } else {
            let piece = s.substring_char(i, i + 1);
            out.append(piece);
        }
        proof {
            assert(out@ =~= dashes_mapped(text@).take(i + 1int));
        }
        i = i + 1;
    }
    proof {
        assert(dashes_mapped(text@).take(n as int) =~= dashes_mapped(text@));
    }
    out
}

/// A text with every possessive marker removed: each apostrophe-s pair
/// goes, scanning left to right.
pub open spec fn possessive_stripped(s: Seq<char>) -> Seq<char>
    decreases s.len(),
{
    if s.len() == 0 {
        s
    } else if s.len() >= 2 && s[0] == '\'' && s[1] == 's' {
        possessive_stripped(s.skip(2))
    } else {
        seq![s[0]] + possessive_stripped(s.skip(1))
    }
}

/// Removes each apostrophe-s pair, scanning left to right.
pub fn strip_possessive(text: &String) -> (r: String)
    ensures
        r@ == possessive_stripped(text@),
{
    let s = text.as_str();
    let n = s.unicode_len();
    let mut out = String::new();
    let mut i: usize = 0;
    proof {
        assert(text@.skip(0int) =~= text@);
        assert(Seq::<char>::empty() + possessive_stripped(text@) =~= possessive_stripped(text@));
    }
    while i < n
        invariant
            i <= n,
            n == text@.len(),
            possessive_stripped(text@) == out@ + possessive_stripped(text@.skip(i as int)),
        decreases n - i,
    {
        let ghost prev = out@;
        let ghost rest = text@.skip(i as int);
        let c = s.get_char(i);
        if i + 1 < n && c == '\'' && s.get_char(i + 1) == 's' {
            proof {
                assert(rest[0] == '\'' && rest[1] == 's');
                assert(rest.skip(2) =~= text@.skip(i + 2int));
            }
            i = i + 2;
        } else {
            let piece = s.substring_char(i, i + 1);
            out.append(piece);
            proof {
                assert(rest.len() >= 2 ==> !(rest[0] == '\'' && rest[1] == 's'));
                assert(seq![rest[0]] =~= text@.subrange(i as int, i + 1int));
                assert(rest.skip(1) =~= text@.skip(i + 1int));
                assert(prev + (seq![rest[0]] + possessive_stripped(text@.skip(i + 1int))) =~= out@
                    + possessive_stripped(text@.skip(i + 1int)));
            }
            i = i + 1;
        }
    }
    proof {
        assert(text@.skip(n as int) =~= Seq::<char>::empty());
        assert(out@ + Seq::<char>::empty() =~= out@);
    }
    out
}

/// A character that survives query normalization: a basic letter or
/// digit, the ash letter, a hyphen, or whitespace.
pub open spec fn keep_query_char(c: char) -> bool {
    ||| 48 <= c as u32 <= 57
    ||| 65 <= c as u32 <= 90
    ||| 97 <= c as u32 <= 122
    ||| c == 'æ'
    ||| c == '-'
    ||| is_white(c)
}

/// A text reduced to the characters that survive query normalization.
pub open spec fn query_filtered(s: Seq<char>) -> Seq<char>
    decreases s.len(),
{
    if s.len() == 0 {
        s
    } else if keep_query_char(s[0]) {
        seq![s[0]] + query_filtered(s.skip(1))
    } else {
        query_filtered(s.skip(1))
    }
}

/// Drops every character that does not survive query normalization.
pub fn filter_searchable(text: &String) -> (r: String)
    ensures
        r@ == query_filtered(text@),
{
    let s = text.as_str();
    let n = s.unicode_len();
    let mut out = String::new();
    let mut i: usize = 0;
    proof {
        assert(text@.skip(0int) =~= text@);
        assert(Seq::<char>::empty() + query_filtered(text@) =~= query_filtered(text@));
    }
    while i < n
        invariant
            i <= n,
            n == text@.len(),
            query_filtered(text@) == out@ + query_filtered(text@.skip(i as int)),
        decreases n - i,
    {
        let ghost prev = out@;
        let ghost rest = text@.skip(i as int);
        let c = s.get_char(i);
        let u = c as u32;
        let keep = (48 <= u && u <= 57) || (65 <= u && u <= 90) || (97 <= u && u <= 122) || c
            == 'æ' || c == '-' || c.is_whitespace();
        proof {
            assert(rest[0] == text@[i as int]);
            assert(rest.skip(1) =~= text@.skip(i + 1int));
        }
        if keep {
            let piece = s.substring_char(i, i + 1);
            out.append(piece);
            proof {
                assert(seq![rest[0]] =~= text@.subrange(i as int, i + 1int));
                assert(prev + (seq![rest[0]] + query_filtered(text@.skip(i + 1int))) =~= out@
                    + query_filtered(text@.skip(i + 1int)));
            }
        }
        i = i + 1;
    }
    proof {
        assert(text@.skip(n as int) =~= Seq::<char>::empty());
        assert(out@ + Seq::<char>::empty() =~= out@);
    }
    out
}

/// What query text looks like after full normalization: dashes to
/// spaces, possessives stripped, lowercased, reduced to searchable
/// characters.
pub open spec fn spec_splittable(s: Seq<char>) -> Seq<char> {
    query_filtered(lower_of(possessive_stripped(dashes_mapped(s))))
}

/// Normalizes query text the same way verse text is normalized before
/// indexing, so that query stems can match index stems.
pub fn make_splittable(text: &String) -> (r: String)
    ensures
        r@ == spec_splittable(text@),
{
    let dashed = replace_dashes(text);
    let stripped = strip_possessive(&dashed);
    let lowered = lowercase(stripped.as_str());
    filter_searchable(&lowered)
}

/// The texts that a span list cuts from a text.
pub open spec fn spans_to_texts(s: Seq<char>, spans: Seq<(usize, usize)>) -> Seq<Seq<char>> {
    spans.map_values(|p: (usize, usize)| s.subrange(p.0 as int, p.1 as int))
}

/// The views of a list of strings.
pub open spec fn strings_view(v: Seq<String>) -> Seq<Seq<char>> {
    v.map_values(|t: String| t@)
}

/// Splits a text at whitespace into its maximal nonblank words.
pub fn split_whitespace_terms(text: &String) -> (r: Vec<String>)
    ensures
        strings_view(r@) == spans_to_texts(text@, token_spans(text@)),
{
    let s = text.as_str();
    let n = s.unicode_len();
    let mut result: Vec<String> = Vec::new();
    let mut open: Option<usize> = Option::None;
    let mut i: usize = 0;
    let ghost mut taken: Seq<(usize, usize)> = Seq::empty();
    proof {
        assert(Seq::<(usize, usize)>::empty() + token_spans(text@) =~= token_spans(text@));
        assert(strings_view(result@) =~~= spans_to_texts(text@, taken));
    }
    while i < n
        invariant
            i <= n,
            n == text@.len(),
            match open {
                Option::Some(o) => o < i,
                Option::None => true,
            },
            token_spans(text@) == taken + scan_spans(
                text@,
                i as int,
                match open {
                    Option::Some(o) => Option::Some(o as int),
                    Option::None => Option::None,
                },
                |c: char| !is_white(c),
            ),
            strings_view(result@) == spans_to_texts(text@, taken),
        decreases n - i,
    {
        let c = s.get_char(i);
        if !c.is_whitespace() {
            if open.is_none() {
                open = Option::Some(i);
            }
        } else {
            match open {
                Option::Some(o) => {
                    let ghost prev = taken;
                    let ghost prev_res = result@;
                    let piece = s.substring_char(o, i).to_owned();
                    result.push(piece);
                    proof {
                        taken = taken.push((o, i));
                        assert(prev + (seq![(o, i)] + scan_spans(
                            text@,
                            i + 1int,
                            Option::None,
                            |c: char| !is_white(c),
                        )) =~= taken + scan_spans(
                            text@,
                            i + 1int,
                            Option::None,
                            |c: char| !is_white(c),
                        ));
                        assert forall|k: int| 0 <= k < strings_view(result@).len() implies
                            strings_view(result@)[k] == spans_to_texts(text@, taken)[k] by {
                            if k < prev_res.len() {
                                assert(strings_view(prev_res)[k] == spans_to_texts(
                                    text@,
                                    prev,
                                )[k]);
                            }
                        }
                        assert(strings_view(result@) =~~= spans_to_texts(text@, taken));
                    }
                    open = Option::None;
                },
                Option::None => {},
            }
        }
        i = i + 1;
    }
    match open {
        Option::Some(o) => {
            let ghost prev = taken;
            let ghost prev_res = result@;
            let piece = s.substring_char(o, n).to_owned();
            result.push(piece);
            proof {
                taken = taken.push((o, n));
                assert(prev + seq![(o, n)] =~= taken);
                assert(taken + Seq::<(usize, usize)>::empty() =~= taken);
                assert forall|k: int| 0 <= k < strings_view(result@).len() implies
                    strings_view(result@)[k] == spans_to_texts(text@, taken)[k] by {
                    if k < prev_res.len() {
                        assert(strings_view(prev_res)[k] == spans_to_texts(text@, prev)[k]);
                    }
                }
                assert(strings_view(result@) =~~= spans_to_texts(text@, taken));
            }
        },
        Option::None => {
            proof {
                assert(taken + Seq::<(usize, usize)>::empty() =~= taken);
            }
        },
    }
    result
}

} // verus!
