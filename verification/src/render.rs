//! Rendering matched verses: turning packed highlight data back into
//! spans, putting spans in order, merging overlaps, and wrapping each
//! highlighted stretch of the original text in a match marker.
use vstd::prelude::*;
use crate::packing::{Packed256, unpack_indices, unpack_lengths, unpack_indices_value,
    unpack_lengths_value, well_formed_packed};
use crate::encode::CompactPosting;

verus! {

/// The decimal digit for one value below ten.
pub open spec fn digit_char(d: int) -> char {
    if d == 0 {
        '0'
    } else if d == 1 {
        '1'
    } else if d == 2 {
        '2'
    } else if d == 3 {
        '3'
    } else if d == 4 {
        '4'
    } else if d == 5 {
        '5'
    } else if d == 6 {
        '6'
    } else if d == 7 {
        '7'
    } else if d == 8 {
        '8'
    } else {
        '9'
    }
}

/// The decimal notation of a number, most significant digit first.
pub open spec fn dec_of(n: int) -> Seq<char>
    decreases n,
{
    if n < 10 {
        seq![digit_char(n)]
    } else {
        dec_of(n / 10).push(digit_char(n % 10))
    }
}

/// One decimal digit as text.
fn digit_str(d: u32) -> (r: &'static str)
    requires
        d < 10,
    ensures
        r@ == seq![digit_char(d as int)],
{
    let s: &'static str = if d == 0 {
        "0"
    } else if d == 1 {
        "1"
    } else if d == 2 {
        "2"
    } else if d == 3 {
        "3"
    } else if d == 4 {
        "4"
    } else if d == 5 {
        "5"
    } else if d == 6 {
        "6"
    } else if d == 7 {
        "7"
    } else if d == 8 {
        "8"
    } else {
        "9"
    };
    proof {
        reveal_strlit("0");
        reveal_strlit("1");
        reveal_strlit("2");
        reveal_strlit("3");
        reveal_strlit("4");
        reveal_strlit("5");
        reveal_strlit("6");
        reveal_strlit("7");
        reveal_strlit("8");
        reveal_strlit("9");
        assert(s@ =~= seq![digit_char(d as int)]);
    }
    s
}

/// Appends the decimal notation of a number.
pub fn append_decimal(out: &mut String, n: u32)
    ensures
        final(out)@ == old(out)@ + dec_of(n as int),
    decreases n,
{
    if n < 10 {
        out.append(digit_str(n));
        proof {
            assert(final(out)@ =~= old(out)@ + dec_of(n as int));
        }
    } else {
        append_decimal(out, n / 10);
        out.append(digit_str(n % 10));
        proof {
            assert(final(out)@ =~= old(out)@ + dec_of(n as int));
        }
    }
}

/// The occurrence spans of one packed posting: offsets zipped with
/// lengths, cut to the shorter list.
pub open spec fn zip_spans(offs: Seq<u16>, lens: Seq<u8>) -> Seq<(u16, u8)> {
    Seq::new(
        if offs.len() <= lens.len() {
            offs.len()
        } else {
            lens.len()
        },
        |i: int| (offs[i], lens[i]),
    )
}

/// Unpacks one posting into its (offset, length) highlight pairs.
pub fn extract_highlights(p: &CompactPosting) -> (r: Vec<(u16, u8)>)
    requires
        well_formed_packed(p.offsets.value()),
    ensures
        r@ == zip_spans(
            unpack_indices_value(p.offsets.value()),
            unpack_lengths_value(p.lengths as nat),
        ),
{
    let offs = unpack_indices(p.offsets);
    let lens = unpack_lengths(p.lengths);
    let n = if offs.len() <= lens.len() {
        offs.len()
    } else {
        lens.len()
    };
    let mut r: Vec<(u16, u8)> = Vec::new();
    let mut i: usize = 0;
    while i < n
        invariant
            i <= n,
            n == zip_spans(offs@, lens@).len(),
            n <= offs@.len() && n <= lens@.len(),
            r@ == zip_spans(offs@, lens@).take(i as int),
        decreases n - i,
    {
        r.push((offs[i], lens[i]));
        proof {
            assert(r@ =~= zip_spans(offs@, lens@).take(i + 1int));
        }
        i = i + 1;
    }
    proof {
        assert(zip_spans(offs@, lens@).take(n as int) =~= zip_spans(offs@, lens@));
    }
    r
}

/// Highlight order: by offset, then by length.
pub open spec fn span_le(a: (u16, u8), b: (u16, u8)) -> bool {
    a.0 < b.0 || (a.0 == b.0 && a.1 <= b.1)
}

/// A highlight list in ascending order.
pub open spec fn sorted_spans(s: Seq<(u16, u8)>) -> bool {
    forall|i: int, j: int| 0 <= i < j < s.len() ==> span_le(s[i], s[j])
}

/// A highlight placed where it belongs in an ascending list: after every
/// entry not above it.
pub open spec fn insert_span(s: Seq<(u16, u8)>, x: (u16, u8)) -> Seq<(u16, u8)>
    decreases s.len(),
{
    if s.len() == 0 {
        seq![x]
    } else if span_le(s.last(), x) {
        s.push(x)
    } else {
        insert_span(s.drop_last(), x).push(s.last())
    }
}

/// A highlight list rearranged into ascending order, stably.
pub open spec fn sort_spans(s: Seq<(u16, u8)>) -> Seq<(u16, u8)>
    decreases s.len(),
{
    if s.len() == 0 {
        s
    } else {
        insert_span(sort_spans(s.drop_last()), s.last())
    }
}

/// Inserting keeps ascending order and adds exactly the new highlight.
proof fn lemma_insert_span_props(s: Seq<(u16, u8)>, x: (u16, u8))
    requires
        sorted_spans(s),
    ensures
        sorted_spans(insert_span(s, x)),
        insert_span(s, x).len() == s.len() + 1,
        forall|i: int|
            0 <= i < insert_span(s, x).len() ==> (#[trigger] insert_span(s, x)[i] == x
                || s.contains(insert_span(s, x)[i])),
    decreases s.len(),
{
    let r = insert_span(s, x);
    if s.len() == 0 {
    } else if span_le(s.last(), x) {
        assert forall|i: int, j: int| 0 <= i < j < r.len() implies span_le(r[i], r[j]) by {
            if j == s.len() {
                assert(r[j] == x);
                assert(r[i] == s[i]);
                if i < s.len() - 1 {
                    assert(span_le(s[i], s.last()));
                }
            } else {
                assert(r[i] == s[i] && r[j] == s[j]);
            }
        }
        assert forall|i: int| 0 <= i < r.len() implies (#[trigger] r[i] == x || s.contains(
            r[i],
        )) by {
            if i < s.len() {
                assert(r[i] == s[i]);
            }
        }
    } else {
        assert(sorted_spans(s.drop_last()));
        lemma_insert_span_props(s.drop_last(), x);
        let inner = insert_span(s.drop_last(), x);
        assert forall|i: int, j: int| 0 <= i < j < r.len() implies span_le(r[i], r[j]) by {
            if j < inner.len() {
                assert(r[i] == inner[i] && r[j] == inner[j]);
            } else {
                assert(r[j] == s.last());
                assert(r[i] == inner[i]);
                if inner[i] == x {
                } else {
                    let si = choose|m: int|
                        0 <= m < s.drop_last().len() && s.drop_last()[m] == inner[i];
                    assert(s[si] == inner[i]);
                    if si < s.len() - 1 {
                        assert(span_le(s[si], s.last()));
                    }
                }
            }
        }
        assert forall|i: int| 0 <= i < r.len() implies (#[trigger] r[i] == x || s.contains(
            r[i],
        )) by {
            if i < inner.len() {
                assert(r[i] == inner[i]);
                if inner[i] != x {
                    let si = choose|m: int|
                        0 <= m < s.drop_last().len() && s.drop_last()[m] == inner[i];
                    assert(s[si] == inner[i]);
                }
            } else {
                assert(r[i] == s.last());
                assert(s.contains(s.last()));
            }
        }
    }
}

/// Sorting yields ascending order over exactly the given highlights.
pub proof fn lemma_sort_spans_props(s: Seq<(u16, u8)>)
    ensures
        sorted_spans(sort_spans(s)),
        sort_spans(s).len() == s.len(),
        forall|i: int|
            0 <= i < sort_spans(s).len() ==> s.contains(#[trigger] sort_spans(s)[i]),
    decreases s.len(),
{
    if s.len() > 0 {
        lemma_sort_spans_props(s.drop_last());
        lemma_insert_span_props(sort_spans(s.drop_last()), s.last());
        let r = sort_spans(s);
        assert forall|i: int| 0 <= i < r.len() implies s.contains(#[trigger] r[i]) by {
            if r[i] == s.last() {
                assert(s[s.len() - 1] == s.last());
            } else {
                assert(sort_spans(s.drop_last()).contains(r[i]));
                let m = choose|m: int|
                    0 <= m < sort_spans(s.drop_last()).len() && sort_spans(s.drop_last())[m]
                        == r[i];
                assert(s.drop_last().contains(r[i]));
                let m2 = choose|m2: int|
                    0 <= m2 < s.drop_last().len() && s.drop_last()[m2] == r[i];
                assert(s[m2] == r[i]);
            }
        }
    }
}

/// Where a highlight belongs in an ascending list: inserting there is
/// the stable placement.
proof fn lemma_insert_span_at(s: Seq<(u16, u8)>, x: (u16, u8), pos: int)
    requires
        0 <= pos <= s.len(),
        forall|i: int| pos <= i < s.len() ==> !span_le(#[trigger] s[i], x),
        pos > 0 ==> span_le(s[pos - 1], x),
    ensures
        insert_span(s, x) == s.insert(pos, x),
    decreases s.len(),
{
    if s.len() == 0 {
        assert(insert_span(s, x) =~= s.insert(0, x));
    } else if pos == s.len() {
        assert(span_le(s.last(), x));
        assert(insert_span(s, x) =~= s.insert(pos, x));
    } else {
        assert(!span_le(s.last(), x));
        lemma_insert_span_at(s.drop_last(), x, pos);
        assert(insert_span(s, x) =~= s.insert(pos, x));
    }
}

/// Sorts highlights ascending by offset, then length.
pub fn sort_highlights(v: &Vec<(u16, u8)>) -> (r: Vec<(u16, u8)>)
    ensures
        r@ == sort_spans(v@),
{
    let mut r: Vec<(u16, u8)> = Vec::new();
    let mut k: usize = 0;
    proof {
        assert(v@.take(0int) =~= Seq::<(u16, u8)>::empty());
    }
    while k < v.len()
        invariant
            k <= v@.len(),
            r@ == sort_spans(v@.take(k as int)),
        decreases v@.len() - k,
    {
        let x = v[k];
        let mut pos: usize = r.len();
        while pos > 0 && !(r[pos - 1].0 < x.0 || (r[pos - 1].0 == x.0 && r[pos - 1].1 <= x.1))
            invariant
                pos <= r@.len(),
                forall|i: int| pos <= i < r@.len() ==> !span_le(#[trigger] r@[i], x),
            decreases pos,
        {
            pos = pos - 1;
        }
        let ghost prev = r@;
        r.insert(pos, x);
        proof {
            lemma_insert_span_at(prev, x, pos as int);
            assert(v@.take(k + 1int).drop_last() =~= v@.take(k as int));
            assert(r@ == sort_spans(v@.take(k + 1int)));
        }
        k = k + 1;
    }
    proof {
        assert(v@.take(v@.len() as int) =~= v@);
    }
    r
}

/// Highlights as (start, end) ranges in text positions.
pub open spec fn widen_spans(s: Seq<(u16, u8)>) -> Seq<(usize, usize)> {
    s.map_values(|p: (u16, u8)| (p.0 as usize, (p.0 + p.1) as usize))
}

/// Turns (offset, length) highlights into (start, end) ranges.
pub fn widen_highlights(v: &Vec<(u16, u8)>) -> (r: Vec<(usize, usize)>)
    ensures
        r@ == widen_spans(v@),
{
    let mut r: Vec<(usize, usize)> = Vec::new();
    let mut k: usize = 0;
    while k < v.len()
        invariant
            k <= v@.len(),
            r@ == widen_spans(v@.take(k as int)),
        decreases v@.len() - k,
    {
        let (off, len) = v[k];
        r.push((off as usize, off as usize + len as usize));
        proof {
            assert(r@ =~= widen_spans(v@.take(k + 1int)));
        }
        k = k + 1;
    }
    proof {
        assert(widen_spans(v@.take(v@.len() as int)) =~= widen_spans(v@));
    }
    r
}

/// Every range is nonempty and ends inside a text of length `len`.
pub open spec fn ranges_wf(s: Seq<(usize, usize)>, len: int) -> bool {
    forall|i: int| 0 <= i < s.len() ==> ((#[trigger] s[i]).0 < s[i].1 && s[i].1 <= len)
}

/// Ranges in ascending start order.
pub open spec fn starts_sorted(s: Seq<(usize, usize)>) -> bool {
    forall|i: int, j: int| 0 <= i < j < s.len() ==> (#[trigger] s[i]).0 <= (#[trigger] s[j]).0
}

/// Ranges that never touch: each ends at or before the next begins.
pub open spec fn ranges_disjoint(s: Seq<(usize, usize)>) -> bool {
    forall|i: int, j: int| 0 <= i < j < s.len() ==> (#[trigger] s[i]).1 <= (#[trigger] s[j]).0
}

/// Overlapping or touching ranges folded together, left to right.
pub open spec fn merge_spans(s: Seq<(usize, usize)>) -> Seq<(usize, usize)>
    decreases s.len(),
{
    if s.len() <= 1 {
        s
    } else {
        let m = merge_spans(s.drop_last());
        let last = s.last();
        if m.len() == 0 {
            seq![last]
        } else if last.0 <= m.last().1 {
            let prev = m.last();
            m.drop_last().push(
                (
                    prev.0,
                    if last.1 >= prev.1 {
                        last.1
                    } else {
                        prev.1
                    },
                ),
            )
        } else {
            m.push(last)
        }
    }
}

/// Merging sorted well-formed ranges yields disjoint well-formed ranges.
pub proof fn lemma_merge_spans_props(s: Seq<(usize, usize)>, len: int)
    requires
        starts_sorted(s),
        ranges_wf(s, len),
    ensures
        ranges_wf(merge_spans(s), len),
        ranges_disjoint(merge_spans(s)),
        s.len() > 0 ==> merge_spans(s).len() > 0,
        merge_spans(s).len() > 0 ==> s.len() > 0 && merge_spans(s).last().0 <= s.last().0,
    decreases s.len(),
{
    if s.len() > 1 {
        assert(starts_sorted(s.drop_last()));
        assert(ranges_wf(s.drop_last(), len));
        lemma_merge_spans_props(s.drop_last(), len);
        let m = merge_spans(s.drop_last());
        let last = s.last();
        let r = merge_spans(s);
        if last.0 <= m.last().1 {
            let prev = m.last();
            let joined = (
                prev.0,
                if last.1 >= prev.1 {
                    last.1
                } else {
                    prev.1
                },
            );
            assert(r == m.drop_last().push(joined));
            assert forall|i: int, j: int| 0 <= i < j < r.len() implies (#[trigger] r[i]).1 <= (
            #[trigger] r[j]).0 by {
                if j < r.len() - 1 {
                    assert(r[i] == m[i] && r[j] == m[j]);
                } else {
                    assert(r[i] == m[i]);
                    assert(m[i].1 <= m[m.len() - 1].0);
                }
            }
        }
    }
}

/// The open marker placed before a highlighted stretch.
pub open spec fn mark_open() -> Seq<char> {
    "<span class=\"match\">"@
}

/// The close marker placed after a highlighted stretch.
pub open spec fn mark_close() -> Seq<char> {
    "</span>"@
}

/// One range wrapped in the match markers.
pub open spec fn splice(text: Seq<char>, sp: (usize, usize)) -> Seq<char> {
    text.take(sp.0 as int) + mark_open() + text.subrange(sp.0 as int, sp.1 as int) + mark_close()
        + text.skip(sp.1 as int)
}

/// A text with every range wrapped, spliced back to front so that
/// earlier offsets stay valid.
pub open spec fn apply_highlights(text: Seq<char>, spans: Seq<(usize, usize)>) -> Seq<char>
    decreases spans.len(),
{
    if spans.len() == 0 {
        text
    } else {
        apply_highlights(splice(text, spans.last()), spans.drop_last())
    }
}

/// Wraps one range of the text in the match markers.
fn splice_exec(acc: &String, f: usize, t: usize) -> (r: String)
    requires
        f <= t,
        t <= acc@.len(),
    ensures
        r@ == splice(acc@, (f, t)),
{
    let s = acc.as_str();
    let n = s.unicode_len();
    let mut out = s.substring_char(0, f).to_owned();
    out.append("<span class=\"match\">");
    out.append(s.substring_char(f, t));
    out.append("</span>");
    out.append(s.substring_char(t, n));
    proof {
        assert(acc@.take(f as int) =~= acc@.subrange(0, f as int));
        assert(acc@.skip(t as int) =~= acc@.subrange(t as int, acc@.len() as int));
        assert(out@ =~= splice(acc@, (f, t)));
    }
    out
}

/// Wraps every highlighted range of the verse text in match markers,
/// processing ranges back to front; the ranges must be sorted, disjoint,
/// and inside the text.
pub fn highlight_matches(text: &String, highlights: &Vec<(usize, usize)>) -> (r: String)
    requires
        ranges_wf(highlights@, text@.len() as int),
        ranges_disjoint(highlights@),
    ensures
        r@ == apply_highlights(text@, highlights@),
{
    let mut acc = text.clone();
    let mut i: usize = highlights.len();
    proof {
        assert(highlights@.take(i as int) =~= highlights@);
    }
    while i > 0
        invariant
            i <= highlights@.len(),
            ranges_wf(highlights@, text@.len() as int),
            ranges_disjoint(highlights@),
            apply_highlights(text@, highlights@) == apply_highlights(
                acc@,
                highlights@.take(i as int),
            ),
            i > 0 ==> highlights@[i - 1].1 <= acc@.len() && acc@.subrange(
                0,
                highlights@[i - 1].1 as int,
            ) == text@.subrange(0, highlights@[i - 1].1 as int),
        decreases i,
    {
        let (f, t) = highlights[i - 1];
        let ghost prev = acc@;
        acc = splice_exec(&acc, f, t);
        proof {
            assert(highlights@.take(i as int).last() == (f, t));
            assert(highlights@.take(i as int).drop_last() =~= highlights@.take(i - 1int));
            if i > 1 {
                let b = highlights@[i - 2].1 as int;
                assert(b <= f);
                assert forall|m: int| 0 <= m < b implies acc@[m] == text@[m] by {
                    assert(acc@[m] == prev.take(f as int)[m]);
                    assert(prev[m] == prev.subrange(0, highlights@[i - 1int].1 as int)[m]);
                    assert(text@[m] == text@.subrange(0, highlights@[i - 1int].1 as int)[m]);
                }
                assert(acc@.subrange(0, b) =~= text@.subrange(0, b));
            }
        }
        i = i - 1;
    }
    proof {
        assert(highlights@.take(0int) =~= Seq::<(usize, usize)>::empty());
    }
    acc
}

} // verus!
