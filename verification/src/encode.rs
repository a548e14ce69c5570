//! The compact encoder: renders the builder's words index into packed
//! fixed-width integers, validating the capacity ceilings that the bit
//! widths impose.  Exceeding a ceiling is a fatal build error, never a
//! silent truncation.
use vstd::prelude::*;
use crate::packing::{Packed256, pack_indices, pack_lengths, unpack_indices_value,
    unpack_lengths_value, well_formed_packed, lemma_indices_round_trip, lemma_lengths_round_trip};
use crate::index::{WordsIndex, WordsIndexView, words_view, Posting};

verus! {

/// Why an index cannot be encoded; every case is a fatal build error.
#[derive(Debug, Clone, Copy, PartialEq, Eq, Structural)]
pub enum EncodeError {
    TooManyOccurrences,
    OffsetTooLarge,
    ZeroLength,
    LengthTooLarge,
}

/// One packed posting: a verse id with its occurrence offsets in one
/// 256-bit value and its occurrence lengths in one 128-bit value.
#[derive(Debug, PartialEq, Eq)]
pub struct CompactPosting {
    pub id: u16,
    pub offsets: Packed256,
    pub lengths: u128,
}

/// One stem's packed bucket.
#[derive(Debug, PartialEq, Eq)]
pub struct CompactEntry {
    pub stem: String,
    pub postings: Vec<CompactPosting>,
}

/// The packed words index, statically addressable by stem then id.
#[derive(Debug, PartialEq, Eq)]
pub struct CompactWordsIndex {
    pub entries: Vec<CompactEntry>,
}

/// A span list within the encoder's hard ceilings: at most 22
/// occurrences, each offset at most 2046, each length from 1 to 31.
pub open spec fn span_list_encodable(spans: Seq<(usize, usize)>) -> bool {
    &&& spans.len() <= 22
    &&& forall|m: int|
        0 <= m < spans.len() ==> ((#[trigger] spans[m]).0 <= 2046 && 1 <= spans[m].1 <= 31)
}

/// A words index every span list of which fits the ceilings.
pub open spec fn encodable(w: WordsIndexView) -> bool {
    forall|j: int, k: int|
        0 <= j < w.len() && 0 <= k < w[j].1.len() ==> span_list_encodable(
            (#[trigger] w[j].1[k]).1,
        )
}

/// The offsets of a span list, in order.
pub open spec fn offsets_of(spans: Seq<(usize, usize)>) -> Seq<u16> {
    spans.map_values(|sp: (usize, usize)| sp.0 as u16)
}

/// The lengths of a span list, in order.
pub open spec fn lengths_of(spans: Seq<(usize, usize)>) -> Seq<u8> {
    spans.map_values(|sp: (usize, usize)| sp.1 as u8)
}

/// The compact index carries exactly the source index: the same stems in
/// the same order, the same ids in the same order, and packed values
/// that unpack to the recorded offsets and lengths.
pub open spec fn encodes(c: CompactWordsIndex, w: WordsIndexView) -> bool {
    &&& c.entries@.len() == w.len()
    &&& forall|j: int|
        0 <= j < w.len() ==> {
            let e = #[trigger] c.entries@[j];
            &&& e.stem@ == w[j].0
            &&& e.postings@.len() == w[j].1.len()
            &&& forall|k: int|
                0 <= k < w[j].1.len() ==> {
                    let p = #[trigger] e.postings@[k];
                    &&& p.id == w[j].1[k].0
                    &&& well_formed_packed(p.offsets.value())
                    &&& unpack_indices_value(p.offsets.value()) == offsets_of(w[j].1[k].1)
                    &&& unpack_lengths_value(p.lengths as nat) == lengths_of(w[j].1[k].1)
                }
        }
}

/// A violated ceiling that explains an encoder error for this index.
pub open spec fn encode_error_witness(w: WordsIndexView, e: EncodeError) -> bool {
    exists|j: int, k: int|
        0 <= j < w.len() && 0 <= k < w[j].1.len() && {
            let spans = (#[trigger] w[j].1[k]).1;
            match e {
                EncodeError::TooManyOccurrences => spans.len() > 22,
                EncodeError::OffsetTooLarge => exists|m: int|
                    0 <= m < spans.len() && (#[trigger] spans[m]).0 > 2046,
                EncodeError::ZeroLength => exists|m: int|
                    0 <= m < spans.len() && (#[trigger] spans[m]).1 == 0,
                EncodeError::LengthTooLarge => exists|m: int|
                    0 <= m < spans.len() && (#[trigger] spans[m]).1 > 31,
            }
        }
}

/// Packs one posting, or reports the first ceiling its spans violate.
fn encode_posting(p: &Posting) -> (r: Result<CompactPosting, EncodeError>)
    ensures
        match r {
            Result::Ok(cp) => {
                &&& span_list_encodable(p.spans@)
                &&& cp.id == p.id
                &&& well_formed_packed(cp.offsets.value())
                &&& unpack_indices_value(cp.offsets.value()) == offsets_of(p.spans@)
                &&& unpack_lengths_value(cp.lengths as nat) == lengths_of(p.spans@)
            },
            Result::Err(e) => {
                &&& !span_list_encodable(p.spans@)
                &&& match e {
                    EncodeError::TooManyOccurrences => p.spans@.len() > 22,
                    EncodeError::OffsetTooLarge => exists|m: int|
                        0 <= m < p.spans@.len() && (#[trigger] p.spans@[m]).0 > 2046,
                    EncodeError::ZeroLength => exists|m: int|
                        0 <= m < p.spans@.len() && (#[trigger] p.spans@[m]).1 == 0,
                    EncodeError::LengthTooLarge => exists|m: int|
                        0 <= m < p.spans@.len() && (#[trigger] p.spans@[m]).1 > 31,
                }
            },
        },
{
    if p.spans.len() > 22 {
        return Result::Err(EncodeError::TooManyOccurrences);
    }
    let mut offs: Vec<u16> = Vec::new();
    let mut lens: Vec<u8> = Vec::new();
    let mut m: usize = 0;
    while m < p.spans.len()
        invariant
            m <= p.spans@.len(),
            p.spans@.len() <= 22,
            offs@ == offsets_of(p.spans@.take(m as int)),
            lens@ == lengths_of(p.spans@.take(m as int)),
            forall|i: int|
                0 <= i < m ==> ((#[trigger] p.spans@[i]).0 <= 2046 && 1 <= p.spans@[i].1 <= 31),
        decreases p.spans@.len() - m,
    {
        let (off, len) = p.spans[m];
        if off > 2046 {
            return Result::Err(EncodeError::OffsetTooLarge);
        }
        if len == 0 {
            return Result::Err(EncodeError::ZeroLength);
        }
        if len > 31 {
            return Result::Err(EncodeError::LengthTooLarge);
        }
        let ghost prev_offs = offs@;
        let ghost prev_lens = lens@;
        offs.push(off as u16);
        lens.push(len as u8);
        proof {
            assert(offs@ =~= offsets_of(p.spans@.take(m + 1int)));
            assert(lens@ =~= lengths_of(p.spans@.take(m + 1int)));
        }
        m = m + 1;
    }
    proof {
        assert(p.spans@.take(p.spans@.len() as int) =~= p.spans@);
        assert(offs@ =~= offsets_of(p.spans@));
        assert(lens@ =~= lengths_of(p.spans@));
        assert(forall|i: int|
            0 <= i < offs@.len() ==> #[trigger] offs@[i] == p.spans@[i].0 as u16);
        assert(forall|i: int| 0 <= i < lens@.len() ==> #[trigger] lens@[i] == p.spans@[i].1 as u8);
        lemma_indices_round_trip(offs@);
        lemma_lengths_round_trip(lens@);
    }
    let offsets = pack_indices(&offs);
    let lengths = pack_lengths(&lens);
    Result::Ok(CompactPosting { id: p.id, offsets, lengths })
}

/// Renders the whole words index into its packed form, or reports the
/// first ceiling some span list violates.  Success exactly when every
/// span list fits the ceilings.
pub fn encode_words_index(w: &WordsIndex) -> (r: Result<CompactWordsIndex, EncodeError>)
    ensures
        match r {
            Result::Ok(c) => encodable(words_view(*w)) && encodes(c, words_view(*w)),
            Result::Err(e) => !encodable(words_view(*w)) && encode_error_witness(
                words_view(*w),
                e,
            ),
        },
{
    let ghost wv = words_view(*w);
    let mut entries: Vec<CompactEntry> = Vec::new();
    let mut j: usize = 0;
    while j < w.words.len()
        invariant
            j <= w.words@.len(),
            wv == words_view(*w),
            wv.len() == w.words@.len(),
            entries@.len() == j,
            forall|i: int|
                0 <= i < wv.len() ==> ((#[trigger] wv[i]).0 == w.words@[i].stem@ && wv[i].1
                    == w.words@[i].postings@.map_values(|p: Posting| (p.id, p.spans@))),
            forall|jj: int, kk: int|
                0 <= jj < j && 0 <= kk < wv[jj].1.len() ==> span_list_encodable(
                    (#[trigger] wv[jj].1[kk]).1,
                ),
            forall|jj: int|
                0 <= jj < j ==> {
                    let e = #[trigger] entries@[jj];
                    &&& e.stem@ == wv[jj].0
                    &&& e.postings@.len() == wv[jj].1.len()
                    &&& forall|kk: int|
                        0 <= kk < wv[jj].1.len() ==> {
                            let p = #[trigger] e.postings@[kk];
                            &&& p.id == wv[jj].1[kk].0
                            &&& well_formed_packed(p.offsets.value())
                            &&& unpack_indices_value(p.offsets.value()) == offsets_of(
                                wv[jj].1[kk].1,
                            )
                            &&& unpack_lengths_value(p.lengths as nat) == lengths_of(
                                wv[jj].1[kk].1,
                            )
                        }
                },
        decreases w.words@.len() - j,
    {
        let entry = &w.words[j];
        let mut postings: Vec<CompactPosting> = Vec::new();
        let mut k: usize = 0;
        while k < entry.postings.len()
            invariant
                k <= entry.postings@.len(),
                j < w.words@.len(),
                wv == words_view(*w),
                wv.len() == w.words@.len(),
                *entry == w.words@[j as int],
                wv[j as int].1 == entry.postings@.map_values(|p: Posting| (p.id, p.spans@)),
                wv[j as int].1.len() == entry.postings@.len(),
                postings@.len() == k,
                forall|kk: int|
                    0 <= kk < k ==> span_list_encodable((#[trigger] wv[j as int].1[kk]).1),
                forall|kk: int|
                    0 <= kk < k ==> {
                        let p = #[trigger] postings@[kk];
                        &&& p.id == wv[j as int].1[kk].0
                        &&& well_formed_packed(p.offsets.value())
                        &&& unpack_indices_value(p.offsets.value()) == offsets_of(
                            wv[j as int].1[kk].1,
                        )
                        &&& unpack_lengths_value(p.lengths as nat) == lengths_of(
                            wv[j as int].1[kk].1,
                        )
                    },
            decreases entry.postings@.len() - k,
        {
            proof {
                assert(wv[j as int].1[k as int] == (
                    entry.postings@[k as int].id,
                    entry.postings@[k as int].spans@,
                ));
            }
            let cp = match encode_posting(&entry.postings[k]) {
                Result::Ok(cp) => cp,
                Result::Err(e) => {
                    proof {
                        let spans = wv[j as int].1[k as int].1;
                        assert(spans == entry.postings@[k as int].spans@);
                        assert(!span_list_encodable(spans));
                        assert(!encodable(wv));
                        assert(0 <= j < wv.len() && 0 <= k < wv[j as int].1.len() && {
                            let sp = wv[j as int].1[k as int].1;
                            match e {
                                EncodeError::TooManyOccurrences => sp.len() > 22,
                                EncodeError::OffsetTooLarge => exists|m: int|
                                    0 <= m < sp.len() && (#[trigger] sp[m]).0 > 2046,
                                EncodeError::ZeroLength => exists|m: int|
                                    0 <= m < sp.len() && (#[trigger] sp[m]).1 == 0,
                                EncodeError::LengthTooLarge => exists|m: int|
                                    0 <= m < sp.len() && (#[trigger] sp[m]).1 > 31,
                            }
                        });
                        assert(encode_error_witness(wv, e));
                    }
                    return Result::Err(e);
                },
            };
            postings.push(cp);
            k = k + 1;
        }
        let stem = entry.stem.clone();
        entries.push(CompactEntry { stem, postings });
        j = j + 1;
    }
    Result::Ok(CompactWordsIndex { entries })
}

} // verus!
