//! The histogram-of-offsets matcher. The query's per-slice fingerprints are
//! looked up in the inverted index; every posting `(song, t)` found under a
//! fingerprint of query slice `s` votes for the alignment `t - s` of that
//! song. A true match concentrates votes at a single offset; noise spreads
//! them. Each candidate is scored by its winning bin against its mean bin:
//! the caller ranks by `freq * n / total`, the winning-bin count divided by
//! the mean bin count.

use vstd::prelude::*;

use crate::database::data_of;
use crate::database::index_of;
use crate::database::lemma_data_elem;
use crate::database::lemma_index_complete;
use crate::database::sig_key;
use crate::database::Posting;
use crate::fingerprint::Signature;

verus! {

/// The votes of one posting list against query slice `s`.
pub open spec fn posting_hits(postings: Seq<Posting>, s: int) -> Seq<(u32, i64)> {
    postings.map_values(|p: Posting| (p.0, (p.1 - s) as i64))
}

/// The votes of the first `j` fingerprints of query slice `s`.
pub open spec fn sig_hits(idx: Map<u64, Seq<Posting>>, sigs: Seq<Signature>, s: int, j: int) -> Seq<
    (u32, i64),
>
    decreases j,
{
    if j <= 0 {
        Seq::empty()
    } else {
        sig_hits(idx, sigs, s, j - 1) + (if idx.contains_key(sig_key(sigs[j - 1])) {
            posting_hits(idx[sig_key(sigs[j - 1])], s)
        } else {
            Seq::empty()
        })
    }
}

/// The votes of the first `t` query slices.
pub open spec fn hits_upto(idx: Map<u64, Seq<Posting>>, stream: Seq<Seq<Signature>>, t: int) -> Seq<
    (u32, i64),
>
    decreases t,
{
    if t <= 0 {
        Seq::empty()
    } else {
        hits_upto(idx, stream, t - 1) + sig_hits(
            idx,
            stream[t - 1],
            t - 1,
            stream[t - 1].len() as int,
        )
    }
}

/// Every vote of the query against the index, in emission order.
pub open spec fn hits_of(idx: Map<u64, Seq<Posting>>, stream: Seq<Seq<Signature>>) -> Seq<
    (u32, i64),
> {
    hits_upto(idx, stream, stream.len() as int)
}

/// Count one more vote for `off`: bump the first entry with that offset, or
/// append a fresh one.
pub open spec fn bump(h: Seq<(i64, u64)>, off: i64) -> Seq<(i64, u64)>
    decreases h.len(),
{
    if h.len() == 0 {
        seq![(off, 1u64)]
    } else if h[0].0 == off {
        seq![(h[0].0, (h[0].1 + 1) as u64)] + h.skip(1)
    } else {
        seq![h[0]] + bump(h.skip(1), off)
    }
}

/// The offset histogram of song `id` over the first `j` votes; offsets
/// appear in first-vote order.
pub open spec fn hist_upto(hits: Seq<(u32, i64)>, id: u32, j: int) -> Seq<(i64, u64)>
    decreases j,
{
    if j <= 0 {
        Seq::empty()
    } else {
        let h = hist_upto(hits, id, j - 1);
        if hits[j - 1].0 == id {
            bump(h, hits[j - 1].1)
        } else {
            h
        }
    }
}

pub open spec fn hist_of(hits: Seq<(u32, i64)>, id: u32) -> Seq<(i64, u64)> {
    hist_upto(hits, id, hits.len() as int)
}

/// Total votes of a histogram.
pub open spec fn hist_total(h: Seq<(i64, u64)>) -> int
    decreases h.len(),
{
    if h.len() == 0 {
        0
    } else {
        hist_total(h.drop_last()) + h.last().1
    }
}

/// The winning bin: largest count, smallest offset on ties.
pub open spec fn best_of(h: Seq<(i64, u64)>) -> (i64, u64)
    decreases h.len(),
{
    if h.len() <= 1 {
        h[0]
    } else {
        let r = best_of(h.drop_last());
        let x = h.last();
        if x.1 > r.1 || (x.1 == r.1 && x.0 < r.0) {
            x
        } else {
            r
        }
    }
}

/// One candidate: the song, its best-aligned offset (in slices), the vote
/// count of that offset, the number of distinct offsets voted for, and the
/// song's total votes. The score of the spec is `freq / (total / n)`, a
/// real-valued ratio the caller computes at the reporting boundary.
#[derive(Clone, Copy, Debug, PartialEq, Eq, Structural)]
pub struct Match {
    pub id: u32,
    pub offset: i64,
    pub freq: u64,
    pub n: u64,
    pub total: u64,
}

pub open spec fn match_of(h: Seq<(i64, u64)>, id: u32) -> Match {
    Match {
        id,
        offset: best_of(h).0,
        freq: best_of(h).1,
        n: h.len() as u64,
        total: hist_total(h) as u64,
    }
}

/// The candidates of songs `0 .. nid` with a nonempty histogram, in song
/// order.
pub open spec fn matches_upto(hits: Seq<(u32, i64)>, nid: int) -> Seq<Match>
    decreases nid,
{
    if nid <= 0 {
        Seq::empty()
    } else {
        let prev = matches_upto(hits, nid - 1);
        let h = hist_of(hits, (nid - 1) as u32);
        if h.len() > 0 {
            prev.push(match_of(h, (nid - 1) as u32))
        } else {
            prev
        }
    }
}

pub open spec fn matches_of(hits: Seq<(u32, i64)>, nid: int) -> Seq<Match> {
    matches_upto(hits, nid)
}

pub proof fn lemma_hist_total_add(a: Seq<(i64, u64)>, b: Seq<(i64, u64)>)
    ensures
        hist_total(a + b) == hist_total(a) + hist_total(b),
    decreases b.len(),
{
    if b.len() == 0 {
        assert(a + b =~= a);
    } else {
        lemma_hist_total_add(a, b.drop_last());
        assert((a + b).drop_last() =~= a + b.drop_last());
        assert((a + b).last() == b.last());
    }
}

pub proof fn lemma_hist_total_singleton(x: (i64, u64))
    ensures
        hist_total(seq![x]) == x.1,
{
    assert(seq![x].drop_last() =~= Seq::<(i64, u64)>::empty());
    assert(hist_total(Seq::<(i64, u64)>::empty()) == 0);
}

pub proof fn lemma_hist_total_nonneg(h: Seq<(i64, u64)>)
    ensures
        hist_total(h) >= 0,
    decreases h.len(),
{
    if h.len() > 0 {
        lemma_hist_total_nonneg(h.drop_last());
    }
}

/// A bump adds exactly one vote, and each entry's count stays below the
/// running total.
pub proof fn lemma_bump_props(h: Seq<(i64, u64)>, off: i64)
    requires
        forall|i: int| 0 <= i < h.len() ==> 1 <= (#[trigger] h[i]).1,
        forall|i: int| 0 <= i < h.len() ==> (#[trigger] h[i]).1 <= hist_total(h),
        hist_total(h) < u64::MAX,
    ensures
        hist_total(bump(h, off)) == hist_total(h) + 1,
        bump(h, off).len() <= h.len() + 1,
        forall|i: int| 0 <= i < bump(h, off).len() ==> 1 <= (#[trigger] bump(h, off)[i]).1,
        forall|i: int|
            0 <= i < bump(h, off).len() ==> (#[trigger] bump(h, off)[i]).1 <= hist_total(h) + 1,
    decreases h.len(),
{
    if h.len() == 0 {
        assert(bump(h, off) =~= seq![(off, 1u64)]);
        lemma_hist_total_singleton((off, 1u64));
    } else if h[0].0 == off {
        let tail = h.skip(1);
        assert(h =~= seq![h[0]] + tail);
        lemma_hist_total_add(seq![h[0]], tail);
        lemma_hist_total_singleton(h[0]);
        lemma_hist_total_nonneg(tail);
        let head = (h[0].0, (h[0].1 + 1) as u64);
        lemma_hist_total_add(seq![head], tail);
        lemma_hist_total_singleton(head);
        assert forall|i: int| 0 <= i < tail.len() implies 1 <= (#[trigger] tail[i]).1
            && tail[i].1 <= hist_total(h) by {
            assert(tail[i] == h[i + 1]);
        }
    } else {
        let tail = h.skip(1);
        assert(h =~= seq![h[0]] + tail);
        lemma_hist_total_add(seq![h[0]], tail);
        lemma_hist_total_singleton(h[0]);
        assert forall|i: int| 0 <= i < tail.len() implies 1 <= (#[trigger] tail[i]).1
            && tail[i].1 <= hist_total(tail) by {
            assert(tail[i] == h[i + 1]);
            lemma_count_le_total(tail, i);
        }
        lemma_bump_props(tail, off);
        lemma_hist_total_add(seq![h[0]], bump(tail, off));
        lemma_hist_total_nonneg(tail);
        assert forall|i: int| 0 <= i < bump(h, off).len() implies 1 <= (
        #[trigger] bump(h, off)[i]).1 && bump(h, off)[i].1 <= hist_total(h) + 1 by {
            if i == 0 {
                assert(bump(h, off)[0] == h[0]);
            } else {
                assert(bump(h, off)[i] == bump(tail, off)[i - 1]);
            }
        }
    }
}

/// Within a histogram of positive counts, each count is at most the total.
pub proof fn lemma_count_le_total(h: Seq<(i64, u64)>, i: int)
    requires
        0 <= i < h.len(),
    ensures
        h[i].1 <= hist_total(h),
    decreases h.len(),
{
    if i == h.len() - 1 {
        lemma_hist_total_nonneg(h.drop_last());
    } else {
        lemma_count_le_total(h.drop_last(), i);
        assert(h.drop_last()[i] == h[i]);
    }
}

/// Histogram counts never exceed the number of votes seen, and the total is
/// exactly the number of votes for the song.
pub proof fn lemma_hist_upto_bounds(hits: Seq<(u32, i64)>, id: u32, j: int)
    requires
        0 <= j <= hits.len(),
        j <= u64::MAX,
    ensures
        0 <= hist_total(hist_upto(hits, id, j)) <= j,
        forall|i: int|
            0 <= i < hist_upto(hits, id, j).len() ==> 1 <= (#[trigger] hist_upto(
                hits,
                id,
                j,
            )[i]).1 <= j,
        hist_upto(hits, id, j).len() <= j,
    decreases j,
{
    if j > 0 {
        lemma_hist_upto_bounds(hits, id, j - 1);
        let h = hist_upto(hits, id, j - 1);
        if hits[j - 1].0 == id {
            assert forall|i: int| 0 <= i < h.len() implies (#[trigger] h[i]).1 <= hist_total(
                h,
            ) by {
                lemma_count_le_total(h, i);
            }
            lemma_bump_props(h, hits[j - 1].1);
        }
    }
}

/// The exec bump: if the first `p` entries miss the offset and entry `p`
/// (when present) holds it, the bump updates entry `p` or appends.
pub proof fn lemma_bump_at(h: Seq<(i64, u64)>, off: i64, p: int)
    requires
        0 <= p <= h.len(),
        forall|m: int| 0 <= m < p ==> (#[trigger] h[m]).0 != off,
        p < h.len() ==> h[p].0 == off,
    ensures
        p < h.len() ==> bump(h, off) == h.update(p, (off, (h[p].1 + 1) as u64)),
        p == h.len() ==> bump(h, off) == h.push((off, 1u64)),
    decreases h.len(),
{
    if h.len() == 0 {
        assert(bump(h, off) =~= h.push((off, 1u64)));
    } else if h[0].0 == off {
        assert(p == 0);
        assert(bump(h, off) =~= h.update(0, (off, (h[0].1 + 1) as u64)));
    } else {
        lemma_bump_at(h.skip(1), off, p - 1);
        if p < h.len() {
            assert(h.skip(1)[p - 1] == h[p]);
            assert(bump(h, off) =~= h.update(p, (off, (h[p].1 + 1) as u64)));
        } else {
            assert(bump(h, off) =~= h.push((off, 1u64)));
        }
    }
}

/// A prefix's total never exceeds the whole histogram's.
pub proof fn lemma_hist_total_take_le(h: Seq<(i64, u64)>, q: int)
    requires
        0 <= q <= h.len(),
    ensures
        hist_total(h.take(q)) <= hist_total(h),
    decreases h.len() - q,
{
    if q < h.len() {
        lemma_hist_total_take_le(h, q + 1);
        assert(h.take(q + 1).drop_last() =~= h.take(q));
        assert(h.take(q + 1).last() == h[q]);
    } else {
        assert(h.take(q) =~= h);
    }
}


/// The query stream prefixed with `k` slices that carry no fingerprints.
pub open spec fn blank_prefix(k: nat, stream: Seq<Seq<Signature>>) -> Seq<Seq<Signature>> {
    Seq::new(k, |i: int| Seq::<Signature>::empty()) + stream
}

/// A vote moved `k` slices later in query time: the offset drops by `k`.
pub open spec fn shift_hit(h: (u32, i64), k: int) -> (u32, i64) {
    (h.0, (h.1 - k) as i64)
}

pub open spec fn shift_entry(e: (i64, u64), k: int) -> (i64, u64) {
    ((e.0 - k) as i64, e.1)
}

pub open spec fn shift_match(m: Match, k: int) -> Match {
    Match { id: m.id, offset: (m.offset - k) as i64, freq: m.freq, n: m.n, total: m.total }
}

/// Every vote's offset lies strictly between `-stream.len()` and `2^32`.
pub proof fn lemma_hits_bounded(idx: Map<u64, Seq<Posting>>, stream: Seq<Seq<Signature>>, t: int)
    requires
        0 <= t <= stream.len(),
        stream.len() <= 0x1_0000_0000,
    ensures
        forall|i: int|
            0 <= i < hits_upto(idx, stream, t).len() ==> -(stream.len() as int) < (
            #[trigger] hits_upto(idx, stream, t)[i]).1 < 0x1_0000_0000,
    decreases t,
{
    if t > 0 {
        lemma_hits_bounded(idx, stream, t - 1);
        let prev = hits_upto(idx, stream, t - 1);
        let tail = sig_hits(idx, stream[t - 1], t - 1, stream[t - 1].len() as int);
        lemma_sig_hits_bounded(
            idx,
            stream[t - 1],
            t - 1,
            stream[t - 1].len() as int,
            stream.len() as int,
        );
        assert forall|i: int| 0 <= i < hits_upto(idx, stream, t).len() implies -(stream.len() as int)
            < (#[trigger] hits_upto(idx, stream, t)[i]).1 < 0x1_0000_0000 by {
            if i < prev.len() {
                assert(hits_upto(idx, stream, t)[i] == prev[i]);
            } else {
                assert(hits_upto(idx, stream, t)[i] == tail[i - prev.len()]);
            }
        }
    }
}

pub proof fn lemma_sig_hits_bounded(
    idx: Map<u64, Seq<Posting>>,
    sigs: Seq<Signature>,
    s: int,
    j: int,
    slen: int,
)
    requires
        0 <= s < slen,
        slen <= 0x1_0000_0000,
    ensures
        forall|i: int|
            0 <= i < sig_hits(idx, sigs, s, j).len() ==> -(slen as int) < (#[trigger] sig_hits(
                idx,
                sigs,
                s,
                j,
            )[i]).1 < 0x1_0000_0000,
    decreases j,
{
    if j > 0 {
        lemma_sig_hits_bounded(idx, sigs, s, j - 1, slen);
        let prev = sig_hits(idx, sigs, s, j - 1);
        let key = sig_key(sigs[j - 1]);
        assert forall|i: int| 0 <= i < sig_hits(idx, sigs, s, j).len() implies -(slen as int) < (
        #[trigger] sig_hits(idx, sigs, s, j)[i]).1 < 0x1_0000_0000 by {
            if i < prev.len() {
                assert(sig_hits(idx, sigs, s, j)[i] == prev[i]);
            } else if idx.contains_key(key) {
                let ph = posting_hits(idx[key], s);
                assert(sig_hits(idx, sigs, s, j)[i] == ph[i - prev.len()]);
                assert(ph[i - prev.len()] == (
                    idx[key][i - prev.len()].0,
                    (idx[key][i - prev.len()].1 - s) as i64,
                ));
            }
        }
    }
}

/// One posting list, read `k` slices later: the same votes, shifted.
proof fn lemma_posting_hits_shift(postings: Seq<Posting>, s: int, k: int)
    requires
        0 <= s,
        0 <= k,
        s + k <= u32::MAX,
    ensures
        posting_hits(postings, s + k) == posting_hits(postings, s).map_values(
            |h: (u32, i64)| shift_hit(h, k),
        ),
{
    assert(posting_hits(postings, s + k) =~= posting_hits(postings, s).map_values(
        |h: (u32, i64)| shift_hit(h, k),
    ));
}

proof fn lemma_sig_hits_shift(
    idx: Map<u64, Seq<Posting>>,
    sigs: Seq<Signature>,
    s: int,
    j: int,
    k: int,
)
    requires
        0 <= s,
        0 <= k,
        s + k <= u32::MAX,
    ensures
        sig_hits(idx, sigs, s + k, j) == sig_hits(idx, sigs, s, j).map_values(
            |h: (u32, i64)| shift_hit(h, k),
        ),
    decreases j,
{
    if j <= 0 {
        assert(sig_hits(idx, sigs, s + k, j) =~= sig_hits(idx, sigs, s, j).map_values(
            |h: (u32, i64)| shift_hit(h, k),
        ));
    } else {
        lemma_sig_hits_shift(idx, sigs, s, j - 1, k);
        if idx.contains_key(sig_key(sigs[j - 1])) {
            lemma_posting_hits_shift(idx[sig_key(sigs[j - 1])], s, k);
        }
        assert(sig_hits(idx, sigs, s + k, j) =~= sig_hits(idx, sigs, s, j).map_values(
            |h: (u32, i64)| shift_hit(h, k),
        ));
    }
}

/// Votes of the prefixed stream, slice by slice: the blank slices vote for
/// nothing, and each later slice votes as before with its offsets down by
/// `k`.
proof fn lemma_hits_upto_shift(
    idx: Map<u64, Seq<Posting>>,
    stream: Seq<Seq<Signature>>,
    k: nat,
    t: int,
)
    requires
        0 <= t <= stream.len(),
        k + stream.len() <= u32::MAX,
    ensures
        hits_upto(idx, blank_prefix(k, stream), k + t) == hits_upto(idx, stream, t).map_values(
            |h: (u32, i64)| shift_hit(h, k as int),
        ),
    decreases t,
{
    let b = blank_prefix(k, stream);
    if t == 0 {
        lemma_hits_upto_blank(idx, stream, k, k as int);
        assert(hits_upto(idx, stream, 0).map_values(|h: (u32, i64)| shift_hit(h, k as int))
            =~= Seq::<(u32, i64)>::empty());
    } else {
        lemma_hits_upto_shift(idx, stream, k, t - 1);
        assert(b[k + t - 1] == stream[t - 1]);
        lemma_sig_hits_shift(idx, stream[t - 1], t - 1, stream[t - 1].len() as int, k as int);
        assert(hits_upto(idx, b, k + t) == hits_upto(idx, b, k + t - 1) + sig_hits(
            idx,
            b[k + t - 1],
            k + t - 1,
            b[k + t - 1].len() as int,
        ));
        assert(hits_upto(idx, b, k + t) =~= hits_upto(idx, stream, t).map_values(
            |h: (u32, i64)| shift_hit(h, k as int),
        ));
    }
}

/// The blank slices themselves contribute no votes.
proof fn lemma_hits_upto_blank(
    idx: Map<u64, Seq<Posting>>,
    stream: Seq<Seq<Signature>>,
    k: nat,
    t: int,
)
    requires
        0 <= t <= k,
    ensures
        hits_upto(idx, blank_prefix(k, stream), t) == Seq::<(u32, i64)>::empty(),
    decreases t,
{
    if t > 0 {
        lemma_hits_upto_blank(idx, stream, k, t - 1);
        assert(blank_prefix(k, stream)[t - 1] =~= Seq::<Signature>::empty());
        assert(hits_upto(idx, blank_prefix(k, stream), t) =~= Seq::<(u32, i64)>::empty());
    }
}

/// Bumping commutes with shifting every offset, as long as the shift does
/// not wrap.
proof fn lemma_bump_shift(h: Seq<(i64, u64)>, off: i64, k: int)
    requires
        0 <= k <= 0x1_0000_0000,
        -0x1_0000_0000 < off < 0x1_0000_0000,
        forall|i: int| 0 <= i < h.len() ==> -0x1_0000_0000 < (#[trigger] h[i]).0 < 0x1_0000_0000,
    ensures
        bump(h.map_values(|e: (i64, u64)| shift_entry(e, k)), (off - k) as i64) == bump(
            h,
            off,
        ).map_values(|e: (i64, u64)| shift_entry(e, k)),
    decreases h.len(),
{
    let f = |e: (i64, u64)| shift_entry(e, k);
    if h.len() == 0 {
        assert(bump(h.map_values(f), (off - k) as i64) =~= bump(h, off).map_values(f));
    } else if h[0].0 == off {
        assert(h.map_values(f)[0].0 == (off - k) as i64);
        assert(bump(h.map_values(f), (off - k) as i64) =~= bump(h, off).map_values(f));
    } else {
        assert(h.map_values(f)[0].0 != (off - k) as i64);
        assert(h.map_values(f).skip(1) =~= h.skip(1).map_values(f));
        assert forall|i: int| 0 <= i < h.skip(1).len() implies -0x1_0000_0000 < (
        #[trigger] h.skip(1)[i]).0 < 0x1_0000_0000 by {
            assert(h.skip(1)[i] == h[i + 1]);
        }
        lemma_bump_shift(h.skip(1), off, k);
        assert(bump(h.map_values(f), (off - k) as i64) =~= bump(h, off).map_values(f));
    }
}

/// Histogram offsets stay within the bound of the votes that built them.
proof fn lemma_hist_offsets_bounded(hits: Seq<(u32, i64)>, id: u32, j: int, lo: int, hi: int)
    requires
        0 <= j <= hits.len(),
        forall|i: int| 0 <= i < hits.len() ==> lo < (#[trigger] hits[i]).1 < hi,
    ensures
        forall|i: int|
            0 <= i < hist_upto(hits, id, j).len() ==> lo < (#[trigger] hist_upto(
                hits,
                id,
                j,
            )[i]).0 < hi,
    decreases j,
{
    if j > 0 {
        lemma_hist_offsets_bounded(hits, id, j - 1, lo, hi);
        if hits[j - 1].0 == id {
            lemma_bump_offsets(hist_upto(hits, id, j - 1), hits[j - 1].1, lo, hi);
        }
    }
}

proof fn lemma_bump_offsets(h: Seq<(i64, u64)>, off: i64, lo: int, hi: int)
    requires
        lo < off < hi,
        forall|i: int| 0 <= i < h.len() ==> lo < (#[trigger] h[i]).0 < hi,
    ensures
        forall|i: int| 0 <= i < bump(h, off).len() ==> lo < (#[trigger] bump(h, off)[i]).0 < hi,
    decreases h.len(),
{
    if h.len() == 0 {
    } else if h[0].0 == off {
        assert forall|i: int| 0 <= i < bump(h, off).len() implies lo < (
        #[trigger] bump(h, off)[i]).0 < hi by {
            if i > 0 {
                assert(bump(h, off)[i] == h[i]);
            }
        }
    } else {
        assert forall|i: int| 0 <= i < h.skip(1).len() implies lo < (#[trigger] h.skip(1)[i]).0
            < hi by {
            assert(h.skip(1)[i] == h[i + 1]);
        }
        lemma_bump_offsets(h.skip(1), off, lo, hi);
        assert forall|i: int| 0 <= i < bump(h, off).len() implies lo < (
        #[trigger] bump(h, off)[i]).0 < hi by {
            if i > 0 {
                assert(bump(h, off)[i] == bump(h.skip(1), off)[i - 1]);
            }
        }
    }
}

/// A song's histogram over shifted votes is the shifted histogram.
proof fn lemma_hist_shift(hits: Seq<(u32, i64)>, id: u32, j: int, k: int)
    requires
        0 <= j <= hits.len(),
        0 <= k <= 0x1_0000_0000,
        forall|i: int| 0 <= i < hits.len() ==> -0x1_0000_0000 < (#[trigger] hits[i]).1 < 0x1_0000_0000,
    ensures
        hist_upto(hits.map_values(|h: (u32, i64)| shift_hit(h, k)), id, j) == hist_upto(
            hits,
            id,
            j,
        ).map_values(|e: (i64, u64)| shift_entry(e, k)),
    decreases j,
{
    let fh = |h: (u32, i64)| shift_hit(h, k);
    let fe = |e: (i64, u64)| shift_entry(e, k);
    if j <= 0 {
        assert(hist_upto(hits.map_values(fh), id, j) =~= hist_upto(hits, id, j).map_values(fe));
    } else {
        lemma_hist_shift(hits, id, j - 1, k);
        if hits[j - 1].0 == id {
            lemma_hist_offsets_bounded(hits, id, j - 1, -0x1_0000_0000, 0x1_0000_0000);
            lemma_bump_shift(hist_upto(hits, id, j - 1), hits[j - 1].1, k);
            assert(hits.map_values(fh)[j - 1] == fh(hits[j - 1]));
            assert(fh(hits[j - 1]).1 == (hits[j - 1].1 - k) as i64);
        }
    }
}

/// The winning bin of a shifted histogram is the shifted winning bin: the
/// counts are unchanged and shifting preserves the offset tie-break.
proof fn lemma_best_shift(h: Seq<(i64, u64)>, k: int)
    requires
        h.len() >= 1,
        0 <= k <= 0x1_0000_0000,
        forall|i: int| 0 <= i < h.len() ==> -0x1_0000_0000 < (#[trigger] h[i]).0 < 0x1_0000_0000,
    ensures
        best_of(h.map_values(|e: (i64, u64)| shift_entry(e, k))) == shift_entry(best_of(h), k),
    decreases h.len(),
{
    let fe = |e: (i64, u64)| shift_entry(e, k);
    if h.len() == 1 {
        assert(best_of(h.map_values(fe)) == h.map_values(fe)[0]);
    } else {
        assert forall|i: int| 0 <= i < h.drop_last().len() implies -0x1_0000_0000 < (
        #[trigger] h.drop_last()[i]).0 < 0x1_0000_0000 by {
            assert(h.drop_last()[i] == h[i]);
        }
        lemma_best_shift(h.drop_last(), k);
        assert(h.map_values(fe).drop_last() =~= h.drop_last().map_values(fe));
        assert(h.map_values(fe).last() == fe(h.last()));
        let r = best_of(h.drop_last());
        lemma_best_is_entry(h.drop_last());
        let bi = best_index(h.drop_last());
        assert(r == h.drop_last()[bi]);
        assert(h.drop_last()[bi] == h[bi]);
        assert(-0x1_0000_0000 < r.0 < 0x1_0000_0000);
    }
}

/// The winning bin is an entry of the histogram.
pub open spec fn best_index(h: Seq<(i64, u64)>) -> int
    decreases h.len(),
{
    if h.len() <= 1 {
        0
    } else {
        let r = best_index(h.drop_last());
        let x = h.last();
        if x.1 > h[r].1 || (x.1 == h[r].1 && x.0 < h[r].0) {
            h.len() - 1
        } else {
            r
        }
    }
}

pub proof fn lemma_best_is_entry(h: Seq<(i64, u64)>)
    requires
        h.len() >= 1,
    ensures
        0 <= best_index(h) < h.len(),
        best_of(h) == h[best_index(h)],
    decreases h.len(),
{
    if h.len() > 1 {
        lemma_best_is_entry(h.drop_last());
        assert(h.drop_last()[best_index(h.drop_last())] == h[best_index(h.drop_last())]);
    }
}

proof fn lemma_hist_total_shift(h: Seq<(i64, u64)>, k: int)
    ensures
        hist_total(h.map_values(|e: (i64, u64)| shift_entry(e, k))) == hist_total(h),
    decreases h.len(),
{
    let fe = |e: (i64, u64)| shift_entry(e, k);
    if h.len() > 0 {
        lemma_hist_total_shift(h.drop_last(), k);
        assert(h.map_values(fe).drop_last() =~= h.drop_last().map_values(fe));
        assert(h.map_values(fe).last() == fe(h.last()));
    }
}

/// Shift law. If the query stream is prefixed with `k` slices that carry no
/// fingerprints, every candidate keeps its song, winning-bin count, bin
/// count and total, and its best offset drops by exactly `k`.
pub proof fn lemma_shift_law(
    idx: Map<u64, Seq<Posting>>,
    stream: Seq<Seq<Signature>>,
    k: nat,
    nid: int,
)
    requires
        k + stream.len() <= u32::MAX,
        nid >= 0,
    ensures
        matches_of(hits_of(idx, blank_prefix(k, stream)), nid) == matches_of(
            hits_of(idx, stream),
            nid,
        ).map_values(|m: Match| shift_match(m, k as int)),
    decreases nid,
{
    let hits = hits_of(idx, stream);
    let bhits = hits_of(idx, blank_prefix(k, stream));
    lemma_hits_upto_shift(idx, stream, k, stream.len() as int);
    assert(blank_prefix(k, stream).len() == k + stream.len());
    assert(bhits == hits.map_values(|h: (u32, i64)| shift_hit(h, k as int)));
    lemma_hits_bounded(idx, stream, stream.len() as int);
    lemma_matches_shift(hits, k as int, nid);
}

proof fn lemma_matches_shift(hits: Seq<(u32, i64)>, k: int, nid: int)
    requires
        0 <= k <= 0x1_0000_0000,
        nid >= 0,
        forall|i: int| 0 <= i < hits.len() ==> -0x1_0000_0000 < (#[trigger] hits[i]).1 < 0x1_0000_0000,
    ensures
        matches_of(hits.map_values(|h: (u32, i64)| shift_hit(h, k)), nid) == matches_of(
            hits,
            nid,
        ).map_values(|m: Match| shift_match(m, k)),
    decreases nid,
{
    let fh = |h: (u32, i64)| shift_hit(h, k);
    let fm = |m: Match| shift_match(m, k);
    if nid <= 0 {
        assert(matches_of(hits.map_values(fh), nid) =~= matches_of(hits, nid).map_values(fm));
    } else {
        lemma_matches_shift(hits, k, nid - 1);
        let id = (nid - 1) as u32;
        assert(hits.map_values(fh).len() == hits.len());
        lemma_hist_shift(hits, id, hits.len() as int, k);
        let h = hist_of(hits, id);
        let fe = |e: (i64, u64)| shift_entry(e, k);
        assert(hist_of(hits.map_values(fh), id) == h.map_values(fe));
        if h.len() > 0 {
            lemma_hist_offsets_bounded(hits, id, hits.len() as int, -0x1_0000_0000, 0x1_0000_0000);
            lemma_best_shift(h, k);
            lemma_hist_total_shift(h, k);
            assert(match_of(h.map_values(fe), id) == fm(match_of(h, id)));
            assert(matches_of(hits.map_values(fh), nid) =~= matches_of(hits, nid).map_values(fm));
        } else {
            assert(matches_of(hits.map_values(fh), nid) =~= matches_of(hits, nid).map_values(fm));
        }
    }
}


/// A fingerprint of a query slice pulls each posting under its key into the
/// vote list, with the offset `posting time - slice`.
proof fn lemma_sig_hits_contains(
    idx: Map<u64, Seq<Posting>>,
    sigs: Seq<Signature>,
    s: int,
    j: int,
    j0: int,
    pi: int,
)
    requires
        0 <= j0 < j <= sigs.len(),
        idx.contains_key(sig_key(sigs[j0])),
        0 <= pi < idx[sig_key(sigs[j0])].len(),
    ensures
        sig_hits(idx, sigs, s, j).contains(
            (idx[sig_key(sigs[j0])][pi].0, (idx[sig_key(sigs[j0])][pi].1 - s) as i64),
        ),
    decreases j,
{
    let p = idx[sig_key(sigs[j0])][pi];
    let hit = (p.0, (p.1 - s) as i64);
    if j0 == j - 1 {
        let prev = sig_hits(idx, sigs, s, j - 1);
        let ph = posting_hits(idx[sig_key(sigs[j - 1])], s);
        assert(ph[pi] == hit);
        assert(sig_hits(idx, sigs, s, j)[prev.len() + pi] == hit);
    } else {
        lemma_sig_hits_contains(idx, sigs, s, j - 1, j0, pi);
        let prev = sig_hits(idx, sigs, s, j - 1);
        let i = choose|i: int| 0 <= i < prev.len() && prev[i] == hit;
        assert(sig_hits(idx, sigs, s, j)[i] == hit);
    }
}

proof fn lemma_hits_upto_contains(
    idx: Map<u64, Seq<Posting>>,
    stream: Seq<Seq<Signature>>,
    t: int,
    t0: int,
    j0: int,
    pi: int,
)
    requires
        0 <= t0 < t <= stream.len(),
        0 <= j0 < stream[t0].len(),
        idx.contains_key(sig_key(stream[t0][j0])),
        0 <= pi < idx[sig_key(stream[t0][j0])].len(),
    ensures
        hits_upto(idx, stream, t).contains(
            (
                idx[sig_key(stream[t0][j0])][pi].0,
                (idx[sig_key(stream[t0][j0])][pi].1 - t0) as i64,
            ),
        ),
    decreases t,
{
    let p = idx[sig_key(stream[t0][j0])][pi];
    let hit = (p.0, (p.1 - t0) as i64);
    if t0 == t - 1 {
        lemma_sig_hits_contains(idx, stream[t0], t0, stream[t0].len() as int, j0, pi);
        let prev = hits_upto(idx, stream, t - 1);
        let tail = sig_hits(idx, stream[t - 1], t - 1, stream[t - 1].len() as int);
        let i = choose|i: int| 0 <= i < tail.len() && tail[i] == hit;
        assert(hits_upto(idx, stream, t)[prev.len() + i] == hit);
    } else {
        lemma_hits_upto_contains(idx, stream, t - 1, t0, j0, pi);
        let prev = hits_upto(idx, stream, t - 1);
        let i = choose|i: int| 0 <= i < prev.len() && prev[i] == hit;
        assert(hits_upto(idx, stream, t)[i] == hit);
    }
}

proof fn lemma_bump_nonempty(h: Seq<(i64, u64)>, off: i64)
    ensures
        bump(h, off).len() >= 1,
        bump(h, off).len() >= h.len(),
    decreases h.len(),
{
    if h.len() > 0 && h[0].0 != off {
        lemma_bump_nonempty(h.skip(1), off);
    }
}

/// A song voted for at least once has a nonempty histogram.
proof fn lemma_hist_nonempty(hits: Seq<(u32, i64)>, id: u32, j: int, i0: int)
    requires
        0 <= i0 < j <= hits.len(),
        hits[i0].0 == id,
    ensures
        hist_upto(hits, id, j).len() >= 1,
    decreases j,
{
    if i0 == j - 1 {
        lemma_bump_nonempty(hist_upto(hits, id, j - 1), hits[j - 1].1);
    } else {
        lemma_hist_nonempty(hits, id, j - 1, i0);
        if hits[j - 1].0 == id {
            lemma_bump_nonempty(hist_upto(hits, id, j - 1), hits[j - 1].1);
        }
    }
}

/// A song with a nonempty histogram appears among the candidates.
proof fn lemma_matches_has_id(hits: Seq<(u32, i64)>, id: u32, nid: int)
    requires
        (id as int) < nid,
        hist_of(hits, id).len() > 0,
    ensures
        exists|m: int|
            0 <= m < matches_upto(hits, nid).len() && (#[trigger] matches_upto(hits, nid)[m]).id
                == id,
    decreases nid,
{
    let prev = matches_upto(hits, nid - 1);
    if (id as int) == nid - 1 {
        assert(matches_upto(hits, nid)[prev.len() as int].id == id);
    } else {
        lemma_matches_has_id(hits, id, nid - 1);
        let m = choose|m: int| 0 <= m < prev.len() && (#[trigger] prev[m]).id == id;
        assert(matches_upto(hits, nid)[m].id == id);
    }
}

/// Self-candidacy: a catalog song queried with the very stream it was
/// indexed from is always among the returned candidates. (That this
/// candidate also wins the ranking depends on what the other catalog
/// entries sound like, so the ranking claim lives in tests.)
pub proof fn lemma_self_is_candidate(
    entries: Seq<Seq<(Signature, u32)>>,
    stream: Seq<Seq<Signature>>,
    id: u32,
    nid: int,
)
    requires
        (id as int) < entries.len(),
        (id as int) < nid,
        stream.len() <= u32::MAX,
        entries[id as int] == data_of(stream),
        data_of(stream).len() > 0,
    ensures
        exists|m: int|
            0 <= m < matches_of(hits_of(index_of(entries), stream), nid).len() && (
            #[trigger] matches_of(hits_of(index_of(entries), stream), nid)[m]).id == id,
{
    let idx = index_of(entries);
    lemma_data_elem(stream, stream.len() as int, 0);
    let (t0, j0) = choose|t: int, j: int|
        0 <= t < stream.len() && 0 <= j < stream[t].len() && #[trigger] data_of(stream)[0] == (
        stream[t][j],
        t as u32,
        );
    let sig = stream[t0][j0];
    lemma_index_complete(entries, id as int, 0);
    assert(entries[id as int][0] == (sig, t0 as u32));
    assert(idx.contains_key(sig_key(sig)));
    assert(idx[sig_key(sig)].contains((id, t0 as u32)));
    let pi = choose|pi: int|
        0 <= pi < idx[sig_key(sig)].len() && idx[sig_key(sig)][pi] == (id, t0 as u32);
    lemma_hits_upto_contains(idx, stream, stream.len() as int, t0, j0, pi);
    let hits = hits_of(idx, stream);
    assert(((t0 as u32) - t0) as i64 == 0);
    assert(hits.contains((id, 0i64)));
    let i0 = choose|i: int| 0 <= i < hits.len() && hits[i] == (id, 0i64);
    lemma_hist_nonempty(hits, id, hits.len() as int, i0);
    lemma_matches_has_id(hits, id, nid);
    let m = choose|m: int|
        0 <= m < matches_upto(hits, nid).len() && (#[trigger] matches_upto(hits, nid)[m]).id == id;
    assert(0 <= m < matches_of(hits_of(index_of(entries), stream), nid).len() && matches_of(
        hits_of(index_of(entries), stream),
        nid,
    )[m].id == id);
}

} // verus!
