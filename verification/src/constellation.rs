//! Constellation builder. Per slice, the low end of the spectrum is split
//! into `bucket_count` contiguous buckets of `bucket_size` bins; the loudest
//! bin of each bucket is taken (first bin on ties), the bucket winners are
//! ordered by amplitude descending (lower bin first on ties), and the first
//! `freq_per_slice` bin indices are kept. Bucket maxima force the peaks to
//! spread across the spectrum; the amplitude cut keeps the most prominent.

use vstd::prelude::*;

use crate::fingerprint::fuzz_stream;
use crate::fingerprint::pair_stream;
use crate::song::Song;
use crate::spectrum::spectra;
use crate::spectrum::spectra_of;

verus! {

/// Index of the largest value of `s`; the smallest such index on ties.
pub open spec fn argmax(s: Seq<u32>) -> int
    decreases s.len(),
{
    if s.len() <= 1 {
        0
    } else {
        let r = argmax(s.drop_last());
        if s.last() > s[r] {
            s.len() - 1
        } else {
            r
        }
    }
}

pub proof fn lemma_argmax(s: Seq<u32>)
    requires
        s.len() >= 1,
    ensures
        0 <= argmax(s) < s.len(),
        forall|i: int| 0 <= i < s.len() ==> #[trigger] s[i] <= s[argmax(s)],
        forall|i: int| 0 <= i < argmax(s) ==> #[trigger] s[i] < s[argmax(s)],
    decreases s.len(),
{
    if s.len() > 1 {
        lemma_argmax(s.drop_last());
        assert forall|i: int| 0 <= i < s.len() implies #[trigger] s[i] <= s[argmax(s)] by {
            if i < s.len() - 1 {
                assert(s.drop_last()[i] == s[i]);
            }
        }
        assert forall|i: int| 0 <= i < argmax(s) implies #[trigger] s[i] < s[argmax(s)] by {
            if i < s.len() - 1 {
                assert(s.drop_last()[i] == s[i]);
            }
        }
    }
}

/// How many full buckets the spectrum offers, capped at `bct`.
pub open spec fn n_buckets(slen: nat, bsz: nat, bct: nat) -> int {
    let avail = slen as int / bsz as int;
    if bct as int <= avail {
        bct as int
    } else {
        avail
    }
}

/// The winning bin of bucket `j`: its absolute bin index and its amplitude
/// key.
pub open spec fn bucket_winner(spectrum: Seq<u32>, bsz: nat, j: int) -> (u16, u32) {
    let lo = j * bsz;
    let b = spectrum.subrange(lo, lo + bsz);
    ((lo + argmax(b)) as u16, b[argmax(b)])
}

pub open spec fn bucket_winners(spectrum: Seq<u32>, bsz: nat, nb: int) -> Seq<(u16, u32)> {
    Seq::new(nb as nat, |j: int| bucket_winner(spectrum, bsz, j))
}

/// Strict order on bucket winners: louder first, lower bin first on equal
/// amplitude.
pub open spec fn peak_before(a: (u16, u32), b: (u16, u32)) -> bool {
    a.1 > b.1 || (a.1 == b.1 && a.0 < b.0)
}

/// Insert `x` in front of the first element it precedes.
pub open spec fn insert_peak(s: Seq<(u16, u32)>, x: (u16, u32)) -> Seq<(u16, u32)>
    decreases s.len(),
{
    if s.len() == 0 {
        seq![x]
    } else if peak_before(x, s[0]) {
        seq![x] + s
    } else {
        seq![s[0]] + insert_peak(s.skip(1), x)
    }
}

/// Insertion sort by `peak_before`; stable, so equal-amplitude winners keep
/// their bucket order, which is their bin order.
pub open spec fn sort_peaks(s: Seq<(u16, u32)>) -> Seq<(u16, u32)>
    decreases s.len(),
{
    if s.len() == 0 {
        Seq::empty()
    } else {
        insert_peak(sort_peaks(s.drop_last()), s.last())
    }
}

/// The peak set of one slice: bucket winners, loudest first, cut to `k`.
pub open spec fn top_bins(spectrum: Seq<u32>, bsz: nat, bct: nat, k: nat) -> Seq<u16> {
    let nb = n_buckets(spectrum.len(), bsz, bct);
    let cut = if k as int <= nb {
        k as int
    } else {
        nb
    };
    sort_peaks(bucket_winners(spectrum, bsz, nb)).take(cut).map_values(|p: (u16, u32)| p.0)
}

/// The whole constellation map: one peak set per slice of `w` samples.
pub open spec fn cmap_of(samples: Seq<i16>, rate: nat, w: nat, bsz: nat, bct: nat, k: nat) -> Seq<
    Seq<u16>,
> {
    spectra_of(samples, rate, w).map_values(|sp: Seq<u32>| top_bins(sp, bsz, bct, k))
}

pub proof fn lemma_insert_peak_at(s: Seq<(u16, u32)>, x: (u16, u32), j: int)
    requires
        0 <= j <= s.len(),
        forall|m: int| 0 <= m < j ==> !peak_before(x, s[m]),
        j < s.len() ==> peak_before(x, s[j]),
    ensures
        insert_peak(s, x) == s.take(j) + seq![x] + s.skip(j),
    decreases s.len(),
{
    if s.len() == 0 {
        assert(insert_peak(s, x) =~= s.take(j) + seq![x] + s.skip(j));
    } else if peak_before(x, s[0]) {
        assert(j == 0);
        assert(insert_peak(s, x) =~= s.take(0) + seq![x] + s.skip(0));
    } else {
        assert(j >= 1);
        lemma_insert_peak_at(s.skip(1), x, j - 1);
        assert(insert_peak(s, x) =~= s.take(j) + seq![x] + s.skip(j)) by {
            assert(s.skip(1).take(j - 1) =~= s.take(j).skip(1));
            assert(s.skip(1).skip(j - 1) =~= s.skip(j));
            assert(seq![s[0]] + (s.skip(1).take(j - 1) + seq![x] + s.skip(1).skip(j - 1)) =~= s.take(
                j,
            ) + seq![x] + s.skip(j));
        }
    }
}

pub proof fn lemma_insert_peak_contains(s: Seq<(u16, u32)>, x: (u16, u32), y: (u16, u32))
    requires
        insert_peak(s, x).contains(y),
    ensures
        s.contains(y) || y == x,
    decreases s.len(),
{
    if s.len() == 0 {
    } else if peak_before(x, s[0]) {
        assert(insert_peak(s, x) == seq![x] + s);
        let i = choose|i: int| 0 <= i < (seq![x] + s).len() && (seq![x] + s)[i] == y;
        if i > 0 {
            assert(s[i - 1] == y);
        }
    } else {
        let t = seq![s[0]] + insert_peak(s.skip(1), x);
        let i = choose|i: int| 0 <= i < t.len() && t[i] == y;
        if i == 0 {
            assert(s[0] == y);
        } else {
            assert(insert_peak(s.skip(1), x)[i - 1] == y);
            lemma_insert_peak_contains(s.skip(1), x, y);
            if s.skip(1).contains(y) {
                let m = choose|m: int| 0 <= m < s.skip(1).len() && s.skip(1)[m] == y;
                assert(s[m + 1] == y);
            }
        }
    }
}

pub proof fn lemma_sort_peaks_contains(s: Seq<(u16, u32)>, y: (u16, u32))
    requires
        sort_peaks(s).contains(y),
    ensures
        s.contains(y),
    decreases s.len(),
{
    if s.len() > 0 {
        lemma_insert_peak_contains(sort_peaks(s.drop_last()), s.last(), y);
        if sort_peaks(s.drop_last()).contains(y) {
            lemma_sort_peaks_contains(s.drop_last(), y);
            let m = choose|m: int| 0 <= m < s.drop_last().len() && s.drop_last()[m] == y;
            assert(s[m] == y);
        } else {
            assert(s[s.len() - 1] == y);
        }
    }
}

pub proof fn lemma_insert_peak_len(s: Seq<(u16, u32)>, x: (u16, u32))
    ensures
        insert_peak(s, x).len() == s.len() + 1,
    decreases s.len(),
{
    if s.len() > 0 && !peak_before(x, s[0]) {
        lemma_insert_peak_len(s.skip(1), x);
    }
}

pub proof fn lemma_sort_peaks_len(s: Seq<(u16, u32)>)
    ensures
        sort_peaks(s).len() == s.len(),
    decreases s.len(),
{
    if s.len() > 0 {
        lemma_sort_peaks_len(s.drop_last());
        lemma_insert_peak_len(sort_peaks(s.drop_last()), s.last());
    }
}

/// Every peak set holds at most `min(k, bct)` bins, and every bin lies below
/// `bsz * bct`.
pub proof fn lemma_top_bins_budget(spectrum: Seq<u32>, bsz: nat, bct: nat, k: nat)
    requires
        bsz >= 1,
    ensures
        top_bins(spectrum, bsz, bct, k).len() <= k,
        top_bins(spectrum, bsz, bct, k).len() <= bct,
        forall|i: int|
            0 <= i < top_bins(spectrum, bsz, bct, k).len() ==> (top_bins(spectrum, bsz, bct, k)[i]
                as int) < bsz * bct,
{
    let nb = n_buckets(spectrum.len(), bsz, bct);
    let w = bucket_winners(spectrum, bsz, nb);
    lemma_sort_peaks_len(w);
    assert forall|i: int| 0 <= i < top_bins(spectrum, bsz, bct, k).len() implies (top_bins(
        spectrum,
        bsz,
        bct,
        k,
    )[i] as int) < bsz * bct by {
        let sorted = sort_peaks(w);
        assert(sorted.contains(sorted[i]));
        lemma_sort_peaks_contains(w, sorted[i]);
        let j = choose|j: int| 0 <= j < w.len() && w[j] == sorted[i];
        assert(j * bsz + bsz <= spectrum.len()) by (nonlinear_arith)
            requires
                0 <= j < nb,
                bsz >= 1,
                nb <= spectrum.len() as int / bsz as int,
        ;
        assert(0 <= j * bsz) by (nonlinear_arith)
            requires
                0 <= j,
                bsz >= 1,
        ;
        let b = spectrum.subrange(j * bsz, j * bsz + bsz);
        lemma_argmax(b);
        assert(w[j].0 == (j * bsz + argmax(b)) as u16);
        assert(j * bsz + argmax(b) < (j + 1) * bsz) by (nonlinear_arith)
            requires
                argmax(b) < bsz,
        ;
        assert((j + 1) * bsz <= nb * bsz) by (nonlinear_arith)
            requires
                j < nb,
                bsz >= 1,
        ;
        assert(nb * bsz <= bct * bsz) by (nonlinear_arith)
            requires
                nb <= bct,
                bsz >= 1,
        ;
        assert(j * bsz + argmax(b) <= u16::MAX ==> (((j * bsz + argmax(b)) as u16) as int == j * bsz
            + argmax(b)));
        assert(bct * bsz == bsz * bct) by (nonlinear_arith);
    }
}

/// The winning bin of one bucket, by forward scan: strictly greater
/// amplitude moves the winner, so the first maximum is kept.
fn scan_bucket(spectrum: &Vec<u32>, lo: usize, bsz: usize) -> (r: (usize, u32))
    requires
        bsz >= 1,
        lo + bsz <= spectrum.len(),
    ensures
        r.0 == lo + argmax(spectrum@.subrange(lo as int, lo as int + bsz as int)),
        r.1 == spectrum@.subrange(lo as int, lo as int + bsz as int)[argmax(
            spectrum@.subrange(lo as int, lo as int + bsz as int),
        )],
{
    let ghost bucket = spectrum@.subrange(lo as int, lo as int + bsz as int);
    let mut best_i: usize = lo;
    let mut best_v: u32 = spectrum[lo];
    let mut i: usize = lo + 1;
    proof {
        assert(bucket.subrange(0, 1) =~= bucket.take(1));
        assert(argmax(bucket.take(1)) == 0);
    }
    while i < lo + bsz
        invariant
            bsz >= 1,
            lo + bsz <= spectrum.len(),
            lo < i <= lo + bsz,
            bucket == spectrum@.subrange(lo as int, lo as int + bsz as int),
            best_i == lo + argmax(bucket.take(i - lo)),
            best_v == bucket[argmax(bucket.take(i - lo))],
        decreases lo + bsz - i,
    {
        proof {
            let pre = bucket.take(i - lo);
            let post = bucket.take(i - lo + 1);
            assert(post.drop_last() =~= pre);
            assert(post.last() == bucket[i - lo]);
            lemma_argmax(pre);
        }
        if spectrum[i] > best_v {
            best_i = i;
            best_v = spectrum[i];
        }
        i = i + 1;
    }
    proof {
        assert(bucket.take(bsz as int) =~= bucket);
    }
    (best_i, best_v)
}

fn peak_is_before(a: (u16, u32), b: (u16, u32)) -> (r: bool)
    ensures
        r == peak_before(a, b),
{
    a.1 > b.1 || (a.1 == b.1 && a.0 < b.0)
}

/// The peak set of one slice's spectrum.
pub fn slice_peaks(spectrum: &Vec<u32>, bucket_size: u16, bucket_count: usize, freq_per_slice: usize) -> (r:
    Vec<u16>)
    requires
        bucket_size >= 1,
        bucket_size as int * bucket_count as int <= 0x10000,
    ensures
        r@ == top_bins(spectrum@, bucket_size as nat, bucket_count as nat, freq_per_slice as nat),
{
    let bsz: usize = bucket_size as usize;
    let avail: usize = spectrum.len() / bsz;
    let nb: usize = if bucket_count <= avail {
        bucket_count
    } else {
        avail
    };
    let ghost gnb = n_buckets(spectrum@.len(), bucket_size as nat, bucket_count as nat);
    proof {
        assert(nb == gnb);
        assert(nb * bsz <= spectrum@.len()) by (nonlinear_arith)
            requires
                bsz >= 1,
                nb <= spectrum@.len() as int / bsz as int,
        ;
    }
    let mut winners: Vec<(u16, u32)> = Vec::new();
    let mut j: usize = 0;
    while j < nb
        invariant
            bucket_size >= 1,
            bsz == bucket_size as usize,
            bucket_size as int * bucket_count as int <= 0x10000,
            nb <= bucket_count,
            nb * bsz <= spectrum@.len(),
            spectrum@.len() <= usize::MAX,
            j <= nb,
            winners@ == bucket_winners(spectrum@, bucket_size as nat, j as int),
        decreases nb - j,
    {
        proof {
            assert((j + 1) * bsz <= nb * bsz) by (nonlinear_arith)
                requires
                    j < nb,
                    bsz >= 1,
            ;
            assert(j * bsz + bsz == (j + 1) * bsz) by (nonlinear_arith);
            assert(j * bsz < nb * bsz) by (nonlinear_arith)
                requires
                    j < nb,
                    bsz >= 1,
            ;
        }
        let (bi, bv) = scan_bucket(spectrum, j * bsz, bsz);
        proof {
            lemma_argmax(spectrum@.subrange((j * bsz) as int, (j * bsz) as int + bsz as int));
            assert((j + 1) * bsz <= bucket_count * bsz) by (nonlinear_arith)
                requires
                    j < bucket_count,
                    bsz >= 1,
            ;
            assert(bucket_count * bsz <= 0x10000) by (nonlinear_arith)
                requires
                    bucket_size as int * bucket_count as int <= 0x10000,
                    bsz == bucket_size as int,
            ;
        }
        winners.push((bi as u16, bv));
        proof {
            assert(winners@ =~= bucket_winners(spectrum@, bucket_size as nat, j + 1));
        }
        j = j + 1;
    }
    // Insertion sort by `peak_before`, mirroring `sort_peaks`.
    let mut sorted: Vec<(u16, u32)> = Vec::new();
    let mut idx: usize = 0;
    while idx < winners.len()
        invariant
            idx <= winners.len(),
            sorted@ == sort_peaks(winners@.take(idx as int)),
        decreases winners.len() - idx,
    {
        let x = winners[idx];
        let ghost pre = sorted@;
        let mut pos: usize = 0;
        proof {
            lemma_sort_peaks_len(winners@.take(idx as int));
        }
        while pos < sorted.len() && !peak_is_before(x, sorted[pos])
            invariant
                pos <= sorted.len(),
                forall|m: int| 0 <= m < pos ==> !peak_before(x, sorted@[m]),
            decreases sorted.len() - pos,
        {
            pos = pos + 1;
        }
        sorted.insert(pos, x);
        proof {
            lemma_insert_peak_at(pre, x, pos as int);
            assert(sorted@ =~= pre.take(pos as int) + seq![x] + pre.skip(pos as int));
            assert(winners@.take(idx + 1).drop_last() =~= winners@.take(idx as int));
            assert(winners@.take(idx + 1).last() == winners@[idx as int]);
            assert(sorted@ == sort_peaks(winners@.take(idx + 1)));
        }
        idx = idx + 1;
    }
    proof {
        assert(winners@.take(winners@.len() as int) =~= winners@);
    }
    let cut: usize = if freq_per_slice <= nb {
        freq_per_slice
    } else {
        nb
    };
    proof {
        lemma_sort_peaks_len(winners@);
    }
    let mut r: Vec<u16> = Vec::new();
    let mut m: usize = 0;
    while m < cut
        invariant
            cut <= sorted.len(),
            m <= cut,
            sorted@ == sort_peaks(bucket_winners(spectrum@, bucket_size as nat, gnb)),
            gnb == n_buckets(spectrum@.len(), bucket_size as nat, bucket_count as nat),
            cut == (if freq_per_slice as int <= gnb {
                freq_per_slice as int
            } else {
                gnb
            }),
            r@ == top_bins(
                spectrum@,
                bucket_size as nat,
                bucket_count as nat,
                freq_per_slice as nat,
            ).take(m as int),
        decreases cut - m,
    {
        r.push(sorted[m].0);
        proof {
            assert(r@ =~= top_bins(
                spectrum@,
                bucket_size as nat,
                bucket_count as nat,
                freq_per_slice as nat,
            ).take(m + 1));
        }
        m = m + 1;
    }
    proof {
        assert(r@ =~= top_bins(spectrum@, bucket_size as nat, bucket_count as nat, freq_per_slice as nat));
    }
    r
}

impl Song {
    /// The whole constellation map: for every full slice of
    /// `sample_rate * slice_size_ms / 1000` samples, the slice's peak set.
    ///
    /// The map has exactly one entry per full slice; each entry holds at
    /// most `min(freq_per_slice, bucket_count)` bins, every bin strictly
    /// below `bucket_size * bucket_count`.
    pub fn constellation_map(
        &self,
        slice_size_ms: u64,
        freq_per_slice: usize,
        bucket_size: u16,
        bucket_count: usize,
    ) -> (r: Vec<Vec<u16>>)
        requires
            self.sample_rate >= 1,
            self.sample_rate as int * slice_size_ms as int <= usize::MAX,
            self.sample_rate as int * slice_size_ms as int / 1000 >= 1,
            bucket_size >= 1,
            bucket_size as int * bucket_count as int <= 0x10000,
        ensures
            ({
                let w = self.sample_rate as int * slice_size_ms as int / 1000;
                let cm = cmap_of(
                    self.samples@,
                    self.sample_rate as nat,
                    w as nat,
                    bucket_size as nat,
                    bucket_count as nat,
                    freq_per_slice as nat,
                );
                &&& r@.len() == self.samples@.len() as int / w
                &&& forall|t: int| 0 <= t < r@.len() ==> r@[t]@ == cm[t]
                &&& forall|t: int|
                    0 <= t < r@.len() ==> r@[t]@.len() <= freq_per_slice && r@[t]@.len()
                        <= bucket_count
                &&& forall|t: int, i: int|
                    0 <= t < r@.len() && 0 <= i < r@[t]@.len() ==> (r@[t]@[i] as int) < bucket_size
                        as int * bucket_count as int
            }),
    {
        proof {
            assert(slice_size_ms as int <= self.sample_rate as int * slice_size_ms as int)
                by (nonlinear_arith)
                requires
                    self.sample_rate >= 1,
            ;
        }
        let w: usize = self.sample_rate * (slice_size_ms as usize) / 1000;
        let sp = spectra(&self.samples, self.sample_rate, w);
        let ghost gw = w as nat;
        let mut r: Vec<Vec<u16>> = Vec::new();
        let mut t: usize = 0;
        while t < sp.len()
            invariant
                bucket_size >= 1,
                bucket_size as int * bucket_count as int <= 0x10000,
                t <= sp.len(),
                r@.len() == t,
                sp@.len() == self.samples@.len() as int / gw as int,
                forall|i: int|
                    0 <= i < sp@.len() ==> sp@[i]@ == spectra_of(
                        self.samples@,
                        self.sample_rate as nat,
                        gw,
                    )[i],
                forall|j: int|
                    0 <= j < t ==> r@[j]@ == cmap_of(
                        self.samples@,
                        self.sample_rate as nat,
                        gw,
                        bucket_size as nat,
                        bucket_count as nat,
                        freq_per_slice as nat,
                    )[j],
                forall|j: int|
                    0 <= j < t ==> r@[j]@.len() <= freq_per_slice && r@[j]@.len() <= bucket_count,
                forall|j: int, i: int|
                    0 <= j < t && 0 <= i < r@[j]@.len() ==> (r@[j]@[i] as int) < bucket_size as int
                        * bucket_count as int,
            decreases sp.len() - t,
        {
            let peaks = slice_peaks(&sp[t], bucket_size, bucket_count, freq_per_slice);
            proof {
                lemma_top_bins_budget(
                    sp@[t as int]@,
                    bucket_size as nat,
                    bucket_count as nat,
                    freq_per_slice as nat,
                );
            }
            r.push(peaks);
            t = t + 1;
        }
        r
    }
}


/// Two spectra that order every pair of bins the same way.
pub open spec fn order_equiv(s1: Seq<u32>, s2: Seq<u32>) -> bool {
    &&& s1.len() == s2.len()
    &&& forall|i: int, j: int|
        0 <= i < s1.len() && 0 <= j < s1.len() ==> ((#[trigger] s1[i] < #[trigger] s1[j]) <==> (
        s2[i] < s2[j]))
}

proof fn lemma_argmax_order(s1: Seq<u32>, s2: Seq<u32>)
    requires
        order_equiv(s1, s2),
    ensures
        argmax(s1) == argmax(s2),
    decreases s1.len(),
{
    if s1.len() > 1 {
        assert(order_equiv(s1.drop_last(), s2.drop_last())) by {
            assert(forall|i: int|
                0 <= i < s1.len() - 1 ==> #[trigger] s1.drop_last()[i] == s1[i]
                    && #[trigger] s2.drop_last()[i] == s2[i]);
        }
        lemma_argmax_order(s1.drop_last(), s2.drop_last());
        let r = argmax(s1.drop_last());
        lemma_argmax(s1.drop_last());
        assert(s1.drop_last()[r] == s1[r] && s2.drop_last()[r] == s2[r]);
        assert((s1[r] < s1[s1.len() - 1]) <==> (s2[r] < s2[s1.len() - 1]));
    }
}

/// Winner lists whose bins agree and whose amplitudes are the two spectra's
/// values at those bins.
pub open spec fn aligned(u: Seq<(u16, u32)>, v: Seq<(u16, u32)>, s1: Seq<u32>, s2: Seq<u32>) -> bool {
    &&& u.len() == v.len()
    &&& forall|i: int|
        #![trigger u[i]]
        #![trigger v[i]]
        0 <= i < u.len() ==> {
            &&& u[i].0 == v[i].0
            &&& (u[i].0 as int) < s1.len()
            &&& u[i].1 == s1[u[i].0 as int]
            &&& v[i].1 == s2[v[i].0 as int]
        }
}

proof fn lemma_insert_aligned(
    u: Seq<(u16, u32)>,
    v: Seq<(u16, u32)>,
    s1: Seq<u32>,
    s2: Seq<u32>,
    b: u16,
)
    requires
        order_equiv(s1, s2),
        aligned(u, v, s1, s2),
        (b as int) < s1.len(),
    ensures
        aligned(
            insert_peak(u, (b, s1[b as int])),
            insert_peak(v, (b, s2[b as int])),
            s1,
            s2,
        ),
    decreases u.len(),
{
    let x1 = (b, s1[b as int]);
    let x2 = (b, s2[b as int]);
    if u.len() == 0 {
        assert(aligned(seq![x1], seq![x2], s1, s2));
    } else {
        assert((s1[b as int] < s1[u[0].0 as int]) <==> (s2[b as int] < s2[v[0].0 as int]));
        assert((s1[u[0].0 as int] < s1[b as int]) <==> (s2[v[0].0 as int] < s2[b as int]));
        assert(peak_before(x1, u[0]) <==> peak_before(x2, v[0]));
        if peak_before(x1, u[0]) {
            assert forall|i: int| 0 <= i < (seq![x1] + u).len() implies {
                &&& (#[trigger] (seq![x1] + u)[i]).0 == (#[trigger] (seq![x2] + v)[i]).0
                &&& ((seq![x1] + u)[i].0 as int) < s1.len()
                &&& (seq![x1] + u)[i].1 == s1[(seq![x1] + u)[i].0 as int]
                &&& (seq![x2] + v)[i].1 == s2[(seq![x2] + v)[i].0 as int]
            } by {
                if i > 0 {
                    assert((seq![x1] + u)[i] == u[i - 1]);
                    assert((seq![x2] + v)[i] == v[i - 1]);
                }
            }
        } else {
            assert(aligned(u.skip(1), v.skip(1), s1, s2)) by {
                assert(forall|i: int|
                    0 <= i < u.len() - 1 ==> #[trigger] u.skip(1)[i] == u[i + 1]
                        && #[trigger] v.skip(1)[i] == v[i + 1]);
            }
            lemma_insert_aligned(u.skip(1), v.skip(1), s1, s2, b);
            let iu = insert_peak(u.skip(1), x1);
            let iv = insert_peak(v.skip(1), x2);
            assert forall|i: int| 0 <= i < (seq![u[0]] + iu).len() implies {
                &&& (#[trigger] (seq![u[0]] + iu)[i]).0 == (#[trigger] (seq![v[0]] + iv)[i]).0
                &&& ((seq![u[0]] + iu)[i].0 as int) < s1.len()
                &&& (seq![u[0]] + iu)[i].1 == s1[(seq![u[0]] + iu)[i].0 as int]
                &&& (seq![v[0]] + iv)[i].1 == s2[(seq![v[0]] + iv)[i].0 as int]
            } by {
                if i > 0 {
                    assert((seq![u[0]] + iu)[i] == iu[i - 1]);
                    assert((seq![v[0]] + iv)[i] == iv[i - 1]);
                }
            }
        }
    }
}

proof fn lemma_sort_aligned(u: Seq<(u16, u32)>, v: Seq<(u16, u32)>, s1: Seq<u32>, s2: Seq<u32>)
    requires
        order_equiv(s1, s2),
        aligned(u, v, s1, s2),
    ensures
        aligned(sort_peaks(u), sort_peaks(v), s1, s2),
    decreases u.len(),
{
    if u.len() > 0 {
        assert(aligned(u.drop_last(), v.drop_last(), s1, s2)) by {
            assert(forall|i: int|
                0 <= i < u.len() - 1 ==> #[trigger] u.drop_last()[i] == u[i]
                    && #[trigger] v.drop_last()[i] == v[i]);
        }
        lemma_sort_aligned(u.drop_last(), v.drop_last(), s1, s2);
        let b = u.last().0;
        assert(u[u.len() - 1].1 == s1[b as int] && v[u.len() - 1].1 == s2[b as int]);
        lemma_insert_aligned(sort_peaks(u.drop_last()), sort_peaks(v.drop_last()), s1, s2, b);
        assert(u.last() == (b, s1[b as int]));
        assert(v.last() == (b, s2[b as int]));
    }
}

/// Peak selection reads only the order of the spectrum's magnitudes, never
/// their size: two spectra that order every pair of bins alike yield the
/// same peak set. Since scaling all input samples by a positive constant
/// scales every magnitude by that constant, such a scaling leaves every
/// peak set — and with it the recording's whole fingerprint set — unchanged.
pub proof fn lemma_top_bins_order_invariant(s1: Seq<u32>, s2: Seq<u32>, bsz: nat, bct: nat, k: nat)
    requires
        order_equiv(s1, s2),
        bsz >= 1,
        bsz * bct <= 0x10000,
    ensures
        top_bins(s1, bsz, bct, k) == top_bins(s2, bsz, bct, k),
{
    let nb = n_buckets(s1.len(), bsz, bct);
    assert(n_buckets(s2.len(), bsz, bct) == nb);
    let w1 = bucket_winners(s1, bsz, nb);
    let w2 = bucket_winners(s2, bsz, nb);
    assert forall|j: int| 0 <= j < nb implies {
        &&& (#[trigger] w1[j]).0 == (#[trigger] w2[j]).0
        &&& (w1[j].0 as int) < s1.len()
        &&& w1[j].1 == s1[w1[j].0 as int]
        &&& w2[j].1 == s2[w2[j].0 as int]
    } by {
        assert(j * bsz + bsz <= nb * bsz) by (nonlinear_arith)
            requires
                j < nb,
                bsz >= 1,
        ;
        assert(nb * bsz <= s1.len()) by (nonlinear_arith)
            requires
                bsz >= 1,
                nb <= s1.len() as int / bsz as int,
        ;
        assert(0 <= j * bsz) by (nonlinear_arith)
            requires
                0 <= j,
                bsz >= 1,
        ;
        let lo = j * bsz;
        let b1 = s1.subrange(lo, lo + bsz);
        let b2 = s2.subrange(lo, lo + bsz);
        assert(order_equiv(b1, b2)) by {
            assert(forall|i: int|
                0 <= i < bsz ==> #[trigger] b1[i] == s1[lo + i] && #[trigger] b2[i] == s2[lo + i]);
        }
        lemma_argmax_order(b1, b2);
        lemma_argmax(b1);
        assert((j + 1) * bsz <= bct * bsz) by (nonlinear_arith)
            requires
                j < nb,
                nb <= bct,
                bsz >= 1,
        ;
        assert(bct * bsz <= 0x10000) by (nonlinear_arith)
            requires
                bsz * bct <= 0x10000,
        ;
        assert(j * bsz + bsz == (j + 1) * bsz) by (nonlinear_arith);
        assert(lo + argmax(b1) < 0x10000);
        assert(b1[argmax(b1)] == s1[lo + argmax(b1)]);
        assert(b2[argmax(b2)] == s2[lo + argmax(b2)]);
    }
    assert(aligned(w1, w2, s1, s2));
    lemma_sort_aligned(w1, w2, s1, s2);
    lemma_sort_peaks_len(w1);
    lemma_sort_peaks_len(w2);
    assert(top_bins(s1, bsz, bct, k) =~= top_bins(s2, bsz, bct, k));
}


/// The order-invariance of peak selection, lifted to whole recordings: two
/// spectra sequences that order every slice's bins alike yield the same
/// constellation map, and with it the same fuzzed fingerprint stream.
pub proof fn lemma_stream_order_invariant(
    sp1: Seq<Seq<u32>>,
    sp2: Seq<Seq<u32>>,
    bsz: nat,
    bct: nat,
    k: nat,
    width: u32,
    h: u16,
    mask: u16,
)
    requires
        sp1.len() == sp2.len(),
        forall|t: int| 0 <= t < sp1.len() ==> order_equiv(#[trigger] sp1[t], sp2[t]),
        bsz >= 1,
        bsz * bct <= 0x10000,
    ensures
        sp1.map_values(|sp: Seq<u32>| top_bins(sp, bsz, bct, k)) == sp2.map_values(
            |sp: Seq<u32>| top_bins(sp, bsz, bct, k),
        ),
        fuzz_stream(
            pair_stream(sp1.map_values(|sp: Seq<u32>| top_bins(sp, bsz, bct, k)), width, h),
            mask,
        ) == fuzz_stream(
            pair_stream(sp2.map_values(|sp: Seq<u32>| top_bins(sp, bsz, bct, k)), width, h),
            mask,
        ),
{
    let m1 = sp1.map_values(|sp: Seq<u32>| top_bins(sp, bsz, bct, k));
    let m2 = sp2.map_values(|sp: Seq<u32>| top_bins(sp, bsz, bct, k));
    assert forall|t: int| 0 <= t < sp1.len() implies #[trigger] m1[t] == m2[t] by {
        lemma_top_bins_order_invariant(sp1[t], sp2[t], bsz, bct, k);
    }
    assert(m1 =~= m2);
}

} // verus!
