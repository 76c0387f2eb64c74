//! Pair fingerprinter and fuzzer. For each anchor peak of slice `i`, every
//! peak of the following `width_target_zone - 1` slices that lies inside the
//! frequency band of half `target_zone_height / 2` around the anchor (lower
//! bound saturating at zero, upper bound exclusive) yields a triple
//! `((anchor, target), dt)`. The last slice is skipped: no forward window
//! exists there. Fuzzing then clears the masked low bits of both
//! frequencies, absorbing one-bin spectral drift.

use vstd::prelude::*;

use crate::song::Song;

verus! {

/// A pair fingerprint: anchor frequency bin, target frequency bin, and their
/// slice distance.
#[derive(Clone, Copy, Debug, Hash, PartialEq, Eq, Structural)]
pub struct Signature {
    pub anchor: u16,
    pub target: u16,
    pub dt: u32,
}

/// The target zone band: `anchor - h / 2 <= b < anchor + h / 2`, with the
/// subtraction saturating at zero.
pub open spec fn in_zone(a: u16, b: u16, h: u16) -> bool {
    &&& (if a >= h / 2 {
        a - h / 2
    } else {
        0
    }) <= b
    &&& (b as int) < a as int + (h / 2) as int
}

/// The triples of one anchor against one target slice, in the slice's peak
/// order.
pub open spec fn zone_targets(a: u16, dt: u32, targets: Seq<u16>, h: u16) -> Seq<Signature>
    decreases targets.len(),
{
    if targets.len() == 0 {
        Seq::empty()
    } else {
        let rest = zone_targets(a, dt, targets.drop_last(), h);
        if in_zone(a, targets.last(), h) {
            rest.push(Signature { anchor: a, target: targets.last(), dt })
        } else {
            rest
        }
    }
}

/// Largest slice distance considered from slice `i`:
/// `min(width, T - i) - 1`.
pub open spec fn dt_max(t_count: int, i: int, width: u32) -> int {
    if width as int <= t_count - i {
        width as int - 1
    } else {
        t_count - i - 1
    }
}

/// The triples of one anchor of slice `i`, distances `1 ..= dtm` in order.
pub open spec fn anchor_pairs(cmap: Seq<Seq<u16>>, i: int, a: u16, dtm: int, h: u16) -> Seq<
    Signature,
>
    decreases dtm,
{
    if dtm <= 0 {
        Seq::empty()
    } else {
        anchor_pairs(cmap, i, a, dtm - 1, h) + zone_targets(a, dtm as u32, cmap[i + dtm], h)
    }
}

/// The triples of slice `i` for its first `na` anchors, in peak order.
pub open spec fn slice_pairs_upto(cmap: Seq<Seq<u16>>, i: int, na: int, width: u32, h: u16) -> Seq<
    Signature,
>
    decreases na,
{
    if na <= 0 {
        Seq::empty()
    } else {
        slice_pairs_upto(cmap, i, na - 1, width, h) + anchor_pairs(
            cmap,
            i,
            cmap[i][na - 1],
            dt_max(cmap.len() as int, i, width),
            h,
        )
    }
}

pub open spec fn slice_pairs(cmap: Seq<Seq<u16>>, i: int, width: u32, h: u16) -> Seq<Signature> {
    slice_pairs_upto(cmap, i, cmap[i].len() as int, width, h)
}

/// One list of triples per anchor slice `0 .. T - 1`.
pub open spec fn pair_stream(cmap: Seq<Seq<u16>>, width: u32, h: u16) -> Seq<Seq<Signature>>
    recommends
        cmap.len() >= 1,
{
    Seq::new((cmap.len() - 1) as nat, |i: int| slice_pairs(cmap, i, width, h))
}

/// Fuzzing clears the masked low bits of both frequencies; the slice
/// distance is untouched.
pub open spec fn fuzz_sig(s: Signature, mask: u16) -> Signature {
    Signature { anchor: s.anchor & !mask, target: s.target & !mask, dt: s.dt }
}

pub open spec fn fuzz_slice(sigs: Seq<Signature>, mask: u16) -> Seq<Signature> {
    sigs.map_values(|s: Signature| fuzz_sig(s, mask))
}

pub open spec fn fuzz_stream(stream: Seq<Seq<Signature>>, mask: u16) -> Seq<Seq<Signature>> {
    stream.map_values(|sigs: Seq<Signature>| fuzz_slice(sigs, mask))
}

impl Signature {
    /// Apply the fuzz mask: clear the masked low bits of both frequencies.
    pub fn fuzz(self, mask: u16) -> (r: Signature)
        ensures
            r == fuzz_sig(self, mask),
    {
        Signature { anchor: self.anchor & !mask, target: self.target & !mask, dt: self.dt }
    }
}

/// Fuzzing is idempotent: applying the mask twice equals applying it once.
pub proof fn lemma_fuzz_idempotent(s: Signature, mask: u16)
    ensures
        fuzz_sig(fuzz_sig(s, mask), mask) == fuzz_sig(s, mask),
{
    let a = s.anchor;
    let t = s.target;
    assert((a & !mask) & !mask == a & !mask) by (bit_vector);
    assert((t & !mask) & !mask == t & !mask) by (bit_vector);
}


/// Idempotence lifted to whole streams: fuzzing a fingerprint stream twice
/// equals fuzzing it once.
pub proof fn lemma_fuzz_stream_idempotent(stream: Seq<Seq<Signature>>, mask: u16)
    ensures
        fuzz_stream(fuzz_stream(stream, mask), mask) == fuzz_stream(stream, mask),
{
    let once = fuzz_stream(stream, mask);
    let twice = fuzz_stream(once, mask);
    assert forall|i: int| 0 <= i < stream.len() implies #[trigger] twice[i] == once[i] by {
        assert forall|j: int| 0 <= j < stream[i].len() implies #[trigger] fuzz_slice(
            fuzz_slice(stream[i], mask),
            mask,
        )[j] == fuzz_slice(stream[i], mask)[j] by {
            lemma_fuzz_idempotent(stream[i][j], mask);
        }
        assert(fuzz_slice(fuzz_slice(stream[i], mask), mask) =~= fuzz_slice(stream[i], mask));
    }
    assert(twice =~= once);
}

/// Every triple of the pair stream lies in the target zone: distance at
/// least one and under `width`, target inside the anchor's band.
pub proof fn lemma_zone_targets_in_zone(a: u16, dt: u32, targets: Seq<u16>, h: u16)
    ensures
        forall|m: int|
            0 <= m < zone_targets(a, dt, targets, h).len() ==> {
                let s = #[trigger] zone_targets(a, dt, targets, h)[m];
                s.anchor == a && s.dt == dt && in_zone(a, s.target, h)
            },
    decreases targets.len(),
{
    if targets.len() > 0 {
        lemma_zone_targets_in_zone(a, dt, targets.drop_last(), h);
        let zs = zone_targets(a, dt, targets, h);
        let rest = zone_targets(a, dt, targets.drop_last(), h);
        assert forall|m: int| 0 <= m < zs.len() implies {
            let s = #[trigger] zs[m];
            s.anchor == a && s.dt == dt && in_zone(a, s.target, h)
        } by {
            if in_zone(a, targets.last(), h) {
                if m < rest.len() {
                    assert(zs[m] == rest[m]);
                } else {
                    assert(zs[m] == Signature { anchor: a, target: targets.last(), dt });
                }
            } else {
                assert(zs[m] == rest[m]);
            }
        }
    }
}

pub proof fn lemma_anchor_pairs_zone(cmap: Seq<Seq<u16>>, i: int, a: u16, dtm: int, h: u16)
    requires
        dtm <= u32::MAX,
    ensures
        forall|m: int|
            0 <= m < anchor_pairs(cmap, i, a, dtm, h).len() ==> {
                let s = #[trigger] anchor_pairs(cmap, i, a, dtm, h)[m];
                s.anchor == a && 1 <= s.dt <= dtm && in_zone(a, s.target, h)
            },
    decreases dtm,
{
    if dtm > 0 {
        lemma_anchor_pairs_zone(cmap, i, a, dtm - 1, h);
        lemma_zone_targets_in_zone(a, dtm as u32, cmap[i + dtm], h);
        let zs = anchor_pairs(cmap, i, a, dtm, h);
        let prev = anchor_pairs(cmap, i, a, dtm - 1, h);
        let tail = zone_targets(a, dtm as u32, cmap[i + dtm], h);
        assert forall|m: int| 0 <= m < zs.len() implies {
            let s = #[trigger] zs[m];
            s.anchor == a && 1 <= s.dt <= dtm && in_zone(a, s.target, h)
        } by {
            if m < prev.len() {
                assert(zs[m] == prev[m]);
            } else {
                assert(zs[m] == tail[m - prev.len()]);
            }
        }
    }
}

pub proof fn lemma_slice_pairs_zone(cmap: Seq<Seq<u16>>, i: int, na: int, width: u32, h: u16)
    requires
        0 <= i < cmap.len(),
    ensures
        forall|m: int|
            0 <= m < slice_pairs_upto(cmap, i, na, width, h).len() ==> {
                let s = #[trigger] slice_pairs_upto(cmap, i, na, width, h)[m];
                1 <= s.dt < width && in_zone(s.anchor, s.target, h)
            },
    decreases na,
{
    if na > 0 {
        lemma_slice_pairs_zone(cmap, i, na - 1, width, h);
        let dtm = dt_max(cmap.len() as int, i, width);
        lemma_anchor_pairs_zone(cmap, i, cmap[i][na - 1], dtm, h);
        let zs = slice_pairs_upto(cmap, i, na, width, h);
        let prev = slice_pairs_upto(cmap, i, na - 1, width, h);
        let tail = anchor_pairs(cmap, i, cmap[i][na - 1], dtm, h);
        assert forall|m: int| 0 <= m < zs.len() implies {
            let s = #[trigger] zs[m];
            1 <= s.dt < width && in_zone(s.anchor, s.target, h)
        } by {
            if m < prev.len() {
                assert(zs[m] == prev[m]);
            } else {
                assert(zs[m] == tail[m - prev.len()]);
                assert(dtm < width);
            }
        }
    }
}

fn zone_check(a: u16, b: u16, h: u16) -> (r: bool)
    ensures
        r == in_zone(a, b, h),
{
    let lo: u16 = if a >= h / 2 {
        a - h / 2
    } else {
        0
    };
    lo <= b && (b as u32) < a as u32 + (h / 2) as u32
}

impl Song {
    /// The pair fingerprints of a constellation map, one list per anchor
    /// slice `0 .. T - 1` (the last slice is skipped), each triple's target
    /// inside the zone of `width` slices and `height` Hz around its anchor.
    pub fn signatures(
        target_zone_width: u32,
        target_zone_height: u16,
        constellation_map: &Vec<Vec<u16>>,
    ) -> (r: Vec<Vec<Signature>>)
        requires
            constellation_map.len() >= 1,
        ensures
            r@.len() == constellation_map@.len() - 1,
            forall|i: int|
                0 <= i < r@.len() ==> r@[i]@ == pair_stream(
                    constellation_map.deep_view(),
                    target_zone_width,
                    target_zone_height,
                )[i],
            forall|i: int, m: int|
                0 <= i < r@.len() && 0 <= m < r@[i]@.len() ==> {
                    let s = #[trigger] r@[i]@[m];
                    1 <= s.dt < target_zone_width && in_zone(s.anchor, s.target, target_zone_height)
                },
    {
        let ghost cm = constellation_map.deep_view();
        proof {
            assert(cm.len() == constellation_map@.len());
            assert(forall|i: int|
                0 <= i < cm.len() ==> cm[i] == #[trigger] constellation_map@[i]@);
        }
        let t_count: usize = constellation_map.len();
        let mut r: Vec<Vec<Signature>> = Vec::new();
        let mut i: usize = 0;
        while i < t_count - 1
            invariant
                cm == constellation_map.deep_view(),
                cm.len() == constellation_map@.len(),
                forall|j: int| 0 <= j < cm.len() ==> cm[j] == #[trigger] constellation_map@[j]@,
                t_count == constellation_map.len(),
                t_count >= 1,
                i <= t_count - 1,
                r@.len() == i,
                forall|j: int|
                    0 <= j < i ==> r@[j]@ == pair_stream(cm, target_zone_width, target_zone_height)[j],
                forall|j: int, m: int|
                    0 <= j < i && 0 <= m < r@[j]@.len() ==> {
                        let s = #[trigger] r@[j]@[m];
                        1 <= s.dt < target_zone_width && in_zone(
                            s.anchor,
                            s.target,
                            target_zone_height,
                        )
                    },
            decreases t_count - 1 - i,
        {
            let anchors = &constellation_map[i];
            let mut acc: Vec<Signature> = Vec::new();
            let mut ai: usize = 0;
            while ai < anchors.len()
                invariant
                    cm == constellation_map.deep_view(),
                    cm.len() == constellation_map@.len(),
                    forall|j: int| 0 <= j < cm.len() ==> cm[j] == #[trigger] constellation_map@[j]@,
                    t_count == constellation_map.len(),
                    i < t_count,
                    anchors@ == constellation_map@[i as int]@,
                    ai <= anchors.len(),
                    acc@ == slice_pairs_upto(
                        cm,
                        i as int,
                        ai as int,
                        target_zone_width,
                        target_zone_height,
                    ),
                decreases anchors.len() - ai,
            {
                let a: u16 = anchors[ai];
                // distances 1 ..= min(width, T - i) - 1
                let lim: u64 = if (target_zone_width as u64) <= (t_count - i) as u64 {
                    target_zone_width as u64
                } else {
                    (t_count - i) as u64
                };
                let ghost dtm = dt_max(cm.len() as int, i as int, target_zone_width);
                proof {
                    assert(lim as int - 1 == dtm);
                }
                let mut dt: u64 = 1;
                while dt < lim
                    invariant
                        cm == constellation_map.deep_view(),
                        cm.len() == constellation_map@.len(),
                        forall|j: int|
                            0 <= j < cm.len() ==> cm[j] == #[trigger] constellation_map@[j]@,
                        t_count == constellation_map.len(),
                        i < t_count,
                        lim <= t_count - i,
                        1 <= dt,
                        dt <= lim || dt == 1,
                        dtm == dt_max(cm.len() as int, i as int, target_zone_width),
                        lim as int - 1 == dtm,
                        acc@ == slice_pairs_upto(
                            cm,
                            i as int,
                            ai as int,
                            target_zone_width,
                            target_zone_height,
                        ) + anchor_pairs(cm, i as int, a, dt as int - 1, target_zone_height),
                    decreases lim - dt,
                {
                    let targets = &constellation_map[i + dt as usize];
                    let ghost tseq = cm[i as int + dt as int];
                    let mut ti: usize = 0;
                    while ti < targets.len()
                        invariant
                            targets@ == constellation_map@[i as int + dt as int]@,
                            tseq == targets@,
                            ti <= targets.len(),
                            acc@ == slice_pairs_upto(
                                cm,
                                i as int,
                                ai as int,
                                target_zone_width,
                                target_zone_height,
                            ) + anchor_pairs(cm, i as int, a, dt as int - 1, target_zone_height)
                                + zone_targets(
                                a,
                                dt as u32,
                                tseq.take(ti as int),
                                target_zone_height,
                            ),
                        decreases targets.len() - ti,
                    {
                        let b: u16 = targets[ti];
                        if zone_check(a, b, target_zone_height) {
                            acc.push(Signature { anchor: a, target: b, dt: dt as u32 });
                        }
                        proof {
                            assert(tseq.take(ti + 1).drop_last() =~= tseq.take(ti as int));
                            assert(tseq.take(ti + 1).last() == tseq[ti as int]);
                        }
                        ti = ti + 1;
                    }
                    proof {
                        assert(tseq.take(targets@.len() as int) =~= tseq);
                    }
                    dt = dt + 1;
                }
                proof {
                    assert(acc@ == slice_pairs_upto(
                        cm,
                        i as int,
                        ai as int + 1,
                        target_zone_width,
                        target_zone_height,
                    ));
                }
                ai = ai + 1;
            }
            proof {
                assert(acc@ == slice_pairs(cm, i as int, target_zone_width, target_zone_height));
                lemma_slice_pairs_zone(
                    cm,
                    i as int,
                    cm[i as int].len() as int,
                    target_zone_width,
                    target_zone_height,
                );
            }
            r.push(acc);
            i = i + 1;
        }
        r
    }
}

} // verus!
