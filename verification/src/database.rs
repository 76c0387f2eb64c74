//! The inverted index. Per-song fingerprint streams are materialized into
//! `(fingerprint, anchor slice)` vectors; the builder then merges them
//! serially in song order, appending a `(song_id, anchor_slice)` posting
//! under each fingerprint key. The serial merge makes posting order — and
//! with it the whole built index — a function of the inputs alone.
//! Duplicates are kept on purpose: repeated fingerprints are signal.

use vstd::prelude::*;

use std::collections::HashMap;

use crate::config::DatabaseConfig;
use crate::error::Error;
use crate::fingerprint::Signature;
use crate::matcher::best_of;
use crate::matcher::hist_of;
use crate::matcher::hist_total;
use crate::matcher::hist_upto;
use crate::matcher::hits_of;
use crate::matcher::hits_upto;
use crate::matcher::lemma_bump_at;
use crate::matcher::lemma_hist_total_take_le;
use crate::matcher::lemma_hist_upto_bounds;
use crate::matcher::matches_of;
use crate::matcher::matches_upto;
use crate::matcher::posting_hits;
use crate::matcher::sig_hits;
use crate::matcher::Match;
use crate::song::Song;

verus! {

broadcast use vstd::std_specs::hash::group_hash_axioms;

/// A fingerprint packed into one integer key: anchor, target, and slice
/// distance in disjoint bit ranges, so distinct triples get distinct keys.
pub open spec fn sig_key(s: Signature) -> u64 {
    (s.anchor as int * 0x1_0000_0000_0000 + s.target as int * 0x1_0000_0000 + s.dt as int) as u64
}

/// Packing is injective: equal keys mean equal triples.
pub proof fn lemma_sig_key_injective(a: Signature, b: Signature)
    requires
        sig_key(a) == sig_key(b),
    ensures
        a == b,
{
    assert(a.anchor == b.anchor && a.target == b.target && a.dt == b.dt) by (nonlinear_arith)
        requires
            a.anchor as int * 0x1_0000_0000_0000 + a.target as int * 0x1_0000_0000 + a.dt as int
                == b.anchor as int * 0x1_0000_0000_0000 + b.target as int * 0x1_0000_0000 + b.dt
                as int,
            a.anchor <= 0xFFFF,
            b.anchor <= 0xFFFF,
            a.target <= 0xFFFF,
            b.target <= 0xFFFF,
            a.dt <= 0xFFFF_FFFF,
            b.dt <= 0xFFFF_FFFF,
    ;
}

/// Pack a fingerprint into its index key.
pub fn key_of(s: &Signature) -> (r: u64)
    ensures
        r == sig_key(*s),
{
    (s.anchor as u64) * 0x1_0000_0000_0000 + (s.target as u64) * 0x1_0000_0000 + (s.dt as u64)
}

/// One song's materialized fingerprints, each with its anchor slice.
pub struct SongData(pub Vec<(Signature, u32)>);

/// The data vector of a stream, slice by slice: every fingerprint of slice
/// `t` is paired with `t`.
pub open spec fn data_upto(stream: Seq<Seq<Signature>>, t: int) -> Seq<(Signature, u32)>
    decreases t,
{
    if t <= 0 {
        Seq::empty()
    } else {
        data_upto(stream, t - 1) + stream[t - 1].map_values(|s: Signature| (s, (t - 1) as u32))
    }
}

pub open spec fn data_of(stream: Seq<Seq<Signature>>) -> Seq<(Signature, u32)> {
    data_upto(stream, stream.len() as int)
}

/// A posting: the song and the anchor slice a fingerprint occurred at.
pub type Posting = (u32, u32);

/// Append one posting under one key, creating the list if absent.
pub open spec fn add_posting(m: Map<u64, Seq<Posting>>, key: u64, p: Posting) -> Map<
    u64,
    Seq<Posting>,
> {
    if m.contains_key(key) {
        m.insert(key, m[key].push(p))
    } else {
        m.insert(key, seq![p])
    }
}

/// Merge the first `j` entries of one song's data vector.
pub open spec fn merge_upto(
    m: Map<u64, Seq<Posting>>,
    id: u32,
    data: Seq<(Signature, u32)>,
    j: int,
) -> Map<u64, Seq<Posting>>
    decreases j,
{
    if j <= 0 {
        m
    } else {
        add_posting(merge_upto(m, id, data, j - 1), sig_key(data[j - 1].0), (id, data[j - 1].1))
    }
}

/// The index of the first `s` songs, merged in song order.
pub open spec fn index_upto(entries: Seq<Seq<(Signature, u32)>>, s: int) -> Map<u64, Seq<Posting>>
    decreases s,
{
    if s <= 0 {
        Map::empty()
    } else {
        let prev = index_upto(entries, s - 1);
        merge_upto(prev, (s - 1) as u32, entries[s - 1], entries[s - 1].len() as int)
    }
}

/// The inverted index of a whole catalog.
pub open spec fn index_of(entries: Seq<Seq<(Signature, u32)>>) -> Map<u64, Seq<Posting>> {
    index_upto(entries, entries.len() as int)
}

/// A posting-list map, read as a map of sequences.
pub open spec fn as_index(m: Map<u64, Vec<Posting>>) -> Map<u64, Seq<Posting>> {
    Map::new(|k: u64| m.contains_key(k), |k: u64| m[k]@)
}

/// Whatever a map already holds survives an `add_posting`.
proof fn lemma_add_posting_keeps(
    m: Map<u64, Seq<Posting>>,
    key: u64,
    p: Posting,
    k2: u64,
    q: Posting,
)
    requires
        m.contains_key(k2),
        m[k2].contains(q),
    ensures
        add_posting(m, key, p).contains_key(k2),
        add_posting(m, key, p)[k2].contains(q),
{
    if k2 == key && m.contains_key(key) {
        let i = choose|i: int| 0 <= i < m[k2].len() && m[k2][i] == q;
        assert(add_posting(m, key, p)[k2][i] == q);
    }
}

proof fn lemma_merge_upto_keeps(
    m: Map<u64, Seq<Posting>>,
    id: u32,
    data: Seq<(Signature, u32)>,
    j: int,
    k2: u64,
    q: Posting,
)
    requires
        m.contains_key(k2),
        m[k2].contains(q),
    ensures
        merge_upto(m, id, data, j).contains_key(k2),
        merge_upto(m, id, data, j)[k2].contains(q),
    decreases j,
{
    if j > 0 {
        lemma_merge_upto_keeps(m, id, data, j - 1, k2, q);
        lemma_add_posting_keeps(
            merge_upto(m, id, data, j - 1),
            sig_key(data[j - 1].0),
            (id, data[j - 1].1),
            k2,
            q,
        );
    }
}

/// Merging a song's data vector puts each of its postings into the map.
proof fn lemma_merge_upto_adds(
    m: Map<u64, Seq<Posting>>,
    id: u32,
    data: Seq<(Signature, u32)>,
    j: int,
    j0: int,
)
    requires
        0 <= j0 < j,
    ensures
        merge_upto(m, id, data, j).contains_key(sig_key(data[j0].0)),
        merge_upto(m, id, data, j)[sig_key(data[j0].0)].contains((id, data[j0].1)),
    decreases j,
{
    let key = sig_key(data[j0].0);
    let p = (id, data[j0].1);
    if j0 == j - 1 {
        let prev = merge_upto(m, id, data, j - 1);
        if prev.contains_key(key) {
            assert(add_posting(prev, key, p)[key].last() == p);
            assert(add_posting(prev, key, p)[key].contains(p));
        } else {
            assert(add_posting(prev, key, p)[key][0] == p);
        }
    } else {
        lemma_merge_upto_adds(m, id, data, j - 1, j0);
        lemma_add_posting_keeps(
            merge_upto(m, id, data, j - 1),
            sig_key(data[j - 1].0),
            (id, data[j - 1].1),
            key,
            p,
        );
    }
}

/// Index completeness: every `(fingerprint, anchor)` entry of every merged
/// song stands in the built index as the posting `(song, anchor)` under the
/// fingerprint's key.
pub proof fn lemma_index_complete(entries: Seq<Seq<(Signature, u32)>>, i: int, j: int)
    requires
        0 <= i < entries.len(),
        0 <= j < entries[i].len(),
    ensures
        index_of(entries).contains_key(sig_key(entries[i][j].0)),
        index_of(entries)[sig_key(entries[i][j].0)].contains(
            ((i as u32), entries[i][j].1),
        ),
{
    lemma_index_upto_contains(entries, entries.len() as int, i, j);
}

proof fn lemma_index_upto_contains(entries: Seq<Seq<(Signature, u32)>>, s: int, i: int, j: int)
    requires
        0 <= i < s <= entries.len(),
        0 <= j < entries[i].len(),
    ensures
        index_upto(entries, s).contains_key(sig_key(entries[i][j].0)),
        index_upto(entries, s)[sig_key(entries[i][j].0)].contains(((i as u32), entries[i][j].1)),
    decreases s,
{
    if i == s - 1 {
        lemma_merge_upto_adds(
            index_upto(entries, s - 1),
            (s - 1) as u32,
            entries[s - 1],
            entries[s - 1].len() as int,
            j,
        );
    } else {
        lemma_index_upto_contains(entries, s - 1, i, j);
        lemma_merge_upto_keeps(
            index_upto(entries, s - 1),
            (s - 1) as u32,
            entries[s - 1],
            entries[s - 1].len() as int,
            sig_key(entries[i][j].0),
            ((i as u32), entries[i][j].1),
        );
    }
}

/// Every element of a data vector is a fingerprint of its slice: entry
/// `idx` is `(stream[t][j], t)` for some slice `t` and position `j`.
pub proof fn lemma_data_elem(stream: Seq<Seq<Signature>>, tmax: int, idx: int)
    requires
        0 <= tmax <= stream.len(),
        stream.len() <= u32::MAX,
        0 <= idx < data_upto(stream, tmax).len(),
    ensures
        exists|t: int, j: int|
            0 <= t < tmax && 0 <= j < stream[t].len() && #[trigger] data_upto(stream, tmax)[idx]
                == (stream[t][j], t as u32),
    decreases tmax,
{
    let prev = data_upto(stream, tmax - 1);
    if idx < prev.len() {
        lemma_data_elem(stream, tmax - 1, idx);
        let (t, j) = choose|t: int, j: int|
            0 <= t < tmax - 1 && 0 <= j < stream[t].len() && #[trigger] data_upto(
                stream,
                tmax - 1,
            )[idx] == (stream[t][j], t as u32);
        assert(data_upto(stream, tmax)[idx] == (stream[t][j], t as u32));
    } else {
        let j = idx - prev.len();
        assert(data_upto(stream, tmax)[idx] == (stream[tmax - 1][j], (tmax - 1) as u32));
    }
}

impl DatabaseConfig {
    /// One song's data vector: every fingerprint of its stream, paired with
    /// the slice it anchors at. Fails exactly as `signatures` does.
    pub fn song_data(&self, song: &Song) -> (r: Result<SongData, Error>)
        requires
            self.valid(),
        ensures
            match r {
                Ok(d) => {
                    &&& self.accepts(song.sample_rate as nat, song.samples@.len())
                    &&& d.0@ == data_of(self.stream_of(song.sample_rate as nat, song.samples@))
                },
                Err(e) => {
                    &&& !self.accepts(song.sample_rate as nat, song.samples@.len())
                    &&& e == (if !self.compatible(song.sample_rate as nat) {
                        Error::InvalidConfig
                    } else {
                        Error::UnsupportedShape
                    })
                },
            },
    {
        let stream = match self.signatures(song) {
            Ok(stream) => stream,
            Err(e) => {
                return Err(e);
            },
        };
        let ghost gs = self.stream_of(song.sample_rate as nat, song.samples@);
        proof {
            assert(gs.len() == stream@.len());
            assert(forall|i: int| 0 <= i < gs.len() ==> gs[i] == #[trigger] stream@[i]@);
        }
        let mut out: Vec<(Signature, u32)> = Vec::new();
        let mut t: usize = 0;
        while t < stream.len()
            invariant
                t <= stream.len(),
                gs.len() == stream@.len(),
                forall|i: int| 0 <= i < gs.len() ==> gs[i] == #[trigger] stream@[i]@,
                stream@.len() <= u32::MAX,
                out@ == data_upto(gs, t as int),
            decreases stream.len() - t,
        {
            let slice = &stream[t];
            let mut m: usize = 0;
            while m < slice.len()
                invariant
                    m <= slice.len(),
                    t < stream@.len(),
                    stream@.len() <= u32::MAX,
                    slice@ == stream@[t as int]@,
                    gs.len() == stream@.len(),
                    forall|i: int| 0 <= i < gs.len() ==> gs[i] == #[trigger] stream@[i]@,
                    out@ == data_upto(gs, t as int) + gs[t as int].take(m as int).map_values(
                        |s: Signature| (s, t as u32),
                    ),
                decreases slice.len() - m,
            {
                out.push((slice[m], t as u32));
                proof {
                    assert(gs[t as int].take(m + 1).map_values(|s: Signature| (s, t as u32))
                        =~= gs[t as int].take(m as int).map_values(|s: Signature| (s, t as u32)).push(
                        (gs[t as int][m as int], t as u32),
                    ));
                }
                m = m + 1;
            }
            proof {
                assert(gs[t as int].take(gs[t as int].len() as int) =~= gs[t as int]);
                assert(out@ == data_upto(gs, t + 1));
            }
            t = t + 1;
        }
        proof {
            assert(out@ == data_of(gs)) by {
                assert(gs.len() == stream@.len());
            }
        }
        Ok(SongData(out))
    }
}

/// Collects named song data vectors; `build` merges them into a `Database`.
pub struct DatabaseBuilder {
    config: DatabaseConfig,
    names: Vec<String>,
    entries: Vec<SongData>,
}

/// A built, read-only catalog index.
pub struct Database {
    data: HashMap<u64, Vec<Posting>>,
    config: DatabaseConfig,
    song_names: Vec<String>,
}

impl DatabaseBuilder {
    pub closed spec fn wf(&self) -> bool {
        &&& self.config.valid()
        &&& self.names@.len() == self.entries@.len()
    }

    pub closed spec fn config_spec(&self) -> DatabaseConfig {
        self.config
    }

    pub closed spec fn names_spec(&self) -> Seq<Seq<char>> {
        self.names.deep_view()
    }

    pub closed spec fn entries_spec(&self) -> Seq<Seq<(Signature, u32)>> {
        Seq::new(self.entries@.len(), |i: int| self.entries@[i].0@)
    }

    pub fn new(config: DatabaseConfig) -> (r: DatabaseBuilder)
        requires
            config.valid(),
        ensures
            r.wf(),
            r.config_spec() == config,
            r.names_spec() == Seq::<Seq<char>>::empty(),
            r.entries_spec() == Seq::<Seq<(Signature, u32)>>::empty(),
    {
        let r = DatabaseBuilder { config, names: Vec::new(), entries: Vec::new() };
        proof {
            assert(r.names_spec() =~= Seq::<Seq<char>>::empty());
            assert(r.entries_spec() =~= Seq::<Seq<(Signature, u32)>>::empty());
        }
        r
    }

    /// Fingerprint one recording and append it to the catalog under `name`.
    /// On failure the builder is unchanged and the error is the pipeline's.
    pub fn add_song(&mut self, name: String, song: &Song) -> (r: Result<(), Error>)
        requires
            old(self).wf(),
        ensures
            final(self).wf(),
            final(self).config_spec() == old(self).config_spec(),
            match r {
                Ok(()) => {
                    &&& old(self).config_spec().accepts(
                        song.sample_rate as nat,
                        song.samples@.len(),
                    )
                    &&& final(self).names_spec() == old(self).names_spec().push(name@)
                    &&& final(self).entries_spec() == old(self).entries_spec().push(
                        data_of(
                            old(self).config_spec().stream_of(
                                song.sample_rate as nat,
                                song.samples@,
                            ),
                        ),
                    )
                },
                Err(e) => {
                    &&& !old(self).config_spec().accepts(
                        song.sample_rate as nat,
                        song.samples@.len(),
                    )
                    &&& final(self).names_spec() == old(self).names_spec()
                    &&& final(self).entries_spec() == old(self).entries_spec()
                    &&& e == (if !old(self).config_spec().compatible(song.sample_rate as nat) {
                        Error::InvalidConfig
                    } else {
                        Error::UnsupportedShape
                    })
                },
            },
    {
        let data = match self.config.song_data(song) {
            Ok(d) => d,
            Err(e) => {
                return Err(e);
            },
        };
        self.add_song_data(name, data);
        Ok(())
    }

    /// Append an already materialized data vector (for example one served
    /// from a cache) to the catalog under `name`.
    pub fn add_song_data(&mut self, name: String, data: SongData)
        requires
            old(self).wf(),
        ensures
            final(self).wf(),
            final(self).config_spec() == old(self).config_spec(),
            final(self).names_spec() == old(self).names_spec().push(name@),
            final(self).entries_spec() == old(self).entries_spec().push(data.0@),
    {
        self.names.push(name);
        self.entries.push(data);
        proof {
            assert(self.names_spec() =~= old(self).names_spec().push(name@));
            assert(self.entries_spec() =~= old(self).entries_spec().push(data.0@));
        }
    }

    /// Merge the collected songs, in catalog order, into the inverted
    /// index: for each data entry `(fp, t)` of song `id`, append the
    /// posting `(id, t)` under the key of `fp`.
    pub fn build(self) -> (db: Database)
        requires
            self.wf(),
            self.entries_spec().len() <= u32::MAX,
        ensures
            db.wf(),
            db.config_spec() == self.config_spec(),
            db.names_spec() == self.names_spec(),
            db.index() == index_of(self.entries_spec()),
            db.song_count() == self.entries_spec().len(),
    {
        let ghost gself = self;
        let DatabaseBuilder { config, names, entries } = self;
        let ghost ges = Seq::new(entries@.len(), |i: int| entries@[i].0@);
        proof {
            assert(ges == gself.entries_spec());
        }
        let mut data: HashMap<u64, Vec<Posting>> = HashMap::new();
        let song_count: usize = entries.len();
        let mut s: usize = 0;
        while s < song_count
            invariant
                song_count == entries@.len(),
                song_count <= u32::MAX,
                ges == Seq::new(entries@.len(), |i: int| entries@[i].0@),
                s <= song_count,
                as_index(data@) == index_upto(ges, s as int),
                forall|key: u64, pi: int|
                    #![trigger index_upto(ges, s as int)[key][pi]]
                    index_upto(ges, s as int).contains_key(key) && 0 <= pi < index_upto(
                        ges,
                        s as int,
                    )[key].len() ==> (index_upto(ges, s as int)[key][pi].0 as int) < s,
            decreases song_count - s,
        {
            let entry = &entries[s];
            let id: u32 = s as u32;
            let mut j: usize = 0;
            while j < entry.0.len()
                invariant
                    song_count == entries@.len(),
                    song_count <= u32::MAX,
                    ges == Seq::new(entries@.len(), |i: int| entries@[i].0@),
                    s < song_count,
                    id == s as u32,
                    entry.0@ == ges[s as int],
                    j <= entry.0@.len(),
                    as_index(data@) == merge_upto(
                        index_upto(ges, s as int),
                        id,
                        ges[s as int],
                        j as int,
                    ),
                    forall|key: u64, pi: int|
                        #![trigger as_index(data@)[key][pi]]
                        as_index(data@).contains_key(key) && 0 <= pi < as_index(data@)[key].len()
                            ==> (as_index(data@)[key][pi].0 as int) <= s,
                decreases entry.0@.len() - j,
            {
                let (sig, t) = entry.0[j];
                let key: u64 = key_of(&sig);
                let ghost pre = as_index(data@);
                let ghost premap = data@;
                let mut lst: Vec<Posting> = match data.remove(&key) {
                    Some(v) => v,
                    None => Vec::new(),
                };
                proof {
                    assert(data@ == premap.remove(key));
                    if premap.contains_key(key) {
                        assert(lst@ == pre[key]);
                    } else {
                        assert(lst@ == Seq::<Posting>::empty());
                    }
                }
                lst.push((id, t));
                data.insert(key, lst);
                proof {
                    assert(as_index(data@) =~~= add_posting(pre, key, (id, t)));
                    assert forall|key2: u64, pi: int|
                        as_index(data@).contains_key(key2) && 0 <= pi < as_index(data@)[key2].len()
                        implies (#[trigger] as_index(data@)[key2][pi].0 as int) <= s by {
                        if key2 == key {
                            if pi < as_index(data@)[key2].len() - 1 {
                                assert(pre.contains_key(key2) && as_index(data@)[key2][pi]
                                    == pre[key2][pi]);
                            } else {
                                assert(as_index(data@)[key2][pi] == (id, t));
                            }
                        } else {
                            assert(pre.contains_key(key2) && as_index(data@)[key2][pi]
                                == pre[key2][pi]);
                        }
                    }
                }
                j = j + 1;
            }
            s = s + 1;
        }
        let db = Database { data, config, song_names: names };
        proof {
            assert(db.index() == index_of(gself.entries_spec()));
            assert(db.names_spec() == gself.names_spec());
        }
        db
    }
}

impl Database {
    /// The index as a mathematical map from fingerprint key to its posting
    /// sequence.
    pub closed spec fn index(&self) -> Map<u64, Seq<Posting>> {
        as_index(self.data@)
    }

    pub closed spec fn config_spec(&self) -> DatabaseConfig {
        self.config
    }

    pub closed spec fn names_spec(&self) -> Seq<Seq<char>> {
        self.song_names.deep_view()
    }

    pub closed spec fn song_count(&self) -> nat {
        self.song_names@.len()
    }

    /// Every posting names a song of the catalog, and the config knobs are
    /// valid.
    pub closed spec fn wf(&self) -> bool {
        &&& self.config.valid()
        &&& self.song_names@.len() <= u32::MAX
        &&& forall|key: u64, pi: int|
            #![trigger self.index()[key][pi]]
            self.index().contains_key(key) && 0 <= pi < self.index()[key].len() ==> (
            self.index()[key][pi].0 as int) < self.song_names@.len()
    }

    /// An empty catalog.
    pub fn new(config: DatabaseConfig) -> (r: Database)
        requires
            config.valid(),
        ensures
            r.wf(),
            r.config_spec() == config,
            r.index() == Map::<u64, Seq<Posting>>::empty(),
            r.song_count() == 0,
    {
        let r = Database { data: HashMap::new(), config, song_names: Vec::new() };
        proof {
            assert(r.index() =~= Map::<u64, Seq<Posting>>::empty());
        }
        r
    }

    /// The display name of a catalog song.
    pub fn song_name(&self, id: u32) -> (r: &String)
        requires
            (id as int) < self.song_count(),
        ensures
            r@ == self.names_spec()[id as int],
    {
        &self.song_names[id as usize]
    }

    /// Read access to the raw posting-list map.
    pub fn data(&self) -> (r: &HashMap<u64, Vec<Posting>>)
        ensures
            self.index() == as_index(r@),
    {
        &self.data
    }
}

impl Database {
    /// Match a query recording against the catalog: one candidate per song
    /// that shares at least one posting with the query, in song order, each
    /// scored from its offset histogram. An empty list means no fingerprint
    /// of the query hit the index. Fails exactly as the fingerprint
    /// pipeline does on the query.
    pub fn match_sample(&self, sample: &Song) -> (r: Result<Vec<Match>, Error>)
        requires
            self.wf(),
        ensures
            match r {
                Ok(ms) => {
                    &&& self.config_spec().accepts(
                        sample.sample_rate as nat,
                        sample.samples@.len(),
                    )
                    &&& ms@ == matches_of(
                        hits_of(
                            self.index(),
                            self.config_spec().stream_of(
                                sample.sample_rate as nat,
                                sample.samples@,
                            ),
                        ),
                        self.song_count() as int,
                    )
                },
                Err(e) => {
                    &&& !self.config_spec().accepts(
                        sample.sample_rate as nat,
                        sample.samples@.len(),
                    )
                    &&& e == (if !self.config_spec().compatible(sample.sample_rate as nat) {
                        Error::InvalidConfig
                    } else {
                        Error::UnsupportedShape
                    })
                },
            },
    {
        let stream = match self.config.signatures(sample) {
            Ok(stream) => stream,
            Err(e) => {
                return Err(e);
            },
        };
        let ghost qs = self.config_spec().stream_of(sample.sample_rate as nat, sample.samples@);
        proof {
            assert(qs =~= Seq::new(stream@.len(), |i: int| stream@[i]@));
            assert(forall|i: int| 0 <= i < qs.len() ==> qs[i] == #[trigger] stream@[i]@);
        }
        let ghost idx = self.index();
        // Phase one: collect every vote, in emission order.
        let mut hits: Vec<(u32, i64)> = Vec::new();
        let mut t: usize = 0;
        while t < stream.len()
            invariant
                self.wf(),
                idx == self.index(),
                t <= stream.len(),
                qs.len() == stream@.len(),
                forall|i: int| 0 <= i < qs.len() ==> qs[i] == #[trigger] stream@[i]@,
                stream@.len() <= u32::MAX,
                hits@ == hits_upto(idx, qs, t as int),
            decreases stream.len() - t,
        {
            let sigs = &stream[t];
            let mut j: usize = 0;
            while j < sigs.len()
                invariant
                    self.wf(),
                    idx == self.index(),
                    t < stream@.len(),
                    stream@.len() <= u32::MAX,
                    sigs@ == stream@[t as int]@,
                    qs.len() == stream@.len(),
                    forall|i: int| 0 <= i < qs.len() ==> qs[i] == #[trigger] stream@[i]@,
                    j <= sigs.len(),
                    hits@ == hits_upto(idx, qs, t as int) + sig_hits(
                        idx,
                        qs[t as int],
                        t as int,
                        j as int,
                    ),
                decreases sigs.len() - j,
            {
                let key: u64 = key_of(&sigs[j]);
                match self.data.get(&key) {
                    Some(postings) => {
                        proof {
                            assert(idx.contains_key(key) && idx[key] == postings@);
                        }
                        let mut pi: usize = 0;
                        while pi < postings.len()
                            invariant
                                t < stream@.len(),
                                stream@.len() <= u32::MAX,
                                pi <= postings.len(),
                                idx.contains_key(key),
                                idx[key] == postings@,
                                key == sig_key(qs[t as int][j as int]),
                                j < qs[t as int].len(),
                                hits@ == hits_upto(idx, qs, t as int) + sig_hits(
                                    idx,
                                    qs[t as int],
                                    t as int,
                                    j as int,
                                ) + posting_hits(postings@.take(pi as int), t as int),
                            decreases postings.len() - pi,
                        {
                            let p = postings[pi];
                            hits.push((p.0, p.1 as i64 - t as i64));
                            proof {
                                assert(posting_hits(postings@.take(pi + 1), t as int)
                                    =~= posting_hits(postings@.take(pi as int), t as int).push(
                                    (postings@[pi as int].0, (postings@[pi as int].1 - t) as i64),
                                ));
                            }
                            pi = pi + 1;
                        }
                        proof {
                            assert(postings@.take(postings@.len() as int) =~= postings@);
                            assert(hits@ == hits_upto(idx, qs, t as int) + sig_hits(
                                idx,
                                qs[t as int],
                                t as int,
                                j + 1,
                            ));
                        }
                    },
                    None => {
                        proof {
                            assert(!idx.contains_key(key));
                            assert(sig_hits(idx, qs[t as int], t as int, j + 1) =~= sig_hits(
                                idx,
                                qs[t as int],
                                t as int,
                                j as int,
                            ));
                        }
                    },
                }
                j = j + 1;
            }
            proof {
                assert(hits@ == hits_upto(idx, qs, t + 1));
            }
            t = t + 1;
        }
        proof {
            assert(hits@ == hits_of(idx, qs));
        }
        // Phase two: per song in id order, fold its votes into an offset
        // histogram and score the winning bin.
        let song_count: usize = self.song_names.len();
        let mut results: Vec<Match> = Vec::new();
        let mut id_us: usize = 0;
        while id_us < song_count
            invariant
                song_count <= u32::MAX,
                id_us <= song_count,
                results@ == matches_upto(hits@, id_us as int),
            decreases song_count - id_us,
        {
            let id: u32 = id_us as u32;
            let mut hist: Vec<(i64, u64)> = Vec::new();
            let mut hj: usize = 0;
            while hj < hits.len()
                invariant
                    hj <= hits.len(),
                    hist@ == hist_upto(hits@, id, hj as int),
                decreases hits.len() - hj,
            {
                let (hid, off) = hits[hj];
                if hid == id {
                    let mut p: usize = 0;
                    while p < hist.len() && hist[p].0 != off
                        invariant
                            p <= hist.len(),
                            forall|m: int| 0 <= m < p ==> (#[trigger] hist@[m]).0 != off,
                        decreases hist.len() - p,
                    {
                        p = p + 1;
                    }
                    proof {
                        lemma_hist_upto_bounds(hits@, id, hj as int);
                        lemma_bump_at(hist@, off, p as int);
                    }
                    if p < hist.len() {
                        let c: u64 = hist[p].1;
                        hist.set(p, (off, c + 1));
                    } else {
                        hist.push((off, 1));
                    }
                }
                hj = hj + 1;
            }
            let hits_len: usize = hits.len();
            proof {
                assert(hist@ == hist_of(hits@, id));
                lemma_hist_upto_bounds(hits@, id, hits_len as int);
                assert(hist_total(hist@) <= u64::MAX);
            }
            if hist.len() > 0 {
                let mut best_off: i64 = hist[0].0;
                let mut freq: u64 = hist[0].1;
                let mut q: usize = 1;
                proof {
                    assert(hist@.take(1).len() == 1);
                    assert(best_of(hist@.take(1)) == hist@.take(1)[0]);
                }
                while q < hist.len()
                    invariant
                        1 <= q <= hist@.len(),
                        (best_off, freq) == best_of(hist@.take(q as int)),
                    decreases hist.len() - q,
                {
                    proof {
                        assert(hist@.take(q + 1).drop_last() =~= hist@.take(q as int));
                        assert(hist@.take(q + 1).last() == hist@[q as int]);
                    }
                    let (o, c) = hist[q];
                    if c > freq || (c == freq && o < best_off) {
                        best_off = o;
                        freq = c;
                    }
                    q = q + 1;
                }
                proof {
                    assert(hist@.take(hist@.len() as int) =~= hist@);
                }
                let mut total: u64 = 0;
                let mut q2: usize = 0;
                while q2 < hist.len()
                    invariant
                        q2 <= hist@.len(),
                        total == hist_total(hist@.take(q2 as int)),
                        hist_total(hist@) <= u64::MAX,
                    decreases hist.len() - q2,
                {
                    proof {
                        assert(hist@.take(q2 + 1).drop_last() =~= hist@.take(q2 as int));
                        assert(hist@.take(q2 + 1).last() == hist@[q2 as int]);
                        lemma_hist_total_take_le(hist@, q2 + 1);
                    }
                    total = total + hist[q2].1;
                    q2 = q2 + 1;
                }
                proof {
                    assert(hist@.take(hist@.len() as int) =~= hist@);
                }
                results.push(Match { id, offset: best_off, freq, n: hist.len() as u64, total });
                proof {
                    assert(results@ =~= matches_upto(hits@, id_us + 1));
                }
            } else {
                proof {
                    assert(results@ =~= matches_upto(hits@, id_us + 1));
                }
            }
            id_us = id_us + 1;
        }
        proof {
            assert(qs == self.config_spec().stream_of(sample.sample_rate as nat, sample.samples@));
            assert(results@ == matches_of(hits_of(self.index(), qs), self.song_count() as int));
        }
        Ok(results)
    }
}


} // verus!
