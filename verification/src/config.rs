//! Configuration. A single immutable record of the engine's knobs, passed
//! explicitly; no process-wide state. Knob preconditions are validated when
//! the record is built; the rate-dependent precondition is checked against
//! each recording when it is fingerprinted.

use vstd::prelude::*;

use crate::constellation::cmap_of;
use crate::error::Error;
use crate::fingerprint::fuzz_slice;
use crate::fingerprint::fuzz_stream;
use crate::fingerprint::pair_stream;
use crate::fingerprint::Signature;
use crate::song::Song;

verus! {

/// The engine's command-line knobs, as plain values.
pub struct Args {
    /// Window duration in milliseconds.
    pub ms_timeslice_size: u64,
    /// Peaks kept per slice.
    pub freq_per_slice: usize,
    /// Hz per frequency bucket.
    pub size_bucket: u16,
    /// Number of frequency buckets.
    pub count_bucket: usize,
    /// Upper bound (exclusive) of a pair's slice distance.
    pub width_target_zone: u32,
    /// Full height in Hz of the band around an anchor.
    pub target_zone_height: u16,
    /// Bitmask cleared in both frequencies of a pair; zero is a no-op.
    pub fuzz_factor: u16,
    /// Directory of the catalog recordings.
    pub songs_dir: String,
    /// Directory of the fingerprint cache.
    pub cache_dir: String,
}

/// The immutable configuration record.
#[derive(Clone, Copy, Debug, Hash, PartialEq, Eq, Structural)]
pub struct DatabaseConfig {
    pub slice_size_ms: u64,
    pub freq_per_slice: usize,
    pub bucket_size: u16,
    pub bucket_count: usize,
    pub target_zone_width: u32,
    pub target_zone_height: u16,
    pub fuzz_factor: u16,
}

impl DatabaseConfig {
    /// The rate-independent knob preconditions: a forward zone of at least
    /// two slices and two Hz, at least one peak per slice, buckets of at
    /// least one bin, and bins that fit a 16-bit frequency index.
    pub open spec fn valid(self) -> bool {
        &&& self.target_zone_width >= 2
        &&& self.target_zone_height >= 2
        &&& self.freq_per_slice >= 1
        &&& self.bucket_size >= 1
        &&& self.bucket_size as int * self.bucket_count as int <= 0x10000
    }

    /// Samples per slice at a given rate.
    pub open spec fn window(self, rate: nat) -> int {
        rate as int * self.slice_size_ms as int / 1000
    }

    /// The rate-dependent preconditions: the bucketed band fits the
    /// spectrum's lower half, and a slice holds at least one sample (and a
    /// countable number of them).
    pub open spec fn compatible(self, rate: nat) -> bool {
        &&& rate >= 1
        &&& self.bucket_size as int * self.bucket_count as int <= rate as int / 2
        &&& rate as int * self.slice_size_ms as int <= usize::MAX
        &&& self.window(rate) >= 1
    }

    /// Number of slices of a recording of `n` samples.
    pub open spec fn slice_count(self, rate: nat, n: nat) -> int {
        n as int / self.window(rate)
    }

    /// A recording is fingerprintable when the config fits its rate and it
    /// frames into at least two (and at most `u32::MAX`) slices.
    pub open spec fn accepts(self, rate: nat, n: nat) -> bool {
        &&& self.compatible(rate)
        &&& 2 <= self.slice_count(rate, n)
        &&& self.slice_count(rate, n) <= u32::MAX
    }

    /// The per-slice fingerprint stream of a recording: constellation map,
    /// pair triples, then fuzzing.
    pub open spec fn stream_of(self, rate: nat, samples: Seq<i16>) -> Seq<Seq<Signature>> {
        fuzz_stream(
            pair_stream(
                cmap_of(
                    samples,
                    rate,
                    self.window(rate) as nat,
                    self.bucket_size as nat,
                    self.bucket_count as nat,
                    self.freq_per_slice as nat,
                ),
                self.target_zone_width,
                self.target_zone_height,
            ),
            self.fuzz_factor,
        )
    }

    /// Build the record from the command-line knobs, validating the knob
    /// preconditions.
    pub fn from_args(args: Args) -> (r: Result<DatabaseConfig, Error>)
        ensures
            ({
                let c = DatabaseConfig {
                    slice_size_ms: args.ms_timeslice_size,
                    freq_per_slice: args.freq_per_slice,
                    bucket_size: args.size_bucket,
                    bucket_count: args.count_bucket,
                    target_zone_width: args.width_target_zone,
                    target_zone_height: args.target_zone_height,
                    fuzz_factor: args.fuzz_factor,
                };
                match r {
                    Ok(built) => built == c && c.valid(),
                    Err(e) => e == Error::InvalidConfig && !c.valid(),
                }
            }),
    {
        let c = DatabaseConfig {
            slice_size_ms: args.ms_timeslice_size,
            freq_per_slice: args.freq_per_slice,
            bucket_size: args.size_bucket,
            bucket_count: args.count_bucket,
            target_zone_width: args.width_target_zone,
            target_zone_height: args.target_zone_height,
            fuzz_factor: args.fuzz_factor,
        };
        if c.target_zone_width < 2 || c.target_zone_height < 2 || c.freq_per_slice < 1
            || c.bucket_size < 1 {
            return Err(Error::InvalidConfig);
        }
        if c.bucket_count > 0x10000 {
            proof {
                assert(c.bucket_size as int * c.bucket_count as int > 0x10000) by (nonlinear_arith)
                    requires
                        c.bucket_size >= 1,
                        c.bucket_count as int > 0x10000,
                ;
            }
            return Err(Error::InvalidConfig);
        }
        proof {
            assert(c.bucket_size as int * c.bucket_count as int <= 0xFFFF * 0x10000)
                by (nonlinear_arith)
                requires
                    c.bucket_size <= 0xFFFF,
                    c.bucket_count <= 0x10000,
            ;
        }
        if (c.bucket_size as u64) * (c.bucket_count as u64) > 0x10000 {
            return Err(Error::InvalidConfig);
        }
        Ok(c)
    }

    /// The per-slice fingerprint stream of one recording, materialized.
    ///
    /// Returns `InvalidConfig` when the config does not fit the recording's
    /// sample rate, `UnsupportedShape` when the recording frames into fewer
    /// than two slices (no pair can be formed) or more than a 32-bit slice
    /// index can count.
    pub fn signatures(&self, song: &Song) -> (r: Result<Vec<Vec<Signature>>, Error>)
        requires
            self.valid(),
        ensures
            match r {
                Ok(stream) => {
                    &&& self.accepts(song.sample_rate as nat, song.samples@.len())
                    &&& stream@.len() == self.slice_count(
                        song.sample_rate as nat,
                        song.samples@.len(),
                    ) - 1
                    &&& forall|i: int|
                        0 <= i < stream@.len() ==> stream@[i]@ == self.stream_of(
                            song.sample_rate as nat,
                            song.samples@,
                        )[i]
                },
                Err(e) => {
                    &&& !self.accepts(song.sample_rate as nat, song.samples@.len())
                    &&& e == (if !self.compatible(song.sample_rate as nat) {
                        Error::InvalidConfig
                    } else {
                        Error::UnsupportedShape
                    })
                },
            },
    {
        let rate: usize = song.sample_rate;
        if rate < 1 {
            return Err(Error::InvalidConfig);
        }
        if (self.bucket_size as u64) * (self.bucket_count as u64) > (rate as u64) / 2 {
            proof {
                assert(rate as u64 / 2 == rate as int / 2);
            }
            return Err(Error::InvalidConfig);
        }
        proof {
            assert(rate as int * self.slice_size_ms as int <= u128::MAX) by (nonlinear_arith)
                requires
                    rate <= u64::MAX,
                    self.slice_size_ms <= u64::MAX,
            ;
        }
        if (rate as u128) * (self.slice_size_ms as u128) > usize::MAX as u128 {
            return Err(Error::InvalidConfig);
        }
        proof {
            assert(self.slice_size_ms as int <= rate as int * self.slice_size_ms as int)
                by (nonlinear_arith)
                requires
                    rate >= 1,
            ;
        }
        let w: usize = rate * (self.slice_size_ms as usize) / 1000;
        proof {
            assert(self.slice_size_ms as int <= usize::MAX as int);
            assert((self.slice_size_ms as usize) as int == self.slice_size_ms as int);
            assert(w as int == song.sample_rate as int * self.slice_size_ms as int / 1000);
        }
        if w < 1 {
            return Err(Error::InvalidConfig);
        }
        let t_count: usize = song.samples.len() / w;
        if t_count < 2 {
            return Err(Error::UnsupportedShape);
        }
        if (t_count as u64) > u32::MAX as u64 {
            return Err(Error::UnsupportedShape);
        }
        let cmap = song.constellation_map(
            self.slice_size_ms,
            self.freq_per_slice,
            self.bucket_size,
            self.bucket_count,
        );
        let ghost cm = cmap_of(
            song.samples@,
            rate as nat,
            w as nat,
            self.bucket_size as nat,
            self.bucket_count as nat,
            self.freq_per_slice as nat,
        );
        proof {
            assert(cmap.deep_view().len() == cmap@.len());
            assert forall|t: int| 0 <= t < cmap@.len() implies cmap.deep_view()[t] == cm[t] by {
                let dv = cmap@[t].deep_view();
                assert(cmap.deep_view()[t] == dv);
                assert(dv =~= cmap@[t]@);
                let wspec = song.sample_rate as int * self.slice_size_ms as int / 1000;
                let cme = cmap_of(
                    song.samples@,
                    song.sample_rate as nat,
                    wspec as nat,
                    self.bucket_size as nat,
                    self.bucket_count as nat,
                    self.freq_per_slice as nat,
                );
                assert(cmap@[t]@ == cme[t]);
                assert(w as nat == wspec as nat);
                assert(cm == cme);
                assert(cmap@[t]@ == cm[t]);
            }
            assert(cmap.deep_view() =~= cm);
        }
        let raw = Song::signatures(self.target_zone_width, self.target_zone_height, &cmap);
        let ghost ps = pair_stream(cm, self.target_zone_width, self.target_zone_height);
        let mask: u16 = self.fuzz_factor;
        let mut out: Vec<Vec<Signature>> = Vec::new();
        let mut i: usize = 0;
        while i < raw.len()
            invariant
                i <= raw.len(),
                raw@.len() == ps.len(),
                forall|j: int| 0 <= j < raw@.len() ==> raw@[j]@ == ps[j],
                out@.len() == i,
                forall|j: int| 0 <= j < i ==> out@[j]@ == fuzz_slice(ps[j], mask),
            decreases raw.len() - i,
        {
            let slice = &raw[i];
            let mut fz: Vec<Signature> = Vec::new();
            let mut m: usize = 0;
            while m < slice.len()
                invariant
                    m <= slice.len(),
                    slice@ == raw@[i as int]@,
                    i < raw@.len(),
                    raw@.len() == ps.len(),
                    forall|j: int| 0 <= j < raw@.len() ==> raw@[j]@ == ps[j],
                    fz@ == fuzz_slice(ps[i as int], mask).take(m as int),
                decreases slice.len() - m,
            {
                let s = slice[m];
                fz.push(Signature { anchor: s.anchor & !mask, target: s.target & !mask, dt: s.dt });
                proof {
                    assert(fz@ =~= fuzz_slice(ps[i as int], mask).take(m + 1));
                }
                m = m + 1;
            }
            proof {
                assert(fz@ =~= fuzz_slice(ps[i as int], mask));
            }
            out.push(fz);
            i = i + 1;
        }
        proof {
            assert(forall|j: int|
                0 <= j < out@.len() ==> out@[j]@ == #[trigger] self.stream_of(
                    song.sample_rate as nat,
                    song.samples@,
                )[j]);
        }
        Ok(out)
    }
}

} // verus!
