//! A recording and its narrow RIFF/WAVE profile: PCM16, single channel,
//! little-endian, with the sample rate in header bytes 24..26 and the payload
//! length in bytes 40..44. The payload starts at byte 44; bytes beyond the
//! declared length are tolerated and ignored.
//!
//! Samples are kept as the raw signed 16-bit words of the file. The engine
//! only ever compares spectral magnitudes, and magnitude order is invariant
//! under the positive normalization constant that maps PCM16 into `[-1, 1]`,
//! so nothing downstream needs the normalized value itself.

use vstd::prelude::*;

use crate::error::Error;

verus! {

/// A decoded mono recording: raw PCM16 samples at an integer sample rate.
pub struct Song {
    pub sample_rate: usize,
    pub samples: Vec<i16>,
}

/// The little-endian 16-bit word at byte positions `i`, `i + 1`.
pub open spec fn le_u16(b: Seq<u8>, i: int) -> u16 {
    (b[i] as int + b[i + 1] as int * 0x100) as u16
}

/// The little-endian 32-bit word at byte positions `i` .. `i + 4`.
pub open spec fn le_u32(b: Seq<u8>, i: int) -> u32 {
    (b[i] as int + b[i + 1] as int * 0x100 + b[i + 2] as int * 0x10000 + b[i + 3] as int
        * 0x1000000) as u32
}

/// A byte buffer is an acceptable WAV file when it holds the 44-byte header,
/// declares a single channel, and is long enough for the declared payload.
pub open spec fn wav_ok(b: Seq<u8>) -> bool {
    &&& b.len() >= 44
    &&& le_u16(b, 22) == 1
    &&& b.len() >= 44 + le_u32(b, 40)
}

pub open spec fn wav_rate(b: Seq<u8>) -> u16 {
    le_u16(b, 24)
}

/// Sample `i` of the payload, as the signed 16-bit word it was stored as.
pub open spec fn wav_sample(b: Seq<u8>, i: int) -> i16 {
    le_u16(b, 44 + 2 * i) as i16
}

/// All samples of the declared payload; a trailing odd byte is ignored.
pub open spec fn wav_samples(b: Seq<u8>) -> Seq<i16> {
    Seq::new((le_u32(b, 40) / 2) as nat, |i: int| wav_sample(b, i))
}

pub open spec fn lo_byte(v: u16) -> u8 {
    (v % 0x100) as u8
}

pub open spec fn hi_byte(v: u16) -> u8 {
    (v / 0x100) as u8
}

/// The header that `to_wav` writes: the fixed RIFF/WAVE/fmt/data scaffolding
/// of this profile with the sample rate at bytes 22..26 and the payload
/// length at bytes 40..44.
pub open spec fn wav_header(rate: u16, data_len: u32) -> Seq<u8> {
    seq![
        0x52u8, 0x49u8, 0x46u8, 0x46u8, 0x1cu8, 0x30u8, 0x14u8, 0x00u8,
        0x57u8, 0x41u8, 0x56u8, 0x45u8, 0x66u8, 0x6du8, 0x74u8, 0x20u8,
        0x10u8, 0x00u8, 0x00u8, 0x00u8, 0x01u8, 0x00u8, 0x01u8, 0x00u8,
        lo_byte(rate), hi_byte(rate), 0x00u8, 0x00u8, 0x88u8, 0x58u8, 0x01u8, 0x00u8,
        0x02u8, 0x00u8, 0x10u8, 0x00u8, 0x64u8, 0x61u8, 0x74u8, 0x61u8,
        lo_byte((data_len % 0x10000) as u16), hi_byte((data_len % 0x10000) as u16),
        lo_byte((data_len / 0x10000) as u16), hi_byte((data_len / 0x10000) as u16),
    ]
}

/// The little-endian byte stream of the samples.
pub open spec fn sample_bytes(samples: Seq<i16>) -> Seq<u8> {
    Seq::new(
        (samples.len() * 2) as nat,
        |i: int|
            if i % 2 == 0 {
                lo_byte(samples[i / 2] as u16)
            } else {
                hi_byte(samples[i / 2] as u16)
            },
    )
}

pub open spec fn wav_bytes(song: Song) -> Seq<u8> {
    wav_header(song.sample_rate as u16, (song.samples.len() * 2) as u32) + sample_bytes(
        song.samples@,
    )
}

impl Song {
    /// Decode this profile's WAV byte buffer. Succeeds exactly on buffers
    /// that declare one channel and hold their declared payload.
    pub fn from_wav(byte_array: &Vec<u8>) -> (r: Result<Song, Error>)
        ensures
            wav_ok(byte_array@) ==> match r {
                Ok(song) => {
                    &&& song.sample_rate == wav_rate(byte_array@) as usize
                    &&& song.samples@ == wav_samples(byte_array@)
                },
                Err(_) => false,
            },
            !wav_ok(byte_array@) ==> r == Err::<Song, Error>(Error::InvalidHeader),
    {
        if byte_array.len() < 44 {
            return Err(Error::InvalidHeader);
        }
        let channels: u16 = byte_array[22] as u16 + byte_array[23] as u16 * 0x100;
        if channels != 1 {
            return Err(Error::InvalidHeader);
        }
        let rate: u16 = byte_array[24] as u16 + byte_array[25] as u16 * 0x100;
        let data_len: u32 = byte_array[40] as u32 + byte_array[41] as u32 * 0x100
            + byte_array[42] as u32 * 0x10000 + byte_array[43] as u32 * 0x1000000;
        if (byte_array.len() as u64) < 44u64 + data_len as u64 {
            return Err(Error::InvalidHeader);
        }
        let n: usize = (data_len / 2) as usize;
        proof {
            assert(44 + 2 * (n as int) <= byte_array@.len());
        }
        let mut samples: Vec<i16> = Vec::new();
        let mut i: usize = 0;
        while i < n
            invariant
                n == le_u32(byte_array@, 40) / 2,
                byte_array@.len() >= 44 + le_u32(byte_array@, 40),
                44 + 2 * (n as int) <= byte_array@.len(),
                byte_array@.len() <= usize::MAX,
                i <= n,
                samples@ == wav_samples(byte_array@).take(i as int),
            decreases n - i,
        {
            let v: u16 = byte_array[44 + 2 * i] as u16 + byte_array[44 + 2 * i + 1] as u16 * 0x100;
            samples.push(#[verifier::truncate] (v as i16));
            proof {
                assert(samples@ =~= wav_samples(byte_array@).take(i + 1));
            }
            i = i + 1;
        }
        proof {
            assert(samples@ =~= wav_samples(byte_array@));
        }
        Ok(Song { sample_rate: rate as usize, samples })
    }

    /// Encode the recording back into this profile's byte layout.
    pub fn to_wav(song: Song) -> (r: Vec<u8>)
        requires
            song.sample_rate <= u16::MAX,
            song.samples.len() * 2 <= u32::MAX,
        ensures
            r@ == wav_bytes(song),
    {
        let rate: u16 = song.sample_rate as u16;
        let data_len: u32 = (song.samples.len() * 2) as u32;
        let dl_lo: u16 = (data_len % 0x10000) as u16;
        let dl_hi: u16 = (data_len / 0x10000) as u16;
        let mut r: Vec<u8> = vec![
            0x52, 0x49, 0x46, 0x46, 0x1c, 0x30, 0x14, 0x00,
            0x57, 0x41, 0x56, 0x45, 0x66, 0x6d, 0x74, 0x20,
            0x10, 0x00, 0x00, 0x00, 0x01, 0x00, 0x01, 0x00,
            (rate % 0x100) as u8, (rate / 0x100) as u8, 0x00, 0x00, 0x88, 0x58, 0x01, 0x00,
            0x02, 0x00, 0x10, 0x00, 0x64, 0x61, 0x74, 0x61,
            (dl_lo % 0x100) as u8, (dl_lo / 0x100) as u8,
            (dl_hi % 0x100) as u8, (dl_hi / 0x100) as u8,
        ];
        proof {
            assert(r@ =~= wav_header(rate, data_len));
        }
        let n: usize = song.samples.len();
        let mut i: usize = 0;
        while i < n
            invariant
                n == song.samples.len(),
                i <= n,
                r@ == wav_header(song.sample_rate as u16, (song.samples.len() * 2) as u32)
                    + sample_bytes(song.samples@.take(i as int)),
                song.sample_rate <= u16::MAX,
                song.samples.len() * 2 <= u32::MAX,
            decreases n - i,
        {
            let v: u16 = song.samples[i] as u16;
            r.push((v % 0x100) as u8);
            r.push((v / 0x100) as u8);
            proof {
                assert(sample_bytes(song.samples@.take(i + 1)) =~= sample_bytes(
                    song.samples@.take(i as int),
                ).push(lo_byte(song.samples@[i as int] as u16)).push(
                    hi_byte(song.samples@[i as int] as u16),
                ));
            }
            i = i + 1;
        }
        proof {
            assert(song.samples@.take(n as int) =~= song.samples@);
        }
        r
    }

    /// The recording's duration in milliseconds (rounded down).
    pub fn length(&self) -> (r: u64)
        requires
            self.sample_rate >= 1,
        ensures
            r == (self.samples.len() * 1000 / self.sample_rate as int) as u64,
    {
        ((self.samples.len() as u128 * 1000) / self.sample_rate as u128) as u64
    }
}

/// Decoding inverts encoding: a recording written by `to_wav` is accepted by
/// `from_wav` and comes back with the same rate and the same samples.
pub proof fn lemma_wav_round_trip(song: Song)
    requires
        song.sample_rate <= u16::MAX,
        song.samples.len() * 2 <= u32::MAX,
    ensures
        wav_ok(wav_bytes(song)),
        wav_rate(wav_bytes(song)) == song.sample_rate,
        wav_samples(wav_bytes(song)) == song.samples@,
{
    let b = wav_bytes(song);
    let dl = (song.samples.len() * 2) as u32;
    assert(le_u16(b, 22) == 1);
    assert(le_u32(b, 40) == dl) by {
        assert(b[40] == lo_byte((dl % 0x10000) as u16));
        assert(b[41] == hi_byte((dl % 0x10000) as u16));
        assert(b[42] == lo_byte((dl / 0x10000) as u16));
        assert(b[43] == hi_byte((dl / 0x10000) as u16));
    }
    assert(b.len() == 44 + dl);
    assert(le_u16(b, 24) == song.sample_rate as u16);
    assert forall|i: int| 0 <= i < song.samples.len() implies wav_sample(b, i)
        == song.samples@[i] by {
        let x: i16 = song.samples@[i];
        let v: u16 = x as u16;
        assert(b[44 + 2 * i] == lo_byte(v));
        assert(b[44 + 2 * i + 1] == hi_byte(v));
        assert(le_u16(b, 44 + 2 * i) == v);
        assert(v as i16 == x) by (bit_vector)
            requires
                v == x as u16,
        ;
    }
    assert(wav_samples(b) =~= song.samples@);
}

} // verus!
