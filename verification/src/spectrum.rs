//! Framing and spectrum. A recording is cut into disjoint windows of a fixed
//! sample count; each window is fitted into a buffer of exactly
//! `sample_rate` samples (zero-padded, so the frequency resolution is one bin
//! per Hz) and handed to a real FFT.
//!
//! The engine never reads a magnitude itself, only which of two magnitudes is
//! larger. Each bin therefore comes back as the IEEE 754 bit pattern of its
//! nonnegative magnitude, reinterpreted as a `u32`: on nonnegative floats
//! that reinterpretation is strictly order-preserving, so comparing the
//! integer keys compares the amplitudes, and peak selection downstream is
//! ordinary verified integer code.

use vstd::prelude::*;

use easyfft::dyn_size::realfft::DynRealFft;

verus! {

/// The magnitude spectrum of one zero-padded window, one order key per
/// frequency bin. The result is a function of the window's samples alone.
pub uninterp spec fn spectrum_of(window: Seq<i16>) -> Seq<u32>;

/// Relies on easyfft's `DynRealFft::real_fft` for slices of single-precision
/// floats (backed by realfft/rustfft): a real FFT of `n` samples yields
/// `n / 2 + 1` frequency bins, computed from the input samples alone. Each
/// sample is converted losslessly from its 16-bit integer; each bin is
/// reduced to `Complex::norm`, a nonnegative magnitude, and returned as its
/// IEEE 754 bit pattern, which orders nonnegative floats like the floats
/// themselves.
#[verifier::external_body]
fn real_spectrum(window: &Vec<i16>) -> (r: Vec<u32>)
    requires
        window.len() >= 1,
    ensures
        r@ == spectrum_of(window@),
        r@.len() == window@.len() / 2 + 1,
{
    let buffer: Vec<
        <easyfft::num_complex::Complex32 as easyfft::num_complex::ComplexFloat>::Real,
    > = window.iter().map(|&s| s.into()).collect();
    buffer.real_fft().iter().map(|bin| bin.norm().to_bits()).collect()
}

/// `window` fitted to exactly `n` samples: truncated if longer, zero-padded
/// if shorter.
pub open spec fn fit(window: Seq<i16>, n: nat) -> Seq<i16> {
    Seq::new(n, |i: int| if i < window.len() { window[i] } else { 0i16 })
}

/// The spectra of all full windows of `w` samples, each fitted to `rate`
/// samples before the FFT; a trailing remainder shorter than `w` is
/// discarded.
pub open spec fn spectra_of(samples: Seq<i16>, rate: nat, w: nat) -> Seq<Seq<u32>>
    recommends
        w >= 1,
{
    Seq::new(
        (samples.len() as int / w as int) as nat,
        |t: int| spectrum_of(fit(samples.subrange(t * w, t * w + w), rate)),
    )
}

/// Cut `samples` into windows of `w`, pad each to `rate`, and return every
/// window's magnitude spectrum (as order keys).
pub fn spectra(samples: &Vec<i16>, rate: usize, w: usize) -> (r: Vec<Vec<u32>>)
    requires
        rate >= 1,
        w >= 1,
    ensures
        r@.len() == samples@.len() as int / w as int,
        forall|t: int| 0 <= t < r@.len() ==> r@[t]@ == spectra_of(samples@, rate as nat, w as nat)[t],
{
    let slen: usize = samples.len();
    let n_windows: usize = slen / w;
    let mut r: Vec<Vec<u32>> = Vec::new();
    let mut t: usize = 0;
    while t < n_windows
        invariant
            rate >= 1,
            w >= 1,
            slen == samples@.len(),
            n_windows == samples@.len() as int / w as int,
            t <= n_windows,
            r@.len() == t,
            forall|j: int|
                0 <= j < t ==> r@[j]@ == spectra_of(samples@, rate as nat, w as nat)[j],
        decreases n_windows - t,
    {
        proof {
            assert((t + 1) * w <= n_windows * w <= samples@.len()) by (nonlinear_arith)
                requires
                    t < n_windows,
                    w >= 1,
                    n_windows == samples@.len() as int / w as int,
            ;
            assert(t * w + w == (t + 1) * w) by (nonlinear_arith);
        }
        let mut window: Vec<i16> = Vec::new();
        let mut j: usize = 0;
        while j < rate
            invariant
                rate >= 1,
                w >= 1,
                slen == samples@.len(),
                t * w + w <= samples@.len(),
                j <= rate,
                window@ == fit(samples@.subrange(t * w as int, t * w + w), rate as nat).take(
                    j as int,
                ),
            decreases rate - j,
        {
            if j < w {
                window.push(samples[t * w + j]);
            } else {
                window.push(0);
            }
            proof {
                assert(window@ =~= fit(
                    samples@.subrange(t * w as int, t * w + w),
                    rate as nat,
                ).take(j + 1));
            }
            j = j + 1;
        }
        proof {
            assert(window@ =~= fit(samples@.subrange(t * w as int, t * w + w), rate as nat));
        }
        let sp = real_spectrum(&window);
        r.push(sp);
        t = t + 1;
    }
    r
}

} // verus!
