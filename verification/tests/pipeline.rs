use soundprint::config::Args;
use soundprint::config::DatabaseConfig;
use soundprint::constellation::slice_peaks;
use soundprint::error::Error;
use soundprint::fingerprint::Signature;
use soundprint::song::Song;

fn args(
    ms: u64,
    k: usize,
    bsz: u16,
    bct: usize,
    width: u32,
    height: u16,
    fuzz: u16,
) -> Args {
    Args {
        ms_timeslice_size: ms,
        freq_per_slice: k,
        size_bucket: bsz,
        count_bucket: bct,
        width_target_zone: width,
        target_zone_height: height,
        fuzz_factor: fuzz,
        songs_dir: String::new(),
        cache_dir: String::new(),
    }
}

fn config(ms: u64, k: usize, bsz: u16, bct: usize, width: u32, height: u16, fuzz: u16) -> DatabaseConfig {
    DatabaseConfig::from_args(args(ms, k, bsz, bct, width, height, fuzz)).unwrap()
}

#[test]
fn peaks_bucket_maxima_sorted_by_amplitude() {
    // three buckets of two bins: maxima 5 at bin 0, 9 at bin 2, 7 at bin 4
    let spectrum: Vec<u32> = vec![5, 1, 9, 2, 7, 3];
    assert_eq!(slice_peaks(&spectrum, 2, 3, 2), vec![2, 4]);
    assert_eq!(slice_peaks(&spectrum, 2, 3, 8), vec![2, 4, 0]);
}

#[test]
fn peaks_tie_breaks_lower_bin_first() {
    // all equal: each bucket's first bin wins, ties keep bucket order
    let spectrum: Vec<u32> = vec![4, 4, 4, 4];
    assert_eq!(slice_peaks(&spectrum, 2, 2, 2), vec![0, 2]);
    // within a bucket, the first maximum wins
    let spectrum: Vec<u32> = vec![1, 8, 8, 0];
    assert_eq!(slice_peaks(&spectrum, 4, 1, 1), vec![1]);
}

#[test]
fn peaks_ragged_tail_dropped() {
    // only one full bucket of three bins fits
    let spectrum: Vec<u32> = vec![1, 2, 3, 9, 9];
    assert_eq!(slice_peaks(&spectrum, 3, 5, 5), vec![2]);
}

#[test]
fn signatures_emit_zone_pairs_in_order() {
    let cmap: Vec<Vec<u16>> = vec![vec![10, 700], vec![12, 460], vec![11]];
    let stream = Song::signatures(10, 900, &cmap);
    // anchor slices 0 and 1; the last slice anchors nothing
    assert_eq!(stream.len(), 2);
    // slice 0, anchor 10: band is [0, 460); 12 and 11 inside, 460 outside
    // slice 0, anchor 700: band is [250, 1150); 460 inside, 12 and 11 outside
    assert_eq!(
        stream[0],
        vec![
            Signature { anchor: 10, target: 12, dt: 1 },
            Signature { anchor: 10, target: 11, dt: 2 },
            Signature { anchor: 700, target: 460, dt: 1 },
        ]
    );
    // slice 1: anchor 12 has band [0, 462), anchor 460 has band [10, 910);
    // 11 lies in both
    assert_eq!(
        stream[1],
        vec![
            Signature { anchor: 12, target: 11, dt: 1 },
            Signature { anchor: 460, target: 11, dt: 1 },
        ]
    );
}

#[test]
fn signatures_respect_zone_width() {
    let cmap: Vec<Vec<u16>> = vec![vec![100], vec![100], vec![100], vec![100]];
    // width 2: only dt = 1 is allowed
    let stream = Song::signatures(2, 900, &cmap);
    assert_eq!(stream.len(), 3);
    for slice in &stream {
        assert_eq!(slice.len(), 1);
        assert_eq!(slice[0].dt, 1);
    }
}

#[test]
fn signature_band_is_half_open() {
    // anchor 500, height 900: band is [50, 950)
    let cmap: Vec<Vec<u16>> = vec![vec![500], vec![49, 50, 949, 950]];
    let stream = Song::signatures(10, 900, &cmap);
    let targets: Vec<u16> = stream[0].iter().map(|s| s.target).collect();
    assert_eq!(targets, vec![50, 949]);
}

#[test]
fn fuzz_clears_low_bits_and_is_idempotent() {
    let s = Signature { anchor: 0x0fff, target: 0x0a55, dt: 3 };
    let once = s.fuzz(3);
    assert_eq!(once, Signature { anchor: 0x0ffc, target: 0x0a54, dt: 3 });
    assert_eq!(once.fuzz(3), once);
    // mask zero is a no-op
    assert_eq!(s.fuzz(0), s);
}

#[test]
fn config_rejects_bad_knobs() {
    assert_eq!(
        DatabaseConfig::from_args(args(260, 8, 180, 20, 1, 900, 1)),
        Err(Error::InvalidConfig)
    );
    assert_eq!(
        DatabaseConfig::from_args(args(260, 8, 180, 20, 10, 1, 1)),
        Err(Error::InvalidConfig)
    );
    assert_eq!(
        DatabaseConfig::from_args(args(260, 0, 180, 20, 10, 900, 1)),
        Err(Error::InvalidConfig)
    );
    assert_eq!(
        DatabaseConfig::from_args(args(260, 8, 0, 20, 10, 900, 1)),
        Err(Error::InvalidConfig)
    );
    // bins would overflow a 16-bit frequency index
    assert_eq!(
        DatabaseConfig::from_args(args(260, 8, 0x8000, 3, 10, 900, 1)),
        Err(Error::InvalidConfig)
    );
}

#[test]
fn signatures_reject_incompatible_rate() {
    let c = config(260, 8, 180, 20, 10, 900, 1);
    // bucketed band (3600 Hz) does not fit below half of 4000 Hz
    let song = Song { sample_rate: 4000, samples: vec![0; 8000] };
    assert_eq!(c.signatures(&song), Err(Error::InvalidConfig));
    let song = Song { sample_rate: 0, samples: vec![0; 8000] };
    assert_eq!(c.signatures(&song), Err(Error::InvalidConfig));
}

#[test]
fn signatures_reject_short_recordings() {
    let c = config(260, 8, 180, 20, 10, 900, 1);
    // no samples at all
    let song = Song { sample_rate: 44100, samples: Vec::new() };
    assert_eq!(c.signatures(&song), Err(Error::UnsupportedShape));
    // one slice only: no pair can be formed
    let song = Song { sample_rate: 44100, samples: vec![0; 12000] };
    assert_eq!(c.signatures(&song), Err(Error::UnsupportedShape));
}
