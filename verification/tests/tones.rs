use soundprint::config::Args;
use soundprint::config::DatabaseConfig;
use soundprint::song::Song;

fn tone(rate: usize, n: usize, freqs: &[f64], amp: f64) -> Vec<i16> {
    let mut v = Vec::with_capacity(n);
    for i in 0..n {
        let t = i as f64 / rate as f64;
        let mut x = 0.0;
        for &f in freqs {
            x += (2.0 * std::f64::consts::PI * f * t).sin();
        }
        v.push((x * amp) as i16);
    }
    v
}

fn config(ms: u64, k: usize, bsz: u16, bct: usize, width: u32, height: u16, fuzz: u16) -> DatabaseConfig {
    DatabaseConfig::from_args(Args {
        ms_timeslice_size: ms,
        freq_per_slice: k,
        size_bucket: bsz,
        count_bucket: bct,
        width_target_zone: width,
        target_zone_height: height,
        fuzz_factor: fuzz,
        songs_dir: String::new(),
        cache_dir: String::new(),
    })
    .unwrap()
}

#[test]
fn pure_tone_peaks_at_its_bin() {
    // one second of a 500 Hz tone at 44.1 kHz, PCM16
    let song = Song { sample_rate: 44100, samples: tone(44100, 44100, &[500.0], 12000.0) };
    let cmap = song.constellation_map(260, 1, 180, 20);
    // 260 ms slices of a 1 s recording: three full slices
    assert_eq!(cmap.len(), 3);
    for peaks in &cmap {
        assert_eq!(peaks, &vec![500u16]);
    }
}

#[test]
fn two_tones_are_the_top_two_peaks() {
    let song = Song {
        sample_rate: 44100,
        samples: tone(44100, 44100, &[500.0, 2000.0], 8000.0),
    };
    let cmap = song.constellation_map(260, 8, 180, 20);
    assert_eq!(cmap.len(), 3);
    for peaks in &cmap {
        assert!(peaks.len() >= 2);
        let mut top2 = vec![peaks[0], peaks[1]];
        top2.sort();
        assert_eq!(top2, vec![500, 2000]);
    }
}

#[test]
fn doubling_amplitude_leaves_fingerprints_unchanged() {
    // scaling by a power of two scales every spectral magnitude exactly,
    // so every amplitude comparison — and with it the whole fingerprint
    // stream — is unchanged
    let c = config(260, 3, 180, 20, 10, 900, 1);
    let quiet = tone(44100, 60000, &[440.0, 1250.0, 2800.0], 5000.0);
    let loud: Vec<i16> = quiet.iter().map(|&s| s * 2).collect();
    let a = c
        .signatures(&Song { sample_rate: 44100, samples: quiet })
        .unwrap();
    let b = c
        .signatures(&Song { sample_rate: 44100, samples: loud })
        .unwrap();
    assert_eq!(a, b);
    assert!(a.iter().any(|slice| !slice.is_empty()));
}

#[test]
fn fingerprints_lie_in_the_target_zone() {
    let c = config(260, 8, 180, 20, 10, 900, 0);
    let song = Song {
        sample_rate: 44100,
        samples: tone(44100, 88200, &[300.0, 700.0, 1900.0], 9000.0),
    };
    let stream = c.signatures(&song).unwrap();
    assert!(!stream.is_empty());
    let mut emitted = 0;
    for slice in &stream {
        for sig in slice {
            emitted += 1;
            assert!(1 <= sig.dt && sig.dt < 10);
            let lo = sig.anchor.saturating_sub(450);
            assert!(lo <= sig.target && (sig.target as u32) < sig.anchor as u32 + 450);
        }
    }
    assert!(emitted > 0);
}
