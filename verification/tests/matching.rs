use soundprint::config::Args;
use soundprint::config::DatabaseConfig;
use soundprint::database::Database;
use soundprint::database::DatabaseBuilder;
use soundprint::matcher::Match;
use soundprint::song::Song;

const RATE: usize = 4000;
const SLICE_MS: u64 = 260;
const WINDOW: usize = RATE * SLICE_MS as usize / 1000;

fn config_with_peaks(k: usize, fuzz: u16) -> DatabaseConfig {
    DatabaseConfig::from_args(Args {
        ms_timeslice_size: SLICE_MS,
        freq_per_slice: k,
        size_bucket: 180,
        count_bucket: 10,
        width_target_zone: 4,
        target_zone_height: 900,
        fuzz_factor: fuzz,
        songs_dir: String::new(),
        cache_dir: String::new(),
    })
    .unwrap()
}

fn config_with_fuzz(fuzz: u16) -> DatabaseConfig {
    config_with_peaks(4, fuzz)
}

fn config() -> DatabaseConfig {
    config_with_fuzz(1)
}

/// A small melody: six notes, each sustained for two slices, inside a band
/// of its own so different catalog entries share almost no fingerprints.
fn melody_note(song: usize, note: usize) -> f64 {
    (260 + song * 130 + ((note * 7) % 13) * 9) as f64
}

fn melody(song: usize) -> Vec<i16> {
    let slices = 12;
    let mut v = Vec::with_capacity(slices * WINDOW);
    for s in 0..slices {
        let f = melody_note(song, s / 2);
        for i in 0..WINDOW {
            let t = (s * WINDOW + i) as f64 / RATE as f64;
            v.push(((2.0 * std::f64::consts::PI * f * t).sin() * 9000.0) as i16);
        }
    }
    v
}

fn song_of(samples: Vec<i16>) -> Song {
    Song { sample_rate: RATE, samples }
}

fn catalog(n: usize, cfg: DatabaseConfig) -> Database {
    let mut builder = DatabaseBuilder::new(cfg);
    for i in 0..n {
        builder
            .add_song(format!("song-{}", i), &song_of(melody(i)))
            .unwrap();
    }
    builder.build()
}

fn score(m: &Match) -> f64 {
    m.freq as f64 * m.n as f64 / m.total as f64
}

fn top_of(matches: &[Match]) -> Match {
    let mut best = matches[0];
    for m in &matches[1..] {
        if score(m) > score(&best) {
            best = *m;
        }
    }
    best
}

#[test]
fn self_match_is_top_with_zero_offset() {
    let db = catalog(3, config());
    let matches = db.match_sample(&song_of(melody(1))).unwrap();
    assert!(!matches.is_empty());
    let top = top_of(&matches);
    assert_eq!(top.id, 1);
    assert_eq!(top.offset, 0);
}

#[test]
fn zero_padded_query_shifts_offset() {
    let db = catalog(3, config());
    let k = 3;
    let mut samples = vec![0i16; k * WINDOW];
    samples.extend(melody(1));
    let matches = db.match_sample(&song_of(samples)).unwrap();
    let top = top_of(&matches);
    assert_eq!(top.id, 1);
    // the query runs k slices behind the reference
    assert!((top.offset - (-(k as i64))).abs() <= 1);
}

#[test]
fn identical_runs_build_identical_indices() {
    let db1 = catalog(4, config());
    let db2 = catalog(4, config());
    assert_eq!(db1.data(), db2.data());
    let q = song_of(melody(2));
    let m1 = db1.match_sample(&q).unwrap();
    let m2 = db2.match_sample(&q).unwrap();
    assert_eq!(m1, m2);
}

#[test]
fn ten_song_catalog_ranks_every_self_query_first() {
    let db = catalog(10, config());
    for i in 0..10 {
        let matches = db.match_sample(&song_of(melody(i))).unwrap();
        assert!(!matches.is_empty(), "no candidates for song {}", i);
        let top = top_of(&matches);
        assert_eq!(top.id, i as u32, "song {} not ranked first", i);
    }
}

#[test]
fn noisy_prefix_queries_still_match() {
    let db = catalog(10, config());
    let mut correct = 0;
    for i in 0..10 {
        // the first eight slices, with deterministic noise at roughly a
        // tenth of the signal amplitude
        let mut samples = melody(i);
        samples.truncate(8 * WINDOW);
        let mut state: u64 = 0x2545_f491 + i as u64;
        for s in samples.iter_mut() {
            state = state.wrapping_mul(6364136223846793005).wrapping_add(1442695040888963407);
            let noise = ((state >> 33) % 1801) as i64 - 900;
            *s = (*s as i64 + noise).clamp(-32768, 32767) as i16;
        }
        let matches = db.match_sample(&song_of(samples)).unwrap();
        if matches.is_empty() {
            continue;
        }
        let top = top_of(&matches);
        if top.id == i as u32 && top.offset.abs() <= 2 {
            correct += 1;
        }
    }
    assert!(correct >= 8, "only {} of 10 noisy queries matched", correct);
}

#[test]
fn foreign_query_scores_stay_low() {
    // one strong peak per slice: candidates arise only from genuinely
    // shared notes, and no open-world rejection exists beyond the score
    let cfg = config_with_peaks(1, 1);
    let db = catalog(5, cfg);
    // a melody outside every catalog band, except its opening note, which
    // it borrows from the first catalog entry
    let notes = [260usize, 447, 648, 849, 1050, 380];
    let mut samples = Vec::with_capacity(12 * WINDOW);
    for s in 0..12 {
        let f = notes[s / 2] as f64;
        for i in 0..WINDOW {
            let t = (s * WINDOW + i) as f64 / RATE as f64;
            samples.push(((2.0 * std::f64::consts::PI * f * t).sin() * 9000.0) as i16);
        }
    }
    let matches = db.match_sample(&song_of(samples)).unwrap();
    assert!(!matches.is_empty());
    for m in &matches {
        assert!(score(m) < 2.0, "foreign candidate scored {}", score(m));
    }
}

#[test]
fn fuzzing_merges_keys_but_keeps_every_posting() {
    let fuzzed = catalog(4, config_with_fuzz(3));
    let plain = catalog(4, config_with_fuzz(0));
    let q = song_of(melody(2));
    let top_fuzzed = top_of(&fuzzed.match_sample(&q).unwrap());
    let top_plain = top_of(&plain.match_sample(&q).unwrap());
    assert_eq!(top_fuzzed.id, 2);
    assert_eq!(top_plain.id, 2);
    // masking can only merge keys; the postings themselves all survive
    assert!(fuzzed.data().len() <= plain.data().len());
    let total_fuzzed: usize = fuzzed.data().values().map(|v| v.len()).sum();
    let total_plain: usize = plain.data().values().map(|v| v.len()).sum();
    assert_eq!(total_fuzzed, total_plain);
}

#[test]
fn empty_catalog_matches_nothing() {
    let db = DatabaseBuilder::new(config()).build();
    let matches = db.match_sample(&song_of(melody(0))).unwrap();
    assert!(matches.is_empty());
}

#[test]
fn song_names_follow_catalog_order() {
    let db = catalog(3, config());
    assert_eq!(db.song_name(0).as_str(), "song-0");
    assert_eq!(db.song_name(2).as_str(), "song-2");
}
