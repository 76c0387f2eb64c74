use soundprint::error::Error;
use soundprint::song::Song;

fn wav_bytes_of(rate: u16, samples: &[i16]) -> Vec<u8> {
    Song::to_wav(Song { sample_rate: rate as usize, samples: samples.to_vec() })
}

#[test]
fn wav_round_trip() {
    let samples: Vec<i16> = vec![0, 1, -1, 32767, -32768, 12345, -12345];
    let bytes = wav_bytes_of(44100, &samples);
    assert_eq!(bytes.len(), 44 + 2 * samples.len());
    let song = Song::from_wav(&bytes).unwrap();
    assert_eq!(song.sample_rate, 44100);
    assert_eq!(song.samples, samples);
}

#[test]
fn wav_header_fields() {
    let bytes = wav_bytes_of(8000, &[7, -7]);
    // single channel, little endian, at bytes 22..24
    assert_eq!(bytes[22], 1);
    assert_eq!(bytes[23], 0);
    // sample rate at bytes 24..26
    assert_eq!(bytes[24], 0x40);
    assert_eq!(bytes[25], 0x1f);
    // payload length at bytes 40..44
    assert_eq!(bytes[40], 4);
    assert_eq!(bytes[41], 0);
    assert_eq!(bytes[42], 0);
    assert_eq!(bytes[43], 0);
    // payload: 7 then -7, little endian
    assert_eq!(&bytes[44..], &[7, 0, 0xf9, 0xff]);
}

#[test]
fn wav_rejects_stereo() {
    let mut bytes = wav_bytes_of(44100, &[1, 2, 3]);
    bytes[22] = 2;
    assert!(matches!(Song::from_wav(&bytes), Err(Error::InvalidHeader)));
}

#[test]
fn wav_rejects_short_buffer() {
    let bytes: Vec<u8> = vec![0x52, 0x49, 0x46, 0x46];
    assert!(matches!(Song::from_wav(&bytes), Err(Error::InvalidHeader)));
}

#[test]
fn wav_rejects_truncated_payload() {
    let mut bytes = wav_bytes_of(44100, &[1, 2, 3]);
    // declare more payload than the buffer holds
    bytes[40] = 200;
    assert!(matches!(Song::from_wav(&bytes), Err(Error::InvalidHeader)));
}

#[test]
fn wav_ignores_bytes_beyond_declared_payload() {
    let mut bytes = wav_bytes_of(44100, &[5, 6]);
    bytes.push(0xaa);
    bytes.push(0xbb);
    let song = Song::from_wav(&bytes).unwrap();
    assert_eq!(song.samples, vec![5, 6]);
}

#[test]
fn wav_odd_payload_drops_trailing_byte() {
    let mut bytes = wav_bytes_of(44100, &[5, 6]);
    // declare 3 bytes of payload: one sample and a dangling byte
    bytes[40] = 3;
    let song = Song::from_wav(&bytes).unwrap();
    assert_eq!(song.samples, vec![5]);
}

#[test]
fn length_reports_milliseconds() {
    let song = Song { sample_rate: 1000, samples: vec![0; 2500] };
    assert_eq!(song.length(), 2500);
    let song = Song { sample_rate: 44100, samples: vec![0; 44100] };
    assert_eq!(song.length(), 1000);
}

#[test]
fn error_labels() {
    assert_eq!(Error::InvalidHeader.describe(), "invalid WAV header");
    assert_eq!(Error::InvalidConfig.describe(), "invalid configuration");
    assert_eq!(Error::UnsupportedShape.describe(), "recording too short to fingerprint");
}
