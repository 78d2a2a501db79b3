use gemma4_serving::audio::{decode_wav, load_from_bytes, SampleFormat, Tap};

fn chunk(id: &[u8; 4], body: &[u8]) -> Vec<u8> {
    let mut out = id.to_vec();
    out.extend((body.len() as u32).to_le_bytes());
    out.extend(body);
    if body.len() % 2 == 1 {
        out.push(0);
    }
    out
}

fn fmt(code: u16, channels: u16, rate: u32, bits: u16) -> Vec<u8> {
    let mut body = Vec::new();
    body.extend(code.to_le_bytes());
    body.extend(channels.to_le_bytes());
    body.extend(rate.to_le_bytes());
    body.extend([0; 6]);
    body.extend(bits.to_le_bytes());
    chunk(b"fmt ", &body)
}

fn wav(chunks: &[Vec<u8>]) -> Vec<u8> {
    let mut out = b"RIFF\0\0\0\0WAVE".to_vec();
    for chunk in chunks {
        out.extend(chunk);
    }
    out
}

fn fault(bytes: &[u8]) -> String {
    decode_wav(bytes).unwrap_err()
}

#[test]
fn samples_of_every_format_are_read() {
    let cases: [(u16, u16, &[u8], SampleFormat, Vec<i32>); 5] = [
        (1, 8, &[0, 128, 255, 1], SampleFormat::Unsigned8, vec![-128, 0, 127, -127]),
        (1, 16, &[0, 0x80, 0xff, 0x7f], SampleFormat::Signed16, vec![-32768, 32767]),
        (1, 24, &[0, 0, 0x80, 0xff, 0xff, 0x7f], SampleFormat::Signed24, vec![-8388608, 8388607]),
        (1, 32, &[0, 0, 0, 0x80, 1, 0, 0, 0], SampleFormat::Signed32, vec![i32::MIN, 1]),
        (3, 32, &[0, 0, 0x80, 0xbf, 0, 0, 0x80, 0x3f], SampleFormat::Float32, vec![
            (-1.0f32).to_bits() as i32,
            1.0f32.to_bits() as i32,
        ]),
    ];
    for (code, bits, data, format, samples) in cases {
        let clip = decode_wav(&wav(&[fmt(code, 1, 8000, bits), chunk(b"data", data)])).unwrap();
        assert_eq!(clip.sample_rate, 8000);
        assert_eq!(clip.channels, 1);
        assert_eq!(clip.format, format);
        assert_eq!(clip.samples, samples);
    }
}

#[test]
fn unknown_chunks_are_passed_over() {
    let clip = decode_wav(&wav(&[
        chunk(b"LIST", b"odd"),
        fmt(1, 2, 44100, 8),
        chunk(b"data", &[1, 2, 3, 4]),
        b"tail".to_vec(),
    ]))
    .unwrap();
    assert_eq!(clip.channels, 2);
    assert_eq!(clip.samples.len(), 4);
}

#[test]
fn last_chunk_of_a_kind_counts() {
    let clip = decode_wav(&wav(&[
        chunk(b"data", &[9]),
        fmt(1, 1, 8000, 16),
        fmt(1, 1, 9000, 8),
        chunk(b"data", &[5, 6]),
    ]))
    .unwrap();
    assert_eq!(clip.sample_rate, 9000);
    assert_eq!(clip.samples, vec![5 - 128, 6 - 128]);
}

#[test]
fn faults_of_wav_files() {
    assert_eq!(fault(b"RIFF"), "audio is not a RIFF/WAVE file");
    assert_eq!(fault(b"RIFX\0\0\0\0WAVE"), "audio is not a RIFF/WAVE file");
    assert_eq!(fault(b"RIFF\0\0\0\0WAVX"), "audio is not a RIFF/WAVE file");
    assert_eq!(fault(&wav(&[b"data\xff\0\0\0abc".to_vec()])), "truncated WAV chunk");
    assert_eq!(fault(&wav(&[chunk(b"fmt ", &[0; 14])])), "WAV fmt chunk is truncated");
    assert_eq!(fault(&wav(&[chunk(b"data", &[])])), "WAV has no fmt chunk");
    assert_eq!(fault(&wav(&[fmt(1, 1, 8000, 8)])), "WAV has no data chunk");
    let data = chunk(b"data", &[1, 2, 3, 4]);
    assert_eq!(
        fault(&wav(&[fmt(1, 0, 8000, 8), data.clone()])),
        "WAV has invalid channel count or sample rate"
    );
    assert_eq!(
        fault(&wav(&[fmt(1, 1, 0, 8), data.clone()])),
        "WAV has invalid channel count or sample rate"
    );
    assert_eq!(
        fault(&wav(&[fmt(2, 1, 8000, 8), data.clone()])),
        "WAV must contain PCM integer or IEEE float samples"
    );
    assert_eq!(
        fault(&wav(&[fmt(3, 1, 8000, 64), data.clone()])),
        "unsupported WAV sample format: format=3, bits=64"
    );
    assert_eq!(
        fault(&wav(&[fmt(1, 1, 8000, 12), data.clone()])),
        "unsupported WAV sample format: format=1, bits=12"
    );
    assert_eq!(
        fault(&wav(&[fmt(1, 3, 8000, 8), data])),
        "WAV data is not aligned to complete samples"
    );
}

fn silence(rate: u32, instants: usize) -> Vec<u8> {
    wav(&[fmt(1, 1, rate, 8), chunk(b"data", &vec![128; instants])])
}

#[test]
fn format_names_are_checked() {
    let bytes = silence(16_000, 640);
    assert!(load_from_bytes(&bytes, "WAV").is_ok());
    assert_eq!(
        load_from_bytes(&bytes, "mp\"3").unwrap_err(),
        "audio format \"mp\\\"3\" is not supported; use wav"
    );
}

#[test]
fn clips_fill_frames() {
    assert_eq!(load_from_bytes(&silence(16_000, 1), "wav").unwrap().len(), 1);
    assert_eq!(load_from_bytes(&silence(16_000, 640), "wav").unwrap().len(), 1);
    assert_eq!(load_from_bytes(&silence(16_000, 641), "wav").unwrap().len(), 2);
    let frames = load_from_bytes(&silence(16_000, 650), "wav").unwrap();
    assert_eq!(frames.tap(0, 639), Tap::At(639));
    assert_eq!(frames.tap(1, 9), Tap::At(649));
    assert_eq!(frames.tap(1, 10), Tap::Silence);
}

#[test]
fn clips_are_resampled_by_position() {
    let frames = load_from_bytes(&silence(8_000, 100), "wav").unwrap();
    assert_eq!(frames.samples, 200);
    assert_eq!(frames.tap(0, 0), Tap::Between(0, 1));
    assert_eq!(frames.tap(0, 1), Tap::Between(0, 1));
    assert_eq!(frames.tap(0, 2), Tap::Between(1, 2));
    assert_eq!(frames.tap(0, 199), Tap::Between(99, 99));
    let frames = load_from_bytes(&silence(44_100, 1000), "wav").unwrap();
    assert_eq!(frames.samples, 363);
    for i in 0..363usize {
        let position = i as f64 * 44_100.0 / 16_000.0;
        let left = position.floor() as usize;
        assert_eq!(frames.tap(0, i), Tap::Between(left, (left + 1).min(999)));
    }
}

#[test]
fn clips_are_limited() {
    assert_eq!(load_from_bytes(&silence(16_000, 0), "wav").unwrap_err(), "audio contains no samples");
    assert!(load_from_bytes(&silence(16_000, 496_000), "wav").is_ok());
    assert_eq!(
        load_from_bytes(&silence(16_000, 496_001), "wav").unwrap_err(),
        "audio exceeds the 30 second limit"
    );
    assert!(load_from_bytes(&silence(8_000, 240_000), "wav").is_ok());
    assert_eq!(
        load_from_bytes(&silence(8_000, 240_001), "wav").unwrap_err(),
        "audio exceeds the 30 second limit"
    );
}
