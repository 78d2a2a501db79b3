//! Audio clips, cut into the frames that the audio embedder takes.

use crate::text::{
    decimal, eq_ignore_ascii_case, push_decimal, quote, quoted, same_ignoring_case, to_chars,
};
use vstd::prelude::*;
use vstd::string::*;

verus! {

pub const SAMPLE_RATE: u32 = 16_000;

pub const SAMPLES_PER_TOKEN: usize = 640;

pub const MAX_SECONDS: u32 = 30;

pub const MAX_SAMPLES: usize = 480_000;

/// How a sample is written in a WAV file.
#[derive(Clone, Copy, Debug, PartialEq, Eq, Structural)]
pub enum SampleFormat {
    Unsigned8,
    Signed16,
    Signed24,
    Signed32,
    Float32,
}

/// The samples of a WAV file, the channels of each instant side by side. A
/// sample is an integer around zero; one in floating point is held as its bits.
#[derive(Clone, Debug)]
pub struct WavClip {
    pub sample_rate: u32,
    pub channels: u16,
    pub format: SampleFormat,
    pub samples: Vec<i32>,
}

/// What a `WavClip` holds.
pub struct Clip {
    pub sample_rate: u32,
    pub channels: u16,
    pub format: SampleFormat,
    pub samples: Seq<i32>,
}

impl View for WavClip {
    type V = Clip;

    open spec fn view(&self) -> Clip {
        Clip {
            sample_rate: self.sample_rate,
            channels: self.channels,
            format: self.format,
            samples: self.samples@,
        }
    }
}

/// The number in two bytes, the low one first.
pub open spec fn le16(bytes: Seq<u8>, at: int) -> nat {
    (bytes[at] + bytes[at + 1] * 0x100) as nat
}

/// The number in three bytes, the low one first.
pub open spec fn le24(bytes: Seq<u8>, at: int) -> nat {
    (bytes[at] + bytes[at + 1] * 0x100 + bytes[at + 2] * 0x1_0000) as nat
}

/// The number in four bytes, the low one first.
pub open spec fn le32(bytes: Seq<u8>, at: int) -> nat {
    (bytes[at] + bytes[at + 1] * 0x100 + bytes[at + 2] * 0x1_0000 + bytes[at + 3]
        * 0x100_0000) as nat
}

/// The signed number whose two's complement within `range` is `n`.
pub open spec fn signed(n: nat, range: nat) -> int {
    if 2 * n >= range {
        n - range
    } else {
        n as int
    }
}

/// What a fmt chunk says.
pub struct WavFormat {
    pub code: nat,
    pub channels: nat,
    pub sample_rate: nat,
    pub bits: nat,
}

/// What the chunks of a WAV file hold: the last format and the last data.
pub struct WavChunks {
    pub format: Option<WavFormat>,
    pub data: Option<Seq<u8>>,
}

pub open spec fn fmt_id() -> Seq<u8> {
    seq![102, 109, 116, 32]
}

pub open spec fn data_id() -> Seq<u8> {
    seq![100, 97, 116, 97]
}

pub open spec fn riff_id() -> Seq<u8> {
    seq![82, 73, 70, 70]
}

pub open spec fn wave_id() -> Seq<u8> {
    seq![87, 65, 86, 69]
}

/// The chunks from `at` on, added to those before.
pub open spec fn chunks_from(bytes: Seq<u8>, at: int, chunks: WavChunks) -> Result<
    WavChunks,
    Seq<char>,
>
    decreases bytes.len() + 1 - at,
{
    if at < 0 || at + 8 > bytes.len() {
        Ok(chunks)
    } else {
        let id = bytes.subrange(at, at + 4);
        let size = le32(bytes, at + 4);
        let start = at + 8;
        let end = start + size;
        if end > usize::MAX {
            Err("WAV chunk overflow"@)
        } else if end > bytes.len() {
            Err("truncated WAV chunk"@)
        } else if id == fmt_id() && size < 16 {
            Err("WAV fmt chunk is truncated"@)
        } else {
            let chunk = bytes.subrange(start, end);
            let next = if id == fmt_id() {
                WavChunks {
                    format: Some(
                        WavFormat {
                            code: le16(chunk, 0),
                            channels: le16(chunk, 2),
                            sample_rate: le32(chunk, 4),
                            bits: le16(chunk, 14),
                        },
                    ),
                    ..chunks
                }
            } else if id == data_id() {
                WavChunks { data: Some(chunk), ..chunks }
            } else {
                chunks
            };
            chunks_from(bytes, end + size % 2, next)
        }
    }
}

/// How samples are written under a format code and a number of bits.
pub open spec fn sample_format(code: nat, bits: nat) -> Option<SampleFormat> {
    if code == 1 && bits == 8 {
        Some(SampleFormat::Unsigned8)
    } else if code == 1 && bits == 16 {
        Some(SampleFormat::Signed16)
    } else if code == 1 && bits == 24 {
        Some(SampleFormat::Signed24)
    } else if code == 1 && bits == 32 {
        Some(SampleFormat::Signed32)
    } else if code == 3 && bits == 32 {
        Some(SampleFormat::Float32)
    } else {
        None
    }
}

/// How many bytes a sample takes.
pub open spec fn sample_bytes(format: SampleFormat) -> nat {
    match format {
        SampleFormat::Unsigned8 => 1,
        SampleFormat::Signed16 => 2,
        SampleFormat::Signed24 => 3,
        SampleFormat::Signed32 => 4,
        SampleFormat::Float32 => 4,
    }
}

/// The sample written at `at`.
pub open spec fn sample_at(data: Seq<u8>, at: int, format: SampleFormat) -> i32 {
    match format {
        SampleFormat::Unsigned8 => (data[at] - 128) as i32,
        SampleFormat::Signed16 => signed(le16(data, at), 0x1_0000) as i32,
        SampleFormat::Signed24 => signed(le24(data, at), 0x100_0000) as i32,
        SampleFormat::Signed32 => signed(le32(data, at), 0x1_0000_0000) as i32,
        SampleFormat::Float32 => signed(le32(data, at), 0x1_0000_0000) as i32,
    }
}

/// All samples of a data chunk.
pub open spec fn samples_of(data: Seq<u8>, format: SampleFormat) -> Seq<i32> {
    Seq::new(
        data.len() / sample_bytes(format),
        |i: int| sample_at(data, i * sample_bytes(format), format),
    )
}

/// The clip that chunks make up.
pub open spec fn clip_of(chunks: WavChunks) -> Result<Clip, Seq<char>> {
    if chunks.format is None {
        Err("WAV has no fmt chunk"@)
    } else if chunks.data is None {
        Err("WAV has no data chunk"@)
    } else {
        let f = chunks.format->0;
        let data = chunks.data->0;
        if f.channels == 0 || f.sample_rate == 0 {
            Err("WAV has invalid channel count or sample rate"@)
        } else if f.code != 1 && f.code != 3 {
            Err("WAV must contain PCM integer or IEEE float samples"@)
        } else {
            match sample_format(f.code, f.bits) {
                None => Err(
                    "unsupported WAV sample format: format="@ + decimal(f.code) + ", bits="@
                        + decimal(f.bits),
                ),
                Some(format) => if data.len() % (sample_bytes(format) * f.channels) != 0 {
                    Err("WAV data is not aligned to complete samples"@)
                } else {
                    Ok(
                        Clip {
                            sample_rate: f.sample_rate as u32,
                            channels: f.channels as u16,
                            format,
                            samples: samples_of(data, format),
                        },
                    )
                },
            }
        }
    }
}

/// The clip in a WAV file.
pub open spec fn wav_clip(bytes: Seq<u8>) -> Result<Clip, Seq<char>> {
    if bytes.len() < 12 || bytes.subrange(0, 4) != riff_id() || bytes.subrange(8, 12)
        != wave_id() {
        Err("audio is not a RIFF/WAVE file"@)
    } else {
        match chunks_from(bytes, 12, WavChunks { format: None, data: None }) {
            Err(message) => Err(message),
            Ok(chunks) => clip_of(chunks),
        }
    }
}

/// Whether the four bytes at `at` are these.
fn id_at(bytes: &[u8], at: usize, a: u8, b: u8, c: u8, d: u8) -> (r: bool)
    requires
        at + 4 <= bytes@.len(),
    ensures
        r == (bytes@.subrange(at as int, at + 4) == seq![a, b, c, d]),
{
    let ghost id = bytes@.subrange(at as int, at + 4);
    assert(id[0] == bytes@[at as int] && id[1] == bytes@[at + 1] && id[2] == bytes@[at + 2]
        && id[3] == bytes@[at + 3]);
    let r = bytes[at] == a && bytes[at + 1] == b && bytes[at + 2] == c && bytes[at + 3] == d;
    proof {
        if r {
            assert(id =~= seq![a, b, c, d]);
        }
    }
    r
}

/// What is wrong with reading `width` bytes at `at`, if anything.
spec fn read_fault(bytes: Seq<u8>, at: int, width: int) -> Option<Seq<char>> {
    if at + width > usize::MAX {
        Some("WAV offset overflow"@)
    } else if at + width > bytes.len() {
        Some("truncated WAV"@)
    } else {
        None
    }
}

/// Reads the number in two bytes, the low one first.
fn read_u16(bytes: &[u8], at: usize) -> (r: Result<u16, String>)
    ensures
        match r {
            Ok(n) => read_fault(bytes@, at as int, 2) is None && n == le16(bytes@, at as int),
            Err(message) => read_fault(bytes@, at as int, 2) == Some(message@),
        },
{
    match at.checked_add(2) {
        None => Err("WAV offset overflow".to_owned()),
        Some(end) => {
            if end > bytes.len() {
                return Err("truncated WAV".to_owned());
            }
            Ok(bytes[at] as u16 + bytes[at + 1] as u16 * 0x100)
        },
    }
}

/// Reads the number in four bytes, the low one first.
fn read_u32(bytes: &[u8], at: usize) -> (r: Result<u32, String>)
    ensures
        match r {
            Ok(n) => read_fault(bytes@, at as int, 4) is None && n == le32(bytes@, at as int),
            Err(message) => read_fault(bytes@, at as int, 4) == Some(message@),
        },
{
    match at.checked_add(4) {
        None => Err("WAV offset overflow".to_owned()),
        Some(end) => {
            if end > bytes.len() {
                return Err("truncated WAV".to_owned());
            }
            Ok(
                bytes[at] as u32 + bytes[at + 1] as u32 * 0x100 + bytes[at + 2] as u32 * 0x1_0000
                    + bytes[at + 3] as u32 * 0x100_0000,
            )
        },
    }
}

/// Reads the fields of a fmt chunk: format code, channels, sample rate and bits.
fn read_format(chunk: &[u8]) -> (r: Result<(u16, u16, u32, u16), String>)
    requires
        chunk@.len() >= 16,
    ensures
        r matches Ok(fields) && fields.0 == le16(chunk@, 0) && fields.1 == le16(chunk@, 2)
            && fields.2 == le32(chunk@, 4) && fields.3 == le16(chunk@, 14),
{
    let code: u16 = match read_u16(chunk, 0) {
        Ok(code) => code,
        Err(message) => return Err(message),
    };
    let channels: u16 = match read_u16(chunk, 2) {
        Ok(channels) => channels,
        Err(message) => return Err(message),
    };
    let sample_rate: u32 = match read_u32(chunk, 4) {
        Ok(sample_rate) => sample_rate,
        Err(message) => return Err(message),
    };
    let bits: u16 = match read_u16(chunk, 14) {
        Ok(bits) => bits,
        Err(message) => return Err(message),
    };
    Ok((code, channels, sample_rate, bits))
}

fn read_sample(data: &[u8], at: usize, format: SampleFormat) -> (r: i32)
    requires
        at + sample_bytes(format) <= data@.len(),
    ensures
        r == sample_at(data@, at as int, format),
{
    match format {
        SampleFormat::Unsigned8 => data[at] as i32 - 128,
        SampleFormat::Signed16 => {
            let n: i32 = data[at] as i32 + data[at + 1] as i32 * 0x100;
            if n >= 0x8000 {
                n - 0x1_0000
            } else {
                n
            }
        },
        SampleFormat::Signed24 => {
            let n: i32 = data[at] as i32 + data[at + 1] as i32 * 0x100 + data[at + 2] as i32
                * 0x1_0000;
            if n >= 0x80_0000 {
                n - 0x100_0000
            } else {
                n
            }
        },
        SampleFormat::Signed32 | SampleFormat::Float32 => {
            let n: i64 = data[at] as i64 + data[at + 1] as i64 * 0x100 + data[at + 2] as i64
                * 0x1_0000 + data[at + 3] as i64 * 0x100_0000;
            (if n >= 0x8000_0000 {
                n - 0x1_0000_0000
            } else {
                n
            }) as i32
        },
    }
}

fn read_samples(data: &[u8], format: SampleFormat) -> (r: Vec<i32>)
    ensures
        r@ == samples_of(data@, format),
{
    let width: usize = match format {
        SampleFormat::Unsigned8 => 1,
        SampleFormat::Signed16 => 2,
        SampleFormat::Signed24 => 3,
        SampleFormat::Signed32 | SampleFormat::Float32 => 4,
    };
    let count: usize = data.len() / width;
    let mut samples: Vec<i32> = Vec::new();
    let mut i: usize = 0;
    while i < count
        invariant
            i <= count,
            width == sample_bytes(format),
            1 <= width <= 4,
            data@.len() <= usize::MAX,
            count == data@.len() / width as nat,
            samples@.len() == i,
            forall|j: int|
                0 <= j < i ==> samples@[j] == sample_at(data@, j * sample_bytes(format), format),
        decreases count - i,
    {
        assert(i * width + width <= data@.len()) by (nonlinear_arith)
            requires
                i + 1 <= count,
                count == data@.len() / width as nat,
                1 <= width <= 4,
        ;
        samples.push(read_sample(data, i * width, format));
        i += 1;
    }
    assert(samples@ =~= samples_of(data@, format));
    samples
}

/// Reads a WAV file.
pub fn decode_wav(bytes: &[u8]) -> (r: Result<WavClip, String>)
    ensures
        match r {
            Ok(clip) => {
                &&& clip.channels > 0
                &&& clip.sample_rate > 0
                &&& wav_clip(bytes@) == Ok::<_, Seq<char>>(clip@)
            },
            Err(message) => wav_clip(bytes@) == Err::<Clip, _>(message@),
        },
{
    if bytes.len() < 12 || !id_at(bytes, 0, 82, 73, 70, 70) || !id_at(bytes, 8, 87, 65, 86, 69) {
        return Err("audio is not a RIFF/WAVE file".to_owned());
    }
    let mut at: usize = 12;
    let mut format: Option<(u16, u16, u32, u16)> = None;
    let mut data: Option<(usize, usize)> = None;
    let ghost mut chunks = WavChunks { format: None, data: None };
    while at <= bytes.len() && bytes.len() - at >= 8
        invariant
            12 <= at,
            bytes@.len() >= 12,
            bytes@.subrange(0, 4) == riff_id(),
            bytes@.subrange(8, 12) == wave_id(),
            chunks_from(bytes@, 12, WavChunks { format: None, data: None }) == chunks_from(
                bytes@,
                at as int,
                chunks,
            ),
            match format {
                Some((code, channels, sample_rate, bits)) => chunks.format == Some(
                    WavFormat {
                        code: code as nat,
                        channels: channels as nat,
                        sample_rate: sample_rate as nat,
                        bits: bits as nat,
                    },
                ),
                None => chunks.format is None,
            },
            match data {
                Some((start, end)) => start <= end <= bytes@.len() && chunks.data == Some(
                    bytes@.subrange(start as int, end as int),
                ),
                None => chunks.data is None,
            },
        decreases bytes@.len() + 1 - at,
    {
        let size: usize = match read_u32(bytes, at + 4) {
            Ok(size) => size as usize,
            Err(message) => return Err(message),
        };
        let start: usize = at + 8;
        let end: usize = match start.checked_add(size) {
            Some(end) => end,
            None => return Err("WAV chunk overflow".to_owned()),
        };
        if end > bytes.len() {
            return Err("truncated WAV chunk".to_owned());
        }
        let ghost before = chunks;
        if id_at(bytes, at, 102, 109, 116, 32) {
            if size < 16 {
                return Err("WAV fmt chunk is truncated".to_owned());
            }
            let chunk = vstd::slice::slice_subrange(bytes, start, end);
            let fields = match read_format(chunk) {
                Ok(fields) => fields,
                Err(message) => return Err(message),
            };
            format = Some(fields);
            proof {
                chunks = WavChunks {
                    format: Some(
                        WavFormat {
                            code: fields.0 as nat,
                            channels: fields.1 as nat,
                            sample_rate: fields.2 as nat,
                            bits: fields.3 as nat,
                        },
                    ),
                    ..chunks
                };
            }
        } else if id_at(bytes, at, 100, 97, 116, 97) {
            data = Some((start, end));
            proof {
                chunks = WavChunks {
                    data: Some(bytes@.subrange(start as int, end as int)),
                    ..chunks
                };
            }
        }
        assert(chunks_from(bytes@, at as int, before) == chunks_from(
            bytes@,
            end + size % 2,
            chunks,
        ));
        if end == bytes.len() {
            assert(chunks_from(bytes@, end + size % 2, chunks) == chunks_from(
                bytes@,
                end as int,
                chunks,
            ));
            at = end;
        } else {
            at = end + size % 2;
        }
    }
    let (code, channels, sample_rate, bits) = match format {
        Some(fields) => fields,
        None => return Err("WAV has no fmt chunk".to_owned()),
    };
    let (start, end) = match data {
        Some(range) => range,
        None => return Err("WAV has no data chunk".to_owned()),
    };
    let data = vstd::slice::slice_subrange(bytes, start, end);
    if channels == 0 || sample_rate == 0 {
        return Err("WAV has invalid channel count or sample rate".to_owned());
    }
    if code != 1 && code != 3 {
        return Err("WAV must contain PCM integer or IEEE float samples".to_owned());
    }
    let (format, width): (SampleFormat, usize) = if code == 1 && bits == 8 {
        (SampleFormat::Unsigned8, 1)
    } else if code == 1 && bits == 16 {
        (SampleFormat::Signed16, 2)
    } else if code == 1 && bits == 24 {
        (SampleFormat::Signed24, 3)
    } else if code == 1 && bits == 32 {
        (SampleFormat::Signed32, 4)
    } else if code == 3 && bits == 32 {
        (SampleFormat::Float32, 4)
    } else {
        let mut message = "unsupported WAV sample format: format=".to_owned();
        push_decimal(&mut message, code as u64);
        message.append(", bits=");
        push_decimal(&mut message, bits as u64);
        return Err(message);
    };
    assert(width * channels <= 4 * 0xffff) by (nonlinear_arith)
        requires
            width <= 4,
            channels <= 0xffff,
    ;
    let frame_bytes: usize = width * channels as usize;
    assert(frame_bytes > 0) by (nonlinear_arith)
        requires
            frame_bytes == width * channels as usize,
            width > 0,
            channels > 0,
    ;
    if data.len() % frame_bytes != 0 {
        return Err("WAV data is not aligned to complete samples".to_owned());
    }
    let samples = read_samples(data, format);
    Ok(WavClip { sample_rate, channels, format, samples })
}

/// How many instants a clip has.
pub open spec fn instants(clip: Clip) -> nat
    recommends
        clip.channels > 0,
{
    clip.samples.len() / clip.channels as nat
}

/// How many samples a clip of `count` instants at `rate` a second has at the
/// embedder's rate, or why it is not taken. At that rate it is left as it is.
pub open spec fn resampled_length(count: nat, rate: nat) -> Result<nat, Seq<char>> {
    if count == 0 {
        Err("audio contains no samples"@)
    } else if count > MAX_SAMPLES * rate / SAMPLE_RATE as int + rate {
        Err("audio exceeds the 30 second limit"@)
    } else if rate == SAMPLE_RATE {
        Ok(count)
    } else {
        let length = (count * SAMPLE_RATE + rate - 1) as nat / rate;
        if length > MAX_SAMPLES {
            Err("audio exceeds the 30 second limit"@)
        } else {
            Ok(length)
        }
    }
}

/// Where one sample at the embedder's rate comes from.
#[derive(Clone, Copy, Debug, PartialEq, Eq, Structural)]
pub enum Tap {
    /// It fills up the last frame.
    Silence,
    /// It is one instant of the clip.
    At(usize),
    /// It lies between two instants, or on the first of them.
    Between(usize, usize),
}

/// An audio clip and how many samples it has at the embedder's rate.
#[derive(Clone, Debug)]
pub struct AudioFrames {
    pub clip: WavClip,
    pub samples: usize,
}

/// Where sample `i` comes from, of a clip that has `samples` of them.
pub open spec fn tap_at(clip: Clip, samples: nat, i: nat) -> Tap {
    if i >= samples {
        Tap::Silence
    } else if clip.sample_rate == SAMPLE_RATE {
        Tap::At(i as usize)
    } else {
        let left = i * clip.sample_rate / SAMPLE_RATE as int;
        let right = if left + 1 < instants(clip) {
            left + 1
        } else {
            instants(clip) - 1
        };
        Tap::Between(left as usize, right as usize)
    }
}

/// How many frames so many samples fill.
pub open spec fn frames_for(samples: nat) -> nat {
    (samples + SAMPLES_PER_TOKEN - 1) as nat / SAMPLES_PER_TOKEN as nat
}

impl AudioFrames {
    /// The clip is not empty and `samples` is its length at the embedder's rate.
    pub open spec fn well_formed(&self) -> bool {
        &&& self.clip.channels > 0
        &&& self.clip.sample_rate > 0
        &&& resampled_length(instants(self.clip@), self.clip.sample_rate as nat) == Ok::<
            _,
            Seq<char>,
        >(self.samples as nat)
    }

    /// How many frames the clip fills.
    pub open spec fn count(&self) -> nat {
        frames_for(self.samples as nat)
    }

    /// How many frames the clip fills.
    pub fn len(&self) -> (r: usize)
        ensures
            r == self.count(),
            r * 640 >= self.samples,
            r * 640 < self.samples + 640,
    {
        self.samples / SAMPLES_PER_TOKEN + if self.samples % SAMPLES_PER_TOKEN == 0 {
            0
        } else {
            1
        }
    }

    /// Where sample `index` of frame `frame` comes from.
    pub fn tap(&self, frame: usize, index: usize) -> (r: Tap)
        requires
            self.well_formed(),
            frame < self.count(),
            index < SAMPLES_PER_TOKEN,
        ensures
            r == tap_at(
                self.clip@,
                self.samples as nat,
                (frame * SAMPLES_PER_TOKEN + index) as nat,
            ),
            self.clip.samples@.len() % self.clip.channels as nat == 0 ==> tap_is_right(
                self.clip@,
                self.samples as nat,
                (frame * SAMPLES_PER_TOKEN + index) as nat,
                r,
            ),
    {
        proof {
            if self.clip.samples@.len() % self.clip.channels as nat == 0 {
                assert(self.clip.samples.len() <= usize::MAX);
                taps_are_right(
                    self.clip@,
                    self.samples as nat,
                    (frame * SAMPLES_PER_TOKEN + index) as nat,
                );
            }
        }
        let i: u64 = frame as u64 * SAMPLES_PER_TOKEN as u64 + index as u64;
        if i >= self.samples as u64 {
            return Tap::Silence;
        }
        if self.clip.sample_rate == SAMPLE_RATE {
            return Tap::At(i as usize);
        }
        let count: usize = self.clip.samples.len() / self.clip.channels as usize;
        proof {
            instants_fit(self.clip@);
            taps_are_in_the_clip(self.clip@, self.samples as nat, i as nat);
        }
        assert(i * self.clip.sample_rate <= 480_000 * 0xffff_ffff) by (nonlinear_arith)
            requires
                i < 480_000,
                self.clip.sample_rate <= 0xffff_ffff,
        ;
        let left: usize = (i * self.clip.sample_rate as u64 / SAMPLE_RATE as u64) as usize;
        let right: usize = if left + 1 < count {
            left + 1
        } else {
            count - 1
        };
        Tap::Between(left, right)
    }
}

proof fn instants_fit(clip: Clip)
    requires
        clip.channels > 0,
    ensures
        instants(clip) <= clip.samples.len(),
{
    let n = clip.samples.len();
    let d = clip.channels as nat;
    assert(n / d <= n) by (nonlinear_arith)
        requires
            d > 0,
    ;
}

/// Every sample comes from instants that the clip has, and the two that it lies
/// between are next to each other, or both the last.
pub proof fn taps_are_in_the_clip(clip: Clip, samples: nat, i: nat)
    requires
        clip.channels > 0,
        clip.sample_rate > 0,
        resampled_length(instants(clip), clip.sample_rate as nat) == Ok::<_, Seq<char>>(samples),
        i < samples,
        instants(clip) <= usize::MAX,
        samples <= usize::MAX,
    ensures
        match tap_at(clip, samples, i) {
            Tap::Silence => false,
            Tap::At(at) => at == i && at < instants(clip),
            Tap::Between(left, right) => {
                &&& left == i * clip.sample_rate / SAMPLE_RATE as int
                &&& left < instants(clip)
                &&& right < instants(clip)
                &&& left <= right <= left + 1
                &&& left == right ==> right == instants(clip) - 1
            },
        },
        clip.sample_rate != SAMPLE_RATE ==> samples <= MAX_SAMPLES,
{
    if clip.sample_rate != SAMPLE_RATE {
        let count = instants(clip);
        let rate = clip.sample_rate as nat;
        let total = (count * 16_000 + rate - 1) as nat;
        assert(total / rate * rate <= total) by (nonlinear_arith)
            requires
                rate > 0,
        ;
        assert((i + 1) * rate <= samples * rate) by (nonlinear_arith)
            requires
                i + 1 <= samples,
        ;
        assert((i + 1) * rate == i * rate + rate) by (nonlinear_arith);
        assert(i * rate < count * 16_000);
        assert(i * rate / 16_000 < count);
    }
}

/// Sample `i`, of a clip that has `samples` of them, comes from the instants that
/// it should. Each is one that the clip holds with all its channels. At the
/// embedder's rate it is the instant with the sample's number; at another rate
/// the first is the last instant up to the sample's time, and the other is the
/// next one, or the same where that is the last of the clip.
pub open spec fn tap_is_right(clip: Clip, samples: nat, i: nat, tap: Tap) -> bool {
    match tap {
        Tap::Silence => i >= samples,
        Tap::At(at) => {
            &&& i < samples
            &&& clip.sample_rate == 16_000
            &&& at == i
            &&& (at + 1) * clip.channels <= clip.samples.len()
        },
        Tap::Between(left, right) => {
            &&& i < samples
            &&& clip.sample_rate != 16_000
            &&& left * 16_000 <= i * clip.sample_rate < (left + 1) * 16_000
            &&& (left + 1) * clip.channels <= clip.samples.len()
            &&& (right + 1) * clip.channels <= clip.samples.len()
            &&& if (left + 1) * clip.channels == clip.samples.len() {
                right == left
            } else {
                right == left + 1
            }
        },
    }
}

/// A clip lasts as long at the embedder's rate as it did, to the next whole
/// sample. The clip has as many interleaved samples to an instant as channels.
pub open spec fn has_length(clip: Clip, samples: nat) -> bool {
    &&& samples > 0
    &&& clip.sample_rate == 16_000 ==> samples * clip.channels == clip.samples.len()
    &&& clip.samples.len() * 16_000 <= samples * clip.channels * clip.sample_rate
    &&& (samples - 1) * clip.channels * clip.sample_rate < clip.samples.len() * 16_000
}

/// The samples of a clip that holds whole instants are taken from the right ones.
pub proof fn taps_are_right(clip: Clip, samples: nat, i: nat)
    requires
        clip.channels > 0,
        clip.sample_rate > 0,
        clip.samples.len() % clip.channels as nat == 0,
        clip.samples.len() <= usize::MAX,
        samples <= usize::MAX,
        resampled_length(instants(clip), clip.sample_rate as nat) == Ok::<_, Seq<char>>(samples),
    ensures
        tap_is_right(clip, samples, i, tap_at(clip, samples, i)),
{
    let (n, c) = (clip.samples.len(), clip.channels as nat);
    let count = instants(clip);
    instants_fit(clip);
    vstd::arithmetic::div_mod::lemma_fundamental_div_mod(n as int, c as int);
    assert(count * c == n) by (nonlinear_arith)
        requires
            n == c * (n / c) + n % c,
            n % c == 0,
            count == n / c,
    ;
    if i < samples {
        taps_are_in_the_clip(clip, samples, i);
        if let Tap::At(at) = tap_at(clip, samples, i) {
            assert((at + 1) * c <= count * c) by (nonlinear_arith)
                requires
                    at + 1 <= count,
            ;
        }
        if let Tap::Between(left, right) = tap_at(clip, samples, i) {
            assert((left + 1) * c <= count * c && (right + 1) * c <= count * c) by (nonlinear_arith)
                requires
                    left + 1 <= count,
                    right + 1 <= count,
            ;
            assert((left + 1) * c == n <==> left + 1 == count) by (nonlinear_arith)
                requires
                    count * c == n,
                    c > 0,
            ;
        }
    }
}

/// A clip that is taken holds whole instants, and keeps its length in time.
pub proof fn loaded_clips_are_whole(bytes: Seq<u8>, format: Seq<char>)
    ensures
        loaded(bytes, format) matches Ok((clip, samples)) ==> {
            &&& clip.channels > 0
            &&& clip.sample_rate > 0
            &&& clip.samples.len() % clip.channels as nat == 0
            &&& has_length(clip, samples)
        },
{
    if let Ok((clip, samples)) = loaded(bytes, format) {
        let chunks = chunks_from(bytes, 12, WavChunks { format: None, data: None })->Ok_0;
        let f = chunks.format->0;
        let data = chunks.data->0;
        chunks_are_within(bytes, 12, WavChunks { format: None, data: None });
        let (w, c) = (sample_bytes(clip.format), clip.channels as nat);
        let n = clip.samples.len();
        let k = data.len() / (w * c);
        assert(w * c > 0) by (nonlinear_arith)
            requires
                w > 0,
                c > 0,
        ;
        vstd::arithmetic::div_mod::lemma_fundamental_div_mod(data.len() as int, (w * c) as int);
        assert(data.len() == (k * c) * w) by (nonlinear_arith)
            requires
                data.len() == (w * c) * k,
        ;
        vstd::arithmetic::div_mod::lemma_div_multiples_vanish((k * c) as int, w as int);
        assert((k * c) * w == w * (k * c)) by (nonlinear_arith);
        assert(n == k * c);
        vstd::arithmetic::div_mod::lemma_mod_multiples_basic(k as int, c as int);
        vstd::arithmetic::div_mod::lemma_div_multiples_vanish(k as int, c as int);
        assert(c * k == k * c) by (nonlinear_arith);
        assert(instants(clip) == k);
        let rate = clip.sample_rate as nat;
        if rate == 16_000 {
            assert(samples == k);
            assert(n * 16_000 <= samples * c * rate && (samples - 1) * c * rate < n * 16_000)
                by (nonlinear_arith)
                requires
                    n == samples * c,
                    c > 0,
                    rate == 16_000,
            ;
        } else {
            let total = (k * 16_000 + rate - 1) as nat;
            vstd::arithmetic::div_mod::lemma_fundamental_div_mod(total as int, rate as int);
            assert(rate * samples == samples * rate) by (nonlinear_arith);
            assert(k * 16_000 <= samples * rate);
            assert((samples - 1) * rate == samples * rate - rate) by (nonlinear_arith);
            assert((samples - 1) * rate < k * 16_000);
            assert((k * c) * 16_000 <= samples * c * rate) by (nonlinear_arith)
                requires
                    k * 16_000 <= samples * rate,
            ;
            assert((samples - 1) * c * rate < (k * c) * 16_000) by (nonlinear_arith)
                requires
                    (samples - 1) * rate < k * 16_000,
                    c > 0,
            ;
        }
        assert(n % c == 0);
        assert(samples > 0) by (nonlinear_arith)
            requires
                n * 16_000 <= samples * c * rate,
                n > 0,
        ;
    }
}

/// What a fmt chunk says fits its fields.
proof fn chunks_are_within(bytes: Seq<u8>, at: int, chunks: WavChunks)
    requires
        chunks.format matches Some(f) ==> f.channels <= u16::MAX && f.sample_rate <= u32::MAX,
    ensures
        chunks_from(bytes, at, chunks) matches Ok(r) ==> (r.format matches Some(f) ==> f.channels
            <= u16::MAX && f.sample_rate <= u32::MAX),
    decreases bytes.len() + 1 - at,
{
    if 0 <= at && at + 8 <= bytes.len() {
        let id = bytes.subrange(at, at + 4);
        let size = le32(bytes, at + 4);
        let start = at + 8;
        let end = start + size;
        if end <= usize::MAX && end <= bytes.len() && !(id == fmt_id() && size < 16) {
            let chunk = bytes.subrange(start, end);
            if id == fmt_id() {
                chunks_are_within(
                    bytes,
                    end + size % 2,
                    WavChunks {
                        format: Some(
                            WavFormat {
                                code: le16(chunk, 0),
                                channels: le16(chunk, 2),
                                sample_rate: le32(chunk, 4),
                                bits: le16(chunk, 14),
                            },
                        ),
                        ..chunks
                    },
                );
            } else if id == data_id() {
                chunks_are_within(
                    bytes,
                    end + size % 2,
                    WavChunks { data: Some(chunk), ..chunks },
                );
            } else {
                chunks_are_within(bytes, end + size % 2, chunks);
            }
        }
    }
}

/// A clip of up to thirty seconds is taken, and one of more than thirty-one is
/// not.
pub proof fn thirty_seconds_are_taken(count: nat, rate: nat)
    requires
        rate > 0,
    ensures
        0 < count <= 30 * rate ==> resampled_length(count, rate) is Ok,
        count == 0 || count > 31 * rate ==> resampled_length(count, rate) is Err,
        rate != 16_000 && count > 30 * rate ==> resampled_length(count, rate) is Err,
        rate == 16_000 && 0 < count <= 31 * rate ==> resampled_length(count, rate) == Ok::<
            _,
            Seq<char>,
        >(count),
{
    assert(480_000 * rate / 16_000 == 30 * rate);
    let total = (count * 16_000 + rate - 1) as nat;
    vstd::arithmetic::div_mod::lemma_fundamental_div_mod(total as int, rate as int);
    let length = total / rate;
    assert(rate * length == length * rate) by (nonlinear_arith);
    if count <= 30 * rate {
        assert(length <= 480_000) by (nonlinear_arith)
            requires
                length * rate <= 480_000 * rate + rate - 1,
                rate > 0,
        ;
    } else {
        assert(length > 480_000) by (nonlinear_arith)
            requires
                length * rate >= count * 16_000,
                count > 30 * rate,
                rate > 0,
        ;
    }
}

/// The samples of a data chunk stand one behind the other, and each is the number
/// that its bytes spell, the low one first: without a sign and a middle of 128 in
/// one byte, in two's complement in more.
pub proof fn samples_are_spelled(data: Seq<u8>, format: SampleFormat, i: int)
    requires
        0 <= i < samples_of(data, format).len(),
    ensures
        ({
            let v = samples_of(data, format)[i] as int;
            match format {
                SampleFormat::Unsigned8 => v + 128 == data[i],
                SampleFormat::Signed16 => {
                    let n = data[2 * i] + 256 * data[2 * i + 1];
                    &&& -0x8000 <= v < 0x8000
                    &&& v == n || v == n - 0x1_0000
                },
                SampleFormat::Signed24 => {
                    let n = data[3 * i] + 256 * (data[3 * i + 1] + 256 * data[3 * i + 2]);
                    &&& -0x80_0000 <= v < 0x80_0000
                    &&& v == n || v == n - 0x100_0000
                },
                _ => {
                    let n = data[4 * i] + 256 * (data[4 * i + 1] + 256 * (data[4 * i + 2] + 256
                        * data[4 * i + 3]));
                    v == n || v == n - 0x1_0000_0000
                },
            }
        }),
        match format {
            SampleFormat::Unsigned8 => samples_of(data, format).len() == data.len(),
            SampleFormat::Signed16 => samples_of(data, format).len() == data.len() / 2,
            SampleFormat::Signed24 => samples_of(data, format).len() == data.len() / 3,
            _ => samples_of(data, format).len() == data.len() / 4,
        },
{
}

/// A number in `k` bytes, the low one first.
pub open spec fn spelled(n: nat, k: nat) -> Seq<u8>
    decreases k,
{
    if k == 0 {
        seq![]
    } else {
        seq![(n % 256) as u8] + spelled(n / 256, (k - 1) as nat)
    }
}

/// A chunk of a WAV file: its name, its length and its body, filled up to an even
/// length.
pub open spec fn chunk_of(id: Seq<u8>, body: Seq<u8>) -> Seq<u8> {
    id + spelled(body.len(), 4) + body + if body.len() % 2 == 0 {
        seq![]
    } else {
        seq![0u8]
    }
}

/// The body of a fmt chunk.
pub open spec fn format_body(
    code: u16,
    channels: u16,
    rate: u32,
    byte_rate: u32,
    align: u16,
    bits: u16,
    more: Seq<u8>,
) -> Seq<u8> {
    spelled(code as nat, 2) + spelled(channels as nat, 2) + spelled(rate as nat, 4) + spelled(
        byte_rate as nat,
        4,
    ) + spelled(align as nat, 2) + spelled(bits as nat, 2) + more
}

proof fn spelled_reads_back(n: nat)
    ensures
        spelled(n, 2).len() == 2,
        spelled(n, 4).len() == 4,
        n < 0x1_0000 ==> le16(spelled(n, 2), 0) == n,
        n < 0x1_0000_0000 ==> le32(spelled(n, 4), 0) == n,
{
    reveal_with_fuel(spelled, 5);
    let m = n / 256;
    let l = m / 256;
}

/// A chunk that stands at `at` is read whole, and the next one is looked for
/// behind it.
pub proof fn chunk_is_read(bytes: Seq<u8>, at: int, id: Seq<u8>, body: Seq<u8>, chunks: WavChunks)
    requires
        0 <= at,
        id.len() == 4,
        at + chunk_of(id, body).len() <= bytes.len() <= usize::MAX,
        body.len() < 0x1_0000_0000,
        bytes.subrange(at, at + chunk_of(id, body).len()) == chunk_of(id, body),
        id == seq![102u8, 109, 116, 32] ==> body.len() >= 16,
    ensures
        chunks_from(bytes, at, chunks) == chunks_from(
            bytes,
            at + chunk_of(id, body).len(),
            if id == seq![102u8, 109, 116, 32] {
                WavChunks {
                    format: Some(
                        WavFormat {
                            code: le16(body, 0),
                            channels: le16(body, 2),
                            sample_rate: le32(body, 4),
                            bits: le16(body, 14),
                        },
                    ),
                    ..chunks
                }
            } else if id == seq![100u8, 97, 116, 97] {
                WavChunks { data: Some(body), ..chunks }
            } else {
                chunks
            },
        ),
{
    let whole = chunk_of(id, body);
    spelled_reads_back(body.len());
    let n = spelled(body.len(), 4);
    assert forall|k: int| 0 <= k < whole.len() implies bytes[at + k] == #[trigger] whole[k] by {
        assert(bytes.subrange(at, at + whole.len())[k] == whole[k]);
    }
    assert(bytes.subrange(at, at + 4) =~= id) by {
        assert forall|k: int| 0 <= k < 4 implies bytes[at + k] == id[k] by {
            assert(whole[k] == id[k]);
        }
    }
    assert(whole[4] == n[0] && whole[5] == n[1] && whole[6] == n[2] && whole[7] == n[3]);
    assert(le32(bytes, at + 4) == body.len());
    assert(bytes.subrange(at + 8, at + 8 + body.len()) =~= body) by {
        assert forall|k: int| 0 <= k < body.len() implies bytes[at + 8 + k] == body[k] by {
            assert(whole[8 + k] == body[k]);
        }
    }
    assert(whole.len() == 8 + body.len() + body.len() % 2);
}

/// A WAV file: a fmt chunk, another chunk, and a data chunk.
pub open spec fn wav_file(
    size: Seq<u8>,
    format: Seq<u8>,
    other: Seq<u8>,
    filler: Seq<u8>,
    data: Seq<u8>,
) -> Seq<u8> {
    seq![82u8, 73, 70, 70] + size + seq![87u8, 65, 86, 69] + chunk_of(
        seq![102u8, 109, 116, 32],
        format,
    ) + chunk_of(other, filler) + chunk_of(seq![100u8, 97, 116, 97], data)
}

/// A WAV file is read as the samples that were written to it, with the channels
/// and the rate that it names, whatever other chunk stands in it.
pub proof fn wav_files_read_back(
    size: Seq<u8>,
    code: u16,
    channels: u16,
    rate: u32,
    byte_rate: u32,
    align: u16,
    bits: u16,
    more: Seq<u8>,
    other: Seq<u8>,
    filler: Seq<u8>,
    data: Seq<u8>,
)
    requires
        size.len() == 4,
        other.len() == 4,
        other != seq![102u8, 109, 116, 32],
        other != seq![100u8, 97, 116, 97],
        wav_file(
            size,
            format_body(code, channels, rate, byte_rate, align, bits, more),
            other,
            filler,
            data,
        ).len() <= usize::MAX,
        more.len() < 0x1000_0000,
        filler.len() < 0x1_0000_0000,
        data.len() < 0x1_0000_0000,
        channels > 0,
        rate > 0,
        (code == 1 && (bits == 8 || bits == 16 || bits == 24 || bits == 32)) || (code == 3 && bits
            == 32),
        data.len() % (bits as nat / 8 * channels as nat) == 0,
    ensures
        ({
            let file = wav_file(
                size,
                format_body(code, channels, rate, byte_rate, align, bits, more),
                other,
                filler,
                data,
            );
            &&& wav_clip(file) matches Ok(clip) && {
                &&& clip.sample_rate == rate
                &&& clip.channels == channels
                &&& clip.format == (if code == 3 {
                    SampleFormat::Float32
                } else if bits == 8 {
                    SampleFormat::Unsigned8
                } else if bits == 16 {
                    SampleFormat::Signed16
                } else if bits == 24 {
                    SampleFormat::Signed24
                } else {
                    SampleFormat::Signed32
                })
                &&& clip.samples == samples_of(data, clip.format)
            }
        }),
{
    let format = format_body(code, channels, rate, byte_rate, align, bits, more);
    let file = wav_file(size, format, other, filler, data);
    format_reads_back(code, channels, rate, byte_rate, align, bits, more);
    spelled_reads_back(format.len());
    spelled_reads_back(filler.len());
    spelled_reads_back(data.len());
    let f = WavFormat {
        code: code as nat,
        channels: channels as nat,
        sample_rate: rate as nat,
        bits: bits as nat,
    };
    chunks_of_file(size, format, other, filler, data, f);
    assert(file.subrange(0, 4) =~= riff_id());
    assert(file.subrange(8, 12) =~= wave_id());
}

/// The fields of a fmt chunk are those that were written to it.
proof fn format_reads_back(
    code: u16,
    channels: u16,
    rate: u32,
    byte_rate: u32,
    align: u16,
    bits: u16,
    more: Seq<u8>,
)
    ensures
        ({
            let format = format_body(code, channels, rate, byte_rate, align, bits, more);
            &&& format.len() == 16 + more.len()
            &&& le16(format, 0) == code
            &&& le16(format, 2) == channels
            &&& le32(format, 4) == rate
            &&& le16(format, 14) == bits
        }),
{
    let format = format_body(code, channels, rate, byte_rate, align, bits, more);
    spelled_reads_back(code as nat);
    spelled_reads_back(channels as nat);
    spelled_reads_back(rate as nat);
    spelled_reads_back(byte_rate as nat);
    spelled_reads_back(align as nat);
    spelled_reads_back(bits as nat);
    let (s1, s2, s3, s4) = (
        spelled(code as nat, 2),
        spelled(channels as nat, 2),
        spelled(rate as nat, 4),
        spelled(bits as nat, 2),
    );
    assert(format[0] == s1[0] && format[1] == s1[1] && format[2] == s2[0] && format[3] == s2[1]);
    assert(format[4] == s3[0] && format[5] == s3[1] && format[6] == s3[2] && format[7] == s3[3]);
    assert(format[14] == s4[0] && format[15] == s4[1]);
}

/// The chunks of a WAV file are those that were written to it.
proof fn chunks_of_file(
    size: Seq<u8>,
    format: Seq<u8>,
    other: Seq<u8>,
    filler: Seq<u8>,
    data: Seq<u8>,
    f: WavFormat,
)
    requires
        size.len() == 4,
        other.len() == 4,
        other != seq![102u8, 109, 116, 32],
        other != seq![100u8, 97, 116, 97],
        wav_file(size, format, other, filler, data).len() <= usize::MAX,
        16 <= format.len() < 0x1_0000_0000,
        filler.len() < 0x1_0000_0000,
        data.len() < 0x1_0000_0000,
        f == (WavFormat {
            code: le16(format, 0),
            channels: le16(format, 2),
            sample_rate: le32(format, 4),
            bits: le16(format, 14),
        }),
    ensures
        chunks_from(
            wav_file(size, format, other, filler, data),
            12,
            WavChunks { format: None, data: None },
        ) == Ok::<_, Seq<char>>(WavChunks { format: Some(f), data: Some(data) }),
{
    let file = wav_file(size, format, other, filler, data);
    let (fmt, dat) = (seq![102u8, 109, 116, 32], seq![100u8, 97, 116, 97]);
    let a = chunk_of(fmt, format);
    let b = chunk_of(other, filler);
    let c = chunk_of(dat, data);
    let x: int = 12 + a.len() as int;
    let y: int = x + b.len();
    assert(file.len() == y + c.len());
    assert(file.subrange(12, x) =~= a);
    assert(file.subrange(x, y) =~= b);
    assert(file.subrange(y, y + c.len()) =~= c);
    assert(dat[0] != fmt[0]);
    let none = WavChunks { format: None, data: None };
    let first = WavChunks { format: Some(f), data: None };
    chunk_is_read(file, 12, fmt, format, none);
    chunk_is_read(file, x, other, filler, first);
    chunk_is_read(file, y, dat, data, first);
}

/// The frames hold the samples in order, all of them, and only the last frame is
/// filled up.
pub proof fn frames_hold_all_samples(samples: nat, i: nat)
    ensures
        i < samples ==> (i / SAMPLES_PER_TOKEN as nat) < frames_for(samples),
        frames_for(samples) * SAMPLES_PER_TOKEN >= samples,
        frames_for(samples) * SAMPLES_PER_TOKEN < samples + SAMPLES_PER_TOKEN,
{
}

/// The frames of an audio file, or why it is not taken.
pub open spec fn loaded(bytes: Seq<u8>, format: Seq<char>) -> Result<(Clip, nat), Seq<char>> {
    if !same_ignoring_case(format, "wav"@) {
        Err("audio format "@ + quoted(format) + " is not supported; use wav"@)
    } else {
        match wav_clip(bytes) {
            Err(message) => Err(message),
            Ok(clip) => match resampled_length(instants(clip), clip.sample_rate as nat) {
                Err(message) => Err(message),
                Ok(samples) => Ok((clip, samples)),
            },
        }
    }
}

/// Checks the length of a clip of `count` instants at `rate` a second, and gives
/// its length at the embedder's rate.
fn resample_length(count: usize, rate: u32) -> (r: Result<usize, String>)
    requires
        rate > 0,
    ensures
        match r {
            Ok(length) => resampled_length(count as nat, rate as nat) == Ok::<_, Seq<char>>(
                length as nat,
            ),
            Err(message) => resampled_length(count as nat, rate as nat) == Err::<nat, _>(
                message@,
            ),
        },
{
    if count == 0 {
        return Err("audio contains no samples".to_owned());
    }
    let n: u64 = count as u64;
    let from: u64 = rate as u64;
    if n > 480_000 * from / 16_000 + from {
        return Err("audio exceeds the 30 second limit".to_owned());
    }
    if rate == SAMPLE_RATE {
        return Ok(count);
    }
    assert(n <= 31 * from);
    let total: u64 = n * 16_000 + from - 1;
    let length: u64 = total / from;
    assert(total as nat == (count * SAMPLE_RATE + rate - 1) as nat);
    if length > 480_000 {
        return Err("audio exceeds the 30 second limit".to_owned());
    }
    Ok(length as usize)
}

/// Takes in an audio file.
pub fn load_from_bytes(bytes: &[u8], format: &str) -> (r: Result<AudioFrames, String>)
    ensures
        match r {
            Ok(frames) => {
                &&& frames.well_formed()
                &&& loaded(bytes@, format@) == Ok::<_, Seq<char>>(
                    (frames.clip@, frames.samples as nat),
                )
                &&& frames.clip.samples@.len() % frames.clip.channels as nat == 0
                &&& has_length(frames.clip@, frames.samples as nat)
            },
            Err(message) => loaded(bytes@, format@) == Err::<(Clip, nat), _>(message@),
        },
{
    let name = to_chars(format);
    let wav = to_chars("wav");
    if !eq_ignore_ascii_case(name.as_slice(), wav.as_slice()) {
        let mut message = "audio format ".to_owned();
        message.append(quote(format).as_str());
        message.append(" is not supported; use wav");
        return Err(message);
    }
    match decode_wav(bytes) {
        Err(message) => Err(message),
        Ok(clip) => {
            let count: usize = clip.samples.len() / clip.channels as usize;
            match resample_length(count, clip.sample_rate) {
                Err(message) => Err(message),
                Ok(samples) => {
                    proof {
                        loaded_clips_are_whole(bytes@, format@);
                    }
                    Ok(AudioFrames { clip, samples })
                },
            }
        },
    }
}

/// A clip that is taken has as many samples to each instant as channels. At the
/// embedder's rate its mono samples are its instants; at any rate a mono sample
/// is made of instants whose samples the clip holds.
pub proof fn mono_samples_are_made_of_instants(bytes: Seq<u8>, format: Seq<char>, i: nat)
    requires
        bytes.len() <= usize::MAX,
    ensures
        loaded(bytes, format) matches Ok((clip, samples)) ==> {
            let (n, c, rate) = (
                clip.samples.len() as int,
                clip.channels as int,
                clip.sample_rate as int,
            );
            &&& c > 0 && rate > 0 && n > 0 && n % c == 0
            &&& rate == 16_000 ==> samples * c == n
            &&& (samples - 1) * c * rate < n * 16_000 <= samples * c * rate
            &&& samples <= usize::MAX && n <= usize::MAX ==> match tap_at(clip, samples, i) {
                Tap::Silence => i >= samples,
                Tap::At(t) => i < samples && rate == 16_000 && t == i && (t + 1) * c <= n,
                Tap::Between(t, u) => {
                    &&& i < samples && rate != 16_000
                    &&& t * 16_000 <= i * rate < (t + 1) * 16_000
                    &&& (t + 1) * c <= n && (u + 1) * c <= n
                    &&& u == t + 1 || (u == t && (t + 1) * c == n)
                },
            }
        },
{
    loaded_clips_are_whole(bytes, format);
    if let Ok((clip, samples)) = loaded(bytes, format) {
        let (n, c, rate) = (
            clip.samples.len() as int,
            clip.channels as int,
            clip.sample_rate as int,
        );
        assert(n > 0) by (nonlinear_arith)
            requires
                (samples - 1) * c * rate < n * 16_000,
                samples >= 1,
                c > 0,
                rate > 0,
        ;
        if samples <= usize::MAX && n <= usize::MAX {
            taps_are_right(clip, samples, i);
        }
    }
}

/// Samples are read as whole numbers of 8, 16, 24 or 32 bits or as floating point
/// of 32, and in no other way; what is not a RIFF file of the kind WAVE, or holds
/// a chunk that is cut short, is not read at all.
pub proof fn other_files_are_refused(bytes: Seq<u8>, code: nat, bits: nat)
    ensures
        sample_format(code, bits) is Some <==> (code == 1 && (bits == 8 || bits == 16 || bits == 24
            || bits == 32)) || (code == 3 && bits == 32),
        sample_format(code, bits) matches Some(format) ==> {
            &&& format == SampleFormat::Float32 <==> code == 3
            &&& sample_bytes(format) * 8 == bits
        },
        wav_clip(bytes) is Ok ==> {
            &&& bytes.len() >= 20
            &&& bytes.subrange(0, 4) == seq![82u8, 73, 70, 70]
            &&& bytes.subrange(8, 12) == seq![87u8, 65, 86, 69]
            &&& 20 + bytes[16] + 256 * (bytes[17] + 256 * (bytes[18] + 256 * bytes[19]))
                <= bytes.len()
        },
{
}

} // verus!
