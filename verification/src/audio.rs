//! WAV (RIFF) container parsing and sample decoding.

use vstd::prelude::*;
use vstd::endian::{endianness, Endian};

verus! {

/// Encoding of the samples in the data chunk.
#[derive(Copy, Clone, Debug, PartialEq, Eq, Structural, PartialOrd, Ord)]
pub enum SampleFormat {
    Pcm,
    Float,
}

/// Contents of the `fmt ` chunk that the library uses.
#[derive(Copy, Clone, Debug, PartialEq, Eq, Structural, PartialOrd, Ord)]
pub struct WavFormat {
    pub format: SampleFormat,
    pub channels: u16,
    pub sample_rate: u32,
    pub bits_per_sample: u16,
    pub block_align: u16,
}

/// Reasons a byte buffer is refused as a WAV file.
#[derive(Copy, Clone, Debug, PartialEq, Eq, Structural)]
pub enum WavError {
    /// Fewer than 12 bytes.
    TooSmall,
    /// Bytes 0..4 are not `RIFF`.
    MissingRiffHeader,
    /// Bytes 8..12 are not `WAVE`.
    MissingWaveHeader,
    /// A `fmt ` chunk with fewer than 16 bytes of body.
    FmtChunkTooSmall,
    /// A `fmt ` chunk with the extensible tag and fewer than 40 bytes of body.
    ExtensibleFmtChunkTooSmall,
    /// A format tag other than 1 (PCM) or 3 (IEEE float).
    UnsupportedFormatTag(u16),
    /// A channel count of zero.
    ZeroChannels,
    /// A sample rate of zero.
    ZeroSampleRate,
    /// A sample width other than 8, 16, 24 or 32 bits.
    UnsupportedBitsPerSample(u16),
    /// No `fmt ` chunk.
    MissingFmtChunk,
    /// No `data` chunk.
    MissingDataChunk,
    /// The data chunk does not hold a whole number of frames.
    PartialFrame,
}

/// Where the format and the sample data stand in a WAV file.
#[derive(Copy, Clone, Debug, PartialEq, Eq, Structural)]
pub struct WavLayout {
    pub format: WavFormat,
    pub data_start: usize,
    pub data_end: usize,
}

/// Little-endian value of the two bytes of `b` at `i`.
pub open spec fn le_u16(b: Seq<u8>, i: int) -> int {
    b[i] + 256 * b[i + 1]
}

/// Little-endian value of the four bytes of `b` at `i`.
pub open spec fn le_u32(b: Seq<u8>, i: int) -> int {
    b[i] + 256 * b[i + 1] + 65536 * b[i + 2] + 16777216 * b[i + 3]
}

/// `RIFF`
pub open spec fn riff_tag() -> Seq<u8> {
    seq![0x52u8, 0x49u8, 0x46u8, 0x46u8]
}

/// `WAVE`
pub open spec fn wave_tag() -> Seq<u8> {
    seq![0x57u8, 0x41u8, 0x56u8, 0x45u8]
}

/// `fmt `
pub open spec fn fmt_tag() -> Seq<u8> {
    seq![0x66u8, 0x6du8, 0x74u8, 0x20u8]
}

/// `data`
pub open spec fn data_tag() -> Seq<u8> {
    seq![0x64u8, 0x61u8, 0x74u8, 0x61u8]
}

/// The four bytes of `b` at `i` spell `tag`.
pub open spec fn has_tag(b: Seq<u8>, i: int, tag: Seq<u8>) -> bool {
    b.subrange(i, i + 4) == tag
}

/// A format that the library accepts: non-zero channels and sample rate,
/// 8, 16, 24 or 32 bits per sample.
pub open spec fn valid_format(f: WavFormat) -> bool {
    &&& f.channels > 0
    &&& f.sample_rate > 0
    &&& (f.bits_per_sample == 8 || f.bits_per_sample == 16 || f.bits_per_sample == 24
        || f.bits_per_sample == 32)
}

/// Bytes per frame, where a block alignment of zero counts as one.
pub open spec fn frame_bytes(f: WavFormat) -> int {
    if f.block_align == 0 {
        1
    } else {
        f.block_align as int
    }
}

/// The format held by the body of a `fmt ` chunk.
pub open spec fn spec_parse_fmt(body: Seq<u8>) -> Result<WavFormat, WavError> {
    if body.len() < 16 {
        Err(WavError::FmtChunkTooSmall)
    } else {
        let tag = le_u16(body, 0);
        let channels = le_u16(body, 2);
        let sample_rate = le_u32(body, 4);
        let block_align = le_u16(body, 12);
        let bits = le_u16(body, 14);
        if tag == 0xFFFE && body.len() < 40 {
            Err(WavError::ExtensibleFmtChunkTooSmall)
        } else {
            let resolved = if tag == 0xFFFE {
                le_u16(body, 24)
            } else {
                tag
            };
            if resolved != 1 && resolved != 3 {
                Err(WavError::UnsupportedFormatTag(resolved as u16))
            } else if channels == 0 {
                Err(WavError::ZeroChannels)
            } else if sample_rate == 0 {
                Err(WavError::ZeroSampleRate)
            } else if !(bits == 8 || bits == 16 || bits == 24 || bits == 32) {
                Err(WavError::UnsupportedBitsPerSample(bits as u16))
            } else {
                Ok(
                    WavFormat {
                        format: if resolved == 1 {
                            SampleFormat::Pcm
                        } else {
                            SampleFormat::Float
                        },
                        channels: channels as u16,
                        sample_rate: sample_rate as u32,
                        bits_per_sample: bits as u16,
                        block_align: block_align as u16,
                    },
                )
            }
        }
    }
}

/// Walks the chunks of `b` from `offset` on, keeping the last `fmt ` chunk's
/// format and the last `data` chunk's body range. A chunk body is cut short
/// at the end of the buffer; the next chunk starts after the declared body and
/// its pad byte.
pub open spec fn spec_walk_chunks(
    b: Seq<u8>,
    offset: int,
    fmt: Option<WavFormat>,
    data: Option<(int, int)>,
) -> Result<(Option<WavFormat>, Option<(int, int)>), WavError>
    decreases (if offset <= b.len() {
        b.len() - offset
    } else {
        0
    }),
{
    if offset < 0 || offset + 8 > b.len() {
        Ok((fmt, data))
    } else {
        let size = le_u32(b, offset + 4);
        let body_start = offset + 8;
        let available = b.len() - body_start;
        let body_end = body_start + if size < available {
            size
        } else {
            available
        };
        let next = body_start + size + size % 2;
        if has_tag(b, offset, fmt_tag()) {
            match spec_parse_fmt(b.subrange(body_start, body_end)) {
                Err(e) => Err(e),
                Ok(f) => spec_walk_chunks(b, next, Some(f), data),
            }
        } else if has_tag(b, offset, data_tag()) {
            spec_walk_chunks(b, next, fmt, Some((body_start, body_end)))
        } else {
            spec_walk_chunks(b, next, fmt, data)
        }
    }
}

/// What a WAV file's bytes hold: its format and the range of its sample data,
/// or the reason it is refused.
pub open spec fn spec_parse_wav(b: Seq<u8>) -> Result<WavLayout, WavError> {
    if b.len() < 12 {
        Err(WavError::TooSmall)
    } else if !has_tag(b, 0, riff_tag()) {
        Err(WavError::MissingRiffHeader)
    } else if !has_tag(b, 8, wave_tag()) {
        Err(WavError::MissingWaveHeader)
    } else {
        match spec_walk_chunks(b, 12, None, None) {
            Err(e) => Err(e),
            Ok((None, _)) => Err(WavError::MissingFmtChunk),
            Ok((Some(_), None)) => Err(WavError::MissingDataChunk),
            Ok((Some(f), Some((s, e)))) => if (e - s) % frame_bytes(f) != 0 {
                Err(WavError::PartialFrame)
            } else {
                Ok(WavLayout { format: f, data_start: s as usize, data_end: e as usize })
            },
        }
    }
}

/// Reads a little-endian `u16` from the first two bytes of `b`.
pub fn read_u16_le(b: &[u8]) -> (r: u16)
    requires
        b@.len() >= 2,
    ensures
        r == le_u16(b@, 0),
{
    b[0] as u16 + (b[1] as u16) * 256
}

/// Reads a little-endian `u32` from the first four bytes of `b`.
pub fn read_u32_le(b: &[u8]) -> (r: u32)
    requires
        b@.len() >= 4,
    ensures
        r == le_u32(b@, 0),
{
    b[0] as u32 + (b[1] as u32) * 256 + (b[2] as u32) * 65536 + (b[3] as u32) * 16777216
}

fn u16_at(b: &[u8], i: usize) -> (r: u16)
    requires
        i + 2 <= b.len(),
    ensures
        r == le_u16(b@, i as int),
{
    read_u16_le(&b[i..i + 2])
}

fn u32_at(b: &[u8], i: usize) -> (r: u32)
    requires
        i + 4 <= b.len(),
    ensures
        r == le_u32(b@, i as int),
{
    read_u32_le(&b[i..i + 4])
}

fn tag_at(b: &[u8], i: usize, t0: u8, t1: u8, t2: u8, t3: u8) -> (r: bool)
    requires
        i + 4 <= b.len(),
    ensures
        r == has_tag(b@, i as int, seq![t0, t1, t2, t3]),
{
    let r = b[i] == t0 && b[i + 1] == t1 && b[i + 2] == t2 && b[i + 3] == t3;
    proof {
        if r {
            assert(b@.subrange(i as int, i + 4) =~= seq![t0, t1, t2, t3]);
        } else {
            if b@.subrange(i as int, i + 4) == seq![t0, t1, t2, t3] {
                assert(b@.subrange(i as int, i + 4)[0] == b@[i as int]);
                assert(b@.subrange(i as int, i + 4)[1] == b@[i + 1]);
                assert(b@.subrange(i as int, i + 4)[2] == b@[i + 2]);
                assert(b@.subrange(i as int, i + 4)[3] == b@[i + 3]);
            }
        }
    }
    r
}

/// Parses the body of a `fmt ` chunk.
pub fn parse_fmt_chunk(body: &[u8]) -> (r: Result<WavFormat, WavError>)
    ensures
        r == spec_parse_fmt(body@),
        r matches Ok(f) ==> valid_format(f),
{
    if body.len() < 16 {
        return Err(WavError::FmtChunkTooSmall);
    }
    let format_tag = u16_at(body, 0);
    let channels = u16_at(body, 2);
    let sample_rate = u32_at(body, 4);
    let block_align = u16_at(body, 12);
    let bits_per_sample = u16_at(body, 14);
    let resolved_tag = if format_tag == 0xFFFE {
        if body.len() < 40 {
            return Err(WavError::ExtensibleFmtChunkTooSmall);
        }
        // first two bytes of the sub-format GUID
        u16_at(body, 24)
    } else {
        format_tag
    };
    let format = if resolved_tag == 1 {
        SampleFormat::Pcm
    } else if resolved_tag == 3 {
        SampleFormat::Float
    } else {
        return Err(WavError::UnsupportedFormatTag(resolved_tag));
    };
    if channels == 0 {
        return Err(WavError::ZeroChannels);
    }
    if sample_rate == 0 {
        return Err(WavError::ZeroSampleRate);
    }
    if !(bits_per_sample == 8 || bits_per_sample == 16 || bits_per_sample == 24
        || bits_per_sample == 32) {
        return Err(WavError::UnsupportedBitsPerSample(bits_per_sample));
    }
    Ok(WavFormat { format, channels, sample_rate, bits_per_sample, block_align })
}

/// The data range held by the walk's state, as integers.
pub open spec fn range_view(d: Option<(usize, usize)>) -> Option<(int, int)> {
    match d {
        Some((s, e)) => Some((s as int, e as int)),
        None => None,
    }
}

/// Past the last chunk header the walk stops with the state it has.
proof fn lemma_walk_end(
    b: Seq<u8>,
    offset: int,
    fmt: Option<WavFormat>,
    data: Option<(int, int)>,
)
    requires
        offset + 8 > b.len(),
    ensures
        spec_walk_chunks(b, offset, fmt, data) == Ok::<_, WavError>((fmt, data)),
{
}

/// Finds the format and the sample data range of a WAV file, or the reason
/// it is refused.
pub fn parse_wav_layout(bytes: &[u8]) -> (r: Result<WavLayout, WavError>)
    ensures
        r == spec_parse_wav(bytes@),
        r matches Ok(l) ==> {
            &&& l.data_start <= l.data_end <= bytes@.len()
            &&& valid_format(l.format)
            &&& (l.data_end - l.data_start) % frame_bytes(l.format) == 0
        },
{
    let n = bytes.len();
    if n < 12 {
        return Err(WavError::TooSmall);
    }
    if !tag_at(bytes, 0, 0x52, 0x49, 0x46, 0x46) {
        return Err(WavError::MissingRiffHeader);
    }
    if !tag_at(bytes, 8, 0x57, 0x41, 0x56, 0x45) {
        return Err(WavError::MissingWaveHeader);
    }
    assert(seq![0x52u8, 0x49u8, 0x46u8, 0x46u8] == riff_tag());
    assert(seq![0x57u8, 0x41u8, 0x56u8, 0x45u8] == wave_tag());
    let mut offset: usize = 12;
    let mut fmt: Option<WavFormat> = None;
    let mut data: Option<(usize, usize)> = None;
    while offset <= n - 8
        invariant
            n == bytes@.len(),
            n >= 12,
            offset <= n,
            has_tag(bytes@, 0, riff_tag()),
            has_tag(bytes@, 8, wave_tag()),
            data matches Some((s, e)) ==> s <= e <= n,
            fmt matches Some(f) ==> valid_format(f),
            spec_walk_chunks(bytes@, 12, None, None) == spec_walk_chunks(
                bytes@,
                offset as int,
                fmt,
                range_view(data),
            ),
        decreases n - offset,
    {
        let chunk_size = u32_at(bytes, offset + 4);
        let body_start = offset + 8;
        let available = n - body_start;
        let body_end = if (chunk_size as u64) < (available as u64) {
            body_start + chunk_size as usize
        } else {
            n
        };
        assert(body_start <= body_end <= n);
        let is_fmt = tag_at(bytes, offset, 0x66, 0x6d, 0x74, 0x20);
        let is_data = tag_at(bytes, offset, 0x64, 0x61, 0x74, 0x61);
        assert(seq![0x66u8, 0x6du8, 0x74u8, 0x20u8] == fmt_tag());
        assert(seq![0x64u8, 0x61u8, 0x74u8, 0x61u8] == data_tag());
        if is_fmt {
            let body = &bytes[body_start..body_end];
            match parse_fmt_chunk(body) {
                Err(e) => {
                    assert(body@ == bytes@.subrange(body_start as int, body_end as int));
                    assert(spec_walk_chunks(bytes@, offset as int, fmt, range_view(data)) == Err::<
                        (Option<WavFormat>, Option<(int, int)>),
                        WavError,
                    >(e));
                    return Err(e);
                },
                Ok(f) => {
                    fmt = Some(f);
                },
            }
        } else if is_data {
            data = Some((body_start, body_end));
        }
        let padded = chunk_size as u64 + (chunk_size % 2) as u64;
        if padded > available as u64 {
            proof {
                lemma_walk_end(
                    bytes@,
                    body_start + chunk_size + chunk_size % 2,
                    fmt,
                    range_view(data),
                );
                lemma_walk_end(bytes@, n as int, fmt, range_view(data));
            }
            offset = n;
        } else {
            offset = body_start + padded as usize;
        }
    }
    proof {
        lemma_walk_end(bytes@, offset as int, fmt, range_view(data));
    }
    match (fmt, data) {
        (None, _) => Err(WavError::MissingFmtChunk),
        (Some(_), None) => Err(WavError::MissingDataChunk),
        (Some(f), Some((s, e))) => {
            let frame: usize = if f.block_align == 0 {
                1
            } else {
                f.block_align as usize
            };
            if (e - s) % frame != 0 {
                Err(WavError::PartialFrame)
            } else {
                Ok(WavLayout { format: f, data_start: s, data_end: e })
            }
        },
    }
}


/// Two's complement value of a 16-bit unsigned pattern.
pub open spec fn signed16(u: int) -> int {
    if u >= 0x8000 {
        u - 0x1_0000
    } else {
        u
    }
}

/// Two's complement value of a 24-bit unsigned pattern.
pub open spec fn signed24(u: int) -> int {
    if u >= 0x80_0000 {
        u - 0x100_0000
    } else {
        u
    }
}

/// Two's complement value of a 32-bit unsigned pattern.
pub open spec fn signed32(u: int) -> int {
    if u >= 0x8000_0000 {
        u - 0x1_0000_0000
    } else {
        u
    }
}

/// Little-endian value of the three bytes of `b` at `i`.
pub open spec fn le_u24(b: Seq<u8>, i: int) -> int {
    b[i] + 256 * b[i + 1] + 65536 * b[i + 2]
}

/// The bytes read as consecutive little-endian `i16` values; a trailing odd
/// byte is ignored.
pub open spec fn spec_i16_samples(b: Seq<u8>) -> Seq<i16> {
    Seq::new((b.len() / 2) as nat, |i: int| signed16(le_u16(b, 2 * i)) as i16)
}

/// The bytes read as consecutive big-endian `i16` values; a trailing odd
/// byte is ignored.
pub open spec fn spec_i16_samples_be(b: Seq<u8>) -> Seq<i16> {
    Seq::new((b.len() / 2) as nat, |i: int| signed16(256 * b[2 * i] + b[2 * i + 1]) as i16)
}

/// The bytes read as consecutive `i16` values in the byte order of the
/// machine that runs the code.
pub open spec fn spec_i16_native(b: Seq<u8>) -> Seq<i16> {
    if endianness() is Little {
        spec_i16_samples(b)
    } else {
        spec_i16_samples_be(b)
    }
}

/// Bytes per PCM sample of the given width.
pub open spec fn sample_bytes(bits: u16) -> int {
    bits as int / 8
}

/// The integer value of PCM sample `i`: unsigned 8-bit samples are centred
/// on zero by subtracting 128, wider ones are little-endian two's complement.
pub open spec fn spec_pcm_sample(b: Seq<u8>, bits: u16, i: int) -> int {
    if bits == 8 {
        b[i] - 128
    } else if bits == 16 {
        signed16(le_u16(b, 2 * i))
    } else if bits == 24 {
        signed24(le_u24(b, 3 * i))
    } else {
        signed32(le_u32(b, 4 * i))
    }
}

/// All whole PCM samples of the given width in `b`.
pub open spec fn spec_pcm_samples(b: Seq<u8>, bits: u16) -> Seq<i32> {
    Seq::new((b.len() as int / sample_bytes(bits)) as nat, |i: int| spec_pcm_sample(b, bits, i) as i32)
}

/// 16-bit PCM decoding gives the same values as the `i16` decoding.
pub proof fn lemma_pcm16_is_i16(b: Seq<u8>)
    ensures
        spec_pcm_samples(b, 16).len() == spec_i16_samples(b).len(),
        forall|i: int|
            0 <= i < spec_i16_samples(b).len() ==> spec_pcm_samples(b, 16)[i] as int
                == #[trigger] spec_i16_samples(b)[i] as int,
{
    assert(sample_bytes(16) == 2);
    assert forall|i: int| 0 <= i < spec_i16_samples(b).len() implies spec_pcm_samples(b, 16)[i] as int
        == #[trigger] spec_i16_samples(b)[i] as int by {
        assert(0 <= 2 * i + 1 < b.len());
        let u = le_u16(b, 2 * i);
        assert(0 <= u < 0x1_0000);
    }
}

/// Decodes the bytes as consecutive little-endian `i16` values, ignoring a
/// trailing odd byte.
pub fn decode_i16_le(bytes: &[u8]) -> (r: Vec<i16>)
    ensures
        r@ == spec_i16_samples(bytes@),
{
    let n = bytes.len();
    let mut out: Vec<i16> = Vec::with_capacity(n / 2);
    let mut o: usize = 0;
    while n - o >= 2
        invariant
            n == bytes@.len(),
            o <= n,
            o == 2 * out@.len(),
            forall|j: int| 0 <= j < out@.len() ==> out@[j] == spec_i16_samples(bytes@)[j],
        decreases n - o,
    {
        let u = u16_at(bytes, o);
        let v: i16 = if u >= 0x8000 {
            (u as i32 - 0x1_0000) as i16
        } else {
            u as i16
        };
        out.push(v);
        o = o + 2;
    }
    assert(out@ =~= spec_i16_samples(bytes@));
    out
}

/// Decodes all whole PCM samples of the given width to integers.
pub fn decode_pcm(bytes: &[u8], bits: u16) -> (r: Vec<i32>)
    requires
        bits == 8 || bits == 16 || bits == 24 || bits == 32,
    ensures
        r@ == spec_pcm_samples(bytes@, bits),
{
    let n = bytes.len();
    let width: usize = (bits / 8) as usize;
    let mut out: Vec<i32> = Vec::with_capacity(n / width);
    let mut o: usize = 0;
    while n - o >= width
        invariant
            n == bytes@.len(),
            width == sample_bytes(bits),
            bits == 8 || bits == 16 || bits == 24 || bits == 32,
            o <= n,
            bits == 8 ==> o == out@.len(),
            bits == 16 ==> o == 2 * out@.len(),
            bits == 24 ==> o == 3 * out@.len(),
            bits == 32 ==> o == 4 * out@.len(),
            forall|j: int|
                0 <= j < out@.len() ==> out@[j] == spec_pcm_sample(bytes@, bits, j) as i32,
        decreases n - o,
    {
        let v: i32 = if bits == 8 {
            bytes[o] as i32 - 128
        } else if bits == 16 {
            let u = u16_at(bytes, o);
            if u >= 0x8000 {
                u as i32 - 0x1_0000
            } else {
                u as i32
            }
        } else if bits == 24 {
            let u = bytes[o] as u32 + (bytes[o + 1] as u32) * 256 + (bytes[o + 2] as u32) * 65536;
            if u >= 0x80_0000 {
                u as i32 - 0x100_0000
            } else {
                u as i32
            }
        } else {
            let u = u32_at(bytes, o);
            if u >= 0x8000_0000 {
                (u as i64 - 0x1_0000_0000) as i32
            } else {
                u as i32
            }
        };
        out.push(v);
        o = o + width;
    }
    proof {
        if bits == 8 {
            assert(sample_bytes(bits) == 1);
            assert(o == n);
            assert(n as int / 1 == out@.len());
        } else if bits == 16 {
            assert(sample_bytes(bits) == 2);
            assert(n as int / 2 == out@.len());
        } else if bits == 24 {
            assert(sample_bytes(bits) == 3);
            assert(n as int / 3 == out@.len());
        } else {
            assert(sample_bytes(bits) == 4);
            assert(n as int / 4 == out@.len());
        }
    }
    assert(out@ =~= spec_pcm_samples(bytes@, bits));
    out
}


/// Reinterprets the bytes as `i16` values in place, through bytemuck's
/// `try_cast_slice`. bytemuck's source gives `Some` only when the byte count
/// is a whole number of `i16` values (and the start is 2-aligned), and then a
/// slice of half as many values over the same memory: each value is the pair
/// of bytes at its place read in the byte order of the machine that runs the
/// code (`spec_i16_native`). Whether the start is aligned depends on the
/// address, so when `Some` comes back is not stated here.
#[verifier::external_body]
fn try_cast_i16(bytes: &[u8]) -> (r: Option<&[i16]>)
    ensures
        r matches Some(s) ==> bytes@.len() == 2 * s@.len(),
        r matches Some(s) ==> s@ == spec_i16_native(bytes@),
{
    bytemuck::try_cast_slice::<u8, i16>(bytes).ok()
}

/// A parsed WAV file: its format and the bytes of its data chunk.
pub struct WavFile {
    format: WavFormat,
    data: Vec<u8>,
}

impl WavFile {
    #[verifier::type_invariant]
    spec fn well_formed(self) -> bool {
        &&& valid_format(self.format)
        &&& self.data@.len() as int % frame_bytes(self.format) == 0
    }

    /// The format of the file.
    pub closed spec fn spec_format(&self) -> WavFormat {
        self.format
    }

    /// The bytes of the data chunk.
    pub closed spec fn spec_data(&self) -> Seq<u8> {
        self.data@
    }

    /// Parses a whole WAV file held in memory, keeping its format and a copy of
    /// its data chunk.
    pub fn from_bytes(bytes: &[u8]) -> (r: Result<WavFile, WavError>)
        ensures
            match r {
                Ok(w) => spec_parse_wav(bytes@) matches Ok(l) && w.spec_format() == l.format
                    && w.spec_data() == bytes@.subrange(l.data_start as int, l.data_end as int),
                Err(e) => spec_parse_wav(bytes@) == Err::<WavLayout, WavError>(e),
            },
    {
        match parse_wav_layout(bytes) {
            Err(e) => Err(e),
            Ok(layout) => {
                let data = vstd::slice::slice_to_vec(&bytes[layout.data_start..layout.data_end]);
                Ok(WavFile { format: layout.format, data })
            },
        }
    }

    pub fn format(&self) -> (f: WavFormat)
        ensures
            f == self.spec_format(),
            valid_format(f),
    {
        proof {
            use_type_invariant(self);
        }
        self.format
    }

    pub fn data_bytes(&self) -> (d: &[u8])
        ensures
            d@ == self.spec_data(),
            d@.len() as int % frame_bytes(self.spec_format()) == 0,
    {
        proof {
            use_type_invariant(self);
        }
        self.data.as_slice()
    }

    /// Number of frames
    pub fn duration_frames(&self) -> (r: u64)
        ensures
            r == self.spec_data().len() as int / frame_bytes(self.spec_format()),
            r * frame_bytes(self.spec_format()) == self.spec_data().len(),
    {
        proof {
            use_type_invariant(self);
        }
        let block_align: u64 = if self.format.block_align == 0 {
            1
        } else {
            self.format.block_align as u64
        };
        let r = self.data.len() as u64 / block_align;
        proof {
            let n = self.data@.len() as int;
            let f = block_align as int;
            assert(f == frame_bytes(self.format));
            assert(n % f == 0);
            assert(r * f == n) by (nonlinear_arith)
                requires
                    r == n / f,
                    n % f == 0,
                    f > 0,
                    n >= 0,
            ;
        }
        r
    }

    /// The data as `i16` values in place, for 16-bit PCM files whose data can
    /// be reinterpreted without a copy.
    pub fn as_i16_slice(&self) -> (r: Option<&[i16]>)
        ensures
            !(self.spec_format().format == SampleFormat::Pcm
                && self.spec_format().bits_per_sample == 16) ==> r is None,
            self.spec_data().len() % 2 == 1 ==> r is None,
            r matches Some(s) ==> self.spec_data().len() == 2 * s@.len(),
            r matches Some(s) ==> s@ == spec_i16_native(self.spec_data()),
    {
        if self.format.format != SampleFormat::Pcm || self.format.bits_per_sample != 16 {
            return None;
        }
        try_cast_i16(self.data.as_slice())
    }

    /// The data as `i16` values: in place where `as_i16_slice` allows it,
    /// else decoded as little-endian pairs of bytes. On a little-endian
    /// machine both ways give the little-endian decoding.
    pub fn to_i16_vec(&self) -> (r: Vec<i16>)
        ensures
            r@.len() == self.spec_data().len() / 2,
            r@ == spec_i16_samples(self.spec_data()) || (self.spec_format().format
                == SampleFormat::Pcm && self.spec_format().bits_per_sample == 16 && r@
                == spec_i16_native(self.spec_data())),
            endianness() is Little ==> r@ == spec_i16_samples(self.spec_data()),
            !(self.spec_format().format == SampleFormat::Pcm
                && self.spec_format().bits_per_sample == 16) ==> r@ == spec_i16_samples(
                self.spec_data(),
            ),
    {
        // Tries zero-copy method first
        if let Some(s) = self.as_i16_slice() {
            return vstd::slice::slice_to_vec(s);
        }
        // Fallback path
        decode_i16_le(self.data.as_slice())
    }

    /// The samples of a PCM file as integers (see `spec_pcm_sample`), `None`
    /// for a float file.
    pub fn pcm_samples(&self) -> (r: Option<Vec<i32>>)
        ensures
            match r {
                Some(v) => self.spec_format().format == SampleFormat::Pcm && v@ == spec_pcm_samples(
                    self.spec_data(),
                    self.spec_format().bits_per_sample,
                ),
                None => self.spec_format().format == SampleFormat::Float,
            },
    {
        proof {
            use_type_invariant(self);
        }
        match self.format.format {
            SampleFormat::Pcm => Some(decode_pcm(self.data.as_slice(), self.format.bits_per_sample)),
            SampleFormat::Float => None,
        }
    }
}


/// Byte `k` (least significant first, `k` from 0 to 3) of a non-negative
/// number.
pub open spec fn byte_of(p: int, k: int) -> u8 {
    (if k == 0 {
        p % 256
    } else if k == 1 {
        p / 256 % 256
    } else if k == 2 {
        p / 256 / 256 % 256
    } else {
        p / 256 / 256 / 256 % 256
    }) as u8
}

/// The two bytes of `x`, least significant first.
pub open spec fn u16_le_bytes(x: int) -> Seq<u8> {
    seq![byte_of(x, 0), byte_of(x, 1)]
}

/// The four bytes of `x`, least significant first.
pub open spec fn u32_le_bytes(x: int) -> Seq<u8> {
    seq![byte_of(x, 0), byte_of(x, 1), byte_of(x, 2), byte_of(x, 3)]
}

/// A number below 2^32 is the sum of its bytes at their places; bytes above
/// the number's width are zero.
proof fn lemma_bytes_of(p: int)
    requires
        0 <= p < 0x1_0000_0000,
    ensures
        byte_of(p, 0) + 256 * byte_of(p, 1) + 65536 * byte_of(p, 2) + 16777216 * byte_of(p, 3) == p,
        p < 256 ==> byte_of(p, 0) == p,
        p < 0x1_0000 ==> byte_of(p, 2) == 0 && byte_of(p, 3) == 0,
        p < 0x100_0000 ==> byte_of(p, 3) == 0,
{
    let q1 = p / 256;
    let q2 = q1 / 256;
    let q3 = q2 / 256;
    assert(p == 256 * q1 + p % 256);
    assert(q1 == 256 * q2 + q1 % 256);
    assert(q2 == 256 * q3 + q2 % 256);
    assert(q3 < 256);
    assert(q3 % 256 == q3);
}

/// The tag that marks a sample format in a `fmt ` chunk: 1 for PCM, 3 for
/// IEEE float.
pub open spec fn format_tag(f: SampleFormat) -> int {
    match f {
        SampleFormat::Pcm => 1,
        SampleFormat::Float => 3,
    }
}

/// A 16-byte `fmt ` chunk body that holds the format `f` and the given byte
/// rate (a field the library does not read).
pub open spec fn fmt_body_bytes(f: WavFormat, byte_rate: u32) -> Seq<u8> {
    u16_le_bytes(format_tag(f.format)) + u16_le_bytes(f.channels as int) + u32_le_bytes(
        f.sample_rate as int,
    ) + u32_le_bytes(byte_rate as int) + u16_le_bytes(f.block_align as int) + u16_le_bytes(
        f.bits_per_sample as int,
    )
}

/// Reading a 16-byte `fmt ` chunk body gives back every field that was
/// written into it, for every format the library accepts: the full 32-bit
/// sample rate and the 16-bit channel count, block alignment and width.
pub proof fn lemma_fmt_body_reads_back(f: WavFormat, byte_rate: u32)
    requires
        valid_format(f),
    ensures
        spec_parse_fmt(fmt_body_bytes(f, byte_rate)) == Ok::<WavFormat, WavError>(f),
{
    let b = fmt_body_bytes(f, byte_rate);
    lemma_bytes_of(format_tag(f.format));
    lemma_bytes_of(f.channels as int);
    lemma_bytes_of(f.sample_rate as int);
    lemma_bytes_of(f.block_align as int);
    lemma_bytes_of(f.bits_per_sample as int);
    assert(b.len() == 16);
    assert(le_u16(b, 0) == format_tag(f.format));
    assert(le_u16(b, 2) == f.channels);
    assert(le_u32(b, 4) == f.sample_rate);
    assert(le_u16(b, 12) == f.block_align);
    assert(le_u16(b, 14) == f.bits_per_sample);
}

/// A canonical WAV file: the `RIFF` header, a 16-byte `fmt ` chunk that
/// holds `f`, and one `data` chunk that holds `data`.
pub open spec fn wav_file_bytes(f: WavFormat, byte_rate: u32, data: Seq<u8>) -> Seq<u8> {
    riff_tag() + u32_le_bytes(36 + data.len() as int) + wave_tag() + fmt_tag() + u32_le_bytes(16)
        + fmt_body_bytes(f, byte_rate) + data_tag() + u32_le_bytes(data.len() as int) + data
}

/// Parsing a canonical WAV file finds the format written into it and the
/// whole data chunk, however long: the data runs from byte 44 for exactly
/// as many bytes as the chunk's 32-bit size says.
pub proof fn lemma_wav_file_reads_back(f: WavFormat, byte_rate: u32, data: Seq<u8>)
    requires
        valid_format(f),
        data.len() as int % frame_bytes(f) == 0,
        data.len() + 36 <= u32::MAX,
        data.len() + 44 <= usize::MAX,
    ensures
        spec_parse_wav(wav_file_bytes(f, byte_rate, data)) == Ok::<WavLayout, WavError>(
            WavLayout { format: f, data_start: 44, data_end: (44 + data.len()) as usize },
        ),
{
    let b = wav_file_bytes(f, byte_rate, data);
    let n = data.len() as int;
    let fb = fmt_body_bytes(f, byte_rate);
    assert(fb.len() == 16);
    assert(b.len() == 44 + n);
    lemma_bytes_of(16);
    lemma_bytes_of(n);
    assert(b.subrange(0, 4) =~= riff_tag());
    assert(b.subrange(8, 12) =~= wave_tag());
    assert(b.subrange(12, 16) =~= fmt_tag());
    assert(b.subrange(36, 40) =~= data_tag());
    assert(b.subrange(20, 36) =~= fb);
    assert(b[16] == byte_of(16, 0) && b[17] == byte_of(16, 1) && b[18] == byte_of(16, 2) && b[19]
        == byte_of(16, 3));
    assert(le_u32(b, 16) == 16);
    assert(b[40] == byte_of(n, 0) && b[41] == byte_of(n, 1) && b[42] == byte_of(n, 2) && b[43]
        == byte_of(n, 3));
    assert(le_u32(b, 40) == n);
    lemma_fmt_body_reads_back(f, byte_rate);
    assert(!has_tag(b, 36, fmt_tag())) by {
        assert(b.subrange(36, 40)[0] != fmt_tag()[0]);
    }
    let next = 44 + n + n % 2;
    assert(spec_walk_chunks(b, next, Some(f), Some((44int, 44 + n))) == Ok::<_, WavError>(
        (Some(f), Some((44int, 44 + n))),
    ));
    assert(spec_walk_chunks(b, 36, Some(f), None) == Ok::<_, WavError>(
        (Some(f), Some((44int, 44 + n))),
    ));
    assert(spec_walk_chunks(b, 12, None, None) == Ok::<_, WavError>(
        (Some(f), Some((44int, 44 + n))),
    ));
}

/// The number of distinct patterns of a sample of the given width.
pub open spec fn pcm_modulus(bits: u16) -> int {
    if bits == 8 {
        0x100
    } else if bits == 16 {
        0x1_0000
    } else if bits == 24 {
        0x100_0000
    } else {
        0x1_0000_0000
    }
}

/// `x` is a sample value that the given width can hold: from `-m/2` to
/// `m/2 - 1`, where `m` is the number of patterns.
pub open spec fn pcm_in_range(x: int, bits: u16) -> bool {
    -(pcm_modulus(bits) / 2) <= x < pcm_modulus(bits) / 2
}

/// The unsigned pattern that stores the sample value `x`: 8-bit samples are
/// offset by 128, wider ones are two's complement.
pub open spec fn pcm_pattern(x: int, bits: u16) -> int {
    if bits == 8 {
        x + 128
    } else if x < 0 {
        x + pcm_modulus(bits)
    } else {
        x
    }
}

/// The data bytes that store the samples `s` at the given width: each
/// sample's pattern, least significant byte first.
pub open spec fn pcm_bytes(s: Seq<int>, bits: u16) -> Seq<u8> {
    let w = sample_bytes(bits);
    Seq::new((s.len() * w) as nat, |j: int| byte_of(pcm_pattern(s[j / w], bits), j % w))
}

/// The byte at place `k` of sample `i` in `pcm_bytes`.
proof fn lemma_pcm_bytes_index(s: Seq<int>, bits: u16, i: int, k: int)
    requires
        bits == 8 || bits == 16 || bits == 24 || bits == 32,
        0 <= i < s.len(),
        0 <= k < sample_bytes(bits),
    ensures
        0 <= sample_bytes(bits) * i + k < pcm_bytes(s, bits).len(),
        pcm_bytes(s, bits)[sample_bytes(bits) * i + k] == byte_of(pcm_pattern(s[i], bits), k),
{
    let w = sample_bytes(bits);
    assert(w * i + k < s.len() * w && (w * i + k) / w == i && (w * i + k) % w == k) by (nonlinear_arith)
        requires
            1 <= w <= 4,
            0 <= i < s.len(),
            0 <= k < w,
    ;
}

/// Decoding the bytes that store a sequence of samples gives the samples
/// back, at every width: each sample is read from its own bytes, in
/// little-endian order, with its sign.
pub proof fn lemma_pcm_samples_read_back(s: Seq<int>, bits: u16)
    requires
        bits == 8 || bits == 16 || bits == 24 || bits == 32,
        forall|i: int| 0 <= i < s.len() ==> pcm_in_range(#[trigger] s[i], bits),
    ensures
        spec_pcm_samples(pcm_bytes(s, bits), bits).len() == s.len(),
        forall|i: int|
            0 <= i < s.len() ==> #[trigger] spec_pcm_samples(pcm_bytes(s, bits), bits)[i] as int
                == s[i],
{
    let b = pcm_bytes(s, bits);
    let w = sample_bytes(bits);
    assert(1 <= w <= 4);
    assert((s.len() * w) / w == s.len()) by (nonlinear_arith)
        requires
            1 <= w,
    ;
    assert forall|i: int| 0 <= i < s.len() implies #[trigger] spec_pcm_samples(b, bits)[i] as int
        == s[i] by {
        let x = s[i];
        let p = pcm_pattern(x, bits);
        assert(pcm_in_range(x, bits));
        assert(0 <= p < pcm_modulus(bits));
        lemma_bytes_of(p);
        lemma_pcm_bytes_index(s, bits, i, 0);
        assert(b[w * i] == byte_of(p, 0));
        if bits == 8 {
            assert(w == 1);
            assert(w * i == i) by (nonlinear_arith)
                requires
                    w == 1,
            ;
        } else if bits == 16 {
            lemma_pcm_bytes_index(s, bits, i, 1);
            assert(b[2 * i + 1] == byte_of(p, 1));
        } else if bits == 24 {
            lemma_pcm_bytes_index(s, bits, i, 1);
            lemma_pcm_bytes_index(s, bits, i, 2);
            assert(b[3 * i + 1] == byte_of(p, 1));
            assert(b[3 * i + 2] == byte_of(p, 2));
        } else {
            lemma_pcm_bytes_index(s, bits, i, 1);
            lemma_pcm_bytes_index(s, bits, i, 2);
            lemma_pcm_bytes_index(s, bits, i, 3);
            assert(b[4 * i + 1] == byte_of(p, 1));
            assert(b[4 * i + 2] == byte_of(p, 2));
            assert(b[4 * i + 3] == byte_of(p, 3));
        }
    }
}

} // verus!
