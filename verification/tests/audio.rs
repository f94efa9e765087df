use subvox::audio::{
    decode_i16_le, decode_pcm, parse_fmt_chunk, parse_wav_layout, read_u16_le, read_u32_le,
    SampleFormat, WavError, WavFile, WavFormat, WavLayout,
};

fn chunk(id: &[u8; 4], body: &[u8]) -> Vec<u8> {
    let mut c = id.to_vec();
    c.extend_from_slice(&(body.len() as u32).to_le_bytes());
    c.extend_from_slice(body);
    if body.len() % 2 == 1 {
        c.push(0);
    }
    c
}

fn fmt_body(tag: u16, channels: u16, rate: u32, block_align: u16, bits: u16) -> Vec<u8> {
    let mut b = Vec::new();
    b.extend_from_slice(&tag.to_le_bytes());
    b.extend_from_slice(&channels.to_le_bytes());
    b.extend_from_slice(&rate.to_le_bytes());
    b.extend_from_slice(&(rate * block_align as u32).to_le_bytes());
    b.extend_from_slice(&block_align.to_le_bytes());
    b.extend_from_slice(&bits.to_le_bytes());
    b
}

fn wav(chunks: &[Vec<u8>]) -> Vec<u8> {
    let mut body: Vec<u8> = b"WAVE".to_vec();
    for c in chunks {
        body.extend_from_slice(c);
    }
    let mut f = b"RIFF".to_vec();
    f.extend_from_slice(&(body.len() as u32).to_le_bytes());
    f.extend_from_slice(&body);
    f
}

fn pcm16_stereo(data: &[u8]) -> Vec<u8> {
    wav(&[chunk(b"fmt ", &fmt_body(1, 2, 44100, 4, 16)), chunk(b"data", data)])
}

#[test]
fn parses_canonical_pcm16_file() {
    let bytes = pcm16_stereo(&[1, 0, 2, 0, 3, 0, 4, 0]);
    let layout = parse_wav_layout(&bytes).unwrap();
    assert_eq!(
        layout,
        WavLayout {
            format: WavFormat {
                format: SampleFormat::Pcm,
                channels: 2,
                sample_rate: 44100,
                bits_per_sample: 16,
                block_align: 4,
            },
            data_start: 44,
            data_end: 52,
        }
    );
}

#[test]
fn refuses_short_buffer() {
    assert_eq!(parse_wav_layout(b"RIFF\0\0\0\0WAV").unwrap_err(), WavError::TooSmall);
}

#[test]
fn refuses_missing_riff() {
    let mut bytes = pcm16_stereo(&[0; 4]);
    bytes[0] = b'X';
    assert_eq!(parse_wav_layout(&bytes).unwrap_err(), WavError::MissingRiffHeader);
}

#[test]
fn refuses_missing_wave() {
    let mut bytes = pcm16_stereo(&[0; 4]);
    bytes[11] = b'X';
    assert_eq!(parse_wav_layout(&bytes).unwrap_err(), WavError::MissingWaveHeader);
}

#[test]
fn refuses_short_fmt_chunk() {
    let body = &fmt_body(1, 1, 8000, 2, 16)[..14];
    let bytes = wav(&[chunk(b"fmt ", body), chunk(b"data", &[0; 4])]);
    assert_eq!(parse_wav_layout(&bytes).unwrap_err(), WavError::FmtChunkTooSmall);
}

#[test]
fn refuses_short_extensible_fmt_chunk() {
    let bytes = wav(&[chunk(b"fmt ", &fmt_body(0xFFFE, 1, 8000, 2, 16)), chunk(b"data", &[0; 4])]);
    assert_eq!(parse_wav_layout(&bytes).unwrap_err(), WavError::ExtensibleFmtChunkTooSmall);
}

#[test]
fn resolves_extensible_sub_format() {
    let mut body = fmt_body(0xFFFE, 1, 8000, 4, 32);
    body.extend_from_slice(&[22, 0, 32, 0, 0, 0, 0, 0]);
    body.extend_from_slice(&3u16.to_le_bytes());
    body.extend_from_slice(&[0; 14]);
    assert_eq!(body.len(), 40);
    let bytes = wav(&[chunk(b"fmt ", &body), chunk(b"data", &[0; 8])]);
    let layout = parse_wav_layout(&bytes).unwrap();
    assert_eq!(layout.format.format, SampleFormat::Float);
    assert_eq!(layout.format.bits_per_sample, 32);
}

#[test]
fn refuses_unknown_format_tag() {
    let bytes = wav(&[chunk(b"fmt ", &fmt_body(2, 1, 8000, 2, 16)), chunk(b"data", &[0; 4])]);
    assert_eq!(parse_wav_layout(&bytes).unwrap_err(), WavError::UnsupportedFormatTag(2));
}

#[test]
fn refuses_zero_channels() {
    let bytes = wav(&[chunk(b"fmt ", &fmt_body(1, 0, 8000, 2, 16)), chunk(b"data", &[0; 4])]);
    assert_eq!(parse_wav_layout(&bytes).unwrap_err(), WavError::ZeroChannels);
}

#[test]
fn refuses_zero_sample_rate() {
    let bytes = wav(&[chunk(b"fmt ", &fmt_body(1, 1, 0, 2, 16)), chunk(b"data", &[0; 4])]);
    assert_eq!(parse_wav_layout(&bytes).unwrap_err(), WavError::ZeroSampleRate);
}

#[test]
fn refuses_odd_sample_width() {
    let bytes = wav(&[chunk(b"fmt ", &fmt_body(1, 1, 8000, 2, 12)), chunk(b"data", &[0; 4])]);
    assert_eq!(parse_wav_layout(&bytes).unwrap_err(), WavError::UnsupportedBitsPerSample(12));
}

#[test]
fn refuses_missing_fmt_chunk() {
    let bytes = wav(&[chunk(b"data", &[0; 4])]);
    assert_eq!(parse_wav_layout(&bytes).unwrap_err(), WavError::MissingFmtChunk);
}

#[test]
fn refuses_missing_data_chunk() {
    let bytes = wav(&[chunk(b"fmt ", &fmt_body(1, 1, 8000, 2, 16))]);
    assert_eq!(parse_wav_layout(&bytes).unwrap_err(), WavError::MissingDataChunk);
}

#[test]
fn refuses_partial_frame() {
    let bytes = pcm16_stereo(&[0; 6]);
    assert_eq!(parse_wav_layout(&bytes).unwrap_err(), WavError::PartialFrame);
}

#[test]
fn fmt_error_stops_the_walk_even_with_a_later_good_chunk() {
    let bytes = wav(&[
        chunk(b"fmt ", &fmt_body(1, 0, 8000, 2, 16)),
        chunk(b"fmt ", &fmt_body(1, 1, 8000, 2, 16)),
        chunk(b"data", &[0; 4]),
    ]);
    assert_eq!(parse_wav_layout(&bytes).unwrap_err(), WavError::ZeroChannels);
}

#[test]
fn last_chunks_win() {
    let bytes = wav(&[
        chunk(b"fmt ", &fmt_body(1, 1, 8000, 2, 16)),
        chunk(b"data", &[0; 4]),
        chunk(b"fmt ", &fmt_body(3, 1, 16000, 4, 32)),
        chunk(b"data", &[0; 8]),
    ]);
    let layout = parse_wav_layout(&bytes).unwrap();
    assert_eq!(layout.format.sample_rate, 16000);
    assert_eq!(layout.format.format, SampleFormat::Float);
    assert_eq!(layout.data_end - layout.data_start, 8);
    assert_eq!(layout.data_end, bytes.len());
}

#[test]
fn skips_unknown_odd_chunk_with_pad_byte() {
    let bytes = wav(&[
        chunk(b"LIST", &[1, 2, 3]),
        chunk(b"fmt ", &fmt_body(1, 1, 8000, 1, 8)),
        chunk(b"data", &[7, 8, 9]),
    ]);
    let layout = parse_wav_layout(&bytes).unwrap();
    assert_eq!(layout.format.bits_per_sample, 8);
    assert_eq!(&bytes[layout.data_start..layout.data_end], &[7, 8, 9]);
}

#[test]
fn truncated_data_chunk_ends_at_end_of_file() {
    let mut bytes = wav(&[chunk(b"fmt ", &fmt_body(1, 2, 44100, 4, 16))]);
    bytes.extend_from_slice(b"data");
    bytes.extend_from_slice(&100u32.to_le_bytes());
    bytes.extend_from_slice(&[0; 8]);
    let layout = parse_wav_layout(&bytes).unwrap();
    assert_eq!(layout.data_start, bytes.len() - 8);
    assert_eq!(layout.data_end, bytes.len());
}

#[test]
fn parse_fmt_chunk_reads_fields() {
    let f = parse_fmt_chunk(&fmt_body(1, 2, 48000, 6, 24)).unwrap();
    assert_eq!(f.channels, 2);
    assert_eq!(f.sample_rate, 48000);
    assert_eq!(f.block_align, 6);
    assert_eq!(f.bits_per_sample, 24);
    assert_eq!(parse_fmt_chunk(&[0; 15]).unwrap_err(), WavError::FmtChunkTooSmall);
}

#[test]
fn reads_little_endian_integers() {
    assert_eq!(read_u16_le(&[0x34, 0x12]), 0x1234);
    assert_eq!(read_u16_le(&[0xff, 0xff, 0x00]), 0xffff);
    assert_eq!(read_u32_le(&[0x78, 0x56, 0x34, 0x12]), 0x1234_5678);
    assert_eq!(read_u32_le(&[0xff, 0xff, 0xff, 0xff]), u32::MAX);
}

#[test]
fn wav_file_keeps_format_and_data() {
    let bytes = pcm16_stereo(&[1, 0, 2, 0, 3, 0, 0xff, 0xff]);
    let file = WavFile::from_bytes(&bytes).unwrap();
    assert_eq!(file.format().channels, 2);
    assert_eq!(file.data_bytes(), &[1, 0, 2, 0, 3, 0, 0xff, 0xff]);
    assert_eq!(file.duration_frames(), 2);
    assert_eq!(file.to_i16_vec(), vec![1, 2, 3, -1]);
    if let Some(s) = file.as_i16_slice() {
        assert_eq!(s.len(), 4);
        assert_eq!(s, &[1, 2, 3, -1]);
    }
}

#[test]
fn wav_file_reports_parse_error() {
    assert_eq!(WavFile::from_bytes(b"nope").err(), Some(WavError::TooSmall));
}

#[test]
fn zero_block_align_counts_as_one_byte_frames() {
    let bytes = wav(&[chunk(b"fmt ", &fmt_body(1, 1, 8000, 0, 8)), chunk(b"data", &[1, 2, 3])]);
    let file = WavFile::from_bytes(&bytes).unwrap();
    assert_eq!(file.duration_frames(), 3);
}

#[test]
fn as_i16_slice_refuses_odd_byte_count() {
    let bytes = wav(&[chunk(b"fmt ", &fmt_body(1, 1, 8000, 1, 16)), chunk(b"data", &[1, 0, 2])]);
    let file = WavFile::from_bytes(&bytes).unwrap();
    assert!(file.as_i16_slice().is_none());
    assert_eq!(file.to_i16_vec(), vec![1]);
}

#[test]
fn as_i16_slice_only_for_pcm16() {
    let bytes = wav(&[chunk(b"fmt ", &fmt_body(1, 1, 8000, 1, 8)), chunk(b"data", &[1, 2])]);
    let file = WavFile::from_bytes(&bytes).unwrap();
    assert!(file.as_i16_slice().is_none());
    assert_eq!(file.to_i16_vec(), vec![0x0201]);
}

#[test]
fn decodes_pcm_samples() {
    let bytes = wav(&[chunk(b"fmt ", &fmt_body(1, 1, 8000, 1, 8)), chunk(b"data", &[0, 128, 255])]);
    let file = WavFile::from_bytes(&bytes).unwrap();
    assert_eq!(file.pcm_samples(), Some(vec![-128, 0, 127]));

    let bytes = wav(&[
        chunk(b"fmt ", &fmt_body(1, 1, 8000, 3, 24)),
        chunk(b"data", &[0xff, 0xff, 0xff, 0xff, 0xff, 0x7f, 0x00, 0x00, 0x80]),
    ]);
    let file = WavFile::from_bytes(&bytes).unwrap();
    assert_eq!(file.pcm_samples(), Some(vec![-1, 8_388_607, -8_388_608]));

    let bytes = wav(&[chunk(b"fmt ", &fmt_body(3, 1, 8000, 4, 32)), chunk(b"data", &[0, 0, 128, 63])]);
    let file = WavFile::from_bytes(&bytes).unwrap();
    assert_eq!(file.pcm_samples(), None);
}

#[test]
fn decode_helpers_ignore_partial_samples() {
    assert_eq!(decode_i16_le(&[0x00, 0x80, 0x01]), vec![i16::MIN]);
    assert_eq!(decode_pcm(&[0xff, 0xff, 0xff, 0x7f, 0x01], 32), vec![i32::MAX]);
    assert_eq!(decode_pcm(&[0x00, 0x00, 0x00, 0x80], 32), vec![i32::MIN]);
    assert_eq!(decode_pcm(&[0xfe, 0xff, 0x05], 16), vec![-2]);
    assert_eq!(decode_pcm(&[], 24), Vec::<i32>::new());
}

#[test]
fn pcm16_decoding_matches_i16_decoding() {
    let bytes = [0x01, 0x00, 0xff, 0xff, 0x00, 0x80, 0xff, 0x7f, 0x42];
    let wide: Vec<i32> = decode_i16_le(&bytes).into_iter().map(i32::from).collect();
    assert_eq!(decode_pcm(&bytes, 16), wide);
    assert_eq!(wide, vec![1, -1, -32768, 32767]);
}
