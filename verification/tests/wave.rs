use aaf::write::wave::Wave;

fn wav(tag: u16, channels: u16, bits: u16, samples: &[u8]) -> Vec<u8> {
    let mut fmt = Vec::new();
    fmt.extend_from_slice(&tag.to_le_bytes());
    fmt.extend_from_slice(&channels.to_le_bytes());
    fmt.extend_from_slice(&48000u32.to_le_bytes());
    let align = channels * bits.div_ceil(8);
    fmt.extend_from_slice(&(48000 * u32::from(align)).to_le_bytes());
    fmt.extend_from_slice(&align.to_le_bytes());
    fmt.extend_from_slice(&bits.to_le_bytes());
    let mut body = b"WAVE".to_vec();
    body.extend_from_slice(b"LIST\x03\0\0\0abc\0");
    body.extend_from_slice(b"fmt ");
    body.extend_from_slice(&(fmt.len() as u32).to_le_bytes());
    body.extend_from_slice(&fmt);
    body.extend_from_slice(b"data");
    body.extend_from_slice(&(samples.len() as u32).to_le_bytes());
    body.extend_from_slice(samples);
    let mut file = b"RIFF".to_vec();
    file.extend_from_slice(&(body.len() as u32).to_le_bytes());
    file.extend_from_slice(&body);
    file
}

#[test]
fn reads_the_format_past_an_odd_chunk_and_the_samples_in_frames() {
    let file = wav(1, 2, 16, &[1, 2, 3, 4, 5, 6, 7, 8, 9, 10]);
    let mut w = Wave::parse(&file).unwrap();
    assert_eq!((w.channels, w.sample_rate, w.sample_width), (2, 48000, 2));
    assert_eq!((w.block_align, w.frames), (4, 2));
    assert_eq!(w.read_frames(1), [1, 2, 3, 4]);
    // A read runs to the end of the chunk, a partial frame and all.
    assert_eq!(w.read_frames(5), [5, 6, 7, 8, 9, 10]);
    assert!(w.read_frames(5).is_empty());
}

#[test]
fn takes_extensible_pcm_and_refuses_the_rest_as_pyaaf2_does() {
    assert!(Wave::parse(&wav(0xFFFE, 1, 24, &[0; 6])).is_ok());
    let error = |file: &[u8]| Wave::parse(file).unwrap_err().to_string();
    assert_eq!(error(&wav(3, 1, 32, &[])), "unknown format: 3");
    assert_eq!(error(&wav(1, 1, 8, &[])), "unsupported sample width: 1");
    assert_eq!(error(b"RIFX\0\0\0\0"), "file does not start with RIFF id");
    assert_eq!(error(b"RIFF\x04\0\0\0AVI "), "not a WAVE file");
    assert_eq!(
        error(b"RIFF\x04\0\0\0WAVE"),
        "fmt chunk and/or data chunk missing"
    );
}

#[test]
fn a_data_chunk_needs_a_format_before_it() {
    let mut file = b"RIFF\x0c\0\0\0WAVE".to_vec();
    file.extend_from_slice(b"data\0\0\0\0");
    file[4] = 12;
    assert_eq!(Wave::parse(&file).unwrap_err().to_string(), "data chunk before fmt chunk");
}

#[test]
fn a_huge_read_stops_at_the_end_of_the_samples() {
    let file = wav(1, 1, 24, &[1, 2, 3, 4, 5, 6, 7]);
    let mut w = Wave::parse(&file).unwrap();
    assert_eq!(w.frames, 2);
    assert_eq!(w.read_frames(usize::MAX), [1, 2, 3, 4, 5, 6, 7]);
}
