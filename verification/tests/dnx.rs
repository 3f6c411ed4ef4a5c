use aaf::write::dnx::{frame_size, read_frame_header, valid_prefix, FrameHeader, Frames, HEADER_SIZE};

fn header(cid: u32) -> Vec<u8> {
    let mut h = vec![0u8; HEADER_SIZE];
    h[..6].copy_from_slice(&[0x00, 0x00, 0x02, 0x80, 0x01, 0x00]);
    h[24..26].copy_from_slice(&1080u16.to_be_bytes());
    h[26..28].copy_from_slice(&1920u16.to_be_bytes());
    h[33] = 1 << 5;
    h[40..44].copy_from_slice(&cid.to_be_bytes());
    h
}

fn lengths(data: &[u8]) -> Vec<usize> {
    let mut frames = Frames::new(data);
    let mut out = Vec::new();
    while let Some(f) = frames.next() {
        out.push(f.unwrap().1.len());
    }
    out
}

#[test]
fn reads_a_dnxhd_header() {
    let h = read_frame_header(&header(1253)).unwrap();
    assert_eq!(
        h,
        FrameHeader {
            cid: 1253,
            width: 1920,
            height: 1080,
            bitdepth: 8,
            interlaced: false
        }
    );
    assert_eq!(frame_size(&h).unwrap(), 188_416);
}

#[test]
fn refuses_what_pyaaf2_refuses() {
    let riff = b"RIFF4\0\0\0WAVE";
    let mut data = riff.to_vec();
    data.resize(HEADER_SIZE, 0);
    assert_eq!(
        read_frame_header(&data).unwrap_err().to_string(),
        "Invalid DNxHD frame: unknown prefix: 0x524946463400"
    );
    assert_eq!(
        read_frame_header(&data[..10]).unwrap_err().to_string(),
        "Invalid DNxHD frame: header to Short"
    );
    let mut deep = header(1253);
    deep[33] = 0;
    assert_eq!(
        read_frame_header(&deep).unwrap_err().to_string(),
        "Invalid DNxHD frame: unknown bitdepth: 0"
    );
}

#[test]
fn sizes_dnxhr_frames_by_their_picture() {
    let mut h = read_frame_header(&header(1253)).unwrap();
    h.cid = 1274;
    // 68 * 120 blocks at 5888/255 each, rounded to 4096.
    assert_eq!(frame_size(&h).unwrap(), 188_416);
}

#[test]
fn a_short_last_frame_is_kept_and_a_short_header_ends_the_stream() {
    let frame = |len: usize| {
        let mut f = header(1253);
        f.resize(len, 0);
        f
    };
    // A whole frame, then one cut short, which takes what is left.
    let mut data = frame(188_416);
    data.extend(frame(1000));
    data.extend(frame(600));
    assert_eq!(lengths(&data), [188_416, 1600]);
    // Less than a header is no frame at all.
    assert_eq!(lengths(&frame(600)).len(), 0);
}

#[test]
fn dnxhr_prefixes_are_checked_by_their_data_offset() {
    assert!(valid_prefix(0x0000_0280_0100));
    assert!(valid_prefix(0x0000_0280_0300));
    assert!(!valid_prefix(0x0000_0281_0300));
    assert!(!valid_prefix(0x0000_2174_0300));
}

#[test]
fn compressions_are_known_by_cid() {
    let mut h = read_frame_header(&header(1253)).unwrap();
    assert_eq!(h.compression().unwrap().to_string(), "04010202-7113-0000-060e-2b340401010a");
    h.cid = 1274;
    assert_eq!(h.compression().unwrap().to_string(), "04010202-7128-0000-060e-2b340401010d");
    h.cid = 1239;
    assert_eq!(h.compression().unwrap_err().to_string(), "no compression is known for DNx CID 1239");
    assert_eq!(frame_size(&h).unwrap_err().to_string(), "unknown DNx CID 1239");
}

#[test]
fn a_refused_header_ends_the_stream_with_an_error() {
    let mut data = header(1253);
    data[44] = 0x40;
    let mut frames = Frames::new(&data);
    assert_eq!(frames.next().unwrap().unwrap_err().to_string(), "444 not tested");
    assert!(frames.next().is_none());
}
