use aaf::write::open::utf16_array;

fn encode_string(text: &str) -> Vec<u8> {
    let mut out: Vec<u8> = text.encode_utf16().flat_map(u16::to_le_bytes).collect();
    out.extend_from_slice(&[0, 0]);
    out
}

#[test]
fn utf16_arrays_stop_at_the_last_terminator() {
    let mut data = encode_string("ab");
    data.extend(encode_string(""));
    data.extend([b'c', 0]);
    assert_eq!(utf16_array(&data), vec!["ab".to_owned(), String::new()]);
}

#[test]
fn a_terminator_counts_only_at_an_even_offset() {
    // The zero bytes at offsets 1 and 2 straddle two units and end nothing.
    let data = [b'a', 0, 0, b'b', 0, 0];
    let out = utf16_array(&data);
    assert_eq!(out.len(), 1);
    assert_eq!(out[0].chars().next(), Some('a'));
}
