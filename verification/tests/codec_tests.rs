use crsl::codec::{push_uint, push_str, push_blob, push_nil, parse_uint, parse_str, parse_blob};

#[test]
fn uint_headers_use_the_minimal_width() {
    let cases: Vec<(u64, Vec<u8>)> = vec![
        (0, vec![0x00]),
        (23, vec![0x17]),
        (24, vec![0x18, 24]),
        (255, vec![0x18, 255]),
        (256, vec![0x19, 0x01, 0x00]),
        (65535, vec![0x19, 0xff, 0xff]),
        (65536, vec![0x1a, 0x00, 0x01, 0x00, 0x00]),
        (4294967295, vec![0x1a, 0xff, 0xff, 0xff, 0xff]),
        (4294967296, vec![0x1b, 0x00, 0x00, 0x00, 0x01, 0x00, 0x00, 0x00, 0x00]),
        (u64::MAX, vec![0x1b, 0xff, 0xff, 0xff, 0xff, 0xff, 0xff, 0xff, 0xff]),
    ];
    for (value, expected) in cases {
        let mut out: Vec<u8> = Vec::new();
        push_uint(&mut out, value);
        assert_eq!(out, expected);
        let parsed = parse_uint(&out, 0).expect("canonical uint must parse");
        assert_eq!(parsed.0, value);
        assert_eq!(parsed.1, out.len());
    }
}

#[test]
fn text_items_round_trip() {
    for text in ["", "a", "hello world", "π and 🌍", "policy_type"] {
        let mut out: Vec<u8> = Vec::new();
        push_str(&mut out, text);
        let parsed = parse_str(&out, 0).expect("encoded text must parse");
        assert_eq!(parsed.0, text);
        assert_eq!(parsed.1, out.len());
    }
}

#[test]
fn byte_items_round_trip() {
    let data: Vec<u8> = (0..=255).collect();
    let mut out: Vec<u8> = Vec::new();
    push_blob(&mut out, &data);
    let parsed = parse_blob(&out, 0).expect("encoded bytes must parse");
    assert_eq!(parsed.0, data);
    assert_eq!(parsed.1, out.len());
}

#[test]
fn null_is_a_single_byte() {
    let mut out: Vec<u8> = Vec::new();
    push_nil(&mut out);
    assert_eq!(out, vec![0xf6]);
}

#[test]
fn truncated_input_is_rejected() {
    let mut out: Vec<u8> = Vec::new();
    push_uint(&mut out, 70000);
    out.pop();
    assert!(parse_uint(&out, 0).is_none());
}
