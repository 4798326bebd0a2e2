use wallet_core::decimal::{decimal_bytes, parse_u64};
use wallet_core::memo::{
    build_rotation_memo, decode_memo, encode_memo, MemoError, MemoPayload, MEMO_CAPACITY,
};

fn padded(payload: &[u8]) -> Vec<u8> {
    let mut v = payload.to_vec();
    v.resize(MEMO_CAPACITY, 0);
    v
}

fn v1(timestamp: u64, id: &str, text: &str) -> MemoPayload {
    MemoPayload::MessageV1 { timestamp, id: id.to_string(), text: text.to_string() }
}

fn v2(timestamp: u64, sender: &str, text: &str) -> MemoPayload {
    MemoPayload::MessageV2 { timestamp, sender: sender.to_string(), text: text.to_string() }
}

#[test]
fn encode_v1_writes_fields_and_pads() {
    let memo = encode_memo(&v1(1700000000, "ab12cd34ef56ab78", "hello")).unwrap();
    assert_eq!(memo.len(), 512);
    assert_eq!(memo, padded(b"ZMSGv1|1700000000|ab12cd34ef56ab78|hello"));
}

#[test]
fn encode_v2_and_rotation_layouts() {
    assert_eq!(encode_memo(&v2(7, "u1sender", "hi")).unwrap(), padded(b"ZMSGv2|7|u1sender|hi"));
    let rot = MemoPayload::Rotation { new_address: "u1new".to_string(), timestamp: 42 };
    assert_eq!(encode_memo(&rot).unwrap(), padded(b"ZROTv1|u1new|42"));
}

#[test]
fn v1_round_trip() {
    let m = v1(1700000000, "0011223344556677", "hello | world");
    assert_eq!(decode_memo(&encode_memo(&m).unwrap()), Some(m));
}

#[test]
fn v2_round_trip_keeps_sender() {
    let m = v2(u64::MAX, "u1alice", "caf\u{e9} \u{1F600}");
    assert_eq!(decode_memo(&encode_memo(&m).unwrap()), Some(m));
}

#[test]
fn nul_inside_text_round_trips() {
    let m = v1(3, "id", "a\0b");
    assert_eq!(decode_memo(&encode_memo(&m).unwrap()), Some(m));
    // a trailing NUL is padding
    assert_eq!(decode_memo(&encode_memo(&v1(3, "id", "ab\0")).unwrap()), Some(v1(3, "id", "ab")));
}

#[test]
fn v1_text_may_hold_delimiters() {
    let memo = padded(b"ZMSGv1|5|id|a|b||c");
    assert_eq!(decode_memo(&memo), Some(v1(5, "id", "a|b||c")));
}

#[test]
fn payload_at_capacity_fits_and_one_more_byte_fails() {
    // "ZMSGv2|1|u1s|" is 13 bytes
    let fits = "x".repeat(499);
    let m = v2(1, "u1s", &fits);
    let memo = encode_memo(&m).unwrap();
    assert_eq!(memo.len(), 512);
    assert_eq!(memo[511], b'x');
    assert_eq!(decode_memo(&memo), Some(m));
    let too_long = "x".repeat(500);
    assert_eq!(encode_memo(&v2(1, "u1s", &too_long)), Err(MemoError::MemoTooLong { len: 513 }));
}

#[test]
fn long_text_is_refused_not_truncated() {
    let text = "y".repeat(600);
    let r = encode_memo(&v1(1, "id", &text));
    assert_eq!(r, Err(MemoError::MemoTooLong { len: 12 + 600 }));
}

#[test]
fn empty_memo_decodes_to_nothing() {
    assert_eq!(decode_memo(&vec![0u8; 512]), None);
    assert_eq!(decode_memo(&Vec::new()), None);
}

#[test]
fn non_utf8_memo_decodes_to_nothing() {
    let mut memo = vec![0u8; 512];
    memo[0] = 0xF6;
    assert_eq!(decode_memo(&memo), None);
}

#[test]
fn unknown_text_is_plain() {
    assert_eq!(
        decode_memo(&padded(b"thanks for the coffee")),
        Some(MemoPayload::PlainText { text: "thanks for the coffee".to_string() })
    );
    assert_eq!(
        decode_memo(&padded(b"ZMSGv9|1|x|y")),
        Some(MemoPayload::PlainText { text: "ZMSGv9|1|x|y".to_string() })
    );
}

#[test]
fn tag_without_delimiter_is_plain_text() {
    for tag in ["ZMSGv1", "ZMSGv2", "ZROTv1"] {
        assert_eq!(
            decode_memo(&padded(tag.as_bytes())),
            Some(MemoPayload::PlainText { text: tag.to_string() })
        );
    }
}

#[test]
fn known_tag_with_bad_fields_is_dropped() {
    assert_eq!(decode_memo(&padded(b"ZMSGv1|soon|id|text")), None);

    assert_eq!(decode_memo(&padded(b"ZMSGv2|12|only-two")), None);
    assert_eq!(decode_memo(&padded(b"ZROTv1|u1new|12x")), None);
    assert_eq!(decode_memo(&padded(b"ZROTv1|u1new")), None);
}

#[test]
fn rotation_memo_text_and_round_trip() {
    assert_eq!(
        build_rotation_memo("u1newaddress".to_string(), 1234567890),
        Ok("ZROTv1|u1newaddress|1234567890".to_string())
    );
    let rot = MemoPayload::Rotation { new_address: "u1newaddress".to_string(), timestamp: 0 };
    assert_eq!(decode_memo(&encode_memo(&rot).unwrap()), Some(rot));
}

#[test]
fn rotation_memo_too_long_is_refused() {
    // "ZROTv1|" and "|7" take 9 bytes
    assert_eq!(
        build_rotation_memo("u".repeat(504), 7),
        Err(MemoError::MemoTooLong { len: 513 })
    );
    assert_eq!(build_rotation_memo("u".repeat(503), 7).map(|s| s.len()), Ok(512));
}

#[test]
fn decimal_rendering_and_parsing() {
    assert_eq!(decimal_bytes(0), b"0".to_vec());
    assert_eq!(decimal_bytes(1700000000), b"1700000000".to_vec());
    let max = b"18446744073709551615".to_vec();
    assert_eq!(parse_u64(&max, 0, max.len()), Some(u64::MAX));
    let over = b"18446744073709551616".to_vec();
    assert_eq!(parse_u64(&over, 0, over.len()), None);
    let plus = b"+7".to_vec();
    assert_eq!(parse_u64(&plus, 0, 2), Some(7));
    assert_eq!(parse_u64(&plus, 0, 1), None);
    assert_eq!(parse_u64(&plus, 0, 0), None);
    let bad = b"1a".to_vec();
    assert_eq!(parse_u64(&bad, 0, 2), None);
    assert_eq!(parse_u64(&bad, 0, 1), Some(1));
}
