use wallet_core::hexfmt::{to_hex, txid_to_display};
use wallet_core::memo::{decode_memo, MemoError, MemoPayload};
use wallet_core::wallet::{
    compose_message_v1, get_lightwalletd_url, get_network_name, is_valid_address,
    prepare_message, send_message_dm, SendError, MIN_AMOUNT,
};

const ADDRESS: &str = "zs1qqqqqqqqqqqqqqqqqqqqqqqqqqqqqqqqqqqqqqqqqqqqqqqqqqqqqqqqqqqqqqqqqqqqqpq6d8g";
const TRANSPARENT: &str = "t1Hsc1LR8yKnbbe3twRp88p6vFfC5t7DLbs";

#[test]
fn addresses_are_checked() {
    assert!(is_valid_address(&ADDRESS.to_string()));
    assert!(!is_valid_address(&"not-an-address".to_string()));
    // a transparent address cannot receive a memo
    assert!(!is_valid_address(&TRANSPARENT.to_string()));
    assert!(!is_valid_address(&String::new()));
}

#[test]
fn prepared_v2_message_names_its_sender() {
    let m = prepare_message(ADDRESS.to_string(), 20000, "hello".to_string(), "u1me".to_string(), 99).unwrap();
    assert_eq!(m.to_address, ADDRESS);
    assert_eq!(m.amount, 20000);
    assert_eq!(m.memo.len(), 512);
    assert_eq!(
        decode_memo(&m.memo),
        Some(MemoPayload::MessageV2 { timestamp: 99, sender: "u1me".to_string(), text: "hello".to_string() })
    );
}

#[test]
fn send_validation_errors() {
    assert_eq!(
        prepare_message("nope".to_string(), 20000, "x".to_string(), "u1me".to_string(), 1),
        Err(SendError::InvalidAddress)
    );
    assert_eq!(
        prepare_message(ADDRESS.to_string(), MIN_AMOUNT - 1, "x".to_string(), "u1me".to_string(), 1),
        Err(SendError::AmountTooSmall { amount: 9999 })
    );
    assert_eq!(
        // "ZMSGv2|1|u1me|" is 14 bytes
        prepare_message(ADDRESS.to_string(), MIN_AMOUNT, "z".repeat(600), "u1me".to_string(), 1),
        Err(SendError::Memo(MemoError::MemoTooLong { len: 614 }))
    );
}

#[test]
fn v1_message_id_is_the_hex_of_the_random_bytes() {
    let random = vec![0xde, 0xad, 0xbe, 0xef, 0x00, 0x01, 0x02, 0x03];
    let m = compose_message_v1(ADDRESS.to_string(), "hi".to_string(), 5, &random).unwrap();
    assert_eq!(m.amount, 10000);
    assert_eq!(
        decode_memo(&m.memo),
        Some(MemoPayload::MessageV1 { timestamp: 5, id: "deadbeef00010203".to_string(), text: "hi".to_string() })
    );
}

#[test]
fn send_message_dm_draws_a_fresh_id() {
    let m = send_message_dm(ADDRESS.to_string(), "hi".to_string(), 5).unwrap();
    match decode_memo(&m.memo) {
        Some(MemoPayload::MessageV1 { timestamp, id, text }) => {
            assert_eq!(timestamp, 5);
            assert_eq!(text, "hi");
            assert_eq!(id.len(), 16);
            assert!(id.chars().all(|c| c.is_ascii_hexdigit() && !c.is_ascii_uppercase()));
        }
        other => panic!("unexpected memo {:?}", other),
    }
    assert_eq!(send_message_dm("bad".to_string(), "hi".to_string(), 5), Err(SendError::InvalidAddress));
    assert_eq!(send_message_dm(TRANSPARENT.to_string(), "hi".to_string(), 5), Err(SendError::InvalidAddress));
    // "ZMSGv1|5|" + 16 id digits + "|" is 26 bytes
    assert_eq!(
        send_message_dm(ADDRESS.to_string(), "w".repeat(487), 5),
        Err(SendError::Memo(MemoError::MemoTooLong { len: 513 }))
    );
    assert_eq!(send_message_dm(ADDRESS.to_string(), "w".repeat(486), 5).map(|m| m.memo[511]), Ok(b'w'));
}

#[test]
fn hex_and_display_txids() {
    assert_eq!(to_hex(&vec![0x00, 0x0f, 0xa0, 0xff]), "000fa0ff");
    assert_eq!(txid_to_display(&vec![0x01, 0xab, 0x20]), "20ab01");
    assert_eq!(txid_to_display(&Vec::new()), "");
}

#[test]
fn fixed_settings() {
    assert_eq!(get_network_name(), "main");
    assert_eq!(get_lightwalletd_url(), "http://188.166.42.201:9067");
}
