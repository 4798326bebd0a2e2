use wallet_core::balance::{get_balance, BalanceError, NoteRef, OwnedNote, Pool};
use wallet_core::memo::{encode_memo, MemoPayload};
use wallet_core::messages::{list_messages, MessageKind, ReceivedNote, SentNote};

fn v2(timestamp: u64, sender: &str, text: &str) -> Vec<u8> {
    encode_memo(&MemoPayload::MessageV2 {
        timestamp,
        sender: sender.to_string(),
        text: text.to_string(),
    })
    .unwrap()
}

fn sent(txid: Vec<u8>, height: u32, to: &str, memo: Vec<u8>) -> SentNote {
    SentNote { txid, height, to_address: to.to_string(), value: 10000, memo }
}

fn received(txid: Vec<u8>, height: u32, memo: Option<Vec<u8>>, is_change: bool) -> ReceivedNote {
    ReceivedNote { txid, height, value: 10000, memo, is_change }
}

fn padded(payload: &[u8]) -> Vec<u8> {
    let mut v = payload.to_vec();
    v.resize(512, 0);
    v
}

#[test]
fn one_sent_one_received_in_timestamp_order() {
    let own = "u1wallet".to_string();
    let t = 1700000000;
    let s = sent(vec![0x01, 0x02], 100, "u1alice", v2(t, "u1wallet", "hello"));
    let r = received(vec![0x03, 0x04], 101, Some(v2(t + 1, "u1bob", "hi back")), false);
    // received first in store order: the timestamps decide
    let out = list_messages(&vec![s], &vec![r], &own, None);
    assert_eq!(out.len(), 2);
    assert_eq!(out[0].text, "hello");
    assert_eq!(out[0].timestamp, t);
    assert!(!out[0].incoming);
    assert_eq!(out[0].from_address, Some("u1wallet".to_string()));
    assert_eq!(out[0].to_address, Some("u1alice".to_string()));
    assert_eq!(out[0].txid, "0102");
    assert_eq!(out[1].text, "hi back");
    assert_eq!(out[1].timestamp, t + 1);
    assert!(out[1].incoming);
    assert_eq!(out[1].from_address, Some("u1bob".to_string()));
    assert_eq!(out[1].to_address, Some("u1wallet".to_string()));
    assert_eq!(out[1].kind, MessageKind::Chat);
}

#[test]
fn later_sent_message_sorts_after_earlier_received() {
    let own = "u1wallet".to_string();
    let s = sent(vec![1], 200, "u1alice", v2(50, "u1wallet", "second"));
    let r = received(vec![2], 150, Some(v2(40, "u1bob", "first")), false);
    let out = list_messages(&vec![s], &vec![r], &own, None);
    assert_eq!(out[0].text, "first");
    assert_eq!(out[1].text, "second");
}

#[test]
fn equal_timestamps_keep_discovery_order() {
    let own = "u1wallet".to_string();
    let s1 = sent(vec![1], 10, "u1a", v2(5, "u1wallet", "s1"));
    let s2 = sent(vec![2], 11, "u1a", v2(5, "u1wallet", "s2"));
    let r1 = received(vec![3], 12, Some(v2(5, "u1b", "r1")), false);
    let r0 = received(vec![4], 9, Some(v2(4, "u1b", "r0")), false);
    let out = list_messages(&vec![s1, s2], &vec![r1, r0], &own, None);
    let texts: Vec<String> = out.iter().map(|m| m.text.clone()).collect();
    assert_eq!(texts, vec!["r0", "s1", "s2", "r1"]);
}

#[test]
fn v1_received_message_has_no_sender() {
    let own = "u1wallet".to_string();
    let memo = padded(b"ZMSGv1|77|00ff00ff00ff00ff|yo");
    let out = list_messages(&Vec::new(), &vec![received(vec![9], 5, Some(memo), false)], &own, None);
    assert_eq!(out.len(), 1);
    assert_eq!(out[0].id, "00ff00ff00ff00ff");
    assert_eq!(out[0].from_address, None);
    assert!(out[0].incoming);
}

#[test]
fn plain_text_received_memo_uses_height_as_timestamp() {
    let own = "u1wallet".to_string();
    let out = list_messages(
        &Vec::new(),
        &vec![received(vec![0xab, 0xcd], 321, Some(padded(b"gm")), false)],
        &own,
        None,
    );
    assert_eq!(out.len(), 1);
    assert_eq!(out[0].timestamp, 321);
    assert_eq!(out[0].text, "gm");
    assert_eq!(out[0].id, "abcd");
    assert_eq!(out[0].from_address, None);
}

#[test]
fn change_pending_and_undecodable_notes_are_skipped() {
    let own = "u1wallet".to_string();
    let notes = vec![
        received(vec![1], 1, Some(v2(1, "u1b", "change")), true),
        received(vec![2], 2, None, false),
        received(vec![3], 3, Some(vec![0u8; 512]), false),
    ];
    let plain_sent = sent(vec![4], 4, "u1a", padded(b"not a protocol message"));
    assert!(list_messages(&vec![plain_sent], &notes, &own, None).is_empty());
}

#[test]
fn height_floor_filters_both_sides() {
    let own = "u1wallet".to_string();
    let s_old = sent(vec![1], 99, "u1a", v2(1, "u1wallet", "old sent"));
    let s_new = sent(vec![2], 100, "u1a", v2(2, "u1wallet", "new sent"));
    let r_old = received(vec![3], 50, Some(v2(3, "u1b", "old received")), false);
    let r_new = received(vec![4], 150, Some(v2(4, "u1b", "new received")), false);
    let out = list_messages(&vec![s_old, s_new], &vec![r_old, r_new], &own, Some(100));
    let texts: Vec<String> = out.iter().map(|m| m.text.clone()).collect();
    assert_eq!(texts, vec!["new sent", "new received"]);
}

#[test]
fn bare_tag_memo_is_listed_as_plain_text() {
    let own = "u1wallet".to_string();
    let out = list_messages(&Vec::new(), &vec![received(vec![1], 42, Some(padded(b"ZMSGv1")), false)], &own, None);
    assert_eq!(out.len(), 1);
    assert_eq!(out[0].text, "ZMSGv1");
    assert_eq!(out[0].timestamp, 42);
}

#[test]
fn rotation_entries_carry_the_new_address() {
    let own = "u1wallet".to_string();
    let memo = padded(b"ZROTv1|u1rotated|900");
    let out = list_messages(&Vec::new(), &vec![received(vec![5], 7, Some(memo), false)], &own, None);
    assert_eq!(out[0].kind, MessageKind::Rotation);
    assert_eq!(out[0].new_address, Some("u1rotated".to_string()));
    assert_eq!(out[0].timestamp, 900);
    assert_eq!(out[0].id, "rot-05");
    assert_eq!(out[0].txid, "05");
    assert_eq!(out[0].text, "Address rotation: new address is u1rotated");
    let two = padded(b"ZROTv1|u1two|1");
    let out = list_messages(&Vec::new(), &vec![received(vec![0x01, 0x02], 7, Some(two), false)], &own, None);
    assert_eq!(out[0].id, "rot-0102");
    assert_eq!(out[0].txid, "0102");
}

fn note(pool: Pool, row: u64, account: u32, value: u64) -> OwnedNote {
    OwnedNote { note: NoteRef { pool, row }, account, value }
}

#[test]
fn balance_after_receive_then_spend() {
    let n = note(Pool::Sapling, 1, 0, 125000);
    assert_eq!(get_balance(&vec![n], &Vec::new(), 0), Ok(125000));
    assert_eq!(get_balance(&vec![n], &vec![n.note], 0), Ok(0));
}

#[test]
fn balance_sums_pools_and_ignores_other_accounts() {
    let notes = vec![
        note(Pool::Sapling, 1, 0, 100),
        note(Pool::Orchard, 1, 0, 200),
        note(Pool::Orchard, 2, 1, 400),
        note(Pool::Sapling, 2, 0, 800),
    ];
    // the spend names the Sapling note of row 2, not the Orchard one of row 2
    let spends = vec![NoteRef { pool: Pool::Sapling, row: 2 }];
    assert_eq!(get_balance(&notes, &spends, 0), Ok(300));
    assert_eq!(get_balance(&notes, &spends, 1), Ok(400));
    assert_eq!(get_balance(&notes, &spends, 7), Ok(0));
    assert_eq!(get_balance(&Vec::new(), &Vec::new(), 0), Ok(0));
}

#[test]
fn balance_overflow_is_an_error() {
    let notes = vec![note(Pool::Sapling, 1, 0, u64::MAX), note(Pool::Orchard, 1, 0, 1)];
    assert_eq!(get_balance(&notes, &Vec::new(), 0), Err(BalanceError::Overflow));
    assert_eq!(get_balance(&notes, &vec![NoteRef { pool: Pool::Orchard, row: 1 }], 0), Ok(u64::MAX));
}
