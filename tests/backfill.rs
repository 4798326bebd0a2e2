use wallet_core::backfill::{
    apply_memo_writes, memo_writes, pending_memo_notes, recover_memo, DecryptedOutput,
    FetchOutcome, MemoWrite, StoredNote,
};

fn pending_note(note_id: u64, output_index: u32) -> StoredNote {
    StoredNote { note_id, txid: vec![0xaa, 0xbb, 0xcc], height: 500, output_index, memo: None }
}

fn output(index: u32, byte: u8) -> DecryptedOutput {
    DecryptedOutput { index, memo: vec![byte; 4] }
}

#[test]
fn unfetchable_note_stays_pending_until_a_later_run() {
    let mut store = vec![pending_note(7, 1)];
    let pending = pending_memo_notes(&store);
    assert_eq!(pending.len(), 1);
    assert_eq!(pending[0].fetch_txid, vec![0xcc, 0xbb, 0xaa]);
    let writes = memo_writes(&pending, &vec![FetchOutcome::Unavailable]);
    assert!(writes.is_empty());
    apply_memo_writes(&mut store, &writes);
    assert_eq!(store[0].memo, None);

    let pending = pending_memo_notes(&store);
    assert_eq!(pending.len(), 1);
    let outcome = FetchOutcome::Decrypted(vec![output(0, 1), output(1, 2)]);
    let writes = memo_writes(&pending, &vec![outcome]);
    assert_eq!(writes, vec![MemoWrite { note_id: 7, memo: vec![2; 4] }]);
    apply_memo_writes(&mut store, &writes);
    assert_eq!(store[0].memo, Some(vec![2; 4]));
    assert!(pending_memo_notes(&store).is_empty());
}

#[test]
fn unparseable_or_missing_output_writes_nothing() {
    let notes = vec![pending_note(1, 0), pending_note(2, 3)];
    let pending = pending_memo_notes(&notes);
    let outcomes = vec![FetchOutcome::Unparseable, FetchOutcome::Decrypted(vec![output(0, 9)])];
    assert!(memo_writes(&pending, &outcomes).is_empty());
}

#[test]
fn first_output_with_the_index_wins() {
    let p = &pending_memo_notes(&vec![pending_note(1, 2)])[0];
    let outcome = FetchOutcome::Decrypted(vec![output(2, 5), output(2, 6)]);
    assert_eq!(recover_memo(p, &outcome), Some(vec![5; 4]));
}

#[test]
fn filled_memos_are_never_rewritten() {
    let mut store = vec![
        StoredNote { note_id: 1, txid: vec![1], height: 1, output_index: 0, memo: Some(vec![1]) },
        pending_note(2, 0),
    ];
    assert_eq!(pending_memo_notes(&store).len(), 1);
    let writes = vec![
        MemoWrite { note_id: 1, memo: vec![9] },
        MemoWrite { note_id: 2, memo: vec![8] },
        MemoWrite { note_id: 2, memo: vec![7] },
    ];
    apply_memo_writes(&mut store, &writes);
    apply_memo_writes(&mut store, &writes);
    assert_eq!(store[0].memo, Some(vec![1]));
    assert_eq!(store[1].memo, Some(vec![8]));
}
