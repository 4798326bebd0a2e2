use wallet_core::blocks::{assemble_blocks, batch_windows, CompactBlockData, StreamItem, BATCH_SIZE};
use wallet_core::scan::{Priority, ScanRange, SyncAction, SyncError, SyncEvent, SyncSession};

fn block(height: u32) -> StreamItem {
    StreamItem::Block(CompactBlockData { height, data: vec![height as u8] })
}

fn range(start: u32, end: u32, priority: Priority) -> ScanRange {
    ScanRange { start, end, priority }
}

fn scan_heights(a: &SyncAction) -> Vec<u32> {
    match a {
        SyncAction::Scan { batch, .. } => batch.blocks.iter().map(|b| b.height).collect(),
        other => panic!("expected a scan, got {:?}", other),
    }
}

fn started(fully_scanned: Option<u32>, tip: u32) -> SyncSession {
    let mut s = SyncSession::new();
    assert_eq!(s.step(SyncEvent::Begin), SyncAction::ReadWallet);
    assert_eq!(
        s.step(SyncEvent::Wallet { registered: true, fully_scanned }),
        SyncAction::FetchChainTip
    );
    assert_eq!(s.step(SyncEvent::ChainTip(tip)), SyncAction::UpdateTip(tip));
    s
}

#[test]
fn windows_tile_the_range() {
    assert_eq!(batch_windows(0, 2500, BATCH_SIZE), vec![(0, 1000), (1000, 2000), (2000, 2500)]);
    assert_eq!(batch_windows(10, 11, 1000), vec![(10, 11)]);
    assert_eq!(batch_windows(5, 5, 1000), Vec::<(u32, u32)>::new());
    assert_eq!(batch_windows(u32::MAX - 3, u32::MAX, 2), vec![(u32::MAX - 3, u32::MAX - 1), (u32::MAX - 1, u32::MAX)]);
}

#[test]
fn blocks_are_sorted_and_malformed_items_dropped() {
    let batch = assemble_blocks(vec![block(3), StreamItem::Malformed, block(1), block(2), StreamItem::Malformed]);
    let heights: Vec<u32> = batch.blocks.iter().map(|b| b.height).collect();
    assert_eq!(heights, vec![1, 2, 3]);
    assert_eq!(batch.dropped, 2);
}

#[test]
fn sync_scans_ranges_in_order_and_reaches_the_tip() {
    let mut s = started(Some(99), 2100);
    let plan = vec![range(100, 1100, Priority::ChainTip), range(1100, 2101, Priority::Historic)];
    assert_eq!(s.step(SyncEvent::Ranges(plan.clone())), SyncAction::FetchBlocks { start: 100, end: 1100 });
    assert_eq!(s.step(SyncEvent::Blocks(vec![block(101), block(100)])), SyncAction::FetchTreeState(99));
    let scan = s.step(SyncEvent::TreeState);
    assert_eq!(scan_heights(&scan), vec![100, 101]);
    match &scan {
        SyncAction::Scan { range, .. } => assert_eq!(*range, plan[0]),
        _ => unreachable!(),
    }
    assert_eq!(s.step(SyncEvent::Scanned), SyncAction::FetchBlocks { start: 1100, end: 2100 });
    assert_eq!(s.step(SyncEvent::Blocks(vec![block(1100)])), SyncAction::FetchBlocks { start: 2100, end: 2101 });
    assert_eq!(s.step(SyncEvent::Blocks(vec![block(2100)])), SyncAction::FetchTreeState(1099));
    assert_eq!(scan_heights(&s.step(SyncEvent::TreeState)), vec![1100, 2100]);
    assert_eq!(s.step(SyncEvent::Scanned), SyncAction::Backfill);
    assert_eq!(s.step(SyncEvent::BackfillDone), SyncAction::Done(2100));
}

#[test]
fn second_sync_without_new_blocks_scans_nothing() {
    let mut first = started(Some(99), 150);
    assert_eq!(first.step(SyncEvent::Ranges(vec![range(100, 151, Priority::Historic)])), SyncAction::FetchBlocks { start: 100, end: 151 });
    assert_eq!(first.step(SyncEvent::Blocks(vec![block(100)])), SyncAction::FetchTreeState(99));
    let _ = first.step(SyncEvent::TreeState);
    assert_eq!(first.step(SyncEvent::Scanned), SyncAction::Backfill);
    assert_eq!(first.step(SyncEvent::BackfillDone), SyncAction::Done(150));

    let mut second = started(Some(150), 150);
    assert_eq!(second.step(SyncEvent::Ranges(Vec::new())), SyncAction::Backfill);
    assert_eq!(second.step(SyncEvent::BackfillDone), SyncAction::Done(150));
}

#[test]
fn ignored_ranges_are_skipped() {
    let mut s = started(Some(0), 400);
    let plan = vec![range(1, 200, Priority::Ignored), range(200, 300, Priority::FoundNote), range(300, 401, Priority::Ignored)];
    assert_eq!(s.step(SyncEvent::Ranges(plan)), SyncAction::FetchBlocks { start: 200, end: 300 });
    assert_eq!(s.step(SyncEvent::Blocks(Vec::new())), SyncAction::FetchTreeState(199));
    let _ = s.step(SyncEvent::TreeState);
    assert_eq!(s.step(SyncEvent::Scanned), SyncAction::Backfill);
    assert_eq!(s.step(SyncEvent::BackfillDone), SyncAction::Done(299));
}

fn untiled() -> SyncAction {
    SyncAction::Fail(SyncError::Engine {
        range: None,
        message: "scan ranges do not tile the heights to scan".to_string(),
    })
}

#[test]
fn plan_with_a_gap_or_overlap_is_refused() {
    let mut gap = started(Some(99), 300);
    assert_eq!(gap.step(SyncEvent::Ranges(vec![range(100, 200, Priority::Historic), range(201, 301, Priority::ChainTip)])), untiled());
    let mut overlap = started(Some(99), 300);
    assert_eq!(overlap.step(SyncEvent::Ranges(vec![range(100, 201, Priority::Historic), range(200, 301, Priority::ChainTip)])), untiled());
    let mut out_of_order = started(Some(99), 300);
    assert_eq!(out_of_order.step(SyncEvent::Ranges(vec![range(200, 301, Priority::ChainTip), range(100, 200, Priority::Historic)])), untiled());
}

#[test]
fn plan_reaching_into_scanned_heights_is_refused() {
    let mut s = started(Some(150), 300);
    assert_eq!(s.step(SyncEvent::Ranges(vec![range(100, 301, Priority::Historic)])), untiled());
    let mut zero = started(Some(0), 5);
    assert_eq!(zero.step(SyncEvent::Ranges(vec![range(0, 6, Priority::Historic)])), untiled());
}

#[test]
fn plan_short_of_the_tip_is_refused() {
    let mut s = started(Some(99), 300);
    assert_eq!(s.step(SyncEvent::Ranges(vec![range(100, 200, Priority::Historic)])), untiled());
    let mut none = started(Some(99), 300);
    assert_eq!(none.step(SyncEvent::Ranges(Vec::new())), untiled());
    let mut empty_range = started(Some(99), 300);
    assert_eq!(empty_range.step(SyncEvent::Ranges(vec![range(100, 100, Priority::Historic), range(100, 301, Priority::Historic)])), untiled());
}

#[test]
fn fresh_wallet_starts_where_the_engine_says() {
    let mut s = started(None, 500);
    assert_eq!(s.step(SyncEvent::Ranges(vec![range(419, 501, Priority::Historic)])), SyncAction::FetchBlocks { start: 419, end: 501 });
    assert_eq!(s.step(SyncEvent::Blocks(Vec::new())), SyncAction::FetchTreeState(418));
    let _ = s.step(SyncEvent::TreeState);
    assert_eq!(s.step(SyncEvent::Scanned), SyncAction::Backfill);
    assert_eq!(s.step(SyncEvent::BackfillDone), SyncAction::Done(500));
}

#[test]
fn range_from_genesis_needs_no_tree_state() {
    let mut s = started(None, 5);
    assert_eq!(s.step(SyncEvent::Ranges(vec![range(0, 6, Priority::Historic)])), SyncAction::FetchBlocks { start: 0, end: 6 });
    let scan = s.step(SyncEvent::Blocks(vec![block(5), StreamItem::Malformed, block(0)]));
    assert_eq!(scan_heights(&scan), vec![0, 5]);
    match scan {
        SyncAction::Scan { batch, .. } => assert_eq!(batch.dropped, 1),
        _ => unreachable!(),
    }
}

#[test]
fn wallet_without_account_is_not_initialized() {
    let mut s = SyncSession::new();
    assert_eq!(s.step(SyncEvent::Begin), SyncAction::ReadWallet);
    assert_eq!(
        s.step(SyncEvent::Wallet { registered: false, fully_scanned: None }),
        SyncAction::Fail(SyncError::NotInitialized)
    );
}

#[test]
fn transport_failure_while_downloading_is_fatal() {
    let mut s = started(Some(10), 20);
    assert_eq!(s.step(SyncEvent::Ranges(vec![range(11, 21, Priority::ChainTip)])), SyncAction::FetchBlocks { start: 11, end: 21 });
    assert_eq!(
        s.step(SyncEvent::Failed("stream reset".to_string())),
        SyncAction::Fail(SyncError::Transport { message: "stream reset".to_string() })
    );
    assert_eq!(s.step(SyncEvent::Blocks(Vec::new())), SyncAction::Fail(SyncError::OutOfOrder));
}

#[test]
fn engine_failure_while_scanning_names_the_range() {
    let mut s = started(Some(10), 20);
    let r = range(11, 21, Priority::ChainTip);
    let _ = s.step(SyncEvent::Ranges(vec![r]));
    let _ = s.step(SyncEvent::Blocks(Vec::new()));
    let _ = s.step(SyncEvent::TreeState);
    assert_eq!(
        s.step(SyncEvent::Failed("bad tree".to_string())),
        SyncAction::Fail(SyncError::Engine { range: Some(r), message: "bad tree".to_string() })
    );
}

#[test]
fn events_out_of_order_are_refused() {
    let mut s = SyncSession::new();
    assert_eq!(s.step(SyncEvent::Scanned), SyncAction::Fail(SyncError::OutOfOrder));
    let mut t = SyncSession::new();
    assert_eq!(t.step(SyncEvent::Begin), SyncAction::ReadWallet);
    assert_eq!(t.step(SyncEvent::Begin), SyncAction::Fail(SyncError::OutOfOrder));
}
