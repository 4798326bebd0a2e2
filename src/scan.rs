//! The synchronisation of a wallet store with the chain, as a state machine.
//!
//! A [`SyncSession`] decides; whoever drives it talks to the wallet engine and
//! the chain data service. Each call of [`SyncSession::step`] takes what the
//! last requested action produced and returns the next action, until the
//! session ends in `Done` with the height reached or in `Fail`.

use vstd::prelude::*;
use crate::blocks::{
    BATCH_SIZE, BlockBatch, StreamItem, assemble_blocks, batch_windows, by_height, well_formed,
    windows_spec, malformed_count,
};
use crate::sorting::stable_sorted;

verus! {

/// How much a range is worth scanning, as the wallet engine ranks it.
#[derive(Debug, Clone, Copy, PartialEq, Eq, Structural)]
pub enum Priority {
    Ignored,
    Scanned,
    Historic,
    OpenAdjacent,
    FoundNote,
    ChainTip,
    Verify,
}

/// The block heights `[start, end)` and their priority.
#[derive(Debug, Clone, Copy, PartialEq, Eq, Structural)]
pub struct ScanRange {
    pub start: u32,
    pub end: u32,
    pub priority: Priority,
}

/// Why a synchronisation stopped.
#[derive(Debug, Clone, PartialEq, Eq)]
pub enum SyncError {
    /// The wallet store holds no account.
    NotInitialized,
    /// The chain data service could not be reached or broke off.
    Transport { message: String },
    /// The wallet engine failed; `range` is the range being scanned, if any.
    Engine { range: Option<ScanRange>, message: String },
    /// An event came that the session was not waiting for.
    OutOfOrder,
}

/// What the driver reports back after performing an action.
#[derive(Debug, Clone, PartialEq, Eq)]
pub enum SyncEvent {
    /// Start the session.
    Begin,
    /// The store's account state and its highest fully scanned height,
    /// `None` while nothing is scanned.
    Wallet { registered: bool, fully_scanned: Option<u32> },
    /// The chain's current tip height.
    ChainTip(u32),
    /// The ranges the engine wants scanned, in the order to scan them.
    Ranges(Vec<ScanRange>),
    /// What one window's block stream delivered.
    Blocks(Vec<StreamItem>),
    /// The tree state asked for is at hand.
    TreeState,
    /// The engine scanned the blocks handed to it.
    Scanned,
    /// The memo backfill ran.
    BackfillDone,
    /// The requested action failed.
    Failed(String),
}

/// What the driver is asked to do next.
#[derive(Debug, Clone, PartialEq, Eq)]
pub enum SyncAction {
    /// Read the account state and the fully scanned height.
    ReadWallet,
    /// Ask the chain data service for the tip height.
    FetchChainTip,
    /// Give the engine the new tip and ask it for the ranges to scan.
    UpdateTip(u32),
    /// Stream the blocks `[start, end)`.
    FetchBlocks { start: u32, end: u32 },
    /// Fetch the tree state at this height.
    FetchTreeState(u32),
    /// Hand these blocks, and the tree state last fetched, to the engine.
    Scan { range: ScanRange, batch: BlockBatch },
    /// Run the memo backfill.
    Backfill,
    /// Synchronised up to this height.
    Done(u32),
    Fail(SyncError),
}

#[derive(Debug, Clone, Copy, PartialEq, Eq, Structural)]
pub enum Phase {
    Idle,
    AwaitWallet,
    AwaitTip,
    AwaitRanges,
    AwaitBlocks,
    AwaitTreeState,
    AwaitScan,
    AwaitBackfill,
    Finished,
    Failed,
}

pub enum ErrorModel {
    NotInitialized,
    Transport(Seq<char>),
    Engine(Option<ScanRange>, Seq<char>),
    OutOfOrder,
}

pub enum EventModel {
    Begin,
    Wallet(bool, Option<u32>),
    ChainTip(u32),
    Ranges(Seq<ScanRange>),
    Blocks(Seq<StreamItem>),
    TreeState,
    Scanned,
    BackfillDone,
    Failed(Seq<char>),
}

/// An action, with a scan's blocks still as the stream delivered them.
pub enum ActionModel {
    ReadWallet,
    FetchChainTip,
    UpdateTip(u32),
    FetchBlocks(u32, u32),
    FetchTreeState(u32),
    Scan(ScanRange, Seq<StreamItem>),
    Backfill,
    Done(u32),
    Fail(ErrorModel),
}

/// The state of a session.
pub struct SyncModel {
    pub phase: Phase,
    /// The fully scanned height when the session began, if any.
    pub base: Option<u32>,
    pub tip: u32,
    /// The engine's ranges.
    pub plan: Seq<ScanRange>,
    /// Index in `plan` of the range at hand.
    pub next: int,
    /// Download windows of the range at hand.
    pub windows: Seq<(u32, u32)>,
    pub next_window: int,
    /// What the windows of the range at hand delivered so far.
    pub items: Seq<StreamItem>,
    /// The ranges scanned, in order.
    pub processed: Seq<ScanRange>,
    /// The highest height scanned.
    pub reached: u32,
}

impl View for SyncEvent {
    type V = EventModel;

    open spec fn view(&self) -> EventModel {
        match self {
            SyncEvent::Begin => EventModel::Begin,
            SyncEvent::Wallet { registered, fully_scanned } => EventModel::Wallet(
                *registered,
                *fully_scanned,
            ),
            SyncEvent::ChainTip(t) => EventModel::ChainTip(*t),
            SyncEvent::Ranges(r) => EventModel::Ranges(r@),
            SyncEvent::Blocks(b) => EventModel::Blocks(b@),
            SyncEvent::TreeState => EventModel::TreeState,
            SyncEvent::Scanned => EventModel::Scanned,
            SyncEvent::BackfillDone => EventModel::BackfillDone,
            SyncEvent::Failed(m) => EventModel::Failed(m@),
        }
    }
}

pub open spec fn error_agrees(e: SyncError, m: ErrorModel) -> bool {
    match (e, m) {
        (SyncError::NotInitialized, ErrorModel::NotInitialized) => true,
        (SyncError::Transport { message }, ErrorModel::Transport(mm)) => message@ == mm,
        (SyncError::Engine { range, message }, ErrorModel::Engine(rr, mm)) => range == rr
            && message@ == mm,
        (SyncError::OutOfOrder, ErrorModel::OutOfOrder) => true,
        _ => false,
    }
}

/// `a` is the action `m` describes; a scan's blocks are those the stream
/// delivered, malformed ones dropped and counted, ordered by height.
pub open spec fn action_agrees(a: SyncAction, m: ActionModel) -> bool {
    match (a, m) {
        (SyncAction::ReadWallet, ActionModel::ReadWallet) => true,
        (SyncAction::FetchChainTip, ActionModel::FetchChainTip) => true,
        (SyncAction::UpdateTip(t), ActionModel::UpdateTip(u)) => t == u,
        (SyncAction::FetchBlocks { start, end }, ActionModel::FetchBlocks(s, e)) => start == s
            && end == e,
        (SyncAction::FetchTreeState(h), ActionModel::FetchTreeState(g)) => h == g,
        (SyncAction::Scan { range, batch }, ActionModel::Scan(r, items)) => range == r
            && stable_sorted(batch.blocks@, well_formed(items), by_height()) && batch.dropped
            == malformed_count(items),
        (SyncAction::Backfill, ActionModel::Backfill) => true,
        (SyncAction::Done(h), ActionModel::Done(g)) => h == g,
        (SyncAction::Fail(e), ActionModel::Fail(em)) => error_agrees(e, em),
        _ => false,
    }
}

/// Whether `r` is to be scanned: it is not ignored.
pub open spec fn is_live(r: ScanRange) -> bool {
    r.priority != Priority::Ignored
}

/// The lowest height not yet scanned.
pub open spec fn floor(base: Option<u32>) -> int {
    match base {
        Some(h) => h + 1,
        None => 0,
    }
}

/// The height reached before anything is scanned in the session.
pub open spec fn start_of(base: Option<u32>) -> u32 {
    match base {
        Some(h) => h,
        None => 0,
    }
}

/// The range at hand.
pub open spec fn at_hand(s: SyncModel) -> ScanRange {
    s.plan[s.next]
}

/// Index of the first range at or after `i` that is to be scanned, or the
/// length of the plan.
pub open spec fn first_live(plan: Seq<ScanRange>, i: int) -> int
    decreases plan.len() - i,
{
    if 0 <= i < plan.len() && !is_live(plan[i]) {
        first_live(plan, i + 1)
    } else {
        i
    }
}

/// The height reached once `r` is scanned.
pub open spec fn bump(reached: u32, r: ScanRange) -> u32 {
    if r.end > 0 && r.end - 1 > reached {
        (r.end - 1) as u32
    } else {
        reached
    }
}

pub open spec fn fail(s: SyncModel, e: ErrorModel) -> (SyncModel, ActionModel) {
    (SyncModel { phase: Phase::Failed, ..s }, ActionModel::Fail(e))
}

/// The blocks of the range at hand are all in: fetch the tree state below
/// it, or scan at once when it starts at the genesis block.
pub open spec fn after_download(s: SyncModel) -> (SyncModel, ActionModel) {
    let r = at_hand(s);
    if r.start > 0 {
        (SyncModel { phase: Phase::AwaitTreeState, ..s }, ActionModel::FetchTreeState(
            (r.start - 1) as u32,
        ))
    } else {
        (
            SyncModel { phase: Phase::AwaitScan, items: Seq::empty(), ..s },
            ActionModel::Scan(r, s.items),
        )
    }
}

/// Take up the first range at or after `i` that is not ignored; when none
/// is left, run the backfill.
pub open spec fn enter(s: SyncModel, i: int) -> (SyncModel, ActionModel) {
    let j = first_live(s.plan, i);
    if j >= s.plan.len() {
        (SyncModel { phase: Phase::AwaitBackfill, next: j, ..s }, ActionModel::Backfill)
    } else {
        let r = s.plan[j];
        let w = windows_spec(r.start, r.end, BATCH_SIZE);
        let s2 = SyncModel { next: j, windows: w, next_window: 0, items: Seq::empty(), ..s };
        if w.len() > 0 {
            (SyncModel { phase: Phase::AwaitBlocks, ..s2 }, ActionModel::FetchBlocks(w[0].0, w[0].1))
        } else {
            after_download(s2)
        }
    }
}

/// `rs`, in order, covers the heights `[lo, hi)` without gap or overlap:
/// every range holds a height, the first begins at `lo`, each next one
/// where the one before ends, and the last ends at `hi`.
pub open spec fn abuts(rs: Seq<ScanRange>, lo: int, hi: int) -> bool {
    &&& rs.len() == 0 ==> lo == hi
    &&& rs.len() > 0 ==> rs[0].start == lo && rs.last().end == hi
    &&& forall|i: int| 0 <= i < rs.len() ==> (#[trigger] rs[i]).start < rs[i].end
    &&& forall|i: int, j: int|
        #![trigger rs[i], rs[j]]
        0 <= i && j == i + 1 && j < rs.len() ==> rs[j].start == rs[i].end
}

/// Where the engine's ranges must begin: just above the fully scanned
/// height, or, when nothing is scanned yet, wherever the first one begins.
pub open spec fn plan_floor(base: Option<u32>, plan: Seq<ScanRange>, tip: u32) -> int {
    match base {
        Some(h) => h + 1,
        None => if plan.len() > 0 {
            plan[0].start as int
        } else {
            tip + 1
        },
    }
}

pub open spec fn untiled_message() -> Seq<char> {
    "scan ranges do not tile the heights to scan"@
}

/// The session's answer to an event.
pub open spec fn transition(s: SyncModel, e: EventModel) -> (SyncModel, ActionModel) {
    match e {
        EventModel::Begin => if s.phase == Phase::Idle {
            (SyncModel { phase: Phase::AwaitWallet, ..s }, ActionModel::ReadWallet)
        } else {
            fail(s, ErrorModel::OutOfOrder)
        },
        EventModel::Wallet(registered, fully_scanned) => if s.phase == Phase::AwaitWallet {
            if registered {
                (
                    SyncModel {
                        phase: Phase::AwaitTip,
                        base: fully_scanned,
                        reached: start_of(fully_scanned),
                        ..s
                    },
                    ActionModel::FetchChainTip,
                )
            } else {
                fail(s, ErrorModel::NotInitialized)
            }
        } else {
            fail(s, ErrorModel::OutOfOrder)
        },
        EventModel::ChainTip(t) => if s.phase == Phase::AwaitTip {
            (SyncModel { phase: Phase::AwaitRanges, tip: t, ..s }, ActionModel::UpdateTip(t))
        } else {
            fail(s, ErrorModel::OutOfOrder)
        },
        EventModel::Ranges(rs) => if s.phase == Phase::AwaitRanges {
            if abuts(rs, plan_floor(s.base, rs, s.tip), s.tip + 1) {
                enter(SyncModel { plan: rs, next: 0, processed: Seq::empty(), ..s }, 0)
            } else {
                fail(s, ErrorModel::Engine(None, untiled_message()))
            }
        } else {
            fail(s, ErrorModel::OutOfOrder)
        },
        EventModel::Blocks(b) => if s.phase == Phase::AwaitBlocks {
            let s2 = SyncModel { items: s.items + b, next_window: s.next_window + 1, ..s };
            if s2.next_window < s2.windows.len() {
                (
                    s2,
                    ActionModel::FetchBlocks(
                        s2.windows[s2.next_window].0,
                        s2.windows[s2.next_window].1,
                    ),
                )
            } else {
                after_download(s2)
            }
        } else {
            fail(s, ErrorModel::OutOfOrder)
        },
        EventModel::TreeState => if s.phase == Phase::AwaitTreeState {
            (
                SyncModel { phase: Phase::AwaitScan, items: Seq::empty(), ..s },
                ActionModel::Scan(at_hand(s), s.items),
            )
        } else {
            fail(s, ErrorModel::OutOfOrder)
        },
        EventModel::Scanned => if s.phase == Phase::AwaitScan {
            let r = at_hand(s);
            enter(
                SyncModel { processed: s.processed.push(r), reached: bump(s.reached, r), ..s },
                s.next + 1,
            )
        } else {
            fail(s, ErrorModel::OutOfOrder)
        },
        EventModel::BackfillDone => if s.phase == Phase::AwaitBackfill {
            (SyncModel { phase: Phase::Finished, ..s }, ActionModel::Done(s.reached))
        } else {
            fail(s, ErrorModel::OutOfOrder)
        },
        EventModel::Failed(m) => if s.phase == Phase::AwaitTip || s.phase == Phase::AwaitBlocks
            || s.phase == Phase::AwaitTreeState {
            fail(s, ErrorModel::Transport(m))
        } else if s.phase == Phase::AwaitWallet || s.phase == Phase::AwaitRanges || s.phase
            == Phase::AwaitBackfill {
            fail(s, ErrorModel::Engine(None, m))
        } else if s.phase == Phase::AwaitScan {
            fail(s, ErrorModel::Engine(Some(at_hand(s)), m))
        } else {
            fail(s, ErrorModel::OutOfOrder)
        },
    }
}

/// The indices a session relies on are in bounds.
pub open spec fn in_bounds(s: SyncModel) -> bool {
    &&& 0 <= s.next <= s.plan.len()
    &&& (s.phase == Phase::AwaitBlocks || s.phase == Phase::AwaitTreeState || s.phase
        == Phase::AwaitScan) ==> s.next < s.plan.len()
    &&& s.phase == Phase::AwaitBlocks ==> 0 <= s.next_window < s.windows.len()
}

proof fn lemma_first_live_bounds(plan: Seq<ScanRange>, i: int)
    requires
        0 <= i <= plan.len(),
    ensures
        i <= first_live(plan, i) <= plan.len(),
    decreases plan.len() - i,
{
    if i < plan.len() && !is_live(plan[i]) {
        lemma_first_live_bounds(plan, i + 1);
    }
}

proof fn lemma_enter_in_bounds(s: SyncModel, i: int)
    requires
        0 <= i <= s.plan.len(),
    ensures
        in_bounds(enter(s, i).0),
{
    lemma_first_live_bounds(s.plan, i);
}

/// Every state a session passes through keeps its indices in bounds.
proof fn lemma_transition_in_bounds(s: SyncModel, e: EventModel)
    requires
        in_bounds(s),
    ensures
        in_bounds(transition(s, e).0),
{
    match e {
        EventModel::Ranges(rs) => {
            if s.phase == Phase::AwaitRanges {
                lemma_enter_in_bounds(SyncModel { plan: rs, next: 0, processed: Seq::empty(), ..s }, 0);
            }
        },
        EventModel::Scanned => {
            if s.phase == Phase::AwaitScan {
                let r = at_hand(s);
                lemma_enter_in_bounds(
                    SyncModel { processed: s.processed.push(r), reached: bump(s.reached, r), ..s },
                    s.next + 1,
                );
            }
        },
        _ => {},
    }
}

/// The height reached after scanning `rs` in order, from `base`.
pub open spec fn reach(base: u32, rs: Seq<ScanRange>) -> u32
    decreases rs.len(),
{
    if rs.len() == 0 {
        base
    } else {
        bump(reach(base, rs.drop_last()), rs.last())
    }
}

/// The ranges scanned when `rs` is taken up in order: those not ignored.
pub open spec fn scanned(rs: Seq<ScanRange>) -> Seq<ScanRange>
    decreases rs.len(),
{
    if rs.len() == 0 {
        Seq::empty()
    } else if is_live(rs.last()) {
        scanned(rs.drop_last()).push(rs.last())
    } else {
        scanned(rs.drop_last())
    }
}

/// What a session has scanned so far: the ranges of the plan before the one
/// at hand that are to be scanned, in plan order, and the height they reach.
pub open spec fn progress_ok(s: SyncModel) -> bool {
    &&& in_bounds(s)
    &&& s.processed == scanned(s.plan.take(s.next))
    &&& s.reached == reach(start_of(s.base), s.processed)
    &&& (s.phase == Phase::Idle || s.phase == Phase::AwaitWallet || s.phase == Phase::AwaitTip
        || s.phase == Phase::AwaitRanges) ==> s.next == 0
    &&& (s.phase == Phase::AwaitBlocks || s.phase == Phase::AwaitTreeState || s.phase
        == Phase::AwaitScan) ==> is_live(s.plan[s.next])
    &&& (s.phase == Phase::AwaitBackfill || s.phase == Phase::Finished) ==> s.next
        == s.plan.len()
    &&& (s.phase == Phase::AwaitBlocks || s.phase == Phase::AwaitTreeState || s.phase
        == Phase::AwaitScan || s.phase == Phase::AwaitBackfill || s.phase == Phase::Finished
        || s.processed.len() > 0) ==> abuts(s.plan, plan_floor(s.base, s.plan, s.tip), s.tip + 1)
}

proof fn lemma_first_live_skips(plan: Seq<ScanRange>, i: int)
    requires
        0 <= i <= plan.len(),
    ensures
        scanned(plan.take(first_live(plan, i))) == scanned(plan.take(i)),
        first_live(plan, i) < plan.len() ==> is_live(plan[first_live(plan, i)]),
    decreases plan.len() - i,
{
    if i < plan.len() && !is_live(plan[i]) {
        lemma_first_live_skips(plan, i + 1);
        assert(plan.take(i + 1).drop_last() =~= plan.take(i));
        assert(plan.take(i + 1).last() == plan[i]);
    }
}

proof fn lemma_enter_progress(s: SyncModel, i: int)
    requires
        0 <= i <= s.plan.len(),
        s.processed == scanned(s.plan.take(i)),
        s.reached == reach(start_of(s.base), s.processed),
        abuts(s.plan, plan_floor(s.base, s.plan, s.tip), s.tip + 1),
    ensures
        progress_ok(enter(s, i).0),
{
    lemma_first_live_bounds(s.plan, i);
    lemma_first_live_skips(s.plan, i);
}

/// The progress a session records stays true at every step.
pub proof fn lemma_transition_progress(s: SyncModel, e: EventModel)
    requires
        progress_ok(s),
    ensures
        progress_ok(transition(s, e).0),
{
    lemma_transition_in_bounds(s, e);
    match e {
        EventModel::Wallet(..) => {
            assert(s.plan.take(0) =~= Seq::<ScanRange>::empty());
        },
        EventModel::Ranges(rs) => {
            if s.phase == Phase::AwaitRanges && abuts(rs, plan_floor(s.base, rs, s.tip), s.tip + 1) {
                let s2 = SyncModel { plan: rs, next: 0, processed: Seq::empty(), ..s };
                assert(rs.take(0) =~= Seq::<ScanRange>::empty());
                assert(s.plan.take(0) =~= Seq::<ScanRange>::empty());
                lemma_enter_progress(s2, 0);
            }
        },
        EventModel::Scanned => {
            if s.phase == Phase::AwaitScan {
                let r = at_hand(s);
                let s2 = SyncModel { processed: s.processed.push(r), reached: bump(s.reached, r), ..s };
                assert(s.plan.take(s.next + 1).drop_last() =~= s.plan.take(s.next));
                assert(s.plan.take(s.next + 1).last() == s.plan[s.next]);
                assert(s.processed.push(r).drop_last() =~= s.processed);
                lemma_enter_progress(s2, s.next + 1);
            }
        },
        _ => {},
    }
}

/// A session starts with nothing scanned.
pub proof fn lemma_initial_progress()
    ensures
        progress_ok(SyncSession::initial()),
{
    assert(Seq::<ScanRange>::empty().take(0) =~= Seq::<ScanRange>::empty());
}

/// `rs`, in order, covers the heights `[lo, hi)` without gap or overlap.
pub open spec fn tiles(rs: Seq<ScanRange>, lo: int, hi: int) -> bool
    decreases rs.len(),
{
    if rs.len() == 0 {
        lo == hi
    } else {
        &&& rs.last().start < rs.last().end
        &&& rs.last().end == hi
        &&& tiles(rs.drop_last(), lo, rs.last().start as int)
    }
}

proof fn lemma_tiles_order(rs: Seq<ScanRange>, lo: int, hi: int)
    requires
        tiles(rs, lo, hi),
    ensures
        lo <= hi,
    decreases rs.len(),
{
    if rs.len() > 0 {
        lemma_tiles_order(rs.drop_last(), lo, rs.last().start as int);
    }
}

proof fn lemma_reach_tiles(b: u32, rs: Seq<ScanRange>, lo: int, hi: int)
    requires
        tiles(rs, lo, hi),
        rs.len() > 0 || lo <= b + 1,
    ensures
        reach(b, rs) == if b >= hi - 1 {
            b as int
        } else {
            hi - 1
        },
    decreases rs.len(),
{
    if rs.len() > 0 {
        let r = rs.last();
        lemma_tiles_order(rs.drop_last(), lo, r.start as int);
        if rs.drop_last().len() > 0 || lo <= b + 1 {
            lemma_reach_tiles(b, rs.drop_last(), lo, r.start as int);
        } else {
            assert(reach(b, rs.drop_last()) == b);
        }
    }
}

proof fn lemma_abuts_tiles(rs: Seq<ScanRange>, lo: int, hi: int)
    requires
        abuts(rs, lo, hi),
    ensures
        tiles(rs, lo, hi),
    decreases rs.len(),
{
    if rs.len() > 0 {
        let d = rs.drop_last();
        let r = rs.last();
        assert(rs[rs.len() - 1] == r);
        if d.len() > 0 {
            assert(d[0] == rs[0]);
            assert(d.last() == rs[rs.len() - 2]);
            assert(rs[rs.len() - 1].start == rs[rs.len() - 2].end);
            assert forall|i: int| 0 <= i < d.len() implies (#[trigger] d[i]).start < d[i].end by {
                assert(d[i] == rs[i]);
            }
            assert forall|i: int, j: int| 0 <= i && j == i + 1 && j < d.len() implies #[trigger] d[j].start
                == #[trigger] d[i].end by {
                assert(d[i] == rs[i]);
                assert(d[j] == rs[j]);
            }
        }
        lemma_abuts_tiles(d, lo, r.start as int);
    }
}

proof fn lemma_tiles_bounds(rs: Seq<ScanRange>, lo: int, hi: int)
    requires
        tiles(rs, lo, hi),
    ensures
        forall|i: int|
            0 <= i < rs.len() ==> lo <= (#[trigger] rs[i]).start && rs[i].start < rs[i].end
                && rs[i].end <= hi,
    decreases rs.len(),
{
    if rs.len() > 0 {
        let r = rs.last();
        lemma_tiles_bounds(rs.drop_last(), lo, r.start as int);
        lemma_tiles_order(rs.drop_last(), lo, r.start as int);
        assert forall|i: int| 0 <= i < rs.len() implies lo <= (#[trigger] rs[i]).start
            && rs[i].start < rs[i].end && rs[i].end <= hi by {
            if i < rs.len() - 1 {
                assert(rs[i] == rs.drop_last()[i]);
            }
        }
    }
}

proof fn lemma_scanned_all(rs: Seq<ScanRange>)
    requires
        forall|i: int|
            0 <= i < rs.len() ==> (#[trigger] rs[i]).priority != Priority::Ignored,
    ensures
        scanned(rs) == rs,
    decreases rs.len(),
{
    if rs.len() > 0 {
        assert forall|i: int| 0 <= i < rs.drop_last().len() implies (#[trigger] rs.drop_last()[i]).priority
            != Priority::Ignored by {
            assert(rs.drop_last()[i] == rs[i]);
        }
        lemma_scanned_all(rs.drop_last());
        assert(rs[rs.len() - 1] == rs.last());
        assert(rs.drop_last().push(rs.last()) =~= rs);
    }
}

/// A session never asks again for heights already scanned: every range it
/// has scanned starts above the fully scanned height it began from, if any.
pub proof fn lemma_no_rescan(s: SyncModel)
    requires
        progress_ok(s),
    ensures
        forall|i: int| 0 <= i < s.processed.len() ==> (#[trigger] s.processed[i]).start >= floor(s.base),
{
    if s.processed.len() > 0 {
        let lo = plan_floor(s.base, s.plan, s.tip);
        lemma_abuts_tiles(s.plan, lo, s.tip + 1);
        lemma_tiles_bounds(s.plan, lo, s.tip + 1);
        let t = s.plan.take(s.next);
        assert forall|i: int| 0 <= i < t.len() implies (#[trigger] t[i]).start >= floor(s.base) by {
            assert(t[i] == s.plan[i]);
        }
        lemma_scanned_above(t, floor(s.base));
    }
}

proof fn lemma_scanned_above(rs: Seq<ScanRange>, x: int)
    requires
        forall|i: int| 0 <= i < rs.len() ==> (#[trigger] rs[i]).start >= x,
    ensures
        forall|i: int| 0 <= i < scanned(rs).len() ==> (#[trigger] scanned(rs)[i]).start >= x,
    decreases rs.len(),
{
    if rs.len() > 0 {
        assert forall|i: int| 0 <= i < rs.drop_last().len() implies (#[trigger] rs.drop_last()[i]).start >= x by {
            assert(rs.drop_last()[i] == rs[i]);
        }
        lemma_scanned_above(rs.drop_last(), x);
        let prev = scanned(rs.drop_last());
        assert(rs[rs.len() - 1] == rs.last());
        if is_live(rs.last()) {
            assert forall|i: int| 0 <= i < scanned(rs).len() implies (#[trigger] scanned(rs)[i]).start >= x by {
                if i < prev.len() {
                    assert(scanned(rs)[i] == prev[i]);
                }
            }
        }
    }
}

/// The ranges a finished session scanned tile the heights it had to scan:
/// when none of the engine's ranges is ignored, the session scanned exactly
/// those ranges in order, the first begins just above the fully scanned
/// height (where the first range begins, when nothing was scanned), each
/// next one where the one before ends, the last ends just above the tip,
/// and the session reports the tip as the height reached.
pub proof fn lemma_finished_tiles(s: SyncModel)
    requires
        progress_ok(s),
        s.phase == Phase::Finished,
        forall|i: int| 0 <= i < s.plan.len() ==> (#[trigger] s.plan[i]).priority != Priority::Ignored,
        s.plan.len() > 0 || s.base is Some,
    ensures
        s.processed == s.plan,
        abuts(s.processed, plan_floor(s.base, s.plan, s.tip), s.tip + 1),
        s.base is Some && s.processed.len() > 0 ==> s.processed[0].start == s.base->Some_0 + 1,
        s.reached == s.tip,
{
    let lo = plan_floor(s.base, s.plan, s.tip);
    assert(abuts(s.plan, lo, s.tip + 1));
    assert(s.next == s.plan.len());
    assert(s.plan.take(s.next) =~= s.plan);
    assert(s.processed == scanned(s.plan));
    lemma_abuts_tiles(s.plan, lo, s.tip + 1);
    lemma_tiles_bounds(s.plan, lo, s.tip + 1);
    lemma_tiles_order(s.plan, lo, s.tip + 1);
    lemma_scanned_all(s.plan);
    lemma_reach_tiles(start_of(s.base), s.plan, lo, s.tip + 1);
}

/// The session's state and actions after a sequence of events.
pub open spec fn run(s: SyncModel, events: Seq<EventModel>) -> (SyncModel, Seq<ActionModel>)
    decreases events.len(),
{
    if events.len() == 0 {
        (s, Seq::empty())
    } else {
        let (s1, a) = transition(s, events[0]);
        let (s2, rest) = run(s1, events.drop_first());
        (s2, seq![a] + rest)
    }
}

/// A sync with no new chain activity scans nothing and reports the height
/// the wallet is already at: on a wallet fully scanned to `h`, with the tip
/// at `h` and no range left to scan, a session asks for no blocks and no
/// scan, only for the backfill, and ends with `Done(h)`.
pub proof fn lemma_idle_sync(h: u32)
    ensures
        ({
            let events = seq![
                EventModel::Begin,
                EventModel::Wallet(true, Some(h)),
                EventModel::ChainTip(h),
                EventModel::Ranges(Seq::empty()),
                EventModel::BackfillDone,
            ];
            let (end, actions) = run(SyncSession::initial(), events);
            &&& actions == seq![
                ActionModel::ReadWallet,
                ActionModel::FetchChainTip,
                ActionModel::UpdateTip(h),
                ActionModel::Backfill,
                ActionModel::Done(h),
            ]
            &&& end.processed.len() == 0
            &&& end.phase == Phase::Finished
        }),
{
    let events = seq![
        EventModel::Begin,
        EventModel::Wallet(true, Some(h)),
        EventModel::ChainTip(h),
        EventModel::Ranges(Seq::empty()),
        EventModel::BackfillDone,
    ];
    let s0 = SyncSession::initial();
    let (s1, a1) = transition(s0, events[0]);
    let (s2, a2) = transition(s1, events[1]);
    let (s3, a3) = transition(s2, events[2]);
    let (s4, a4) = transition(s3, events[3]);
    let (s5, a5) = transition(s4, events[4]);
    assert(first_live(Seq::<ScanRange>::empty(), 0) == 0);
    let e4 = events.drop_first().drop_first().drop_first().drop_first();
    assert(e4.drop_first() =~= Seq::<EventModel>::empty());
    assert(e4[0] == events[4]);
    assert(run(s5, e4.drop_first()) == (s5, Seq::<ActionModel>::empty()));
    assert(run(s4, e4) == (s5, seq![a5]));
    let e3 = events.drop_first().drop_first().drop_first();
    assert(e3.drop_first() == e4);
    assert(e3[0] == events[3]);
    assert(run(s3, e3) == (s5, seq![a4] + seq![a5]));
    let e2 = events.drop_first().drop_first();
    assert(e2.drop_first() == e3);
    assert(e2[0] == events[2]);
    assert(run(s2, e2) == (s5, seq![a3] + (seq![a4] + seq![a5])));
    let e1 = events.drop_first();
    assert(e1.drop_first() == e2);
    assert(e1[0] == events[1]);
    assert(run(s1, e1) == (s5, seq![a2] + (seq![a3] + (seq![a4] + seq![a5]))));
    assert(run(s0, events) == (s5, seq![a1] + (seq![a2] + (seq![a3] + (seq![a4] + seq![a5])))));
    assert(seq![a1] + (seq![a2] + (seq![a3] + (seq![a4] + seq![a5]))) =~= seq![
        ActionModel::ReadWallet,
        ActionModel::FetchChainTip,
        ActionModel::UpdateTip(h),
        ActionModel::Backfill,
        ActionModel::Done(h),
    ]);
}

/// Whether the engine's ranges tile the heights to scan, up to the tip.
fn plan_tiles(plan: &Vec<ScanRange>, base: Option<u32>, tip: u32) -> (r: bool)
    ensures
        r == abuts(plan@, plan_floor(base, plan@, tip), tip + 1),
{
    let hi: u64 = tip as u64 + 1;
    let lo: u64 = match base {
        Some(h) => h as u64 + 1,
        None => if plan.len() > 0 {
            plan[0].start as u64
        } else {
            hi
        },
    };
    if plan.len() == 0 {
        return lo == hi;
    }
    if plan[0].start as u64 != lo {
        return false;
    }
    let mut i: usize = 0;
    while i < plan.len()
        invariant
            i <= plan@.len(),
            forall|k: int| 0 <= k < i ==> (#[trigger] plan@[k]).start < plan@[k].end,
            forall|k: int, l: int|
                #![trigger plan@[k], plan@[l]]
                0 <= k && l == k + 1 && l < i ==> plan@[l].start == plan@[k].end,
        decreases plan@.len() - i,
    {
        if plan[i].start >= plan[i].end {
            return false;
        }
        if i > 0 && plan[i].start != plan[i - 1].end {
            assert(plan@[i as int].start != plan@[i - 1].end);
            return false;
        }
        i = i + 1;
    }
    plan[plan.len() - 1].end as u64 == hi
}

/// A wallet synchronisation in progress.
pub struct SyncSession {
    phase: Phase,
    base: Option<u32>,
    tip: u32,
    plan: Vec<ScanRange>,
    next: usize,
    windows: Vec<(u32, u32)>,
    next_window: usize,
    items: Vec<StreamItem>,
    processed: Vec<ScanRange>,
    reached: u32,
}

impl View for SyncSession {
    type V = SyncModel;

    closed spec fn view(&self) -> SyncModel {
        SyncModel {
            phase: self.phase,
            base: self.base,
            tip: self.tip,
            plan: self.plan@,
            next: self.next as int,
            windows: self.windows@,
            next_window: self.next_window as int,
            items: self.items@,
            processed: self.processed@,
            reached: self.reached,
        }
    }
}

impl SyncSession {
    /// The session's state before it began.
    pub open spec fn initial() -> SyncModel {
        SyncModel {
            phase: Phase::Idle,
            base: None,
            tip: 0,
            plan: Seq::empty(),
            next: 0,
            windows: Seq::empty(),
            next_window: 0,
            items: Seq::empty(),
            processed: Seq::empty(),
            reached: 0,
        }
    }

    pub fn new() -> (r: SyncSession)
        ensures
            r@ == Self::initial(),
            r.inv(),
    {
        proof {
            lemma_initial_progress();
        }
        SyncSession {
            phase: Phase::Idle,
            base: None,
            tip: 0,
            plan: Vec::new(),
            next: 0,
            windows: Vec::new(),
            next_window: 0,
            items: Vec::new(),
            processed: Vec::new(),
            reached: 0,
        }
    }

    pub closed spec fn inv(&self) -> bool {
        progress_ok(self@)
    }

    fn range_live(&self, j: usize) -> (r: bool)
        requires
            j < self.plan@.len(),
        ensures
            r == is_live(self.plan@[j as int]),
    {
        self.plan[j].priority != Priority::Ignored
    }

    fn at_hand(&self) -> (r: ScanRange)
        requires
            0 <= self@.next < self@.plan.len(),
            is_live(self@.plan[self@.next]),
        ensures
            r == at_hand(self@),
    {
        self.plan[self.next]
    }

    fn fail(&mut self, e: SyncError) -> (r: SyncAction)
        ensures
            final(self)@ == (SyncModel { phase: Phase::Failed, ..old(self)@ }),
            r == (SyncAction::Fail(e)),
    {
        self.phase = Phase::Failed;
        SyncAction::Fail(e)
    }

    fn scan_action(&mut self) -> (r: SyncAction)
        requires
            old(self)@.next < old(self)@.plan.len(),
            0 <= old(self)@.next,
            is_live(old(self)@.plan[old(self)@.next]),
        ensures
            final(self)@ == (SyncModel { phase: Phase::AwaitScan, items: Seq::empty(), ..old(self)@ }),
            action_agrees(r, ActionModel::Scan(at_hand(old(self)@), old(self)@.items)),
    {
        let range = self.at_hand();
        let mut taken: Vec<StreamItem> = Vec::new();
        std::mem::swap(&mut self.items, &mut taken);
        self.phase = Phase::AwaitScan;
        SyncAction::Scan { range, batch: assemble_blocks(taken) }
    }

    fn after_download(&mut self) -> (r: SyncAction)
        requires
            old(self)@.next < old(self)@.plan.len(),
            0 <= old(self)@.next,
            is_live(old(self)@.plan[old(self)@.next]),
        ensures
            final(self)@ == after_download(old(self)@).0,
            action_agrees(r, after_download(old(self)@).1),
    {
        let r = self.at_hand();
        if r.start > 0 {
            self.phase = Phase::AwaitTreeState;
            SyncAction::FetchTreeState(r.start - 1)
        } else {
            self.scan_action()
        }
    }

    fn enter(&mut self, i: usize) -> (r: SyncAction)
        requires
            i <= old(self)@.plan.len(),
        ensures
            final(self)@ == enter(old(self)@, i as int).0,
            action_agrees(r, enter(old(self)@, i as int).1),
    {
        let mut j = i;
        while j < self.plan.len() && !self.range_live(j)
            invariant
                i <= j <= self.plan@.len(),
                first_live(self.plan@, i as int) == first_live(self.plan@, j as int),
            decreases self.plan@.len() - j,
        {
            j = j + 1;
        }
        self.next = j;
        if j >= self.plan.len() {
            self.phase = Phase::AwaitBackfill;
            return SyncAction::Backfill;
        }
        let r = self.at_hand();
        self.windows = batch_windows(r.start, r.end, BATCH_SIZE);
        self.next_window = 0;
        self.items = Vec::new();
        if self.windows.len() > 0 {
            self.phase = Phase::AwaitBlocks;
            let w = self.windows[0];
            SyncAction::FetchBlocks { start: w.0, end: w.1 }
        } else {
            self.after_download()
        }
    }

    /// Takes what the last action produced and returns the next action.
    pub fn step(&mut self, event: SyncEvent) -> (r: SyncAction)
        requires
            old(self).inv(),
        ensures
            final(self).inv(),
            final(self)@ == transition(old(self)@, event@).0,
            action_agrees(r, transition(old(self)@, event@).1),
    {
        let ghost s = self@;
        let r = match event {
            SyncEvent::Begin => {
                if self.phase == Phase::Idle {
                    self.phase = Phase::AwaitWallet;
                    SyncAction::ReadWallet
                } else {
                    self.fail(SyncError::OutOfOrder)
                }
            },
            SyncEvent::Wallet { registered, fully_scanned } => {
                if self.phase == Phase::AwaitWallet {
                    if registered {
                        self.phase = Phase::AwaitTip;
                        self.base = fully_scanned;
                        self.reached = match fully_scanned {
                            Some(h) => h,
                            None => 0,
                        };
                        SyncAction::FetchChainTip
                    } else {
                        self.fail(SyncError::NotInitialized)
                    }
                } else {
                    self.fail(SyncError::OutOfOrder)
                }
            },
            SyncEvent::ChainTip(t) => {
                if self.phase == Phase::AwaitTip {
                    self.phase = Phase::AwaitRanges;
                    self.tip = t;
                    SyncAction::UpdateTip(t)
                } else {
                    self.fail(SyncError::OutOfOrder)
                }
            },
            SyncEvent::Ranges(rs) => {
                if self.phase == Phase::AwaitRanges {
                    if plan_tiles(&rs, self.base, self.tip) {
                        self.plan = rs;
                        self.next = 0;
                        self.processed = Vec::new();
                        self.enter(0)
                    } else {
                        let message = "scan ranges do not tile the heights to scan".to_owned();
                        self.fail(SyncError::Engine { range: None, message })
                    }
                } else {
                    self.fail(SyncError::OutOfOrder)
                }
            },
            SyncEvent::Blocks(b) => {
                if self.phase == Phase::AwaitBlocks {
                    let mut b = b;
                    let window_count = self.windows.len();
                    self.items.append(&mut b);
                    assert(self.next_window < window_count);
                    self.next_window = self.next_window + 1;
                    if self.next_window < self.windows.len() {
                        let w = self.windows[self.next_window];
                        SyncAction::FetchBlocks { start: w.0, end: w.1 }
                    } else {
                        self.after_download()
                    }
                } else {
                    self.fail(SyncError::OutOfOrder)
                }
            },
            SyncEvent::TreeState => {
                if self.phase == Phase::AwaitTreeState {
                    self.scan_action()
                } else {
                    self.fail(SyncError::OutOfOrder)
                }
            },
            SyncEvent::Scanned => {
                if self.phase == Phase::AwaitScan {
                    let r = self.at_hand();
                    let plan_len = self.plan.len();
                    assert(self.next < plan_len);
                    self.processed.push(r);
                    if r.end > 0 && r.end - 1 > self.reached {
                        self.reached = r.end - 1;
                    }
                    let n = self.next + 1;
                    self.enter(n)
                } else {
                    self.fail(SyncError::OutOfOrder)
                }
            },
            SyncEvent::BackfillDone => {
                if self.phase == Phase::AwaitBackfill {
                    self.phase = Phase::Finished;
                    SyncAction::Done(self.reached)
                } else {
                    self.fail(SyncError::OutOfOrder)
                }
            },
            SyncEvent::Failed(message) => {
                if self.phase == Phase::AwaitTip || self.phase == Phase::AwaitBlocks || self.phase
                    == Phase::AwaitTreeState {
                    self.fail(SyncError::Transport { message })
                } else if self.phase == Phase::AwaitWallet || self.phase == Phase::AwaitRanges
                    || self.phase == Phase::AwaitBackfill {
                    self.fail(SyncError::Engine { range: None, message })
                } else if self.phase == Phase::AwaitScan {
                    let range = self.at_hand();
                    self.fail(SyncError::Engine { range: Some(range), message })
                } else {
                    self.fail(SyncError::OutOfOrder)
                }
            },
        };
        assert(self@ == transition(s, event@).0);
        proof {
            lemma_transition_progress(s, event@);
        }
        r
    }
}

} // verus!
