//! Recovery of the memos that the streaming scan left unknown.
//!
//! A received note whose memo is unset is pending. For each pending note the
//! driver fetches the full transaction by its display id, parses it and
//! trial-decrypts its outputs; the library decides which memo, if any, each
//! note gets, and writes it only into a note that is still pending.

use vstd::prelude::*;
use crate::hexfmt::reversed;
use crate::memo::copy_range;

verus! {

/// A received note as the wallet store holds it.
#[derive(Debug, Clone, PartialEq, Eq)]
pub struct StoredNote {
    pub note_id: u64,
    /// Transaction id, internal byte order.
    pub txid: Vec<u8>,
    pub height: u32,
    /// Index of the note's output in its transaction.
    pub output_index: u32,
    /// `None` while the memo is unknown.
    pub memo: Option<Vec<u8>>,
}

/// A note whose memo is to be recovered.
#[derive(Debug, Clone, PartialEq, Eq)]
pub struct PendingMemoNote {
    pub note_id: u64,
    /// Transaction id in the chain's display byte order, as fetched by.
    pub fetch_txid: Vec<u8>,
    pub block_height: u32,
    pub output_index: u32,
}

/// An output of a fetched transaction that decrypted with the wallet's key.
#[derive(Debug, Clone, PartialEq, Eq)]
pub struct DecryptedOutput {
    pub index: u32,
    pub memo: Vec<u8>,
}

/// What became of fetching, parsing and decrypting one note's transaction.
#[derive(Debug, Clone, PartialEq, Eq)]
pub enum FetchOutcome {
    /// The chain data service could not provide the transaction.
    Unavailable,
    /// The bytes did not parse as a transaction of the note's height.
    Unparseable,
    /// The outputs that decrypted.
    Decrypted(Vec<DecryptedOutput>),
}

/// A memo to store against a note.
#[derive(Debug, Clone, PartialEq, Eq)]
pub struct MemoWrite {
    pub note_id: u64,
    pub memo: Vec<u8>,
}

pub struct NoteModel {
    pub note_id: u64,
    pub txid: Seq<u8>,
    pub height: u32,
    pub output_index: u32,
    pub memo: Option<Seq<u8>>,
}

pub struct PendingModel {
    pub note_id: u64,
    pub fetch_txid: Seq<u8>,
    pub block_height: u32,
    pub output_index: u32,
}

pub open spec fn opt_bytes(o: Option<Vec<u8>>) -> Option<Seq<u8>> {
    match o {
        Some(v) => Some(v@),
        None => None,
    }
}

impl View for StoredNote {
    type V = NoteModel;

    open spec fn view(&self) -> NoteModel {
        NoteModel {
            note_id: self.note_id,
            txid: self.txid@,
            height: self.height,
            output_index: self.output_index,
            memo: opt_bytes(self.memo),
        }
    }
}

impl View for PendingMemoNote {
    type V = PendingModel;

    open spec fn view(&self) -> PendingModel {
        PendingModel {
            note_id: self.note_id,
            fetch_txid: self.fetch_txid@,
            block_height: self.block_height,
            output_index: self.output_index,
        }
    }
}

pub open spec fn note_views(s: Seq<StoredNote>) -> Seq<NoteModel> {
    s.map_values(|n: StoredNote| n@)
}

pub open spec fn pending_views(s: Seq<PendingMemoNote>) -> Seq<PendingModel> {
    s.map_values(|n: PendingMemoNote| n@)
}

pub open spec fn write_views(s: Seq<MemoWrite>) -> Seq<(u64, Seq<u8>)> {
    s.map_values(|w: MemoWrite| (w.note_id, w.memo@))
}

/// A note is pending while its memo is unset; it is then fetched by its
/// transaction id in display order.
pub open spec fn pending_of(n: NoteModel) -> Option<PendingModel> {
    if n.memo is None {
        Some(
            PendingModel {
                note_id: n.note_id,
                fetch_txid: n.txid.reverse(),
                block_height: n.height,
                output_index: n.output_index,
            },
        )
    } else {
        None
    }
}

pub open spec fn pending_fn() -> spec_fn(NoteModel) -> Option<PendingModel> {
    |n: NoteModel| pending_of(n)
}

/// The memo of the first output at `index`.
pub open spec fn output_memo(outs: Seq<DecryptedOutput>, index: u32) -> Option<Seq<u8>>
    decreases outs.len(),
{
    if outs.len() == 0 {
        None
    } else if outs[0].index == index {
        Some(outs[0].memo@)
    } else {
        output_memo(outs.drop_first(), index)
    }
}

/// The memo recovered for a pending note from what its fetch came to.
pub open spec fn recovered(p: PendingModel, o: FetchOutcome) -> Option<Seq<u8>> {
    match o {
        FetchOutcome::Decrypted(outs) => output_memo(outs@, p.output_index),
        _ => None,
    }
}

/// The writes for pending notes and their outcomes, paired in order: one for
/// each note whose memo was recovered.
pub open spec fn writes_for(ps: Seq<PendingModel>, os: Seq<FetchOutcome>) -> Seq<(u64, Seq<u8>)>
    decreases ps.len(),
{
    if ps.len() == 0 || os.len() < ps.len() {
        Seq::empty()
    } else {
        let k = ps.len() - 1;
        let before = writes_for(ps.drop_last(), os.take(k));
        match recovered(ps[k], os[k]) {
            Some(m) => before.push((ps[k].note_id, m)),
            None => before,
        }
    }
}

/// The memo of the first write to `id`.
pub open spec fn first_write(ws: Seq<(u64, Seq<u8>)>, id: u64) -> Option<Seq<u8>>
    decreases ws.len(),
{
    if ws.len() == 0 {
        None
    } else if ws[0].0 == id {
        Some(ws[0].1)
    } else {
        first_write(ws.drop_first(), id)
    }
}

/// A note after the writes: a pending note takes the memo of the first write
/// to it; a note whose memo is set keeps it.
pub open spec fn after_writes(n: NoteModel, ws: Seq<(u64, Seq<u8>)>) -> NoteModel {
    if n.memo is None && first_write(ws, n.note_id) is Some {
        NoteModel { memo: first_write(ws, n.note_id), ..n }
    } else {
        n
    }
}

/// The pending notes of the store, in store order.
pub fn pending_memo_notes(notes: &Vec<StoredNote>) -> (r: Vec<PendingMemoNote>)
    ensures
        pending_views(r@) == note_views(notes@).filter_map(pending_fn()),
{
    let ghost all = note_views(notes@);
    let mut r: Vec<PendingMemoNote> = Vec::new();
    let mut i: usize = 0;
    proof {
        assert(pending_views(r@) =~= all.take(0).filter_map(pending_fn()));
    }
    while i < notes.len()
        invariant
            i <= notes@.len(),
            all == note_views(notes@),
            pending_views(r@) == all.take(i as int).filter_map(pending_fn()),
        decreases notes@.len() - i,
    {
        let n = &notes[i];
        let ghost prev = pending_views(r@);
        proof {
            all.lemma_filter_map_take_succ(pending_fn(), i as int);
            assert(all[i as int] == n@);
        }
        if n.memo.is_none() {
            r.push(
                PendingMemoNote {
                    note_id: n.note_id,
                    fetch_txid: reversed(&n.txid),
                    block_height: n.height,
                    output_index: n.output_index,
                },
            );
            assert(pending_views(r@) =~= prev.push(pending_of(n@)->Some_0));
        } else {
            assert(pending_views(r@) =~= prev);
        }
        i = i + 1;
    }
    proof {
        assert(all.take(i as int) =~= all);
    }
    r
}

/// The memo that a pending note recovers from its fetch outcome: that of the
/// first decrypted output at the note's output index.
pub fn recover_memo(p: &PendingMemoNote, o: &FetchOutcome) -> (r: Option<Vec<u8>>)
    ensures
        opt_bytes(r) == recovered(p@, *o),
{
    match o {
        FetchOutcome::Decrypted(outs) => {
            let mut i: usize = 0;
            assert(outs@.skip(0) =~= outs@);
            while i < outs.len()
                invariant
                    i <= outs@.len(),
                    recovered(p@, *o) == output_memo(outs@, p.output_index),
                    output_memo(outs@, p.output_index) == output_memo(
                        outs@.skip(i as int),
                        p.output_index,
                    ),
                decreases outs@.len() - i,
            {
                proof {
                    assert(outs@.skip(i as int).drop_first() =~= outs@.skip(i + 1));
                    assert(outs@.skip(i as int)[0] == outs@[i as int]);
                }
                if outs[i].index == p.output_index {
                    let m = &outs[i].memo;
                    let c = copy_range(m, 0, m.len());
                    assert(c@ =~= m@);
                    return Some(c);
                }
                i = i + 1;
            }
            None
        },
        _ => None,
    }
}

/// The writes that a backfill run makes: `outcomes[i]` is what fetching the
/// transaction of `pending[i]` came to. A note whose transaction could not be
/// fetched or parsed, or held no output at its index, gets no write and stays
/// pending; that is no error.
pub fn memo_writes(pending: &Vec<PendingMemoNote>, outcomes: &Vec<FetchOutcome>) -> (r: Vec<
    MemoWrite,
>)
    requires
        outcomes@.len() == pending@.len(),
    ensures
        write_views(r@) == writes_for(pending_views(pending@), outcomes@),
{
    let ghost ps = pending_views(pending@);
    let mut r: Vec<MemoWrite> = Vec::new();
    let mut i: usize = 0;
    proof {
        assert(ps.take(0) =~= Seq::<PendingModel>::empty());
        assert(write_views(r@) =~= writes_for(ps.take(0), outcomes@.take(0)));
    }
    while i < pending.len()
        invariant
            i <= pending@.len(),
            outcomes@.len() == pending@.len(),
            ps == pending_views(pending@),
            write_views(r@) == writes_for(ps.take(i as int), outcomes@.take(i as int)),
        decreases pending@.len() - i,
    {
        let ghost prev = write_views(r@);
        proof {
            let pt = ps.take(i + 1);
            assert(pt.drop_last() =~= ps.take(i as int));
            assert(outcomes@.take(i + 1).take(i as int) =~= outcomes@.take(i as int));
            assert(pt[i as int] == pending@[i as int]@);
        }
        match recover_memo(&pending[i], &outcomes[i]) {
            Some(m) => {
                r.push(MemoWrite { note_id: pending[i].note_id, memo: m });
                assert(write_views(r@) =~= prev.push((pending@[i as int].note_id, m@)));
            },
            None => {
                assert(write_views(r@) =~= prev);
            },
        }
        i = i + 1;
    }
    proof {
        assert(ps.take(i as int) =~= ps);
        assert(outcomes@.take(i as int) =~= outcomes@);
    }
    r
}

fn find_write(writes: &Vec<MemoWrite>, id: u64) -> (r: Option<Vec<u8>>)
    ensures
        opt_bytes(r) == first_write(write_views(writes@), id),
{
    let ghost ws = write_views(writes@);
    let mut i: usize = 0;
    assert(ws.skip(0) =~= ws);
    while i < writes.len()
        invariant
            i <= writes@.len(),
            ws == write_views(writes@),
            first_write(ws, id) == first_write(ws.skip(i as int), id),
        decreases writes@.len() - i,
    {
        proof {
            assert(ws.skip(i as int).drop_first() =~= ws.skip(i + 1));
            assert(ws.skip(i as int)[0] == ws[i as int]);
        }
        if writes[i].note_id == id {
            let m = &writes[i].memo;
            let c = copy_range(m, 0, m.len());
            assert(c@ =~= m@);
            return Some(c);
        }
        i = i + 1;
    }
    None
}

/// Stores the writes in an in-memory store: each pending note takes the
/// memo of the first write to it; a memo once set is never replaced, so a
/// second run over the same notes writes nothing new.
pub fn apply_memo_writes(notes: &mut Vec<StoredNote>, writes: &Vec<MemoWrite>)
    ensures
        final(notes)@.len() == old(notes)@.len(),
        forall|i: int|
            0 <= i < old(notes)@.len() ==> (#[trigger] final(notes)@[i])@ == after_writes(
                old(notes)@[i]@,
                write_views(writes@),
            ),
{
    let ghost ws = write_views(writes@);
    let mut i: usize = 0;
    while i < notes.len()
        invariant
            i <= notes@.len(),
            notes@.len() == old(notes)@.len(),
            ws == write_views(writes@),
            forall|k: int| 0 <= k < i ==> (#[trigger] notes@[k])@ == after_writes(old(notes)@[k]@, ws),
            forall|k: int| i <= k < notes@.len() ==> #[trigger] notes@[k] == old(notes)@[k],
        decreases notes@.len() - i,
    {
        if notes[i].memo.is_none() {
            match find_write(writes, notes[i].note_id) {
                Some(m) => {
                    let old_note = notes.remove(i);
                    let filled = StoredNote { memo: Some(m), ..old_note };
                    notes.insert(i, filled);
                },
                None => {},
            }
        }
        i = i + 1;
    }
}

/// A backfill run against a note whose transaction cannot be fetched leaves
/// the note pending, and is no failure: it writes nothing. Once the
/// transaction can be fetched and its first decrypted output is the note's,
/// the next run fills the note's memo with that output's memo.
pub proof fn lemma_backfill_retry(n: StoredNote, outs: Vec<DecryptedOutput>)
    requires
        n.memo is None,
        outs@.len() > 0,
        outs@[0].index == n.output_index,
    ensures
        ({
            let ps = note_views(seq![n]).filter_map(pending_fn());
            let ws_down = writes_for(ps, seq![FetchOutcome::Unavailable]);
            let ws_up = writes_for(ps, seq![FetchOutcome::Decrypted(outs)]);
            &&& ps.len() == 1
            &&& ws_down.len() == 0
            &&& after_writes(n@, ws_down) == n@
            &&& after_writes(n@, ws_down).memo is None
            &&& after_writes(n@, ws_up).memo == Some(outs@[0].memo@)
        }),
{
    let nv = note_views(seq![n]);
    assert(nv.drop_last() =~= Seq::<NoteModel>::empty());
    assert(nv.last() == n@);
    let ps = nv.filter_map(pending_fn());
    let p = pending_of(n@)->Some_0;
    assert(Seq::<NoteModel>::empty().filter_map(pending_fn()) =~= Seq::<PendingModel>::empty());
    assert(pending_fn()(n@) == Some(p));
    assert(ps =~= seq![p]);
    assert(ps.drop_last() =~= Seq::<PendingModel>::empty());
    let down = seq![FetchOutcome::Unavailable];
    let up = seq![FetchOutcome::Decrypted(outs)];
    assert(down.take(0) =~= Seq::<FetchOutcome>::empty());
    assert(up.take(0) =~= Seq::<FetchOutcome>::empty());
    assert(writes_for(Seq::<PendingModel>::empty(), down.take(0)) =~= Seq::<(u64, Seq<u8>)>::empty());
    assert(recovered(p, down[0]) is None);
    assert(writes_for(ps, down) =~= Seq::<(u64, Seq<u8>)>::empty());
    let m = outs@[0].memo@;
    assert(recovered(p, up[0]) == Some(m));
    let ws_up = writes_for(ps, up);
    assert(ws_up =~= seq![(n.note_id, m)]);
    assert(first_write(ws_up, n.note_id) == Some(m));
}

/// Backfill converges: applying the same writes a second time changes no
/// note.
pub proof fn lemma_writes_idempotent(n: NoteModel, ws: Seq<(u64, Seq<u8>)>)
    ensures
        after_writes(after_writes(n, ws), ws) == after_writes(n, ws),
{
}

/// A note whose every fetch came to nothing gets no write: when no pending
/// entry with its id recovered a memo, no write names it, and the note stays
/// as it was (pending, if it was).
pub proof fn lemma_unrecovered_stays_pending(ps: Seq<PendingModel>, os: Seq<FetchOutcome>, n: NoteModel)
    requires
        os.len() == ps.len(),
        forall|i: int| 0 <= i < ps.len() && ps[i].note_id == n.note_id ==> recovered(
            #[trigger] ps[i],
            os[i],
        ) is None,
    ensures
        first_write(writes_for(ps, os), n.note_id) is None,
        after_writes(n, writes_for(ps, os)) == n,
    decreases ps.len(),
{
    lemma_writes_name(ps, os, n.note_id);
}

proof fn lemma_first_write_push(ws: Seq<(u64, Seq<u8>)>, w: (u64, Seq<u8>), id: u64)
    ensures
        first_write(ws.push(w), id) == if first_write(ws, id) is Some {
            first_write(ws, id)
        } else if w.0 == id {
            Some(w.1)
        } else {
            None
        },
    decreases ws.len(),
{
    if ws.len() > 0 {
        assert(ws.push(w).drop_first() =~= ws.drop_first().push(w));
        assert(ws.push(w)[0] == ws[0]);
        lemma_first_write_push(ws.drop_first(), w, id);
    } else {
        assert(ws.push(w) =~= seq![w]);
        assert(seq![w].drop_first() =~= Seq::<(u64, Seq<u8>)>::empty());
        assert(first_write(Seq::<(u64, Seq<u8>)>::empty(), id) is None);
        assert(seq![w][0] == w);
    }
}

proof fn lemma_writes_name(ps: Seq<PendingModel>, os: Seq<FetchOutcome>, id: u64)
    requires
        os.len() == ps.len(),
        forall|i: int| 0 <= i < ps.len() && ps[i].note_id == id ==> recovered(
            #[trigger] ps[i],
            os[i],
        ) is None,
    ensures
        first_write(writes_for(ps, os), id) is None,
    decreases ps.len(),
{
    if ps.len() > 0 {
        let k = ps.len() - 1;
        assert forall|i: int| 0 <= i < ps.drop_last().len() && ps.drop_last()[i].note_id == id implies recovered(
            #[trigger] ps.drop_last()[i],
            os.take(k)[i],
        ) is None by {
            assert(ps.drop_last()[i] == ps[i]);
            assert(os.take(k)[i] == os[i]);
        }
        lemma_writes_name(ps.drop_last(), os.take(k), id);
        let before = writes_for(ps.drop_last(), os.take(k));
        match recovered(ps[k], os[k]) {
            Some(m) => {
                lemma_first_write_push(before, (ps[k].note_id, m), id);
            },
            None => {},
        }
    }
}

/// A pending note whose transaction now yields its memo gets that memo:
/// when pending entry `i` recovered `m` and no other pending entry has its
/// id, the first write to its id carries `m`, and the note takes it.
pub proof fn lemma_recovered_fills(ps: Seq<PendingModel>, os: Seq<FetchOutcome>, i: int, n: NoteModel)
    requires
        os.len() == ps.len(),
        0 <= i < ps.len(),
        recovered(ps[i], os[i]) is Some,
        forall|j: int| 0 <= j < ps.len() && j != i ==> (#[trigger] ps[j]).note_id != ps[i].note_id,
        n.note_id == ps[i].note_id,
        n.memo is None,
    ensures
        first_write(writes_for(ps, os), ps[i].note_id) == recovered(ps[i], os[i]),
        after_writes(n, writes_for(ps, os)).memo == recovered(ps[i], os[i]),
    decreases ps.len(),
{
    let k = ps.len() - 1;
    let id = ps[i].note_id;
    let before = writes_for(ps.drop_last(), os.take(k));
    if i == k {
        assert forall|j: int| 0 <= j < ps.drop_last().len() && ps.drop_last()[j].note_id == id implies recovered(
            #[trigger] ps.drop_last()[j],
            os.take(k)[j],
        ) is None by {
            assert(ps.drop_last()[j] == ps[j]);
        }
        lemma_writes_name(ps.drop_last(), os.take(k), id);
        lemma_first_write_push(before, (id, recovered(ps[k], os[k])->Some_0), id);
    } else {
        assert forall|j: int| 0 <= j < ps.drop_last().len() && j != i implies (#[trigger] ps.drop_last()[j]).note_id
            != ps.drop_last()[i].note_id by {
            assert(ps.drop_last()[j] == ps[j]);
        }
        assert(ps.drop_last()[i] == ps[i]);
        assert(os.take(k)[i] == os[i]);
        lemma_recovered_fills(ps.drop_last(), os.take(k), i, n);
        match recovered(ps[k], os[k]) {
            Some(m) => {
                lemma_first_write_push(before, (ps[k].note_id, m), id);
            },
            None => {},
        }
    }
}

} // verus!
