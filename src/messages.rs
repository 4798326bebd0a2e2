//! The chat history: memos of sent and received notes, decoded and merged
//! into one sequence ordered by timestamp.

use vstd::prelude::*;
use crate::memo::{
    MemoPayload, PayloadModel, decode_memo, decode_spec, carries_unchanged, padded, payload_bytes,
    lemma_message_round_trip, MEMO_CAPACITY,
};
use crate::text::concat_text;
use crate::hexfmt::{hex_of, to_hex};
use crate::sorting::{stable_sorted, lemma_stable_insert, lemma_stable_empty, lemma_stable_pair, lemma_stable_single};

verus! {

/// A note this wallet sent, with the memo it carried.
#[derive(Debug, Clone, PartialEq, Eq)]
pub struct SentNote {
    /// Transaction id, internal byte order.
    pub txid: Vec<u8>,
    pub height: u32,
    pub to_address: String,
    pub value: u64,
    pub memo: Vec<u8>,
}

/// A note this wallet received. `memo` is `None` while its memo is unknown.
#[derive(Debug, Clone, PartialEq, Eq)]
pub struct ReceivedNote {
    /// Transaction id, internal byte order.
    pub txid: Vec<u8>,
    pub height: u32,
    pub value: u64,
    pub memo: Option<Vec<u8>>,
    /// Change returned to the wallet by its own transaction.
    pub is_change: bool,
}

#[derive(Debug, Clone, Copy, PartialEq, Eq, Structural)]
pub enum MessageKind {
    /// A chat message.
    Chat,
    /// A sender's announcement of a new address.
    Rotation,
}

/// One entry of the chat history.
#[derive(Debug, Clone, PartialEq, Eq)]
pub struct ChatMessage {
    /// The identifier a v1 memo carries; `rot-` and the txid for a rotation;
    /// the txid otherwise.
    pub id: String,
    /// The transaction id in hexadecimal, bytes in stored order.
    pub txid: String,
    pub height: u32,
    pub timestamp: u64,
    pub incoming: bool,
    pub value: u64,
    pub text: String,
    pub to_address: Option<String>,
    pub from_address: Option<String>,
    pub kind: MessageKind,
    /// For a rotation, the address announced.
    pub new_address: Option<String>,
}

/// The mathematical content of a [`ChatMessage`].
pub struct ChatModel {
    pub id: Seq<char>,
    pub txid: Seq<char>,
    pub height: u32,
    pub timestamp: u64,
    pub incoming: bool,
    pub value: u64,
    pub text: Seq<char>,
    pub to_address: Option<Seq<char>>,
    pub from_address: Option<Seq<char>>,
    pub kind: MessageKind,
    pub new_address: Option<Seq<char>>,
}

pub open spec fn opt_chars(o: Option<String>) -> Option<Seq<char>> {
    match o {
        Some(s) => Some(s@),
        None => None,
    }
}

impl View for ChatMessage {
    type V = ChatModel;

    open spec fn view(&self) -> ChatModel {
        ChatModel {
            id: self.id@,
            txid: self.txid@,
            height: self.height,
            timestamp: self.timestamp,
            incoming: self.incoming,
            value: self.value,
            text: self.text@,
            to_address: opt_chars(self.to_address),
            from_address: opt_chars(self.from_address),
            kind: self.kind,
            new_address: opt_chars(self.new_address),
        }
    }
}

pub open spec fn views(s: Seq<ChatMessage>) -> Seq<ChatModel> {
    s.map_values(|m: ChatMessage| m@)
}

pub open spec fn by_timestamp() -> spec_fn(ChatModel) -> u64 {
    |m: ChatModel| m.timestamp
}

pub open spec fn above_floor(height: u32, since: Option<u32>) -> bool {
    match since {
        Some(h) => height >= h,
        None => true,
    }
}

/// The history entry for a decoded payload. `incoming` says which side of
/// the transfer this wallet was on; `counterpart` is the recipient of a sent
/// note. A sent note is attributed to `own`; a received one to the sender a
/// v2 memo names, and to nobody otherwise. Plain text is kept only when
/// received, with the block height standing for the missing timestamp.
pub open spec fn entry_of(
    p: PayloadModel,
    txid: Seq<char>,
    height: u32,
    value: u64,
    incoming: bool,
    counterpart: Seq<char>,
    own: Seq<char>,
) -> Option<ChatModel> {
    let to = if incoming { own } else { counterpart };
    let sent_from: Option<Seq<char>> = Some(own);
    match p {
        PayloadModel::MessageV1 { timestamp, id, text } => Some(
            ChatModel {
                id,
                txid,
                height,
                timestamp,
                incoming,
                value,
                text,
                to_address: Some(to),
                from_address: if incoming { None } else { sent_from },
                kind: MessageKind::Chat,
                new_address: None,
            },
        ),
        PayloadModel::MessageV2 { timestamp, sender, text } => Some(
            ChatModel {
                id: txid,
                txid,
                height,
                timestamp,
                incoming,
                value,
                text,
                to_address: Some(to),
                from_address: if incoming { Some(sender) } else { sent_from },
                kind: MessageKind::Chat,
                new_address: None,
            },
        ),
        PayloadModel::Rotation { new_address, timestamp } => Some(
            ChatModel {
                id: "rot-"@ + txid,
                txid,
                height,
                timestamp,
                incoming,
                value,
                text: "Address rotation: new address is "@ + new_address,
                to_address: Some(to),
                from_address: if incoming { None } else { sent_from },
                kind: MessageKind::Rotation,
                new_address: Some(new_address),
            },
        ),
        PayloadModel::PlainText { text } => if incoming {
            Some(
                ChatModel {
                    id: txid,
                    txid,
                    height,
                    timestamp: height as u64,
                    incoming,
                    value,
                    text,
                    to_address: Some(to),
                    from_address: None,
                    kind: MessageKind::Chat,
                    new_address: None,
                },
            )
        } else {
            None
        },
    }
}

/// The entry of a sent note, if it holds a message above the floor.
pub open spec fn sent_entry(n: SentNote, own: Seq<char>, since: Option<u32>) -> Option<ChatModel> {
    if above_floor(n.height, since) && decode_spec(n.memo@) is Some {
        entry_of(
            decode_spec(n.memo@)->Some_0,
            hex_of(n.txid@),
            n.height,
            n.value,
            false,
            n.to_address@,
            own,
        )
    } else {
        None
    }
}

/// The entry of a received note, if it is no change output, its memo is
/// known, and it holds a message above the floor.
pub open spec fn received_entry(n: ReceivedNote, own: Seq<char>, since: Option<u32>) -> Option<
    ChatModel,
> {
    if !n.is_change && n.memo is Some && above_floor(n.height, since) && decode_spec(
        n.memo->Some_0@,
    ) is Some {
        entry_of(
            decode_spec(n.memo->Some_0@)->Some_0,
            hex_of(n.txid@),
            n.height,
            n.value,
            true,
            Seq::<char>::empty(),
            own,
        )
    } else {
        None
    }
}

pub open spec fn sent_entry_fn(own: Seq<char>, since: Option<u32>) -> spec_fn(SentNote) -> Option<
    ChatModel,
> {
    |n: SentNote| sent_entry(n, own, since)
}

pub open spec fn received_entry_fn(own: Seq<char>, since: Option<u32>) -> spec_fn(
    ReceivedNote,
) -> Option<ChatModel> {
    |n: ReceivedNote| received_entry(n, own, since)
}

/// Sent entries in store order, then received ones.
pub open spec fn history_entries(
    sent: Seq<SentNote>,
    received: Seq<ReceivedNote>,
    own: Seq<char>,
    since: Option<u32>,
) -> Seq<ChatModel> {
    sent.filter_map(sent_entry_fn(own, since)) + received.filter_map(
        received_entry_fn(own, since),
    )
}

fn opt_copy(o: &Option<String>) -> (r: Option<String>)
    ensures
        opt_chars(r) == opt_chars(*o),
{
    match o {
        Some(s) => Some(s.clone()),
        None => None,
    }
}

/// The history entry of a decoded payload; see [`entry_of`].
fn make_entry(
    p: MemoPayload,
    txid: String,
    height: u32,
    value: u64,
    incoming: bool,
    counterpart: &String,
    own: &String,
) -> (r: Option<ChatMessage>)
    ensures
        match r {
            Some(m) => entry_of(p@, txid@, height, value, incoming, counterpart@, own@) == Some(
                m@,
            ),
            None => entry_of(p@, txid@, height, value, incoming, counterpart@, own@) is None,
        },
{
    let to = if incoming {
        own.clone()
    } else {
        counterpart.clone()
    };
    let sent_from = if incoming {
        None
    } else {
        Some(own.clone())
    };
    match p {
        MemoPayload::MessageV1 { timestamp, id, text } => Some(
            ChatMessage {
                id,
                txid,
                height,
                timestamp,
                incoming,
                value,
                text,
                to_address: Some(to),
                from_address: sent_from,
                kind: MessageKind::Chat,
                new_address: None,
            },
        ),
        MemoPayload::MessageV2 { timestamp, sender, text } => Some(
            ChatMessage {
                id: txid.clone(),
                txid,
                height,
                timestamp,
                incoming,
                value,
                text,
                to_address: Some(to),
                from_address: if incoming {
                    Some(sender)
                } else {
                    sent_from
                },
                kind: MessageKind::Chat,
                new_address: None,
            },
        ),
        MemoPayload::Rotation { new_address, timestamp } => Some(
            ChatMessage {
                id: concat_text("rot-", txid.as_str()),
                text: concat_text("Address rotation: new address is ", new_address.as_str()),
                txid,
                height,
                timestamp,
                incoming,
                value,
                to_address: Some(to),
                from_address: sent_from,
                kind: MessageKind::Rotation,
                new_address: Some(new_address),
            },
        ),
        MemoPayload::PlainText { text } => {
            if incoming {
                Some(
                    ChatMessage {
                        id: txid.clone(),
                        txid,
                        height,
                        timestamp: height as u64,
                        incoming,
                        value,
                        text,
                        to_address: Some(to),
                        from_address: None,
                        kind: MessageKind::Chat,
                        new_address: None,
                    },
                )
            } else {
                None
            }
        },
    }
}

fn is_above_floor(height: u32, since: Option<u32>) -> (r: bool)
    ensures
        r == above_floor(height, since),
{
    match since {
        Some(h) => height >= h,
        None => true,
    }
}

/// Orders `v` by timestamp; messages with equal timestamps keep their order.
pub fn sort_by_timestamp(v: Vec<ChatMessage>) -> (r: Vec<ChatMessage>)
    ensures
        stable_sorted(views(r@), views(v@), by_timestamp()),
{
    let ghost orig = views(v@);
    let mut input = v;
    let mut out: Vec<ChatMessage> = Vec::new();
    let ghost mut done: int = 0;
    proof {
        lemma_stable_empty(by_timestamp());
        assert(views(out@) =~= Seq::<ChatModel>::empty());
        assert(orig.take(0) =~= Seq::<ChatModel>::empty());
        assert(views(input@) =~= orig.skip(0));
    }
    while input.len() > 0
        invariant
            0 <= done <= orig.len(),
            views(input@) == orig.skip(done),
            stable_sorted(views(out@), orig.take(done), by_timestamp()),
        decreases input@.len(),
    {
        let ghost before = views(out@);
        let ghost pending = input@;
        let x = input.remove(0);
        proof {
            assert(views(pending).len() == pending.len());
            assert(orig.skip(done).len() == orig.len() - done);
            assert(done < orig.len());
            assert(views(pending)[0] == pending[0]@);
            assert(x@ == orig[done]);
            assert(views(input@) =~= views(pending).skip(1));
        }
        let mut j = out.len();
        while j > 0 && out[j - 1].timestamp > x.timestamp
            invariant
                j <= out@.len(),
                views(out@) == before,
                stable_sorted(before, orig.take(done), by_timestamp()),
                forall|i: int| j <= i < out@.len() ==> out@[i].timestamp > x.timestamp,
            decreases j,
        {
            j = j - 1;
        }
        proof {
            assert forall|i: int| 0 <= i < j implies (#[trigger] before[i]).timestamp <= x.timestamp by {
                assert(before[i] == out@[i]@);
                assert(before[j - 1] == out@[j - 1]@);
                if i < j - 1 {
                    assert(by_timestamp()(before[i]) <= by_timestamp()(before[j - 1]));
                }
            }
            assert forall|i: int| j <= i < before.len() implies (#[trigger] before[i]).timestamp > x.timestamp by {
                assert(before[i] == out@[i]@);
            }
            lemma_stable_insert(before, orig.take(done), by_timestamp(), j as int, x@);
        }
        out.insert(j, x);
        proof {
            assert(views(out@) =~= before.insert(j as int, x@));
            assert(orig.take(done).push(x@) =~= orig.take(done + 1));
            done = done + 1;
            assert(views(input@) =~= orig.skip(done));
        }
    }
    proof {
        assert(orig.take(done) =~= orig);
    }
    out
}

fn sent_message(n: &SentNote, own: &String, since: Option<u32>) -> (r: Option<ChatMessage>)
    ensures
        match r {
            Some(m) => sent_entry(*n, own@, since) == Some(m@),
            None => sent_entry(*n, own@, since) is None,
        },
{
    if !is_above_floor(n.height, since) {
        return None;
    }
    match decode_memo(&n.memo) {
        Some(p) => make_entry(
            p,
            to_hex(&n.txid),
            n.height,
            n.value,
            false,
            &n.to_address,
            own,
        ),
        None => None,
    }
}

fn received_message(n: &ReceivedNote, own: &String, since: Option<u32>) -> (r: Option<
    ChatMessage,
>)
    ensures
        match r {
            Some(m) => received_entry(*n, own@, since) == Some(m@),
            None => received_entry(*n, own@, since) is None,
        },
{
    if n.is_change || !is_above_floor(n.height, since) {
        return None;
    }
    let decoded = match &n.memo {
        Some(memo) => decode_memo(memo),
        None => None,
    };
    match decoded {
        Some(p) => make_entry(
            p,
            to_hex(&n.txid),
            n.height,
            n.value,
            true,
            &String::new(),
            own,
        ),
        None => None,
    }
}

/// The chat history: the messages in the memos of sent notes and of received
/// notes that are not change, at or above the height floor `since`, ordered
/// by timestamp. Messages with equal timestamps keep their order: sent before
/// received, each in store order.
pub fn list_messages(
    sent: &Vec<SentNote>,
    received: &Vec<ReceivedNote>,
    own_address: &String,
    since: Option<u32>,
) -> (r: Vec<ChatMessage>)
    ensures
        stable_sorted(
            views(r@),
            history_entries(sent@, received@, own_address@, since),
            by_timestamp(),
        ),
{
    let ghost fs = sent_entry_fn(own_address@, since);
    let ghost fr = received_entry_fn(own_address@, since);
    let mut entries: Vec<ChatMessage> = Vec::new();
    let mut i: usize = 0;
    proof {
        assert(views(entries@) =~= sent@.take(0).filter_map(fs));
    }
    while i < sent.len()
        invariant
            i <= sent@.len(),
            fs == sent_entry_fn(own_address@, since),
            views(entries@) == sent@.take(i as int).filter_map(fs),
        decreases sent@.len() - i,
    {
        let m = sent_message(&sent[i], own_address, since);
        proof {
            sent@.lemma_filter_map_take_succ(fs, i as int);
        }
        match m {
            Some(m) => {
                entries.push(m);
            },
            None => {},
        }
        proof {
            assert(views(entries@) =~= sent@.take(i + 1).filter_map(fs));
        }
        i = i + 1;
    }
    proof {
        assert(sent@.take(i as int) =~= sent@);
    }
    let ghost sent_part = sent@.filter_map(fs);
    let mut k: usize = 0;
    proof {
        assert(views(entries@) =~= sent_part + received@.take(0).filter_map(fr));
    }
    while k < received.len()
        invariant
            k <= received@.len(),
            fr == received_entry_fn(own_address@, since),
            sent_part == sent@.filter_map(fs),
            views(entries@) == sent_part + received@.take(k as int).filter_map(fr),
        decreases received@.len() - k,
    {
        let ghost prev = views(entries@);
        let m = received_message(&received[k], own_address, since);
        proof {
            received@.lemma_filter_map_take_succ(fr, k as int);
            assert(fr(received@[k as int]) == received_entry(received@[k as int], own_address@, since));
        }
        match m {
            Some(m) => {
                entries.push(m);
                proof {
                    assert(views(entries@) =~= prev.push(m@));
                }
            },
            None => {
                assert(views(entries@) =~= prev);
            },
        }
        proof {
            assert(views(entries@) =~= sent_part + received@.take(k + 1).filter_map(fr));
        }
        k = k + 1;
    }
    proof {
        assert(received@.take(k as int) =~= received@);
    }
    sort_by_timestamp(entries)
}

/// The memo the codec writes for `m`, which fits.
pub open spec fn written(m: PayloadModel) -> bool {
    carries_unchanged(m) && payload_bytes(m).len() <= MEMO_CAPACITY
}

proof fn lemma_sent_single(n: SentNote, own: Seq<char>, m: PayloadModel)
    requires
        written(m),
        n.memo@ == padded(payload_bytes(m)),
    ensures
        seq![n].filter_map(sent_entry_fn(own, None)) == seq![
            entry_of(m, hex_of(n.txid@), n.height, n.value, false, n.to_address@, own)->Some_0,
        ],
        entry_of(m, hex_of(n.txid@), n.height, n.value, false, n.to_address@, own) is Some,
{
    lemma_message_round_trip(m);
    assert(seq![n].drop_last() =~= Seq::<SentNote>::empty());
    assert(seq![n].last() == n);
    assert(Seq::<SentNote>::empty().filter_map(sent_entry_fn(own, None)) =~= Seq::<ChatModel>::empty());
}

proof fn lemma_received_single(n: ReceivedNote, own: Seq<char>, m: PayloadModel)
    requires
        written(m),
        !n.is_change,
        n.memo is Some,
        n.memo->Some_0@ == padded(payload_bytes(m)),
    ensures
        seq![n].filter_map(received_entry_fn(own, None)) == seq![
            entry_of(m, hex_of(n.txid@), n.height, n.value, true, Seq::<char>::empty(), own)->Some_0,
        ],
        entry_of(m, hex_of(n.txid@), n.height, n.value, true, Seq::<char>::empty(), own) is Some,
{
    lemma_message_round_trip(m);
    assert(seq![n].drop_last() =~= Seq::<ReceivedNote>::empty());
    assert(seq![n].last() == n);
    assert(Seq::<ReceivedNote>::empty().filter_map(received_entry_fn(own, None)) =~= Seq::<ChatModel>::empty());
}

/// Round trip through the history: the only note, a received one that is
/// not change, whose memo the codec wrote for a v1 or v2 message, is listed
/// as one entry with that message's timestamp and text, its identifier for
/// v1, and for v2 the sender it names.
pub proof fn lemma_received_round_trip(n: ReceivedNote, own: Seq<char>, m: PayloadModel, r: Seq<ChatModel>)
    requires
        written(m),
        !n.is_change,
        n.memo is Some,
        n.memo->Some_0@ == padded(payload_bytes(m)),
        stable_sorted(r, history_entries(Seq::empty(), seq![n], own, None), by_timestamp()),
    ensures
        r.len() == 1,
        r[0].incoming,
        r[0].kind == MessageKind::Chat,
        m matches PayloadModel::MessageV1 { timestamp, id, text } ==> r[0].timestamp == timestamp
            && r[0].id == id && r[0].text == text && r[0].from_address is None,
        m matches PayloadModel::MessageV2 { timestamp, sender, text } ==> r[0].timestamp
            == timestamp && r[0].text == text && r[0].from_address == Some(sender),
{
    lemma_received_single(n, own, m);
    let e = entry_of(m, hex_of(n.txid@), n.height, n.value, true, Seq::<char>::empty(), own)->Some_0;
    assert(Seq::<SentNote>::empty().filter_map(sent_entry_fn(own, None)) =~= Seq::<ChatModel>::empty());
    assert(history_entries(Seq::empty(), seq![n], own, None) =~= seq![e]);
    lemma_stable_single(r, e, by_timestamp());
}

/// Round trip through the history, for a sent note: the only note, whose
/// memo the codec wrote for a v1 or v2 message, is listed as one outgoing
/// entry with that message's timestamp and text, from the wallet's address.
pub proof fn lemma_sent_round_trip(n: SentNote, own: Seq<char>, m: PayloadModel, r: Seq<ChatModel>)
    requires
        written(m),
        n.memo@ == padded(payload_bytes(m)),
        stable_sorted(r, history_entries(seq![n], Seq::empty(), own, None), by_timestamp()),
    ensures
        r.len() == 1,
        !r[0].incoming,
        r[0].from_address == Some(own),
        r[0].to_address == Some(n.to_address@),
        m matches PayloadModel::MessageV1 { timestamp, id, text } ==> r[0].timestamp == timestamp
            && r[0].id == id && r[0].text == text,
        m matches PayloadModel::MessageV2 { timestamp, text, .. } ==> r[0].timestamp == timestamp
            && r[0].text == text,
{
    lemma_sent_single(n, own, m);
    let e = entry_of(m, hex_of(n.txid@), n.height, n.value, false, n.to_address@, own)->Some_0;
    assert(Seq::<ReceivedNote>::empty().filter_map(received_entry_fn(own, None)) =~= Seq::<ChatModel>::empty());
    assert(history_entries(seq![n], Seq::empty(), own, None) =~= seq![e]);
    lemma_stable_single(r, e, by_timestamp());
}

/// One v2 message sent at `t` and one received at `t + 1` are listed as
/// exactly two entries in that order: the first outgoing and from the
/// wallet's address, the second incoming and from the sender its memo names.
pub proof fn lemma_exchange_listed(
    s: SentNote,
    n: ReceivedNote,
    own: Seq<char>,
    ms: PayloadModel,
    mr: PayloadModel,
    r: Seq<ChatModel>,
)
    requires
        written(ms),
        written(mr),
        ms is MessageV2,
        mr is MessageV2,
        ms->MessageV2_timestamp < mr->MessageV2_timestamp,
        s.memo@ == padded(payload_bytes(ms)),
        !n.is_change,
        n.memo is Some,
        n.memo->Some_0@ == padded(payload_bytes(mr)),
        stable_sorted(r, history_entries(seq![s], seq![n], own, None), by_timestamp()),
    ensures
        r.len() == 2,
        !r[0].incoming && r[0].from_address == Some(own) && r[0].to_address == Some(s.to_address@),
        r[0].text == ms->MessageV2_text && r[0].timestamp == ms->MessageV2_timestamp,
        r[1].incoming && r[1].from_address == Some(mr->MessageV2_sender),
        r[1].text == mr->MessageV2_text && r[1].timestamp == mr->MessageV2_timestamp,
{
    lemma_sent_single(s, own, ms);
    lemma_received_single(n, own, mr);
    let e1 = entry_of(ms, hex_of(s.txid@), s.height, s.value, false, s.to_address@, own)->Some_0;
    let e2 = entry_of(mr, hex_of(n.txid@), n.height, n.value, true, Seq::<char>::empty(), own)->Some_0;
    assert(history_entries(seq![s], seq![n], own, None) =~= seq![e1, e2]);
    lemma_stable_pair(r, e1, e2, by_timestamp());
}

} // verus!
