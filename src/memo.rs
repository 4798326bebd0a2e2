//! The chat protocol carried in fixed-size memo fields.
//!
//! A memo is `MEMO_CAPACITY` bytes: a UTF-8 payload, then NUL padding. Three
//! payload shapes are known, told apart by the tag before the first `|`:
//! `ZMSGv1|<ts>|<id>|<text>`, `ZMSGv2|<ts>|<sender>|<text>` and
//! `ZROTv1|<new_address>|<ts>`. Any other non-empty UTF-8 payload is plain
//! text written by some other wallet.

use vstd::prelude::*;
use vstd::utf8::*;
use crate::text::utf8_to_string;
use crate::decimal::{dec, parse_u64_spec, push_decimal, parse_u64, lemma_parse_dec, lemma_dec_shape, all_digits};

verus! {

/// Size of every memo field, in bytes.
pub const MEMO_CAPACITY: usize = 512;

/// The field delimiter `|`.
pub const DELIMITER: u8 = 124;

/// A memo payload as the library reads and writes it.
#[derive(Debug, Clone, PartialEq, Eq)]
pub enum MemoPayload {
    /// A message whose third field is a random identifier.
    MessageV1 { timestamp: u64, id: String, text: String },
    /// A message whose third field is the sender's address.
    MessageV2 { timestamp: u64, sender: String, text: String },
    /// An announcement that the sender now receives at `new_address`.
    Rotation { new_address: String, timestamp: u64 },
    /// Text that follows none of the protocol's shapes.
    PlainText { text: String },
}

/// The mathematical content of a [`MemoPayload`].
pub enum PayloadModel {
    MessageV1 { timestamp: u64, id: Seq<char>, text: Seq<char> },
    MessageV2 { timestamp: u64, sender: Seq<char>, text: Seq<char> },
    Rotation { new_address: Seq<char>, timestamp: u64 },
    PlainText { text: Seq<char> },
}

impl View for MemoPayload {
    type V = PayloadModel;

    open spec fn view(&self) -> PayloadModel {
        match self {
            MemoPayload::MessageV1 { timestamp, id, text } => PayloadModel::MessageV1 {
                timestamp: *timestamp,
                id: id@,
                text: text@,
            },
            MemoPayload::MessageV2 { timestamp, sender, text } => PayloadModel::MessageV2 {
                timestamp: *timestamp,
                sender: sender@,
                text: text@,
            },
            MemoPayload::Rotation { new_address, timestamp } => PayloadModel::Rotation {
                new_address: new_address@,
                timestamp: *timestamp,
            },
            MemoPayload::PlainText { text } => PayloadModel::PlainText { text: text@ },
        }
    }
}

pub open spec fn opt_payload_view(r: Option<MemoPayload>) -> Option<PayloadModel> {
    match r {
        Some(m) => Some(m@),
        None => None,
    }
}

/// Why a payload could not be written into a memo.
#[derive(Debug, Clone, PartialEq, Eq, Structural)]
pub enum MemoError {
    /// The payload needs `len` bytes, more than the memo holds.
    MemoTooLong { len: usize },
}

/// `ZMSGv1`
pub open spec fn tag_v1() -> Seq<u8> {
    seq![90u8, 77u8, 83u8, 71u8, 118u8, 49u8]
}

/// `ZMSGv2`
pub open spec fn tag_v2() -> Seq<u8> {
    seq![90u8, 77u8, 83u8, 71u8, 118u8, 50u8]
}

/// `ZROTv1`
pub open spec fn tag_rotation() -> Seq<u8> {
    seq![90u8, 82u8, 79u8, 84u8, 118u8, 49u8]
}

pub open spec fn bar() -> Seq<u8> {
    seq![124u8]
}

/// The payload bytes of a message, before padding.
pub open spec fn payload_bytes(m: PayloadModel) -> Seq<u8> {
    match m {
        PayloadModel::MessageV1 { timestamp, id, text } => tag_v1() + bar() + dec(timestamp as nat)
            + bar() + encode_utf8(id) + bar() + encode_utf8(text),
        PayloadModel::MessageV2 { timestamp, sender, text } => tag_v2() + bar() + dec(
            timestamp as nat,
        ) + bar() + encode_utf8(sender) + bar() + encode_utf8(text),
        PayloadModel::Rotation { new_address, timestamp } => tag_rotation() + bar() + encode_utf8(
            new_address,
        ) + bar() + dec(timestamp as nat),
        PayloadModel::PlainText { text } => encode_utf8(text),
    }
}

pub open spec fn zeros(n: nat) -> Seq<u8> {
    Seq::new(n, |i: int| 0u8)
}

/// A payload that fits, padded with NUL bytes to the memo's size.
pub open spec fn padded(p: Seq<u8>) -> Seq<u8> {
    p + zeros((MEMO_CAPACITY - p.len()) as nat)
}

fn push_bytes(out: &mut Vec<u8>, b: &[u8])
    ensures
        final(out)@ == old(out)@ + b@,
{
    let mut i: usize = 0;
    while i < b.len()
        invariant
            i <= b@.len(),
            out@ == old(out)@ + b@.take(i as int),
        decreases b@.len() - i,
    {
        out.push(b[i]);
        i = i + 1;
        assert(out@ =~= old(out)@ + b@.take(i as int));
    }
    assert(b@.take(i as int) =~= b@);
}

fn push_text(out: &mut Vec<u8>, s: &String)
    ensures
        final(out)@ == old(out)@ + encode_utf8(s@),
{
    let b = s.as_str().as_bytes();
    push_bytes(out, b);
}

fn push_tag(out: &mut Vec<u8>, tag: &Vec<u8>)
    ensures
        final(out)@ == old(out)@ + tag@ + bar(),
{
    push_bytes(out, tag.as_slice());
    out.push(DELIMITER);
    assert(out@ =~= old(out)@ + tag@ + bar());
}

fn v1_tag() -> (r: Vec<u8>)
    ensures
        r@ == tag_v1(),
{
    let r = vec![90u8, 77u8, 83u8, 71u8, 118u8, 49u8];
    assert(r@ =~= tag_v1());
    r
}

fn v2_tag() -> (r: Vec<u8>)
    ensures
        r@ == tag_v2(),
{
    let r = vec![90u8, 77u8, 83u8, 71u8, 118u8, 50u8];
    assert(r@ =~= tag_v2());
    r
}

fn rotation_tag() -> (r: Vec<u8>)
    ensures
        r@ == tag_rotation(),
{
    let r = vec![90u8, 82u8, 79u8, 84u8, 118u8, 49u8];
    assert(r@ =~= tag_rotation());
    r
}

/// The payload bytes of `m`, unpadded.
pub fn payload_to_bytes(m: &MemoPayload) -> (r: Vec<u8>)
    ensures
        r@ == payload_bytes(m@),
{
    let mut out: Vec<u8> = Vec::new();
    match m {
        MemoPayload::MessageV1 { timestamp, id, text } => {
            push_tag(&mut out, &v1_tag());
            push_decimal(&mut out, *timestamp);
            out.push(DELIMITER);
            push_text(&mut out, id);
            out.push(DELIMITER);
            push_text(&mut out, text);
        },
        MemoPayload::MessageV2 { timestamp, sender, text } => {
            push_tag(&mut out, &v2_tag());
            push_decimal(&mut out, *timestamp);
            out.push(DELIMITER);
            push_text(&mut out, sender);
            out.push(DELIMITER);
            push_text(&mut out, text);
        },
        MemoPayload::Rotation { new_address, timestamp } => {
            push_tag(&mut out, &rotation_tag());
            push_text(&mut out, new_address);
            out.push(DELIMITER);
            push_decimal(&mut out, *timestamp);
        },
        MemoPayload::PlainText { text } => {
            push_text(&mut out, text);
        },
    }
    assert(out@ =~= payload_bytes(m@));
    out
}

/// Writes `m` into a memo field: its payload, then NUL bytes up to
/// `MEMO_CAPACITY`. A payload longer than the field is refused, never cut.
pub fn encode_memo(m: &MemoPayload) -> (r: Result<Vec<u8>, MemoError>)
    ensures
        r is Ok <==> payload_bytes(m@).len() <= MEMO_CAPACITY,
        r matches Ok(v) ==> v@ == padded(payload_bytes(m@)),
        r matches Err(e) ==> e == (MemoError::MemoTooLong { len: payload_bytes(m@).len() as usize }),
{
    let mut out = payload_to_bytes(m);
    let len = out.len();
    if len > MEMO_CAPACITY {
        return Err(MemoError::MemoTooLong { len });
    }
    while out.len() < MEMO_CAPACITY
        invariant
            len <= out@.len() <= MEMO_CAPACITY,
            out@ == payload_bytes(m@) + zeros((out@.len() - len) as nat),
        decreases MEMO_CAPACITY - out@.len(),
    {
        out.push(0u8);
        assert(out@ =~= payload_bytes(m@) + zeros((out@.len() - len) as nat));
    }
    Ok(out)
}

/// The payload without its trailing NUL bytes.
pub open spec fn trim_nul(b: Seq<u8>) -> Seq<u8>
    decreases b.len(),
{
    if b.len() > 0 && b.last() == 0 {
        trim_nul(b.drop_last())
    } else {
        b
    }
}

/// Index of the first `|` in `b`, or `b.len()` when there is none.
pub open spec fn bar_index(b: Seq<u8>) -> nat
    decreases b.len(),
{
    if b.len() == 0 {
        0
    } else if b[0] == 124 {
        0
    } else {
        1 + bar_index(b.drop_first())
    }
}

/// The three fields after a message tag: a timestamp, a field without `|`,
/// and the rest, which may hold `|`.
pub open spec fn message_fields(r: Seq<u8>) -> Option<(u64, Seq<char>, Seq<char>)> {
    let i = bar_index(r) as int;
    let r2 = r.skip(i + 1);
    let j = bar_index(r2) as int;
    let a = r2.take(j);
    let t = r2.skip(j + 1);
    if i < r.len() && parse_u64_spec(r.take(i)) is Some && j < r2.len() && valid_utf8(a)
        && valid_utf8(t) {
        Some((parse_u64_spec(r.take(i))->Some_0, decode_utf8(a), decode_utf8(t)))
    } else {
        None
    }
}

/// The two fields after the rotation tag: an address, then a timestamp.
pub open spec fn rotation_fields(r: Seq<u8>) -> Option<(Seq<char>, u64)> {
    let i = bar_index(r) as int;
    let a = r.take(i);
    let ts = parse_u64_spec(r.skip(i + 1));
    if i < r.len() && valid_utf8(a) && ts is Some {
        Some((decode_utf8(a), ts->Some_0))
    } else {
        None
    }
}

/// What a memo field holds. `None` for an empty or undecodable memo, and for
/// one with a known tag and `|` after it whose fields are malformed. A tag
/// counts only with a `|` after it: a memo that is just `ZMSGv1` is text.
pub open spec fn decode_spec(memo: Seq<u8>) -> Option<PayloadModel> {
    let p = trim_nul(memo);
    let k = bar_index(p) as int;
    let tag = p.take(k);
    let rest = p.skip(k + 1);
    if p.len() == 0 {
        None
    } else if k < p.len() && (tag == tag_v1() || tag == tag_v2()) {
        if message_fields(rest) is Some {
            let f = message_fields(rest)->Some_0;
            if tag == tag_v1() {
                Some(PayloadModel::MessageV1 { timestamp: f.0, id: f.1, text: f.2 })
            } else {
                Some(PayloadModel::MessageV2 { timestamp: f.0, sender: f.1, text: f.2 })
            }
        } else {
            None
        }
    } else if k < p.len() && tag == tag_rotation() {
        if rotation_fields(rest) is Some {
            let f = rotation_fields(rest)->Some_0;
            Some(PayloadModel::Rotation { new_address: f.0, timestamp: f.1 })
        } else {
            None
        }
    } else if valid_utf8(p) {
        Some(PayloadModel::PlainText { text: decode_utf8(p) })
    } else {
        None
    }
}

pub(crate) fn copy_range(v: &Vec<u8>, lo: usize, hi: usize) -> (r: Vec<u8>)
    requires
        lo <= hi <= v@.len(),
    ensures
        r@ == v@.subrange(lo as int, hi as int),
{
    let mut r: Vec<u8> = Vec::new();
    let mut i = lo;
    while i < hi
        invariant
            lo <= i <= hi <= v@.len(),
            r@ == v@.subrange(lo as int, i as int),
        decreases hi - i,
    {
        r.push(v[i]);
        i = i + 1;
        assert(r@ =~= v@.subrange(lo as int, i as int));
    }
    r
}

fn text_of_range(v: &Vec<u8>, lo: usize, hi: usize) -> (r: Option<String>)
    requires
        lo <= hi <= v@.len(),
    ensures
        r is Some <==> valid_utf8(v@.subrange(lo as int, hi as int)),
        r matches Some(s) ==> s@ == decode_utf8(v@.subrange(lo as int, hi as int)),
{
    utf8_to_string(copy_range(v, lo, hi))
}

/// Index of the first `|` in `v[lo..hi]`, or `hi`.
fn find_bar(v: &Vec<u8>, lo: usize, hi: usize) -> (r: usize)
    requires
        lo <= hi <= v@.len(),
    ensures
        r == lo + bar_index(v@.subrange(lo as int, hi as int)),
        r <= hi,
{
    let mut i = lo;
    while i < hi && v[i] != DELIMITER
        invariant
            lo <= i <= hi <= v@.len(),
            bar_index(v@.subrange(lo as int, hi as int)) == (i - lo) + bar_index(
                v@.subrange(i as int, hi as int),
            ),
        decreases hi - i,
    {
        assert(v@.subrange(i as int, hi as int).drop_first() =~= v@.subrange(i + 1, hi as int));
        i = i + 1;
    }
    i
}

fn range_equals(v: &Vec<u8>, lo: usize, hi: usize, t: &Vec<u8>) -> (r: bool)
    requires
        lo <= hi <= v@.len(),
    ensures
        r == (v@.subrange(lo as int, hi as int) == t@),
{
    if hi - lo != t.len() {
        return false;
    }
    let mut i: usize = 0;
    while i < t.len()
        invariant
            hi - lo == t@.len(),
            lo <= hi <= v@.len(),
            i <= t@.len(),
            forall|k: int| 0 <= k < i ==> v@[lo + k] == t@[k],
        decreases t@.len() - i,
    {
        if v[lo + i] != t[i] {
            assert(v@.subrange(lo as int, hi as int)[i as int] != t@[i as int]);
            return false;
        }
        i = i + 1;
    }
    assert(v@.subrange(lo as int, hi as int) =~= t@);
    true
}

fn trimmed_len(memo: &Vec<u8>) -> (n: usize)
    ensures
        n <= memo@.len(),
        trim_nul(memo@) == memo@.take(n as int),
{
    let mut n = memo.len();
    assert(memo@.take(n as int) =~= memo@);
    while n > 0 && memo[n - 1] == 0
        invariant
            n <= memo@.len(),
            trim_nul(memo@) == trim_nul(memo@.take(n as int)),
        decreases n,
    {
        assert(memo@.take(n as int).drop_last() =~= memo@.take(n - 1));
        n = n - 1;
    }
    n
}

/// Fields after a message tag in `memo[lo..hi]`.
fn read_message_fields(memo: &Vec<u8>, lo: usize, hi: usize) -> (r: Option<(u64, String, String)>)
    requires
        lo <= hi <= memo@.len(),
    ensures
        r is Some <==> message_fields(memo@.subrange(lo as int, hi as int)) is Some,
        r matches Some(f) ==> message_fields(memo@.subrange(lo as int, hi as int)) == Some(
            (f.0, f.1@, f.2@),
        ),
{
    let ghost rr = memo@.subrange(lo as int, hi as int);
    let i = find_bar(memo, lo, hi);
    if i >= hi {
        return None;
    }
    assert(rr.take(i - lo) =~= memo@.subrange(lo as int, i as int));
    let ts = parse_u64(memo, lo, i);
    let j = find_bar(memo, i + 1, hi);
    let ghost r2 = rr.skip(i - lo + 1);
    assert(r2 =~= memo@.subrange(i + 1, hi as int));
    assert(r2.take(j - i - 1) =~= memo@.subrange(i + 1, j as int));
    match ts {
        None => None,
        Some(t) => {
            if j >= hi {
                return None;
            }
            assert(r2.skip(j - i) =~= memo@.subrange(j + 1, hi as int));
            let a = text_of_range(memo, i + 1, j);
            let b = text_of_range(memo, j + 1, hi);
            match (a, b) {
                (Some(a), Some(b)) => Some((t, a, b)),
                _ => None,
            }
        },
    }
}

/// Fields after the rotation tag in `memo[lo..hi]`.
fn read_rotation_fields(memo: &Vec<u8>, lo: usize, hi: usize) -> (r: Option<(String, u64)>)
    requires
        lo <= hi <= memo@.len(),
    ensures
        r is Some <==> rotation_fields(memo@.subrange(lo as int, hi as int)) is Some,
        r matches Some(f) ==> rotation_fields(memo@.subrange(lo as int, hi as int)) == Some(
            (f.0@, f.1),
        ),
{
    let ghost rr = memo@.subrange(lo as int, hi as int);
    let i = find_bar(memo, lo, hi);
    if i >= hi {
        return None;
    }
    assert(rr.take(i - lo) =~= memo@.subrange(lo as int, i as int));
    assert(rr.skip(i - lo + 1) =~= memo@.subrange(i + 1, hi as int));
    let ts = parse_u64(memo, i + 1, hi);
    let a = text_of_range(memo, lo, i);
    match (a, ts) {
        (Some(a), Some(t)) => Some((a, t)),
        _ => None,
    }
}

/// Reads a memo field. Trailing NUL bytes are padding. `None` for an empty or
/// undecodable memo, and for a known tag and `|` followed by malformed
/// fields; text under no known tag comes back as `PlainText`.
pub fn decode_memo(memo: &Vec<u8>) -> (r: Option<MemoPayload>)
    ensures
        opt_payload_view(r) == decode_spec(memo@),
{
    let n = trimmed_len(memo);
    let ghost p = memo@.take(n as int);
    if n == 0 {
        return None;
    }
    let k = find_bar(memo, 0, n);
    assert(memo@.subrange(0, n as int) =~= p);
    assert(p.take(k as int) =~= memo@.subrange(0, k as int));
    if k < n {
        assert(p.skip(k + 1) =~= memo@.subrange(k + 1, n as int));
    }
    let tagged = k < n;
    let is_v1 = range_equals(memo, 0, k, &v1_tag());
    let is_v2 = range_equals(memo, 0, k, &v2_tag());
    if tagged && (is_v1 || is_v2) {
        match read_message_fields(memo, k + 1, n) {
            Some((timestamp, a, text)) => {
                if is_v1 {
                    Some(MemoPayload::MessageV1 { timestamp, id: a, text })
                } else {
                    Some(MemoPayload::MessageV2 { timestamp, sender: a, text })
                }
            },
            None => None,
        }
    } else if tagged && range_equals(memo, 0, k, &rotation_tag()) {
        match read_rotation_fields(memo, k + 1, n) {
            Some((new_address, timestamp)) => Some(MemoPayload::Rotation { new_address, timestamp }),
            None => None,
        }
    } else {
        match text_of_range(memo, 0, n) {
            Some(text) => Some(MemoPayload::PlainText { text }),
            None => None,
        }
    }
}

/// No character of `s` is `c`.
pub open spec fn no_char(s: Seq<char>, c: char) -> bool {
    forall|i: int| 0 <= i < s.len() ==> s[i] != c
}

/// No byte of `s` is `b`.
pub open spec fn no_byte(s: Seq<u8>, b: u8) -> bool {
    forall|i: int| 0 <= i < s.len() ==> s[i] != b
}

/// The text does not end in NUL: trailing NULs are padding.
pub open spec fn ends_clean(text: Seq<char>) -> bool {
    text.len() == 0 || text.last() != '\0'
}

/// A v1 or v2 message that the codec can carry unchanged: its third field
/// holds no `|`, and its text does not end in NUL.
pub open spec fn carries_unchanged(m: PayloadModel) -> bool {
    match m {
        PayloadModel::MessageV1 { id, text, .. } => no_char(id, '|') && ends_clean(text),
        PayloadModel::MessageV2 { sender, text, .. } => no_char(sender, '|') && ends_clean(text),
        _ => false,
    }
}

proof fn lemma_encode_no_ascii(s: Seq<char>, c: char, b: u8)
    requires
        c as u32 == b as u32,
        b < 128,
        no_char(s, c),
    ensures
        no_byte(encode_utf8(s), b),
    decreases s.len(),
{
    if s.len() > 0 {
        lemma_encode_no_ascii(s.drop_first(), c, b);
        let v = s[0] as u32;
        assert(s[0] != c);
        assert(v != c as u32) by {
            vstd::utf8::char_u32_cast(s[0], v);
            if v == c as u32 {
                vstd::utf8::char_u32_cast(c, v);
            }
        }
        let e = encode_scalar(v);
        assert(no_byte(e, b)) by {
            assert(forall|x: u8| #![auto] (0xC0u8 | x) >= 0x80u8) by (bit_vector);
            assert(forall|x: u8| #![auto] (0xE0u8 | x) >= 0x80u8) by (bit_vector);
            assert(forall|x: u8| #![auto] (0xF0u8 | x) >= 0x80u8) by (bit_vector);
            assert(forall|x: u8| #![auto] (0x80u8 | x) >= 0x80u8) by (bit_vector);
            assert(v <= 0x7f ==> ((v & 0x7f) as u8) != b) by (bit_vector)
                requires
                    v != b as u32,
                    b < 128u8,
            ;
        }
        let rest = encode_utf8(s.drop_first());
        assert(encode_utf8(s) == e + rest);
        assert forall|i: int| 0 <= i < encode_utf8(s).len() implies encode_utf8(s)[i] != b by {
            if i < e.len() {
                assert(encode_utf8(s)[i] == e[i]);
            } else {
                assert(encode_utf8(s)[i] == rest[i - e.len()]);
            }
        }
    }
}

proof fn lemma_bar_index_concat(a: Seq<u8>, b: Seq<u8>)
    requires
        no_byte(a, 124),
    ensures
        bar_index(a + b) == a.len() + bar_index(b),
    decreases a.len(),
{
    if a.len() > 0 {
        assert((a + b).drop_first() =~= a.drop_first() + b);
        assert((a + b)[0] == a[0]);
        lemma_bar_index_concat(a.drop_first(), b);
    } else {
        assert(a + b =~= b);
    }
}

proof fn lemma_bar_index_bar(b: Seq<u8>)
    ensures
        bar_index(bar() + b) == 0,
{
    assert((bar() + b)[0] == 124);
}

proof fn lemma_trim_padded(p: Seq<u8>, n: nat)
    requires
        p.len() > 0,
        p.last() != 0,
    ensures
        trim_nul(p + zeros(n)) == p,
    decreases n,
{
    if n > 0 {
        assert((p + zeros(n)).drop_last() =~= p + zeros((n - 1) as nat));
        assert((p + zeros(n)).last() == 0);
        lemma_trim_padded(p, (n - 1) as nat);
    } else {
        assert(p + zeros(n) =~= p);
    }
}

proof fn lemma_digits_no_bar(s: Seq<u8>)
    requires
        all_digits(s),
    ensures
        no_byte(s, 124),
{
    assert forall|i: int| 0 <= i < s.len() implies s[i] != 124 by {
        assert(crate::decimal::is_digit(s[i]));
    }
}

/// The fields after a message tag read back as written.
proof fn lemma_message_fields(ts: u64, a: Seq<char>, t: Seq<char>)
    requires
        no_char(a, '|'),
    ensures
        message_fields(dec(ts as nat) + bar() + encode_utf8(a) + bar() + encode_utf8(t)) == Some(
            (ts, a, t),
        ),
{
    let d = dec(ts as nat);
    let ea = encode_utf8(a);
    let et = encode_utf8(t);
    let r = d + bar() + ea + bar() + et;
    lemma_dec_shape(ts as nat);
    lemma_digits_no_bar(d);
    lemma_parse_dec(ts);
    lemma_encode_no_ascii(a, '|', 124u8);
    assert(r =~= d + (bar() + ea + bar() + et));
    lemma_bar_index_concat(d, bar() + ea + bar() + et);
    lemma_bar_index_bar(ea + bar() + et);
    assert(bar_index(r) == d.len());
    assert(r.take(d.len() as int) =~= d);
    let r2 = r.skip(d.len() as int + 1);
    assert(r2 =~= ea + (bar() + et));
    lemma_bar_index_concat(ea, bar() + et);
    lemma_bar_index_bar(et);
    assert(r2.take(ea.len() as int) =~= ea);
    assert(r2.skip(ea.len() as int + 1) =~= et);
    encode_utf8_valid_utf8(a);
    encode_utf8_valid_utf8(t);
    encode_utf8_decode_utf8(a);
    encode_utf8_decode_utf8(t);
}

proof fn lemma_tagged_payload(tag: Seq<u8>, rest: Seq<u8>, t: Seq<char>)
    requires
        tag.len() == 6,
        no_byte(tag, 124),
        ends_clean(t),
        rest.len() >= encode_utf8(t).len() + 1,
        rest.skip(rest.len() - encode_utf8(t).len() - 1) == bar() + encode_utf8(t),
        tag.len() + 1 + rest.len() <= MEMO_CAPACITY,
    ensures
        ({
            let p = tag + (bar() + rest);
            let q = trim_nul(padded(p));
            &&& q == p
            &&& bar_index(q) == 6
            &&& q.take(6) == tag
            &&& q.skip(7) == rest
        }),
{
    let p = tag + (bar() + rest);
    let et = encode_utf8(t);
    let k = rest.len() - et.len() - 1;
    if t.len() > 0 {
        let c = seq![t.last()];
        assert(t =~= t.drop_last() + c);
        crate::text::lemma_encode_concat(t.drop_last(), c);
        assert(no_char(c, '\0'));
        lemma_encode_no_ascii(c, '\0', 0u8);
        assert(c.drop_first() =~= Seq::<char>::empty());
        assert(encode_utf8(c).len() > 0);
        assert(et.last() == encode_utf8(c).last());
    }
    if et.len() > 0 {
        assert(rest.last() == (bar() + et)[et.len() as int]);
        assert(p.last() == et.last());
    } else {
        assert(rest.last() == (bar() + et)[0]);
    }
    lemma_trim_padded(p, (MEMO_CAPACITY - p.len()) as nat);
    lemma_bar_index_concat(tag, bar() + rest);
    lemma_bar_index_bar(rest);
    assert(p.take(6) =~= tag);
    assert(p.skip(7) =~= rest);
}

/// Round trip: a v1 or v2 message whose payload fits the memo, whose third
/// field holds no `|` and whose text does not end in NUL, is read back from its
/// memo exactly as it was written (a v1 memo carries an identifier where v2
/// carries the sender's address).
pub proof fn lemma_message_round_trip(m: PayloadModel)
    requires
        carries_unchanged(m),
        payload_bytes(m).len() <= MEMO_CAPACITY,
    ensures
        decode_spec(padded(payload_bytes(m))) == Some(m),
{
    let (tag, ts, a, t) = match m {
        PayloadModel::MessageV1 { timestamp, id, text } => (tag_v1(), timestamp, id, text),
        PayloadModel::MessageV2 { timestamp, sender, text } => (tag_v2(), timestamp, sender, text),
        _ => (tag_v1(), 0u64, Seq::<char>::empty(), Seq::<char>::empty()),
    };
    let rest = dec(ts as nat) + bar() + encode_utf8(a) + bar() + encode_utf8(t);
    let p = payload_bytes(m);
    assert(p =~= tag + (bar() + rest));
    assert(rest.skip(rest.len() - encode_utf8(t).len() - 1) =~= bar() + encode_utf8(t));
    assert(no_byte(tag, 124));
    lemma_tagged_payload(tag, rest, t);
    lemma_message_fields(ts, a, t);
    assert(tag_v1()[5] != tag_v2()[5]);
}

proof fn lemma_ascii_valid(b: Seq<u8>)
    requires
        forall|i: int| 0 <= i < b.len() ==> b[i] < 128,
    ensures
        valid_utf8(b),
{
    assert(b.subrange(0, 0) =~= Seq::<u8>::empty());
    assert(partial_valid_utf8(b, 0));
    partial_valid_utf8_extend_ascii_block(b, 0, b.len() as int);
    assert(b.subrange(0, b.len() as int) =~= b);
}

proof fn lemma_dec_valid(n: nat)
    ensures
        valid_utf8(dec(n)),
{
    lemma_dec_shape(n);
    assert forall|i: int| 0 <= i < dec(n).len() implies dec(n)[i] < 128 by {
        assert(crate::decimal::is_digit(dec(n)[i]));
    }
    lemma_ascii_valid(dec(n));
}

proof fn lemma_message_valid(tag: Seq<u8>, ts: u64, a: Seq<char>, t: Seq<char>)
    requires
        valid_utf8(tag),
    ensures
        valid_utf8(tag + bar() + dec(ts as nat) + bar() + encode_utf8(a) + bar() + encode_utf8(t)),
{
    lemma_ascii_valid(bar());
    lemma_dec_valid(ts as nat);
    encode_utf8_valid_utf8(a);
    encode_utf8_valid_utf8(t);
    let x1 = tag + bar();
    valid_utf8_concat(tag, bar());
    let x2 = x1 + dec(ts as nat);
    valid_utf8_concat(x1, dec(ts as nat));
    let x3 = x2 + bar();
    valid_utf8_concat(x2, bar());
    let x4 = x3 + encode_utf8(a);
    valid_utf8_concat(x3, encode_utf8(a));
    let x5 = x4 + bar();
    valid_utf8_concat(x4, bar());
    valid_utf8_concat(x5, encode_utf8(t));
}

/// Every payload is valid UTF-8.
proof fn lemma_payload_valid(m: PayloadModel)
    ensures
        valid_utf8(payload_bytes(m)),
{
    lemma_ascii_valid(tag_v1());
    lemma_ascii_valid(tag_v2());
    lemma_ascii_valid(tag_rotation());
    lemma_ascii_valid(bar());
    match m {
        PayloadModel::MessageV1 { timestamp, id, text } => {
            lemma_message_valid(tag_v1(), timestamp, id, text);
        },
        PayloadModel::MessageV2 { timestamp, sender, text } => {
            lemma_message_valid(tag_v2(), timestamp, sender, text);
        },
        PayloadModel::Rotation { new_address, timestamp } => {
            lemma_dec_valid(timestamp as nat);
            encode_utf8_valid_utf8(new_address);
            let x1 = tag_rotation() + bar();
            valid_utf8_concat(tag_rotation(), bar());
            let x2 = x1 + encode_utf8(new_address);
            valid_utf8_concat(x1, encode_utf8(new_address));
            let x3 = x2 + bar();
            valid_utf8_concat(x2, bar());
            valid_utf8_concat(x3, dec(timestamp as nat));
        },
        PayloadModel::PlainText { text } => {
            encode_utf8_valid_utf8(text);
        },
    }
}

/// The text of a rotation announcement, `ZROTv1|<new_address>|<timestamp>`,
/// refused like any payload longer than a memo holds.
pub fn build_rotation_memo(new_address: String, timestamp: u64) -> (r: Result<String, MemoError>)
    ensures
        ({
            let p = payload_bytes(PayloadModel::Rotation { new_address: new_address@, timestamp });
            &&& r is Ok <==> p.len() <= MEMO_CAPACITY
            &&& r matches Ok(text) ==> encode_utf8(text@) == p
            &&& r matches Err(e) ==> e == (MemoError::MemoTooLong { len: p.len() as usize })
        }),
{
    let m = MemoPayload::Rotation { new_address, timestamp };
    let bytes = payload_to_bytes(&m);
    let len = bytes.len();
    if len > MEMO_CAPACITY {
        return Err(MemoError::MemoTooLong { len });
    }
    proof {
        lemma_payload_valid(m@);
        decode_utf8_encode_utf8(bytes@);
    }
    match utf8_to_string(bytes) {
        Some(text) => Ok(text),
        None => {
            assert(false);
            Err(MemoError::MemoTooLong { len })
        },
    }
}

} // verus!
