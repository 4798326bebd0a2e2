//! Hexadecimal text of byte strings, and transaction ids as block explorers
//! show them.

use vstd::prelude::*;
use vstd::utf8::encode_utf8;
use crate::text::lemma_encode_ascii_len;

verus! {

/// The lowercase hexadecimal digit for `n < 16`.
pub open spec fn hex_digit(n: u8) -> char {
    if n < 10 {
        ((48 + n) as u8) as char
    } else {
        ((87 + n) as u8) as char
    }
}

/// Two lowercase hexadecimal digits for each byte, high nibble first.
pub open spec fn hex_of(b: Seq<u8>) -> Seq<char>
    decreases b.len(),
{
    if b.len() == 0 {
        Seq::<char>::empty()
    } else {
        hex_of(b.drop_last()) + seq![hex_digit(b.last() / 16), hex_digit(b.last() % 16)]
    }
}

/// The hexadecimal text of `b` has two characters per byte, each one byte
/// in UTF-8.
pub proof fn lemma_hex_len(b: Seq<u8>)
    ensures
        hex_of(b).len() == 2 * b.len(),
        encode_utf8(hex_of(b)).len() == 2 * b.len(),
{
    lemma_hex_ascii(b);
    lemma_encode_ascii_len(hex_of(b));
}

proof fn lemma_hex_ascii(b: Seq<u8>)
    ensures
        hex_of(b).len() == 2 * b.len(),
        forall|i: int| 0 <= i < hex_of(b).len() ==> (#[trigger] hex_of(b)[i]) as u32 <= 0x7f,
    decreases b.len(),
{
    if b.len() > 0 {
        lemma_hex_ascii(b.drop_last());
        let x = b.last();
        let h = hex_of(b.drop_last());
        let t = seq![hex_digit(x / 16), hex_digit(x % 16)];
        assert(hex_digit(x / 16) as u32 <= 0x7f);
        assert(hex_digit(x % 16) as u32 <= 0x7f);
        assert forall|i: int| 0 <= i < hex_of(b).len() implies (#[trigger] hex_of(b)[i]) as u32 <= 0x7f by {
            if i < h.len() {
                assert(hex_of(b)[i] == h[i]);
            } else {
                assert(hex_of(b)[i] == t[i - h.len()]);
            }
        }
    }
}

/// Relies on `hex::encode`: each byte becomes two lowercase hexadecimal
/// digits, high nibble first.
#[verifier::external_body]
fn hex_encode(b: &[u8]) -> (r: String)
    ensures
        r@ == hex_of(b@),
{
    hex::encode(b)
}

/// The hexadecimal text of `b`.
pub fn to_hex(b: &Vec<u8>) -> (r: String)
    ensures
        r@ == hex_of(b@),
{
    hex_encode(b.as_slice())
}

/// `b` in the opposite byte order.
pub fn reversed(b: &Vec<u8>) -> (r: Vec<u8>)
    ensures
        r@ == b@.reverse(),
{
    let mut r: Vec<u8> = Vec::new();
    let mut i = b.len();
    while i > 0
        invariant
            i <= b@.len(),
            r@.len() == b@.len() - i,
            forall|k: int| 0 <= k < r@.len() ==> r@[k] == b@[b@.len() - 1 - k],
        decreases i,
    {
        i = i - 1;
        r.push(b[i]);
    }
    assert(r@ =~= b@.reverse());
    r
}

/// A transaction id as the chain shows it: the stored (internal) byte order
/// reversed, in hexadecimal.
pub open spec fn display_txid(txid: Seq<u8>) -> Seq<char> {
    hex_of(txid.reverse())
}

/// The display form of a transaction id stored in internal byte order.
pub fn txid_to_display(txid: &Vec<u8>) -> (r: String)
    ensures
        r@ == display_txid(txid@),
{
    to_hex(&reversed(txid))
}

} // verus!
