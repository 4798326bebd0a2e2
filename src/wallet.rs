//! What the wallet's host calls: composing the transfers that carry chat
//! messages, and the wallet's fixed settings.

use vstd::prelude::*;
use crate::memo::{MemoError, MemoPayload, PayloadModel, encode_memo, padded, payload_bytes, MEMO_CAPACITY};
use crate::hexfmt::{hex_of, to_hex, lemma_hex_len};
use vstd::utf8::encode_utf8;
use crate::decimal::dec;

verus! {

/// The smallest amount, in zatoshis, that a message transfer carries.
pub const MIN_AMOUNT: u64 = 10000;

/// Why a message transfer could not be composed.
#[derive(Debug, Clone, PartialEq, Eq, Structural)]
pub enum SendError {
    /// The recipient is not a Zcash address that can receive a memo.
    InvalidAddress,
    /// The amount is below `MIN_AMOUNT`.
    AmountTooSmall { amount: u64 },
    /// The message does not fit in a memo.
    Memo(MemoError),
}

/// A transfer for the wallet engine to build, sign and send.
#[derive(Debug, Clone, PartialEq, Eq)]
pub struct OutgoingMessage {
    pub to_address: String,
    pub amount: u64,
    /// The memo field, `MEMO_CAPACITY` bytes.
    pub memo: Vec<u8>,
}

/// Whether the text decodes as a Zcash address that can receive a memo
/// (a Sapling or Sprout address, or a unified address with a shielded
/// receiver), as the `zcash_address` crate decodes addresses.
pub uninterp spec fn receives_memo(s: Seq<char>) -> bool;

/// Relies on `zcash_address::ZcashAddress::try_from_encoded` and
/// `ZcashAddress::can_receive_memo`: the text decodes as an address, and
/// that address can receive a memo.
#[verifier::external_body]
fn memo_capable_address(s: &str) -> (r: bool)
    ensures
        r == receives_memo(s@),
{
    match zcash_address::ZcashAddress::try_from_encoded(s) {
        Ok(address) => address.can_receive_memo(),
        Err(_) => false,
    }
}

/// Relies on `rand::random`: eight bytes from the thread-local generator.
#[verifier::external_body]
fn random_id_bytes() -> (r: Vec<u8>)
    ensures
        r@.len() == 8,
{
    rand::random::<[u8; 8]>().to_vec()
}

/// Whether `address` is a Zcash address that can receive a memo.
pub fn is_valid_address(address: &String) -> (r: bool)
    ensures
        r == receives_memo(address@),
{
    memo_capable_address(address.as_str())
}

/// The transfer of a v2 message, which names its sender: to a Zcash
/// address, of at least `MIN_AMOUNT`, with a memo that holds the message.
pub fn prepare_message(
    to_address: String,
    amount: u64,
    text: String,
    sender: String,
    timestamp: u64,
) -> (r: Result<OutgoingMessage, SendError>)
    ensures
        ({
            let p = payload_bytes(
                PayloadModel::MessageV2 { timestamp, sender: sender@, text: text@ },
            );
            &&& !receives_memo(to_address@) ==> r == Err::<OutgoingMessage, SendError>(
                SendError::InvalidAddress,
            )
            &&& receives_memo(to_address@) && amount < MIN_AMOUNT ==> r == Err::<
                OutgoingMessage,
                SendError,
            >(SendError::AmountTooSmall { amount })
            &&& receives_memo(to_address@) && amount >= MIN_AMOUNT && p.len() > MEMO_CAPACITY
                ==> r == Err::<OutgoingMessage, SendError>(
                SendError::Memo(MemoError::MemoTooLong { len: p.len() as usize }),
            )
            &&& r is Ok <==> receives_memo(to_address@) && amount >= MIN_AMOUNT && p.len()
                <= MEMO_CAPACITY
            &&& r matches Ok(m) ==> m.to_address@ == to_address@ && m.amount == amount && m.memo@
                == padded(p)
        }),
{
    if !is_valid_address(&to_address) {
        return Err(SendError::InvalidAddress);
    }
    if amount < MIN_AMOUNT {
        return Err(SendError::AmountTooSmall { amount });
    }
    match encode_memo(&MemoPayload::MessageV2 { timestamp, sender, text }) {
        Ok(memo) => Ok(OutgoingMessage { to_address, amount, memo }),
        Err(e) => Err(SendError::Memo(e)),
    }
}

/// The transfer of a v1 message whose identifier is the hexadecimal text of
/// `random`: `MIN_AMOUNT` to a Zcash address.
pub fn compose_message_v1(to_address: String, text: String, timestamp: u64, random: &Vec<u8>) -> (r:
    Result<OutgoingMessage, SendError>)
    ensures
        ({
            let p = payload_bytes(
                PayloadModel::MessageV1 { timestamp, id: hex_of(random@), text: text@ },
            );
            &&& !receives_memo(to_address@) ==> r == Err::<OutgoingMessage, SendError>(
                SendError::InvalidAddress,
            )
            &&& receives_memo(to_address@) && p.len() > MEMO_CAPACITY ==> r == Err::<
                OutgoingMessage,
                SendError,
            >(SendError::Memo(MemoError::MemoTooLong { len: p.len() as usize }))
            &&& r is Ok <==> receives_memo(to_address@) && p.len() <= MEMO_CAPACITY
            &&& r matches Ok(m) ==> m.to_address@ == to_address@ && m.amount == MIN_AMOUNT
                && m.memo@ == padded(p)
        }),
{
    if !is_valid_address(&to_address) {
        return Err(SendError::InvalidAddress);
    }
    let id = to_hex(random);
    match encode_memo(&MemoPayload::MessageV1 { timestamp, id, text }) {
        Ok(memo) => Ok(OutgoingMessage { to_address, amount: MIN_AMOUNT, memo }),
        Err(e) => Err(SendError::Memo(e)),
    }
}

/// The v1 payload of a message whose identifier is the hexadecimal text of
/// `random`.
pub open spec fn v1_payload(timestamp: u64, random: Seq<u8>, text: Seq<char>) -> Seq<u8> {
    payload_bytes(PayloadModel::MessageV1 { timestamp, id: hex_of(random), text })
}

proof fn lemma_v1_payload_len(timestamp: u64, b: Seq<u8>, text: Seq<char>)
    ensures
        v1_payload(timestamp, b, text).len() == 9 + dec(timestamp as nat).len() + 2 * b.len()
            + encode_utf8(text).len(),
{
    lemma_hex_len(b);
}

/// The transfer of a v1 message with a fresh random identifier of eight
/// bytes. Its length does not depend on the bytes drawn, so whether it fits
/// does not either.
pub fn send_message_dm(to_address: String, text: String, timestamp: u64) -> (r: Result<
    OutgoingMessage,
    SendError,
>)
    ensures
        !receives_memo(to_address@) ==> r == Err::<OutgoingMessage, SendError>(
            SendError::InvalidAddress,
        ),
        forall|b: Seq<u8>|
            b.len() == 8 ==> {
                &&& (r is Ok <==> receives_memo(to_address@) && #[trigger] v1_payload(
                    timestamp,
                    b,
                    text@,
                ).len() <= MEMO_CAPACITY)
                &&& (receives_memo(to_address@) && v1_payload(timestamp, b, text@).len()
                    > MEMO_CAPACITY ==> r == Err::<OutgoingMessage, SendError>(
                    SendError::Memo(
                        MemoError::MemoTooLong {
                            len: v1_payload(timestamp, b, text@).len() as usize,
                        },
                    ),
                ))
            },
        r matches Ok(m) ==> m.to_address@ == to_address@ && m.amount == MIN_AMOUNT && exists|
            b: Seq<u8>,
        | b.len() == 8 && m.memo@ == padded(#[trigger] v1_payload(timestamp, b, text@)),
{
    let random = random_id_bytes();
    let r = compose_message_v1(to_address, text, timestamp, &random);
    proof {
        assert forall|b: Seq<u8>| b.len() == 8 implies #[trigger] v1_payload(timestamp, b, text@).len()
            == v1_payload(timestamp, random@, text@).len() by {
            lemma_v1_payload_len(timestamp, b, text@);
            lemma_v1_payload_len(timestamp, random@, text@);
        }
        if r is Ok {
            assert(v1_payload(timestamp, random@, text@) == payload_bytes(
                PayloadModel::MessageV1 { timestamp, id: hex_of(random@), text: text@ },
            ));
        }
    }
    r
}

/// The name of the network the wallet works on.
pub fn get_network_name() -> (r: String)
    ensures
        r@ == seq!['m', 'a', 'i', 'n'],
{
    proof {
        reveal_strlit("main");
    }
    "main".to_owned()
}

/// The chain data service the wallet uses unless told otherwise.
pub fn get_lightwalletd_url() -> (r: String)
    ensures
        r@ == "http://188.166.42.201:9067"@,
{
    "http://188.166.42.201:9067".to_owned()
}

} // verus!
