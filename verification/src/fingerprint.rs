//! The fingerprint of a message: the lower-case hexadecimal form of the
//! SHA-256 digest of its concatenated fields.
//!
//! Copies are grouped by this fingerprint and by nothing else.

use crate::message::{Message, MessageView};
use vstd::prelude::*;
use vstd::string::*;
use vstd::utf8::encode_utf8;

verus! {

/// The SHA-256 digest of `bytes`, as `near_sdk::env::sha256` computes it.
pub uninterp spec fn sha256_digest(bytes: Seq<u8>) -> Seq<u8>;

/// The number of bytes in a digest.
pub const DIGEST_LEN: usize = 32;

/// The sixteen digits of the lower-case hexadecimal alphabet.
pub open spec fn hex_digits() -> Seq<char> {
    seq!['0', '1', '2', '3', '4', '5', '6', '7', '8', '9', 'a', 'b', 'c', 'd', 'e', 'f']
}

/// Two digits for each byte, the high half first.
pub open spec fn hex_lower(bytes: Seq<u8>) -> Seq<char> {
    Seq::new(
        2 * bytes.len(),
        |i: int|
            if i % 2 == 0 {
                hex_digits()[bytes[i / 2] as int / 16]
            } else {
                hex_digits()[bytes[i / 2] as int % 16]
            },
    )
}

/// The text that is hashed: source and destination ledger, sender, then the
/// action, the contract and the data of the content. The signer and the
/// service options take no part.
pub open spec fn canonical_text(message: MessageView) -> Seq<char> {
    message.from_chain + message.to_chain + message.sender + message.content.action
        + message.content.contract + message.content.data
}

/// The bytes that are hashed: the UTF-8 form of the canonical text.
pub open spec fn canonical_bytes(message: MessageView) -> Seq<u8> {
    encode_utf8(canonical_text(message))
}

/// The fingerprint of a message.
pub open spec fn fingerprint_of(message: MessageView) -> Seq<char> {
    hex_lower(sha256_digest(canonical_bytes(message)))
}

/// Calls `near_sdk::env::sha256`. Trusted: the result is the SHA-256 digest
/// of the input, which is 32 bytes long and depends on the input alone.
#[verifier::external_body]
fn sha256(bytes: &Vec<u8>) -> (digest: Vec<u8>)
    ensures
        digest@ == sha256_digest(bytes@),
        digest@.len() == DIGEST_LEN,
{
    near_sdk::env::sha256(bytes)
}

/// Calls `hex::encode`. Trusted: each byte becomes two lower-case
/// hexadecimal digits, the high half first, in the order of the input. The
/// input must be short enough for a string twice its length to exist.
#[verifier::external_body]
fn hex_encode(bytes: &Vec<u8>) -> (text: String)
    requires
        2 * bytes@.len() <= isize::MAX,
    ensures
        text@ == hex_lower(bytes@),
{
    hex::encode(bytes)
}

/// The bytes of a message that enter its digest.
pub fn message_bytes(message: &Message) -> (bytes: Vec<u8>)
    ensures
        bytes@ == canonical_bytes(message@),
{
    let mut text = message.from_chain.clone();
    text.append(message.to_chain.as_str());
    text.append(message.sender.as_str());
    text.append(message.content.action.as_str());
    text.append(message.content.contract.as_str());
    text.append(message.content.data.as_str());
    text.as_str().as_bytes_vec()
}

/// Writes a digest as a fingerprint.
pub fn digest_text(digest: &Vec<u8>) -> (text: String)
    requires
        digest@.len() == DIGEST_LEN,
    ensures
        text@ == hex_lower(digest@),
{
    hex_encode(digest)
}

/// Values that have a fingerprint.
pub trait ToHash {
    /// The fingerprint as a value of the model.
    spec fn fingerprint(&self) -> Seq<char>;

    /// Computes the fingerprint.
    fn to_hash(&self) -> (hash: String)
        ensures
            hash@ == self.fingerprint(),
    ;
}

impl ToHash for Message {
    open spec fn fingerprint(&self) -> Seq<char> {
        fingerprint_of(self@)
    }

    /// The fingerprint of a message has a fixed length: two digits for each
    /// byte of the digest.
    fn to_hash(&self) -> (hash: String)
        ensures
            hash@.len() == 2 * DIGEST_LEN,
    {
        let bytes = message_bytes(self);
        let digest = sha256(&bytes);
        digest_text(&digest)
    }
}

/// Different byte strings have different hexadecimal forms.
pub proof fn lemma_hex_lower_injective(a: Seq<u8>, b: Seq<u8>)
    requires
        hex_lower(a) == hex_lower(b),
    ensures
        a == b,
{
    assert(hex_lower(a).len() == 2 * a.len());
    assert(hex_lower(b).len() == 2 * b.len());
    assert(a.len() == b.len());
    assert forall|k: int| 0 <= k < a.len() implies a[k] == b[k] by {
        let x = a[k] as int;
        let y = b[k] as int;
        assert(hex_lower(a)[2 * k] == hex_digits()[x / 16]);
        assert(hex_lower(b)[2 * k] == hex_digits()[y / 16]);
        assert(hex_lower(a)[2 * k + 1] == hex_digits()[x % 16]);
        assert(hex_lower(b)[2 * k + 1] == hex_digits()[y % 16]);
        lemma_hex_digits_distinct(x / 16, y / 16);
        lemma_hex_digits_distinct(x % 16, y % 16);
    }
    assert(a =~= b);
}

/// Two messages have the same fingerprint exactly when their digests agree,
/// and they do where the messages agree in the fields that are hashed.
pub proof fn lemma_fingerprint_by_digest(a: MessageView, b: MessageView)
    ensures
        fingerprint_of(a) == fingerprint_of(b) <==> sha256_digest(canonical_bytes(a))
            == sha256_digest(canonical_bytes(b)),
        canonical_text(a) == canonical_text(b) ==> fingerprint_of(a) == fingerprint_of(b),
{
    if fingerprint_of(a) == fingerprint_of(b) {
        lemma_hex_lower_injective(
            sha256_digest(canonical_bytes(a)),
            sha256_digest(canonical_bytes(b)),
        );
    }
}

/// No digit of the alphabet occurs twice.
proof fn lemma_hex_digits_distinct(i: int, j: int)
    requires
        0 <= i < 16,
        0 <= j < 16,
        hex_digits()[i] == hex_digits()[j],
    ensures
        i == j,
{
}

} // verus!
