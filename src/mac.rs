//! The keyed tag of a candidate, and its comparison with the target tag.
use crypto::hmac::Hmac;
use crypto::mac::Mac;
use crypto::sha2::Sha256;
use vstd::prelude::*;

verus! {

/// Longest key or message that the HMAC computation takes: SHA-256 counts the
/// bits it hashes in a `u64`, and the inner hash takes 64 bytes of key pad
/// before the message.
pub const MAX_HMAC_INPUT_LEN: u64 = 0x1fff_ffff_ffff_ffbf;

/// The HMAC-SHA256 tag of `message` under `key`.
pub uninterp spec fn hmac_sha256(key: Seq<u8>, message: Seq<u8>) -> Seq<u8>;

/// `key` authenticates `message` with `tag`.
pub open spec fn key_verifies(key: Seq<u8>, message: Seq<u8>, tag: Seq<u8>) -> bool {
    hmac_sha256(key, message) == tag
}

/// Relies on rust-crypto's `Hmac::<Sha256>` (`new`, `input`, `result`): the
/// HMAC-SHA256 tag of `message` under `key`, which depends on those bytes alone.
/// Its SHA-256 panics once the count of hashed bits overflows a `u64`.
#[verifier::external_body]
fn compute_tag(key: &[u8], message: &[u8]) -> (r: Vec<u8>)
    requires
        key@.len() <= MAX_HMAC_INPUT_LEN,
        message@.len() <= MAX_HMAC_INPUT_LEN,
    ensures
        r@ == hmac_sha256(key@, message@),
{
    let mut mac = Hmac::new(Sha256::new(), key);
    mac.input(message);
    mac.result().code().to_vec()
}

/// Byte-for-byte equality, lengths included.
pub fn tags_match(tag: &[u8], target: &[u8]) -> (r: bool)
    ensures
        r == (tag@ == target@),
{
    if tag.len() != target.len() {
        return false;
    }
    let mut i: usize = 0;
    while i < tag.len()
        invariant
            tag@.len() == target@.len(),
            i <= tag@.len(),
            forall|j: int| 0 <= j < i ==> tag@[j] == target@[j],
        decreases tag@.len() - i,
    {
        if tag[i] != target[i] {
            return false;
        }
        i = i + 1;
    }
    assert(tag@ =~= target@);
    true
}

/// Whether `key` reproduces `target` as the tag of `signing_input`.
pub fn verify(key: &[u8], signing_input: &[u8], target: &[u8]) -> (r: bool)
    requires
        key@.len() <= MAX_HMAC_INPUT_LEN,
        signing_input@.len() <= MAX_HMAC_INPUT_LEN,
    ensures
        r == key_verifies(key@, signing_input@, target@),
{
    let tag = compute_tag(key, signing_input);
    tags_match(tag.as_slice(), target)
}

/// A key always verifies against the tag that it produces itself.
pub proof fn lemma_round_trip(key: Seq<u8>, signing_input: Seq<u8>)
    ensures
        key_verifies(key, signing_input, hmac_sha256(key, signing_input)),
{
}

} // verus!
