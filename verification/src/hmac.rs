//! Message authentication with HMAC-SHA256, computed by *ring*.

use vstd::prelude::*;

verus! {

/// The HMAC-SHA256 tag of `data` under the key `key` (RFC 2104).
pub uninterp spec fn hmac_sha256(key: Seq<u8>, data: Seq<u8>) -> Seq<u8>;

/// The length of a tag, in bytes.
pub const TAG_LEN: usize = 32;

/// Keys and messages are kept below this length, which is far below the
/// length at which the underlying hash refuses its input.
pub const INPUT_LIMIT: u64 = 0x1000_0000_0000_0000;

/// Computes the tag of `data` under `key`.
///
/// Wraps `ring::hmac::Key::new` with `HMAC_SHA256` and `ring::hmac::sign`. The
/// tag is a function of the key's bytes and the message alone, and is 32 bytes
/// long; *ring* panics only where the padded key and the message together are
/// longer than 2^61 bytes, which the bounds exclude.
#[verifier::external_body]
fn ring_sign(key: &[u8], data: &[u8]) -> (tag: Vec<u8>)
    requires
        key@.len() < INPUT_LIMIT,
        data@.len() < INPUT_LIMIT,
    ensures
        tag@ == hmac_sha256(key@, data@),
        tag@.len() == TAG_LEN,
{
    let key = ring::hmac::Key::new(ring::hmac::HMAC_SHA256, key);
    ring::hmac::sign(&key, data).as_ref().to_vec()
}

/// Tells whether `tag` is the tag of `data` under `key`, comparing in constant time.
///
/// Wraps `ring::hmac::Key::new` with `HMAC_SHA256` and `ring::hmac::verify`,
/// which computes the tag as `ring::hmac::sign` does and accepts exactly where
/// it equals the one given.
#[verifier::external_body]
fn ring_verify(key: &[u8], data: &[u8], tag: &[u8]) -> (ok: bool)
    requires
        key@.len() < INPUT_LIMIT,
        data@.len() < INPUT_LIMIT,
    ensures
        ok == (tag@ == hmac_sha256(key@, data@)),
{
    let key = ring::hmac::Key::new(ring::hmac::HMAC_SHA256, key);
    ring::hmac::verify(&key, data, tag).is_ok()
}

/// A secret key for signing.
pub struct Key {
    value: Vec<u8>,
}

impl View for Key {
    type V = Seq<u8>;

    closed spec fn view(&self) -> Seq<u8> {
        self.value@
    }
}

impl Key {
    #[verifier::type_invariant]
    spec fn short_enough(self) -> bool {
        self.value@.len() < INPUT_LIMIT
    }

    /// The key with the given bytes. `None` where they are too many.
    pub fn new(value: Vec<u8>) -> (r: Option<Key>)
        ensures
            r is Some <==> value@.len() < INPUT_LIMIT,
            r matches Some(key) ==> key@ == value@,
    {
        if (value.len() as u64) < INPUT_LIMIT {
            Some(Key { value })
        } else {
            None
        }
    }
}

/// Calculates the tag of `data` under `key`.
pub fn sign(key: &Key, data: &[u8]) -> (tag: Vec<u8>)
    requires
        data@.len() < INPUT_LIMIT,
    ensures
        tag@ == hmac_sha256(key@, data@),
        tag@.len() == TAG_LEN,
{
    proof {
        use_type_invariant(key);
    }
    ring_sign(key.value.as_slice(), data)
}

/// Calculates the tag of `data` under `key` and tells whether it equals `tag`.
pub fn verify(key: &Key, data: &[u8], tag: &[u8]) -> (ok: bool)
    requires
        data@.len() < INPUT_LIMIT,
    ensures
        ok == (tag@ == hmac_sha256(key@, data@)),
{
    proof {
        use_type_invariant(key);
    }
    ring_verify(key.value.as_slice(), data, tag)
}

} // verus!
