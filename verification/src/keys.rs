//! Peer identities: Ed25519 public keys and their reference-component text.
//!
//! A public key doubles as the namespace component of remote-tracking
//! references, in its human-readable multibase encoding. The encoding is
//! done by `radicle_crypto`; the two trusted items below say exactly how the
//! encoder and the parser relate, and everything else is proved from that.

use vstd::prelude::*;

verus! {

/// Number of bytes in an Ed25519 public key.
pub const KEY_SIZE: usize = 32;

/// The human-readable text that a 32-byte public key encodes to
/// (multibase base58-btc of the multicodec-prefixed key bytes).
pub uninterp spec fn key_text(bytes: Seq<u8>) -> Seq<u8>;

/// Bytes that may appear in the text of an encoded key: ASCII letters and
/// digits (the multibase prefix `z` and the base58-btc alphabet).
pub open spec fn is_key_char(c: u8) -> bool {
    (48 <= c <= 57) || (65 <= c <= 90) || (97 <= c <= 122)
}

/// Relies on `radicle_crypto::PublicKey::to_human`: the multibase
/// (base58-btc) text of the key bytes, a function of the bytes alone. Every
/// byte of the text is an ASCII letter or digit, and the text is nonempty.
#[verifier::external_body]
fn encode_key(bytes: &Vec<u8>) -> (r: Vec<u8>)
    requires
        bytes@.len() == KEY_SIZE,
    ensures
        r@ == key_text(bytes@),
        r@.len() > 0,
        forall|i: int| 0 <= i < r@.len() ==> is_key_char(#[trigger] r@[i]),
{
    let arr: [u8; 32] = bytes.as_slice().try_into().expect("checked length");
    radicle_crypto::PublicKey::from_bytes(arr).to_human().into_bytes()
}

/// Relies on `radicle_crypto::PublicKey::from_str`: parsing the
/// human-readable form. On the text that a key's bytes encode to, it returns
/// exactly those bytes (the encoder and parser round-trip); on text that is
/// no key's encoding and still parses (another multibase alphabet), nothing
/// more is claimed than the length; and it fails only on text that is no
/// key's encoding.
#[verifier::external_body]
fn decode_key(text: &Vec<u8>) -> (r: Option<Vec<u8>>)
    ensures
        match r {
            Some(b) => b@.len() == KEY_SIZE && (forall|b2: Seq<u8>|
                b2.len() == KEY_SIZE && key_text(b2) == text@ ==> b@ == b2),
            None => forall|b2: Seq<u8>| b2.len() == KEY_SIZE ==> key_text(b2) != text@,
        },
{
    let s = match std::str::from_utf8(text.as_slice()) {
        Ok(s) => s,
        Err(_) => return None,
    };
    let pk: radicle_crypto::PublicKey = match s.parse() {
        Ok(pk) => pk,
        Err(_) => return None,
    };
    Some(pk.into_inner().to_vec())
}

/// An Ed25519 public key, identifying a peer.
#[derive(Debug)]
pub struct PublicKey {
    bytes: Vec<u8>,
}

impl View for PublicKey {
    type V = Seq<u8>;

    closed spec fn view(&self) -> Seq<u8> {
        self.bytes@
    }
}

impl Clone for PublicKey {
    fn clone(&self) -> (r: Self)
        ensures
            r@ == self@,
    {
        let bytes = self.bytes.clone();
        proof {
            assert(bytes@ =~= self@);
        }
        PublicKey { bytes }
    }
}

impl PartialEq for PublicKey {
    fn eq(&self, other: &PublicKey) -> (r: bool) {
        let r = self.bytes == other.bytes;
        proof {
            if r {
                assert(self@ =~= other@);
            } else {
                assert(self@ != other@);
            }
        }
        r
    }
}

impl vstd::std_specs::cmp::PartialEqSpecImpl for PublicKey {
    open spec fn obeys_eq_spec() -> bool {
        true
    }

    open spec fn eq_spec(&self, other: &PublicKey) -> bool {
        self@ == other@
    }
}

impl PublicKey {
    /// Well-formed keys hold exactly [`KEY_SIZE`] bytes.
    pub open spec fn wf(&self) -> bool {
        self@.len() == KEY_SIZE
    }

    /// Make a public key out of its bytes; `None` unless exactly
    /// [`KEY_SIZE`] bytes are given.
    pub fn from_bytes(bytes: Vec<u8>) -> (r: Option<PublicKey>)
        ensures
            match r {
                Some(pk) => pk.wf() && pk@ == bytes@ && bytes@.len() == KEY_SIZE,
                None => bytes@.len() != KEY_SIZE,
            },
    {
        if bytes.len() == KEY_SIZE {
            Some(PublicKey { bytes })
        } else {
            None
        }
    }

    /// The raw bytes of the key.
    pub fn bytes(&self) -> (r: &Vec<u8>)
        ensures
            r@ == self@,
    {
        &self.bytes
    }

    /// The text of this key as it appears as a reference-name component.
    pub fn to_component(&self) -> (r: Vec<u8>)
        requires
            self.wf(),
        ensures
            r@ == key_text(self@),
            r@.len() > 0,
            forall|i: int| 0 <= i < r@.len() ==> is_key_char(#[trigger] r@[i]),
    {
        encode_key(&self.bytes)
    }

    /// Parse a reference-name component as a public key.
    ///
    /// On the component text of a well-formed key this returns exactly that
    /// key; on text that no key encodes to it either fails or — for text in
    /// another accepted alphabet — returns some key, of which nothing more
    /// is known.
    pub fn parse_component(text: &Vec<u8>) -> (r: Option<PublicKey>)
        ensures
            match r {
                Some(pk) => pk.wf() && (forall|b2: Seq<u8>|
                    b2.len() == KEY_SIZE && key_text(b2) == text@ ==> pk@ == b2),
                None => forall|b2: Seq<u8>| b2.len() == KEY_SIZE ==> key_text(b2) != text@,
            },
    {
        match decode_key(text) {
            Some(bytes) => Some(PublicKey { bytes }),
            None => None,
        }
    }
}

} // verus!
