//! The key-event-log vocabulary: the field labels of key-event messages
//! and the log access interface.
//!
//! Each struct stands for one labelled field of a key-event message; its
//! identifier is the label the wire format uses.

use vstd::prelude::*;

verus! {

/// A key event. No variants are defined yet.
pub enum KeyEvent {
    /// Placeholder until event kinds are modelled.
    Unspecified,
}

/// A labelled field of a key-event message.
pub trait Key {
    /// The field's label on the wire.
    fn identifier() -> (r: &'static str);
}

/// v: Version String
pub struct Version {
    pub value: Vec<u8>,
}

impl Key for Version {
    fn identifier() -> &'static str {
        "v"
    }
}

/// i: Identifier Prefix
pub struct IdentifierPrefix {
    pub value: Vec<u8>,
}

impl Key for IdentifierPrefix {
    fn identifier() -> &'static str {
        "i"
    }
}

/// s: Sequence Number
pub struct SequenceNumber {
    pub value: u64,
}

impl Key for SequenceNumber {
    fn identifier() -> &'static str {
        "s"
    }
}

/// t: Message Type
pub struct MessageType;

impl Key for MessageType {
    fn identifier() -> &'static str {
        "t"
    }
}

/// d: Event Digest (Seal or Receipt)
pub struct EventDigest;

impl Key for EventDigest {
    fn identifier() -> &'static str {
        "d"
    }
}

/// p: Prior Event Digest
pub struct PriorEventDigest;

impl Key for PriorEventDigest {
    fn identifier() -> &'static str {
        "p"
    }
}

/// kt: Keys Signing Threshold
pub struct KeysThreshold {
    pub value: u64,
}

impl Key for KeysThreshold {
    fn identifier() -> &'static str {
        "kt"
    }
}

/// k: List of Signing Keys (ordered key set)
pub struct SigningKeys;

impl Key for SigningKeys {
    fn identifier() -> &'static str {
        "k"
    }
}

/// n: Next Key Set Commitment
pub struct NextKeySetCommitment;

impl Key for NextKeySetCommitment {
    fn identifier() -> &'static str {
        "n"
    }
}

/// wt: Witnessing Threshold
pub struct WitnessingThreshold;

impl Key for WitnessingThreshold {
    fn identifier() -> &'static str {
        "wt"
    }
}

/// w: List of Witnesses (ordered witness set)
pub struct Witnesses;

impl Key for Witnesses {
    fn identifier() -> &'static str {
        "w"
    }
}

/// wr: List of Witnesses to Remove (ordered witness set)
pub struct RemoveWitnesses;

impl Key for RemoveWitnesses {
    fn identifier() -> &'static str {
        "wr"
    }
}

/// wa: List of Witnesses to Add (ordered witness set)
pub struct AddWitnesses;

impl Key for AddWitnesses {
    fn identifier() -> &'static str {
        "wa"
    }
}

/// c: List of Configuration Traits/Modes
pub struct ConfigurationModes;

impl Key for ConfigurationModes {
    fn identifier() -> &'static str {
        "c"
    }
}

/// a: List of Anchors (seals)
pub struct Anchors;

impl Key for Anchors {
    fn identifier() -> &'static str {
        "a"
    }
}

/// da: Delegator Anchor Seal in Delegated Event (Location Seal)
pub struct DelegateAnchor;

impl Key for DelegateAnchor {
    fn identifier() -> &'static str {
        "da"
    }
}

/// di: Delegator Identifier Prefix in Key State
pub struct DelegatorIdentifier;

impl Key for DelegatorIdentifier {
    fn identifier() -> &'static str {
        "di"
    }
}

/// rd: Merkle Tree Root Digest
pub struct RootDigest;

impl Key for RootDigest {
    fn identifier() -> &'static str {
        "rd"
    }
}

/// e: Last received Event Map in Key State
pub struct ReceivedEventMap;

impl Key for ReceivedEventMap {
    fn identifier() -> &'static str {
        "e"
    }
}

/// ee: Last Establishment Event Map in Key State
pub struct EstablishedEventMap;

impl Key for EstablishedEventMap {
    fn identifier() -> &'static str {
        "ee"
    }
}

/// vn: Version Number ("major.minor")
pub struct VersionNumber {
    pub major: u64,
    pub minor: u64,
}

impl Key for VersionNumber {
    fn identifier() -> &'static str {
        "vn"
    }
}

/// What a log operation does.
pub enum Operation {
    Create,
    Read,
    Update,
    Deactivate,
}

/// Access to a key-event log.
pub trait Log {
    type Id;

    type Entry;

    /// The entry filed under `id`, if any.
    fn get(&self, id: Self::Id) -> Option<Self::Entry>;

    /// The parent entry of the log's head, if any.
    fn parent(&self) -> Option<Self::Entry>;
}

} // verus!
