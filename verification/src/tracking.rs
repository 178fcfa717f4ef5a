//! The local tracking policy: which remote peers are replicated.

use crate::keys::PublicKey;
use vstd::prelude::*;

verus! {

/// How widely to fetch.
#[derive(Clone, Copy, Debug, PartialEq, Eq, Structural)]
pub enum Scope {
    /// Fetch all available remotes.
    All,
    /// Fetch only trusted remotes.
    Trusted,
}

/// The administratively tracked peers.
#[derive(Debug)]
pub struct TrackedSet {
    /// Whether to fetch all available remotes or only the tracked set.
    pub scope: Scope,
    /// The set of tracked remotes.
    pub remotes: Vec<PublicKey>,
}

impl TrackedSet {
    pub open spec fn wf(&self) -> bool {
        forall|i: int| 0 <= i < self.remotes@.len() ==> (#[trigger] self.remotes@[i]).wf()
    }

    /// The tracked keys, as byte strings.
    pub open spec fn remote_keys(&self) -> Seq<Seq<u8>> {
        self.remotes@.map_values(|k: PublicKey| k@)
    }
}

} // verus!
