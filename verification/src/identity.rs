//! Verified identities and their chronological order.
//!
//! Cryptographic verification of an identity document is the storage
//! collaborator's work; the engine receives each verified document as plain
//! data: its content id, its current revision, its delegate set, and the
//! revisions of its history. Two documents compare by history containment;
//! unrelated histories are a fork.

use crate::bytemap::ByteMap;
use crate::bytes::bytes_eq;
use crate::keys::PublicKey;
use crate::oid::Oid;
use vstd::prelude::*;

verus! {

/// A verified identity document.
#[derive(Debug)]
pub struct VerifiedIdentity {
    /// The identity's content identifier.
    pub content_id: Oid,
    /// The identity's current revision.
    pub revision: Oid,
    /// The identity's delegates.
    pub delegates: Vec<PublicKey>,
    /// The revisions of this document and of all its ancestors.
    pub history: Vec<Oid>,
}

impl VerifiedIdentity {
    /// Non-empty delegate set, and the history holds the own revision.
    pub open spec fn wf(&self) -> bool {
        &&& self.delegates@.len() > 0
        &&& forall|i: int| 0 <= i < self.delegates@.len() ==> (#[trigger] self.delegates@[i]).wf()
        &&& self.spec_in_history(self.revision@)
    }

    /// Is the key one of the delegates?
    pub open spec fn spec_is_delegate(&self, k: Seq<u8>) -> bool {
        exists|i: int| 0 <= i < self.delegates@.len() && self.delegates@[i]@ == k
    }

    /// Is the revision in this document's history?
    pub open spec fn spec_in_history(&self, rev: Seq<u8>) -> bool {
        exists|i: int| 0 <= i < self.history@.len() && self.history@[i]@ == rev
    }


    /// A fresh copy of the document.
    pub fn duplicate(&self) -> (r: Self)
        ensures
            r.content_id@ == self.content_id@,
            r.revision@ == self.revision@,
            r.delegates@.len() == self.delegates@.len(),
            forall|i: int|
                0 <= i < self.delegates@.len() ==> (#[trigger] r.delegates@[i])@
                    == self.delegates@[i]@,
            forall|k: Seq<u8>| #[trigger] r.spec_is_delegate(k) == self.spec_is_delegate(k),
            forall|rev: Seq<u8>| #[trigger] r.spec_in_history(rev) == self.spec_in_history(rev),
            r.wf() == self.wf(),
    {
        let content_id = self.content_id.clone();
        let revision = self.revision.clone();
        let mut delegates: Vec<PublicKey> = Vec::new();
        let mut i: usize = 0;
        while i < self.delegates.len()
            invariant
                i <= self.delegates@.len(),
                delegates@.len() == i,
                forall|j: int|
                    0 <= j < i ==> (#[trigger] delegates@[j])@ == self.delegates@[j]@,
            decreases self.delegates@.len() - i,
        {
            delegates.push(self.delegates[i].clone());
            i = i + 1;
        }
        let mut history: Vec<Oid> = Vec::new();
        let mut i: usize = 0;
        while i < self.history.len()
            invariant
                i <= self.history@.len(),
                history@.len() == i,
                forall|j: int| 0 <= j < i ==> (#[trigger] history@[j])@ == self.history@[j]@,
            decreases self.history@.len() - i,
        {
            history.push(self.history[i].clone());
            i = i + 1;
        }
        let r = VerifiedIdentity { content_id, revision, delegates, history };
        proof {
            assert forall|k: Seq<u8>| #[trigger]
                r.spec_is_delegate(k) == self.spec_is_delegate(k) by {
                if r.spec_is_delegate(k) {
                    let j = choose|j: int|
                        0 <= j < r.delegates@.len() && r.delegates@[j]@ == k;
                    assert(self.delegates@[j]@ == k);
                }
                if self.spec_is_delegate(k) {
                    let j = choose|j: int|
                        0 <= j < self.delegates@.len() && self.delegates@[j]@ == k;
                    assert(r.delegates@[j]@ == k);
                }
            }
            assert forall|rev: Seq<u8>| #[trigger]
                r.spec_in_history(rev) == self.spec_in_history(rev) by {
                if r.spec_in_history(rev) {
                    let j = choose|j: int| 0 <= j < r.history@.len() && r.history@[j]@ == rev;
                    assert(self.history@[j]@ == rev);
                }
                if self.spec_in_history(rev) {
                    let j = choose|j: int|
                        0 <= j < self.history@.len() && self.history@[j]@ == rev;
                    assert(r.history@[j]@ == rev);
                }
            }
            assert forall|j: int|
                0 <= j < r.delegates@.len() implies ((#[trigger] r.delegates@[j]).wf()
                == self.delegates@[j].wf()) by {}
            if self.wf() {
                assert forall|j: int|
                    0 <= j < r.delegates@.len() implies (#[trigger] r.delegates@[j]).wf() by {
                    assert(self.delegates@[j].wf());
                }
                assert(r.spec_in_history(r.revision@));
                assert(r.wf());
            }
            if r.wf() {
                assert forall|j: int|
                    0 <= j < self.delegates@.len() implies (#[trigger] self.delegates@[j]).wf() by {
                    assert(r.delegates@[j].wf());
                }
                assert(self.spec_in_history(self.revision@));
                assert(self.wf());
            }
        }
        r
    }

    /// Is the key one of the delegates?
    pub fn is_delegate(&self, k: &PublicKey) -> (r: bool)
        ensures
            r == self.spec_is_delegate(k@),
    {
        let mut i: usize = 0;
        while i < self.delegates.len()
            invariant
                i <= self.delegates@.len(),
                forall|j: int| 0 <= j < i ==> (#[trigger] self.delegates@[j])@ != k@,
            decreases self.delegates@.len() - i,
        {
            if bytes_eq(self.delegates[i].bytes(), k.bytes()) {
                proof {
                    assert(self.delegates@[i as int]@ == k@);
                }
                return true;
            }
            i = i + 1;
        }
        proof {
            if self.spec_is_delegate(k@) {
                let j = choose|j: int|
                    0 <= j < self.delegates@.len() && self.delegates@[j]@ == k@;
                assert(false);
            }
        }
        false
    }

    /// Is the revision in this document's history?
    pub fn in_history(&self, rev: &Oid) -> (r: bool)
        ensures
            r == self.spec_in_history(rev@),
    {
        let mut i: usize = 0;
        while i < self.history.len()
            invariant
                i <= self.history@.len(),
                forall|j: int| 0 <= j < i ==> (#[trigger] self.history@[j])@ != rev@,
            decreases self.history@.len() - i,
        {
            if bytes_eq(self.history[i].bytes(), rev.bytes()) {
                proof {
                    assert(self.history@[i as int]@ == rev@);
                }
                return true;
            }
            i = i + 1;
        }
        proof {
            if self.spec_in_history(rev@) {
                let j = choose|j: int| 0 <= j < self.history@.len() && self.history@[j]@ == rev@;
                assert(false);
            }
        }
        false
    }
}

/// Which of two identities is the more recent.
#[derive(Clone, Copy, Debug, PartialEq, Eq, Structural)]
pub enum Newer {
    /// The first one (its history holds the second's revision).
    Left,
    /// The second one.
    Right,
}

/// Two identities have unrelated histories.
#[derive(Clone, Copy, Debug, PartialEq, Eq, Structural)]
pub enum HistoryError {
    Fork,
}

/// The more recent of two identities: the one whose history holds the
/// other's revision; unrelated histories fork. When each history holds the
/// other's revision, the first wins.
pub fn newer(a: &VerifiedIdentity, b: &VerifiedIdentity) -> (r: Result<Newer, HistoryError>)
    ensures
        match r {
            Ok(n) => match n {
                Newer::Left => a.spec_in_history(b.revision@),
                Newer::Right => !a.spec_in_history(b.revision@) && b.spec_in_history(a.revision@),
            },
            Err(_) => !a.spec_in_history(b.revision@) && !b.spec_in_history(a.revision@),
        },
{
    if a.in_history(&b.revision) {
        Ok(Newer::Left)
    } else if b.in_history(&a.revision) {
        Ok(Newer::Right)
    } else {
        Err(HistoryError::Fork)
    }
}

/// Does the local peer need to confirm an identity change?
///
/// True exactly when the local copy exists, delegates to the local peer,
/// stands at another revision than the newest delegate copy, and is not the
/// more recent of the two — a fork between the histories counts as needing
/// confirmation.
pub open spec fn spec_requires_confirmation(
    ours: Option<&VerifiedIdentity>,
    theirs: &VerifiedIdentity,
    local: Seq<u8>,
) -> bool {
    match ours {
        Some(o) => o.spec_is_delegate(local) && o.revision@ != theirs.revision@ && !o.spec_in_history(
            theirs.revision@,
        ),
        None => false,
    }
}

/// Decide whether the local peer must confirm an identity change.
pub fn requires_confirmation(
    ours: Option<&VerifiedIdentity>,
    theirs: &VerifiedIdentity,
    local: &PublicKey,
) -> (r: bool)
    ensures
        r == spec_requires_confirmation(ours, theirs, local@),
{
    match ours {
        None => false,
        Some(o) => {
            if !o.is_delegate(local) {
                false
            } else if bytes_eq(o.revision.bytes(), theirs.revision.bytes()) {
                false
            } else {
                match newer(o, theirs) {
                    Ok(Newer::Left) => false,
                    Ok(Newer::Right) => true,
                    Err(_) => true,
                }
            }
        },
    }
}

/// Why an identity could not be verified.
#[derive(Debug)]
pub enum IdentityError {
    /// No verified identity stands at this commit.
    Unverified(Oid),
}

/// The identity oracle: the verified identity document at each commit where
/// verification succeeds.
#[derive(Debug)]
pub struct IdentityStore {
    docs: ByteMap<VerifiedIdentity>,
}

impl IdentityStore {
    pub closed spec fn wf(&self) -> bool {
        self.docs.wf()
    }

    /// The verified document at each commit.
    pub closed spec fn doc_map(&self) -> Map<Seq<u8>, VerifiedIdentity> {
        self.docs@
    }

    /// An empty oracle.
    pub fn new() -> (r: IdentityStore)
        ensures
            r.wf(),
            r.doc_map() == Map::<Seq<u8>, VerifiedIdentity>::empty(),
    {
        IdentityStore { docs: ByteMap::new() }
    }

    /// Record that verification at `head` yields `doc`.
    pub fn record(&mut self, head: &Oid, doc: VerifiedIdentity)
        requires
            old(self).wf(),
        ensures
            final(self).wf(),
            final(self).doc_map() == old(self).doc_map().insert(head@, doc),
    {
        let key = head.bytes().clone();
        proof {
            assert(key@ =~= head@);
        }
        self.docs.insert(key, doc);
    }

    /// The verified identity at `head`; verification fails where none is
    /// recorded.
    pub fn verified(&self, head: &Oid) -> (r: Result<&VerifiedIdentity, IdentityError>)
        requires
            self.wf(),
        ensures
            match r {
                Ok(d) => self.doc_map().contains_key(head@) && *d == self.doc_map()[head@],
                Err(_) => !self.doc_map().contains_key(head@),
            },
    {
        match self.docs.get(head.bytes()) {
            Some(d) => Ok(d),
            None => Err(IdentityError::Unverified(head.clone())),
        }
    }
}

} // verus!
