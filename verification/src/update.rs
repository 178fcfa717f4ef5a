//! Pending reference updates and the record of applying them.

use crate::oid::Oid;
use vstd::prelude::*;

verus! {

/// What to do when an update cannot apply cleanly: a direct update that is
/// no fast-forward, or a symbolic update over an existing direct ref.
#[derive(Clone, Copy, Debug, PartialEq, Eq, Structural)]
pub enum Policy {
    /// Abort the entire transaction.
    Abort,
    /// Reject this update, but continue the transaction.
    Reject,
    /// Allow the update.
    Allow,
}

/// The expected previous value of a reference that is pruned: a literal
/// object id, or the value of another reference at commit time.
#[derive(Debug)]
pub enum PrevValue {
    Oid(Oid),
    Name(Vec<u8>),
}

impl Clone for PrevValue {
    fn clone(&self) -> (r: Self)
        ensures
            r.matches_spec(self),
    {
        match self {
            PrevValue::Oid(oid) => PrevValue::Oid(oid.clone()),
            PrevValue::Name(n) => {
                let n2 = n.clone();
                proof {
                    assert(n2@ =~= n@);
                }
                PrevValue::Name(n2)
            },
        }
    }
}

impl PrevValue {
    /// Same variant with equal contents.
    pub open spec fn matches_spec(&self, other: &PrevValue) -> bool {
        match (self, other) {
            (PrevValue::Oid(a), PrevValue::Oid(b)) => a@ == b@,
            (PrevValue::Name(a), PrevValue::Name(b)) => a@ == b@,
            _ => false,
        }
    }
}

/// The target of a symbolic update: the reference it points to, and the
/// object id that reference is to hold.
#[derive(Debug)]
pub struct SymrefTarget {
    pub name: Vec<u8>,
    pub target: Oid,
}

impl Clone for SymrefTarget {
    fn clone(&self) -> (r: Self)
        ensures
            r.name@ == self.name@,
            r.target@ == self.target@,
    {
        let name = self.name.clone();
        proof {
            assert(name@ =~= self.name@);
        }
        SymrefTarget { name, target: self.target.clone() }
    }
}

/// A pending change to the reference store.
#[derive(Debug)]
pub enum Update {
    /// Point `name` at `target`, under the fast-forward policy `no_ff`.
    Direct { name: Vec<u8>, target: Oid, no_ff: Policy },
    /// Make `name` a symbolic ref to `target`, under the `type_change`
    /// policy when `name` exists as a direct ref.
    Symbolic { name: Vec<u8>, target: SymrefTarget, type_change: Policy },
    /// Delete `name`, expecting it to previously hold `prev`.
    Prune { name: Vec<u8>, prev: PrevValue },
}

impl Clone for Update {
    fn clone(&self) -> (r: Self)
        ensures
            r.matches_spec(self),
            r.spec_refname() == self.spec_refname(),
    {
        match self {
            Update::Direct { name, target, no_ff } => {
                let n = name.clone();
                proof {
                    assert(n@ =~= name@);
                }
                Update::Direct { name: n, target: target.clone(), no_ff: *no_ff }
            },
            Update::Symbolic { name, target, type_change } => {
                let n = name.clone();
                proof {
                    assert(n@ =~= name@);
                }
                Update::Symbolic { name: n, target: target.clone(), type_change: *type_change }
            },
            Update::Prune { name, prev } => {
                let n = name.clone();
                proof {
                    assert(n@ =~= name@);
                }
                Update::Prune { name: n, prev: prev.clone() }
            },
        }
    }
}

impl Update {
    /// The name the update is about.
    pub open spec fn spec_refname(&self) -> Seq<u8> {
        match self {
            Update::Direct { name, .. } => name@,
            Update::Symbolic { name, .. } => name@,
            Update::Prune { name, .. } => name@,
        }
    }

    /// Same variant with equal contents.
    pub open spec fn matches_spec(&self, other: &Update) -> bool {
        match (self, other) {
            (
                Update::Direct { name: n1, target: t1, no_ff: p1 },
                Update::Direct { name: n2, target: t2, no_ff: p2 },
            ) => n1@ == n2@ && t1@ == t2@ && p1 == p2,
            (
                Update::Symbolic { name: n1, target: t1, type_change: p1 },
                Update::Symbolic { name: n2, target: t2, type_change: p2 },
            ) => n1@ == n2@ && t1.name@ == t2.name@ && t1.target@ == t2.target@ && p1 == p2,
            (
                Update::Prune { name: n1, prev: p1 },
                Update::Prune { name: n2, prev: p2 },
            ) => n1@ == n2@ && p1.matches_spec(p2),
            _ => false,
        }
    }

    /// The name the update is about.
    pub fn refname(&self) -> (r: &Vec<u8>)
        ensures
            r@ == self.spec_refname(),
    {
        match self {
            Update::Direct { name, .. } => name,
            Update::Symbolic { name, .. } => name,
            Update::Prune { name, .. } => name,
        }
    }
}

/// A change that was applied to the reference store, with the previous
/// object id observed at commit.
#[derive(Debug)]
pub enum Updated {
    Direct { name: Vec<u8>, prev: Oid, target: Oid },
    Symbolic { name: Vec<u8>, prev: Oid, target: Vec<u8> },
    Prune { name: Vec<u8>, prev: Oid },
}

impl Clone for Updated {
    fn clone(&self) -> (r: Self)
        ensures
            r.spec_name() == self.spec_name(),
            r.spec_prev() == self.spec_prev(),
    {
        match self {
            Updated::Direct { name, prev, target } => {
                let n = name.clone();
                proof {
                    assert(n@ =~= name@);
                }
                Updated::Direct { name: n, prev: prev.clone(), target: target.clone() }
            },
            Updated::Symbolic { name, prev, target } => {
                let n = name.clone();
                let t = target.clone();
                proof {
                    assert(n@ =~= name@);
                    assert(t@ =~= target@);
                }
                Updated::Symbolic { name: n, prev: prev.clone(), target: t }
            },
            Updated::Prune { name, prev } => {
                let n = name.clone();
                proof {
                    assert(n@ =~= name@);
                }
                Updated::Prune { name: n, prev: prev.clone() }
            },
        }
    }
}

impl Updated {
    /// The name of the reference that changed.
    pub open spec fn spec_name(&self) -> Seq<u8> {
        match self {
            Updated::Direct { name, .. } => name@,
            Updated::Symbolic { name, .. } => name@,
            Updated::Prune { name, .. } => name@,
        }
    }

    /// The previous object id observed at commit.
    pub open spec fn spec_prev(&self) -> Seq<u8> {
        match self {
            Updated::Direct { prev, .. } => prev@,
            Updated::Symbolic { prev, .. } => prev@,
            Updated::Prune { prev, .. } => prev@,
        }
    }
}

/// The outcome of applying a batch of updates: the changes that went
/// through, and the updates that were rejected by their policy.
#[derive(Debug)]
pub struct Applied {
    pub rejected: Vec<Update>,
    pub updated: Vec<Updated>,
}

impl Applied {
    /// An empty outcome.
    pub fn new() -> (r: Applied)
        ensures
            r.rejected@ == Seq::<Update>::empty(),
            r.updated@ == Seq::<Updated>::empty(),
    {
        let r = Applied { rejected: Vec::new(), updated: Vec::new() };
        proof {
            assert(r.rejected@ =~= Seq::<Update>::empty());
            assert(r.updated@ =~= Seq::<Updated>::empty());
        }
        r
    }

    /// Move the contents of `other` to the end of `self`.
    pub fn append(&mut self, other: Applied)
        ensures
            final(self).rejected@ == old(self).rejected@ + other.rejected@,
            final(self).updated@ == old(self).updated@ + other.updated@,
    {
        let Applied { mut rejected, mut updated } = other;
        self.rejected.append(&mut rejected);
        self.updated.append(&mut updated);
    }
}

} // verus!
