//! Signed-refs manifests and the store they are read from.
//!
//! Each remote signs a manifest of `(refname → object id)` pairs; the
//! manifest is read from the commit at the remote's `rad/sigrefs` tip. The
//! cryptographic verification of the signature belongs to the storage
//! collaborator; the engine reads the manifests as plain data.

use crate::bytemap::ByteMap;
use crate::bytes::join;
use crate::keys::PublicKey;
use crate::oid::Oid;
use vstd::prelude::*;

verus! {

/// A remote's signed-refs manifest.
#[derive(Debug)]
pub struct Sigrefs {
    /// The `rad/sigrefs` tip the manifest was loaded from.
    pub at: Oid,
    /// The signed `(refname, object id)` pairs.
    pub refs: ByteMap<Oid>,
}

impl Sigrefs {
    pub open spec fn wf(&self) -> bool {
        self.at.wf() && self.refs.wf()
    }

    /// The signed pairs, as a map of byte strings.
    pub open spec fn refs_map(&self) -> Map<Seq<u8>, Seq<u8>> {
        self.refs@.map_values(|o: Oid| o@)
    }
}

impl Sigrefs {
    /// A fresh copy of the manifest.
    pub fn duplicate(&self) -> (r: Self)
        requires
            self.wf(),
        ensures
            r.at@ == self.at@,
            r.refs.key_seq() == self.refs.key_seq(),
            r.refs_map() == self.refs_map(),
            r.wf(),
    {
        let at = self.at.clone();
        let mut refs: ByteMap<Oid> = ByteMap::new();
        let n = self.refs.len();
        let mut i: usize = 0;
        proof {
            assert(refs.key_seq() =~= self.refs.key_seq().take(0));
        }
        while i < n
            invariant
                self.refs.wf(),
                refs.wf(),
                n == self.refs.spec_len(),
                i <= n,
                refs.key_seq() == self.refs.key_seq().take(i as int),
                forall|k: Seq<u8>| #[trigger]
                    refs@.contains_key(k) ==> self.refs@.contains_key(k) && refs@[k]@
                        == self.refs@[k]@,
            decreases n - i,
        {
            let (name, oid) = self.refs.entry_at(i);
            let name2 = name.clone();
            let o2 = oid.clone();
            proof {
                assert(name2@ =~= name@);
                self.refs.lemma_entry(i as int);
                if refs@.contains_key(name2@) {
                    refs.lemma_dom(name2@);
                    let j = choose|j: int|
                        0 <= j < refs.key_seq().len() && refs.key_seq()[j] == name2@;
                    self.refs.lemma_keys_distinct(j, i as int);
                    assert(false);
                }
            }
            let ghost before = refs@;
            refs.insert(name2, o2);
            proof {
                assert(refs.key_seq() =~= self.refs.key_seq().take(i as int + 1));
                assert forall|k: Seq<u8>| #[trigger]
                    refs@.contains_key(k) implies self.refs@.contains_key(k) && refs@[k]@
                    == self.refs@[k]@ by {
                    if k != name@ {
                        assert(before.contains_key(k));
                        assert(refs@[k] == before[k]);
                    }
                }
            }
            i = i + 1;
        }
        proof {
            assert(self.refs.key_seq().take(n as int) =~= self.refs.key_seq());
            assert forall|k: Seq<u8>| #![all_triggers]
                refs@.contains_key(k) <==> self.refs@.contains_key(k) by {
                if self.refs@.contains_key(k) {
                    self.refs.lemma_dom(k);
                    let j = choose|j: int|
                        0 <= j < self.refs.key_seq().len() && self.refs.key_seq()[j] == k;
                    refs.lemma_dom(k);
                    assert(refs.key_seq()[j] == k);
                }
            }
            let r_map = refs@.map_values(|o: Oid| o@);
            let s_map = self.refs@.map_values(|o: Oid| o@);
            assert(r_map =~= s_map);
        }
        Sigrefs { at, refs }
    }
}

/// Which remotes must have signed refs, and which only may.
pub struct Select<'a> {
    /// Remotes whose sigrefs are required: a missing manifest fails.
    pub must: &'a Vec<PublicKey>,
    /// Remotes whose sigrefs are optional: a missing manifest is skipped.
    pub may: &'a Vec<PublicKey>,
}

/// The signed-refs store: per remote the tip of its current manifest, and
/// per `(remote, tip)` the manifest at that tip.
#[derive(Debug)]
pub struct SigrefStore {
    current: ByteMap<Oid>,
    at_tip: ByteMap<Sigrefs>,
}

/// The key under which a manifest at a given tip is filed: the remote's
/// key bytes followed by the tip bytes (both of fixed size).
pub open spec fn tip_key(remote: Seq<u8>, tip: Seq<u8>) -> Seq<u8> {
    remote + tip
}

impl SigrefStore {
    pub closed spec fn wf(&self) -> bool {
        &&& self.current.wf()
        &&& self.at_tip.wf()
        &&& forall|k: Seq<u8>| #[trigger]
            self.at_tip@.contains_key(k) ==> self.at_tip@[k].wf()
    }

    /// The current manifest tip of each remote.
    pub closed spec fn current_tips(&self) -> Map<Seq<u8>, Seq<u8>> {
        self.current@.map_values(|o: Oid| o@)
    }

    /// The manifest filed under each `(remote, tip)` pair.
    pub closed spec fn at_tip_map(&self) -> Map<Seq<u8>, Sigrefs> {
        self.at_tip@
    }

    /// An empty store.
    pub fn new() -> (r: SigrefStore)
        ensures
            r.wf(),
            r.current_tips() == Map::<Seq<u8>, Seq<u8>>::empty(),
            r.at_tip_map() == Map::<Seq<u8>, Sigrefs>::empty(),
    {
        let r = SigrefStore { current: ByteMap::new(), at_tip: ByteMap::new() };
        proof {
            assert(r.current_tips() =~= Map::<Seq<u8>, Seq<u8>>::empty());
        }
        r
    }

    /// File a manifest as the remote's current one, and under its tip.
    pub fn publish(&mut self, remote: &PublicKey, s: Sigrefs)
        requires
            old(self).wf(),
            s.wf(),
        ensures
            final(self).wf(),
            final(self).current_tips() == old(self).current_tips().insert(remote@, s.at@),
            final(self).at_tip_map() == old(self).at_tip_map().insert(tip_key(remote@, s.at@), s),
    {
        let key = remote.bytes().clone();
        let tipkey = join(remote.bytes(), s.at.bytes());
        proof {
            assert(key@ =~= remote@);
        }
        let at2 = s.at.clone();
        let ghost cur_before = self.current@;
        let ghost sv = s;
        self.current.insert(key, at2);
        self.at_tip.insert(tipkey, s);
        proof {
            assert(self.current_tips() =~= old(self).current_tips().insert(remote@, sv.at@));
            assert forall|k: Seq<u8>| #[trigger]
                self.at_tip@.contains_key(k) implies self.at_tip@[k].wf() by {
                if k != crate::sigrefs::tip_key(remote@, sv.at@) {
                    assert(old(self).at_tip_map().contains_key(k));
                }
            }
        }
    }

    /// The remote's current manifest, if it has one.
    pub fn load(&self, remote: &PublicKey) -> (r: Option<&Sigrefs>)
        requires
            self.wf(),
        ensures
            match r {
                Some(s) => self.current_tips().contains_key(remote@) && self.at_tip_map(
                ).contains_key(tip_key(remote@, self.current_tips()[remote@])) && *s
                    == self.at_tip_map()[tip_key(remote@, self.current_tips()[remote@])]
                    && s.at@ == self.current_tips()[remote@] && s.wf(),
                None => !self.current_tips().contains_key(remote@) || !self.at_tip_map(
                ).contains_key(tip_key(remote@, self.current_tips()[remote@])) || !(self.at_tip_map(
                )[tip_key(remote@, self.current_tips()[remote@])].at@ == self.current_tips(
                )[remote@]),
            },
    {
        match self.current.get(remote.bytes()) {
            None => None,
            Some(tip) => {
                let key = join(remote.bytes(), tip.bytes());
                match self.at_tip.get(&key) {
                    None => None,
                    Some(s) => {
                        if crate::bytes::bytes_eq(s.at.bytes(), tip.bytes()) {
                            Some(s)
                        } else {
                            None
                        }
                    },
                }
            },
        }
    }

    /// The remote's manifest at the given tip, if one is filed there.
    pub fn load_at(&self, tip: &Oid, remote: &PublicKey) -> (r: Option<&Sigrefs>)
        requires
            self.wf(),
        ensures
            match r {
                Some(s) => self.at_tip_map().contains_key(tip_key(remote@, tip@)) && *s
                    == self.at_tip_map()[tip_key(remote@, tip@)] && s.wf(),
                None => !self.at_tip_map().contains_key(tip_key(remote@, tip@)),
            },
    {
        let key = join(remote.bytes(), tip.bytes());
        self.at_tip.get(&key)
    }
}

} // verus!
