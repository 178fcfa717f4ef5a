//! The per-replication fetch state.
//!
//! One exchange accumulates observed tips here: the staging refdb that
//! later rounds read through, the observed `rad/id` and `rad/sigrefs` tips
//! per remote, the canonical `refs/rad/id` tip, and the queue of pending
//! updates that is committed in batches.

use crate::bytemap::ByteMap;
use crate::bytes::ends_with;
use crate::keys::PublicKey;
use crate::mem::{stage_all, InMemory};
use crate::oid::Oid;
use crate::refdb::{lookup, Refdb};
use crate::refname::{refs_rad_id, refs_rad_sigrefs, Refname, Suffix, SLASH};
use crate::transport::ReceivedRef;
use crate::update::{Applied, Update};
use vstd::prelude::*;

verus! {

/// A name committed in the verification batch: the canonical `refs/rad/id`
/// or a ref ending in `/refs/rad/id` or `/refs/rad/sigrefs`.
pub open spec fn is_verification_name(n: Seq<u8>) -> bool {
    ||| n == refs_rad_id()
    ||| crate::bytes::has_suffix(n, seq![SLASH] + refs_rad_id())
    ||| crate::bytes::has_suffix(n, seq![SLASH] + refs_rad_sigrefs())
}

/// The updates of `s` whose names pass (`keep == true`) or fail the
/// verification-name test, in order.
pub open spec fn filter_ver(s: Seq<Update>, keep: bool) -> Seq<Update>
    decreases s.len(),
{
    if s.len() == 0 {
        s
    } else {
        let rest = filter_ver(s.drop_first(), keep);
        if is_verification_name(s[0].spec_refname()) == keep {
            seq![s[0]] + rest
        } else {
            rest
        }
    }
}

/// The received name is a remote's `rad/id`.
pub open spec fn is_id_special(n: &Refname) -> bool {
    n matches Refname::Namespaced(rr) && rr.suffix == Suffix::Special(crate::refname::Special::Id)
}

/// The received name is a remote's `rad/sigrefs`.
pub open spec fn is_sig_special(n: &Refname) -> bool {
    n matches Refname::Namespaced(rr) && rr.suffix == Suffix::Special(
        crate::refname::Special::SignedRefs,
    )
}

/// The remote key of a namespaced received name.
pub open spec fn received_remote(n: &Refname) -> Seq<u8> {
    match n {
        Refname::Namespaced(rr) => rr.remote@,
        Refname::RadId => Seq::empty(),
    }
}

/// State carried through one replication.
pub struct FetchState {
    refs: InMemory,
    canonical_rad_id: Option<Oid>,
    ids: ByteMap<Oid>,
    sigs: ByteMap<Oid>,
    tips: Vec<Update>,
}

impl FetchState {
    pub closed spec fn wf(&self) -> bool {
        &&& self.refs.wf()
        &&& self.ids.wf()
        &&& self.sigs.wf()
    }

    /// The staging view: name to object id.
    pub closed spec fn staging(&self) -> Map<Seq<u8>, Seq<u8>> {
        self.refs@
    }

    /// The observed canonical `refs/rad/id` tip.
    pub closed spec fn canonical(&self) -> Option<Seq<u8>> {
        match self.canonical_rad_id {
            Some(o) => Some(o@),
            None => None,
        }
    }

    /// The observed `rad/id` tip per remote.
    pub closed spec fn id_tips(&self) -> Map<Seq<u8>, Seq<u8>> {
        self.ids@.map_values(|o: Oid| o@)
    }

    /// The observed `rad/sigrefs` tip per remote.
    pub closed spec fn sigref_tips(&self) -> Map<Seq<u8>, Seq<u8>> {
        self.sigs@.map_values(|o: Oid| o@)
    }

    /// The queued updates.
    pub closed spec fn tip_queue(&self) -> Seq<Update> {
        self.tips@
    }

    /// A fresh state.
    pub fn new() -> (r: FetchState)
        ensures
            r.wf(),
            r.staging() == Map::<Seq<u8>, Seq<u8>>::empty(),
            r.canonical() is None,
            r.id_tips() == Map::<Seq<u8>, Seq<u8>>::empty(),
            r.sigref_tips() == Map::<Seq<u8>, Seq<u8>>::empty(),
            r.tip_queue() == Seq::<Update>::empty(),
    {
        let r = FetchState {
            refs: InMemory::new(),
            canonical_rad_id: None,
            ids: ByteMap::new(),
            sigs: ByteMap::new(),
            tips: Vec::new(),
        };
        proof {
            assert(r.id_tips() =~= Map::<Seq<u8>, Seq<u8>>::empty());
            assert(r.sigref_tips() =~= Map::<Seq<u8>, Seq<u8>>::empty());
        }
        r
    }

    /// The observed canonical `refs/rad/id` tip.
    pub fn canonical_id(&self) -> (r: Option<&Oid>)
        ensures
            match r {
                Some(o) => self.canonical() == Some(o@),
                None => self.canonical() is None,
            },
    {
        self.canonical_rad_id.as_ref()
    }

    /// The observed `rad/id` tip of a remote.
    pub fn id_tip(&self, remote: &PublicKey) -> (r: Option<&Oid>)
        requires
            self.wf(),
        ensures
            match r {
                Some(o) => self.id_tips().contains_key(remote@) && self.id_tips()[remote@] == o@,
                None => !self.id_tips().contains_key(remote@),
            },
    {
        self.ids.get(remote.bytes())
    }

    /// The observed `rad/sigrefs` tip of a remote.
    pub fn sigref_tip(&self, remote: &PublicKey) -> (r: Option<&Oid>)
        requires
            self.wf(),
        ensures
            match r {
                Some(o) => self.sigref_tips().contains_key(remote@) && self.sigref_tips()[remote@]
                    == o@,
                None => !self.sigref_tips().contains_key(remote@),
            },
    {
        self.sigs.get(remote.bytes())
    }

    /// The observed remotes with `rad/id` tips, in observation order.
    pub fn id_remotes(&self) -> (r: Vec<(Vec<u8>, Oid)>)
        requires
            self.wf(),
        ensures
            forall|i: int|
                0 <= i < r@.len() ==> self.id_tips().contains_key(#[trigger] r@[i].0@)
                    && self.id_tips()[r@[i].0@] == r@[i].1@,
            forall|k: Seq<u8>| #[trigger]
                self.id_tips().contains_key(k) ==> exists|i: int|
                    0 <= i < r@.len() && r@[i].0@ == k,
            forall|i: int, j: int| 0 <= i < j < r@.len() ==> r@[i].0@ != r@[j].0@,
    {
        let ghost m = self.id_tips();
        let mut r: Vec<(Vec<u8>, Oid)> = Vec::new();
        let n = self.ids.len();
        let mut i: usize = 0;
        while i < n
            invariant
                self.wf(),
                m == self.id_tips(),
                n == self.ids.spec_len(),
                i <= n,
                forall|j: int|
                    0 <= j < r@.len() ==> m.contains_key(#[trigger] r@[j].0@) && m[r@[j].0@]
                        == r@[j].1@,
                forall|ki: int|
                    0 <= ki < i ==> exists|j: int|
                        0 <= j < r@.len() && r@[j].0@ == (#[trigger] self.ids.key_seq()[ki]),
                forall|j: int|
                    0 <= j < r@.len() ==> exists|ki: int|
                        0 <= ki < i && self.ids.key_seq()[ki] == #[trigger] r@[j].0@,
                forall|j1: int, j2: int| 0 <= j1 < j2 < r@.len() ==> r@[j1].0@ != r@[j2].0@,
            decreases n - i,
        {
            let (key, oid) = self.ids.entry_at(i);
            let key2 = key.clone();
            proof {
                assert(key2@ =~= key@);
                self.ids.lemma_entry(i as int);
            }
            let ghost r_before = r@;
            r.push((key2, oid.clone()));
            proof {
                assert(r@[r@.len() - 1].0@ == self.ids.key_seq()[i as int]);
                assert forall|j1: int, j2: int|
                    0 <= j1 < j2 < r@.len() implies r@[j1].0@ != r@[j2].0@ by {
                    if j2 == r@.len() - 1 {
                        let ki = choose|ki: int|
                            0 <= ki < i && self.ids.key_seq()[ki] == r_before[j1].0@;
                        self.ids.lemma_keys_distinct(ki, i as int);
                    }
                }
                assert forall|ki: int| 0 <= ki < i + 1 implies exists|j: int|
                    0 <= j < r@.len() && r@[j].0@ == (#[trigger] self.ids.key_seq()[ki]) by {
                    if ki < i {
                        let j = choose|j: int|
                            0 <= j < r_before.len() && r_before[j].0@ == self.ids.key_seq()[ki];
                        assert(r@[j].0@ == self.ids.key_seq()[ki]);
                    } else {
                        assert(r@[r@.len() - 1].0@ == self.ids.key_seq()[ki]);
                    }
                }
                assert forall|j: int| 0 <= j < r@.len() implies exists|ki: int|
                    0 <= ki < i + 1 && self.ids.key_seq()[ki] == #[trigger] r@[j].0@ by {
                    if j < r_before.len() {
                        let ki = choose|ki: int|
                            0 <= ki < i && self.ids.key_seq()[ki] == r_before[j].0@;
                        assert(self.ids.key_seq()[ki] == r@[j].0@);
                    } else {
                        assert(self.ids.key_seq()[i as int] == r@[j].0@);
                    }
                }
            }
            i = i + 1;
        }
        proof {
            assert forall|k: Seq<u8>| #[trigger] m.contains_key(k) implies exists|j: int|
                0 <= j < r@.len() && r@[j].0@ == k by {
                self.ids.lemma_dom(k);
                let ki = choose|ki: int|
                    0 <= ki < self.ids.key_seq().len() && self.ids.key_seq()[ki] == k;
            }
        }
        r
    }

    /// Note an observed verification tip: the canonical `refs/rad/id`, or a
    /// remote's `rad/id` or `rad/sigrefs`.
    pub fn record_ref(&mut self, r: &ReceivedRef)
        requires
            old(self).wf(),
            r.wf(),
        ensures
            final(self).wf(),
            final(self).staging() == old(self).staging(),
            final(self).tip_queue() == old(self).tip_queue(),
            final(self).canonical() == (if r.name is RadId { Some(r.tip@) } else { old(self).canonical() }),
            final(self).id_tips() == (if is_id_special(&r.name) { old(self).id_tips().insert(received_remote(&r.name), r.tip@) } else { old(self).id_tips() }),
            final(self).sigref_tips() == (if is_sig_special(&r.name) { old(self).sigref_tips().insert(received_remote(&r.name), r.tip@) } else { old(self).sigref_tips() }),
    {
        match &r.name {
            Refname::RadId => {
                self.canonical_rad_id = Some(r.tip.clone());
            },
            Refname::Namespaced(rr) => {
                match &rr.suffix {
                    Suffix::Special(crate::refname::Special::Id) => {
                        let key = rr.remote.bytes().clone();
                        proof {
                            assert(key@ =~= rr.remote@);
                        }
                        self.ids.insert(key, r.tip.clone());
                        proof {
                            assert(self.id_tips() =~= old(self).id_tips().insert(
                                rr.remote@,
                                r.tip@,
                            ));
                        }
                    },
                    Suffix::Special(crate::refname::Special::SignedRefs) => {
                        let key = rr.remote.bytes().clone();
                        proof {
                            assert(key@ =~= rr.remote@);
                        }
                        self.sigs.insert(key, r.tip.clone());
                        proof {
                            assert(self.sigref_tips() =~= old(self).sigref_tips().insert(
                                rr.remote@,
                                r.tip@,
                            ));
                        }
                    },
                    Suffix::Generic(_) => {},
                }
            },
        }
    }

    /// Queue updates and apply them to the staging store.
    pub fn update_all(&mut self, updates: Vec<Update>) -> (r: Applied)
        requires
            old(self).wf(),
        ensures
            final(self).wf(),
            final(self).staging() == stage_all(old(self).staging(), updates@),
            final(self).tip_queue().len() == old(self).tip_queue().len() + updates@.len(),
            forall|i: int|
                0 <= i < old(self).tip_queue().len() ==> final(self).tip_queue()[i] == old(
                    self,
                ).tip_queue()[i],
            forall|i: int|
                0 <= i < updates@.len() ==> (#[trigger] final(self).tip_queue()[old(
                    self,
                ).tip_queue().len() + i]).matches_spec(&updates@[i]),
            final(self).canonical() == old(self).canonical(),
            final(self).id_tips() == old(self).id_tips(),
            final(self).sigref_tips() == old(self).sigref_tips(),
    {
        let mut i: usize = 0;
        while i < updates.len()
            invariant
                old(self).wf(),
                self.wf(),
                i <= updates@.len(),
                self.refs == old(self).refs,
                self.canonical_rad_id == old(self).canonical_rad_id,
                self.ids == old(self).ids,
                self.sigs == old(self).sigs,
                self.tips@.len() == old(self).tips@.len() + i,
                forall|j: int|
                    0 <= j < old(self).tips@.len() ==> self.tips@[j] == old(self).tips@[j],
                forall|j: int|
                    0 <= j < i ==> (#[trigger] self.tips@[old(self).tips@.len() + j]).matches_spec(
                        &updates@[j],
                    ),
            decreases updates@.len() - i,
        {
            self.tips.push(updates[i].clone());
            i = i + 1;
        }
        self.refs.update(&updates)
    }

    /// Empty the observed `rad/id` and `rad/sigrefs` tips, so the data round
    /// can observe them afresh.
    pub fn clear_rad_refs(&mut self)
        requires
            old(self).wf(),
        ensures
            final(self).wf(),
            final(self).id_tips() == Map::<Seq<u8>, Seq<u8>>::empty(),
            final(self).sigref_tips() == Map::<Seq<u8>, Seq<u8>>::empty(),
            final(self).staging() == old(self).staging(),
            final(self).tip_queue() == old(self).tip_queue(),
            final(self).canonical() == old(self).canonical(),
    {
        self.ids = ByteMap::new();
        self.sigs = ByteMap::new();
        proof {
            assert(self.id_tips() =~= Map::<Seq<u8>, Seq<u8>>::empty());
            assert(self.sigref_tips() =~= Map::<Seq<u8>, Seq<u8>>::empty());
        }
    }

    /// Look a name up through the staging store first, then the real one.
    pub fn cached_refname_to_id(&self, refdb: &Refdb, name: &Vec<u8>) -> (r: Option<Oid>)
        requires
            self.wf(),
            refdb.wf(),
        ensures
            match r {
                Some(o) => (self.staging().contains_key(name@) && self.staging()[name@] == o@) || (
                !self.staging().contains_key(name@) && lookup(refdb@, name@) == Some(o@)),
                None => !self.staging().contains_key(name@) && lookup(refdb@, name@) is None,
            },
    {
        match self.refs.refname_to_id(name) {
            Some(o) => Some(o),
            None => refdb.refname_to_id(name),
        }
    }

    /// Take the queued verification-name updates out of the queue, keeping
    /// the rest in order.
    pub fn take_verification_tips(&mut self) -> (r: Vec<Update>)
        requires
            old(self).wf(),
        ensures
            final(self).wf(),
            r@ == filter_ver(old(self).tip_queue(), true),
            final(self).tip_queue() == filter_ver(old(self).tip_queue(), false),
            final(self).staging() == old(self).staging(),
            final(self).canonical() == old(self).canonical(),
            final(self).id_tips() == old(self).id_tips(),
            final(self).sigref_tips() == old(self).sigref_tips(),
    {
        let ghost all = self.tips@;
        let mut taken: Vec<Update> = Vec::new();
        let mut kept: Vec<Update> = Vec::new();
        let slash_rad_id = {
            let mut v: Vec<u8> = Vec::new();
            v.push(SLASH);
            let tail = crate::refname::refs_rad_id_vec();
            let r = crate::bytes::join(&v, &tail);
            proof {
                assert(r@ =~= seq![SLASH] + refs_rad_id());
            }
            r
        };
        let slash_sigrefs = {
            let mut v: Vec<u8> = Vec::new();
            v.push(SLASH);
            let tail = crate::refname::refs_rad_sigrefs_vec();
            let r = crate::bytes::join(&v, &tail);
            proof {
                assert(r@ =~= seq![SLASH] + refs_rad_sigrefs());
            }
            r
        };
        let radid = crate::refname::refs_rad_id_vec();
        while self.tips.len() > 0
            invariant
                self.wf(),
                old(self).wf(),
                self.refs == old(self).refs,
                self.canonical_rad_id == old(self).canonical_rad_id,
                self.ids == old(self).ids,
                self.sigs == old(self).sigs,
                slash_rad_id@ == seq![SLASH] + refs_rad_id(),
                slash_sigrefs@ == seq![SLASH] + refs_rad_sigrefs(),
                radid@ == refs_rad_id(),
                all == old(self).tips@,
                taken@ + filter_ver(self.tips@, true) == filter_ver(all, true),
                kept@ + filter_ver(self.tips@, false) == filter_ver(all, false),
            decreases self.tips@.len(),
        {
            let ghost before = self.tips@;
            let u = self.tips.remove(0);
            proof {
                assert(u == before[0]);
                assert(self.tips@ =~= before.drop_first());
            }
            let name = u.refname();
            let is_ver = crate::bytes::bytes_eq(name, &radid) || ends_with(name, &slash_rad_id)
                || ends_with(name, &slash_sigrefs);
            proof {
                assert(is_ver == is_verification_name(u.spec_refname()));
            }
            if is_ver {
                let ghost t_before = taken@;
                taken.push(u);
                proof {
                    assert(filter_ver(before, true) == seq![before[0]] + filter_ver(
                        before.drop_first(),
                        true,
                    ));
                    assert(taken@ =~= t_before.push(before[0]));
                    assert(taken@ + filter_ver(self.tips@, true) =~= filter_ver(all, true));
                    assert(filter_ver(before, false) == filter_ver(before.drop_first(), false));
                }
            } else {
                let ghost k_before = kept@;
                kept.push(u);
                proof {
                    assert(filter_ver(before, false) == seq![before[0]] + filter_ver(
                        before.drop_first(),
                        false,
                    ));
                    assert(kept@ =~= k_before.push(before[0]));
                    assert(kept@ + filter_ver(self.tips@, false) =~= filter_ver(all, false));
                    assert(filter_ver(before, true) == filter_ver(before.drop_first(), true));
                }
            }
        }
        proof {
            assert(filter_ver(self.tips@, true) =~= Seq::<Update>::empty());
            assert(filter_ver(self.tips@, false) =~= Seq::<Update>::empty());
            assert(taken@ =~= taken@ + filter_ver(self.tips@, true));
            assert(kept@ =~= kept@ + filter_ver(self.tips@, false));
        }
        self.tips = kept;
        taken
    }

    /// Take every queued update out of the queue.
    pub fn drain_tips(&mut self) -> (r: Vec<Update>)
        requires
            old(self).wf(),
        ensures
            final(self).wf(),
            r@ == old(self).tip_queue(),
            final(self).tip_queue() == Seq::<Update>::empty(),
            final(self).staging() == old(self).staging(),
            final(self).canonical() == old(self).canonical(),
            final(self).id_tips() == old(self).id_tips(),
            final(self).sigref_tips() == old(self).sigref_tips(),
    {
        let mut out: Vec<Update> = Vec::new();
        core::mem::swap(&mut out, &mut self.tips);
        proof {
            assert(self.tips@ =~= Seq::<Update>::empty());
        }
        out
    }
}

} // verus!
