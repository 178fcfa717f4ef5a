//! The compute side of one wire round: received refs, the wants/haves
//! negotiation, and the model of the remote peer.
//!
//! The wire itself — the handshake, the `ls-refs` and `fetch` commands, the
//! packfile stream — is blocking I/O and belongs to the caller; the engine
//! works on what the wire handed over: advertised `(name, tip)` pairs, and
//! the objects a pack carried. [`RemoteState`] stands for the remote end as
//! data, so a whole exchange can be driven in memory.

use crate::bytemap::ByteMap;
use crate::bytes::{bytes_eq, has_prefix};
use crate::odb::RevwalkError;
use crate::oid::Oid;
use crate::refdb::{ff_check, lookup, Refdb};
use crate::refname::Refname;
use crate::update::{Policy, Update};
use vstd::prelude::*;

verus! {

/// A reference received from an advertisement: its tip and its parsed name.
#[derive(Debug)]
pub struct ReceivedRef {
    pub tip: Oid,
    pub name: Refname,
}

impl Clone for ReceivedRef {
    fn clone(&self) -> (r: Self)
        ensures
            r.tip@ == self.tip@,
            r.name.spec_name() == self.name.spec_name(),
            r.name.wf() == self.name.wf(),
            r.name is RadId == self.name is RadId,
            r.name matches Refname::Namespaced(rr) ==> self.name matches Refname::Namespaced(s)
                && rr.remote@ == s.remote@ && rr.suffix.spec_name() == s.suffix.spec_name() && (
            rr.suffix is Special == s.suffix is Special),
    {
        ReceivedRef { tip: self.tip.clone(), name: self.name.clone() }
    }
}

impl ReceivedRef {
    pub open spec fn wf(&self) -> bool {
        self.tip.wf() && self.name.wf()
    }

    /// The update a verification ref becomes: point the full name at the
    /// received tip, aborting on any non-fast-forward. Only the canonical
    /// `refs/rad/id` and the two namespaced specials are verification refs.
    pub fn as_verification_ref_update(&self) -> (r: Option<Update>)
        requires
            self.wf(),
        ensures
            match r {
                Some(u) => u matches Update::Direct { name, target, no_ff } && name@
                    == self.name.spec_name() && target@ == self.tip@ && no_ff == Policy::Abort && (
                match &self.name {
                    Refname::RadId => true,
                    Refname::Namespaced(rr) => rr.suffix is Special,
                }),
                None => self.name matches Refname::Namespaced(rr) && !(rr.suffix is Special),
            },
    {
        match &self.name {
            Refname::RadId => Some(
                Update::Direct {
                    name: self.name.name(),
                    target: self.tip.clone(),
                    no_ff: Policy::Abort,
                },
            ),
            Refname::Namespaced(rr) => match &rr.suffix {
                crate::refname::Suffix::Special(_) => Some(
                    Update::Direct {
                        name: self.name.name(),
                        target: self.tip.clone(),
                        no_ff: Policy::Abort,
                    },
                ),
                crate::refname::Suffix::Generic(_) => None,
            },
        }
    }
}

/// The negotiation result: object ids to ask for, object ids to advertise
/// as already held.
#[derive(Debug)]
pub struct WantsHaves {
    pub wants: Vec<Oid>,
    pub haves: Vec<Oid>,
}

/// Why assembling wants and haves failed.
#[derive(Debug)]
pub enum WantsHavesError {
    /// An ancestry walk met an object missing from the store.
    Revwalk(RevwalkError),
}

/// Accumulates wants and haves without repetition.
pub struct WantsHavesBuilder {
    wants: ByteMap<Oid>,
    haves: ByteMap<Oid>,
    /// Every tip that was ever offered to the builder.
    offered: Ghost<Set<Seq<u8>>>,
}

impl WantsHavesBuilder {
    pub closed spec fn wf(&self) -> bool {
        self.wants.wf() && self.haves.wf() && (forall|i: int|
            0 <= i < self.wants.spec_len() ==> (#[trigger] self.wants.key_seq()[i])
                == self.wants.val_seq()[i]@) && (forall|i: int|
            0 <= i < self.haves.spec_len() ==> (#[trigger] self.haves.key_seq()[i])
                == self.haves.val_seq()[i]@)
    }

    /// The object ids wanted so far.
    pub closed spec fn want_set(&self) -> Set<Seq<u8>> {
        self.wants@.dom()
    }

    /// The object ids marked held so far.
    pub closed spec fn have_set(&self) -> Set<Seq<u8>> {
        self.haves@.dom()
    }

    /// The tips that were offered through `add`.
    pub closed spec fn offered_tips(&self) -> Set<Seq<u8>> {
        self.offered@
    }

    /// A fresh builder.
    pub fn new() -> (r: WantsHavesBuilder)
        ensures
            r.wf(),
            r.want_set() == Set::<Seq<u8>>::empty(),
            r.have_set() == Set::<Seq<u8>>::empty(),
            r.offered_tips() == Set::<Seq<u8>>::empty(),
    {
        let r = WantsHavesBuilder {
            wants: ByteMap::new(),
            haves: ByteMap::new(),
            offered: Ghost(Set::empty()),
        };
        proof {
            assert(r.want_set() =~= Set::<Seq<u8>>::empty());
            assert(r.have_set() =~= Set::<Seq<u8>>::empty());
        }
        r
    }

    /// Ask for an object.
    fn want(&mut self, oid: &Oid)
        requires
            old(self).wf(),
        ensures
            final(self).wf(),
            final(self).want_set() == old(self).want_set().insert(oid@),
            final(self).have_set() == old(self).have_set(),
            final(self).offered_tips() == old(self).offered_tips(),
    {
        let key = oid.bytes().clone();
        proof {
            assert(key@ =~= oid@);
        }
        self.wants.insert(key, oid.clone());
        proof {
            assert(self.want_set() =~= old(self).want_set().insert(oid@));
            assert forall|i: int|
                0 <= i < self.wants.spec_len() implies (#[trigger] self.wants.key_seq()[i])
                == self.wants.val_seq()[i]@ by {
                if i < old(self).wants.spec_len() && old(self).wants.key_seq()[i] != oid@ {
                    assert(old(self).wants.key_seq()[i] == old(self).wants.val_seq()[i]@);
                }
            }
        }
    }

    /// Note an object as held.
    fn have(&mut self, oid: &Oid)
        requires
            old(self).wf(),
        ensures
            final(self).wf(),
            final(self).have_set() == old(self).have_set().insert(oid@),
            final(self).want_set() == old(self).want_set(),
            final(self).offered_tips() == old(self).offered_tips(),
    {
        let key = oid.bytes().clone();
        proof {
            assert(key@ =~= oid@);
        }
        self.haves.insert(key, oid.clone());
        proof {
            assert(self.have_set() =~= old(self).have_set().insert(oid@));
            assert forall|i: int|
                0 <= i < self.haves.spec_len() implies (#[trigger] self.haves.key_seq()[i])
                == self.haves.val_seq()[i]@ by {
                if i < old(self).haves.spec_len() && old(self).haves.key_seq()[i] != oid@ {
                    assert(old(self).haves.key_seq()[i] == old(self).haves.val_seq()[i]@);
                }
            }
        }
    }

    /// Work one received tip into the negotiation, looked up under `name`.
    ///
    /// The tip is wanted only if it is not already in the object store; a
    /// current value of the ref is advertised as held, and a received tip
    /// that is already an ancestor of the current value is also marked held
    /// so it is not asked for.
    pub fn add_one(&mut self, refdb: &Refdb, name: &Vec<u8>, tip: &Oid) -> (r: Result<
        (),
        WantsHavesError,
    >)
        requires
            old(self).wf(),
            refdb.wf(),
        ensures
            final(self).wf(),
            match r {
                Ok(_) => {
                    &&& final(self).offered_tips() == old(self).offered_tips().insert(tip@)
                    &&& final(self).want_set() == if !refdb.objects().contains_key(tip@) && !(
                    lookup(refdb@, name@) == Some(tip@)) {
                        old(self).want_set().insert(tip@)
                    } else {
                        old(self).want_set()
                    }
                    &&& (match lookup(refdb@, name@) {
                        Some(cur) => final(self).have_set() == (if ff_check(
                            refdb.objects(),
                            cur,
                            tip@,
                        ) is Yes {
                            old(self).have_set().insert(cur).insert(tip@)
                        } else {
                            old(self).have_set().insert(cur)
                        }),
                        None => final(self).have_set() == old(self).have_set(),
                    })
                },
                Err(_) => final(self).want_set() == old(self).want_set() && (lookup(
                    refdb@,
                    name@,
                ) matches Some(cur) && ff_check(refdb.objects(), cur, tip@) is Fault),
            },
    {
        proof {
            self.offered@ = self.offered@.insert(tip@);
        }
        match refdb.refname_to_id(name) {
            Some(cur) => {
                let in_odb = refdb.contains(tip);
                let want = !bytes_eq(cur.bytes(), tip.bytes()) && !in_odb;
                self.have(&cur);
                match refdb.is_in_ancestry_path(&cur, tip) {
                    Ok(anc) => {
                        if anc {
                            self.have(tip);
                        }
                    },
                    Err(e) => {
                        return Err(WantsHavesError::Revwalk(e));
                    },
                }
                if want {
                    self.want(tip);
                    proof {
                        assert(!(lookup(refdb@, name@) == Some(tip@)));
                    }
                } else {
                    proof {
                        if !refdb.objects().contains_key(tip@) {
                            assert(cur@ == tip@);
                        }
                    }
                }
                Ok(())
            },
            None => {
                if !refdb.contains(tip) {
                    self.want(tip);
                }
                Ok(())
            },
        }
    }

    /// Close the negotiation: the wants, less everything held, and the
    /// haves. `None` when nothing is left to want — no fetch is needed.
    ///
    /// Every want is an offered tip that the object store does not hold.
    pub fn build(self, refdb: &Refdb) -> (r: Option<WantsHaves>)
        requires
            self.wf(),
            refdb.wf(),
            forall|k: Seq<u8>| #[trigger]
                self.want_set().contains(k) ==> self.offered_tips().contains(k)
                    && !refdb.objects().contains_key(k),
        ensures
            match r {
                Some(wh) => wh.wants@.len() > 0 && (forall|i: int|
                    0 <= i < wh.wants@.len() ==> self.want_set().contains(
                        (#[trigger] wh.wants@[i])@,
                    ) && self.offered_tips().contains(wh.wants@[i]@)
                        && !refdb.objects().contains_key(wh.wants@[i]@)
                        && !self.have_set().contains(wh.wants@[i]@)) && (forall|i: int, j: int|
                    0 <= i < j < wh.wants@.len() ==> (#[trigger] wh.wants@[i])@ != (
                    #[trigger] wh.wants@[j])@) && (forall|k: Seq<u8>| #[trigger]
                    self.want_set().contains(k) && !self.have_set().contains(k) ==> exists|i: int|
                        0 <= i < wh.wants@.len() && (wh.wants@[i])@ == k) && (forall|i: int|
                    0 <= i < wh.haves@.len() ==> self.have_set().contains(
                        (#[trigger] wh.haves@[i])@,
                    )) && (forall|k: Seq<u8>| #[trigger]
                    self.have_set().contains(k) ==> exists|i: int|
                        0 <= i < wh.haves@.len() && (wh.haves@[i])@ == k),
                None => forall|k: Seq<u8>| #[trigger]
                    self.want_set().contains(k) ==> self.have_set().contains(k),
            },
    {
        let mut wants: Vec<Oid> = Vec::new();
        let n = self.wants.len();
        let mut i: usize = 0;
        while i < n
            invariant
                self.wf(),
                refdb.wf(),
                forall|k: Seq<u8>| #[trigger]
                    self.want_set().contains(k) ==> self.offered_tips().contains(k)
                        && !refdb.objects().contains_key(k),
                n == self.wants.spec_len(),
                i <= n,
                forall|j: int|
                    0 <= j < wants@.len() ==> self.want_set().contains((#[trigger] wants@[j])@)
                        && !self.have_set().contains(wants@[j]@),
                forall|j: int|
                    0 <= j < wants@.len() ==> exists|ki: int|
                        0 <= ki < i && (#[trigger] wants@[j])@ == self.wants.key_seq()[ki],
                forall|j1: int, j2: int|
                    0 <= j1 < j2 < wants@.len() ==> (#[trigger] wants@[j1])@ != (
                    #[trigger] wants@[j2])@,
                forall|ki: int|
                    0 <= ki < i && !self.haves@.contains_key(#[trigger] self.wants.key_seq()[ki])
                        ==> exists|j: int|
                        0 <= j < wants@.len() && (#[trigger] wants@[j])@ == self.wants.key_seq()[ki],
            decreases n - i,
        {
            let (key, oid) = self.wants.entry_at(i);
            if !self.haves.contains_key(key) {
                let o2 = oid.clone();
                let ghost w_before = wants@;
                wants.push(o2);
                proof {
                    self.wants.lemma_entry(i as int);
                    assert(wants@[wants@.len() - 1]@ == self.wants.key_seq()[i as int]);
                    assert forall|j: int| 0 <= j < wants@.len() implies exists|ki: int|
                        0 <= ki < i + 1 && (#[trigger] wants@[j])@ == self.wants.key_seq()[ki] by {
                        if j < w_before.len() {
                            let ki = choose|ki: int|
                                0 <= ki < i && (w_before[j])@ == self.wants.key_seq()[ki];
                            assert((wants@[j])@ == self.wants.key_seq()[ki]);
                        } else {
                            assert((wants@[j])@ == self.wants.key_seq()[i as int]);
                        }
                    }
                    assert forall|j1: int, j2: int|
                        0 <= j1 < j2 < wants@.len() implies (#[trigger] wants@[j1])@ != (
                    #[trigger] wants@[j2])@ by {
                        if j2 == wants@.len() - 1 {
                            let ki = choose|ki: int|
                                0 <= ki < i && (w_before[j1])@ == self.wants.key_seq()[ki];
                            self.wants.lemma_keys_distinct(ki, i as int);
                        }
                    }
                    assert forall|ki: int|
                        0 <= ki < i + 1 && !self.haves@.contains_key(
                            #[trigger] self.wants.key_seq()[ki],
                        ) implies exists|j: int|
                        0 <= j < wants@.len() && (#[trigger] wants@[j])@
                            == self.wants.key_seq()[ki] by {
                        if ki < i {
                            let j = choose|j: int|
                                0 <= j < w_before.len() && (w_before[j])@
                                    == self.wants.key_seq()[ki];
                            assert(wants@[j]@ == self.wants.key_seq()[ki]);
                        } else {
                            assert(wants@[wants@.len() - 1]@ == self.wants.key_seq()[ki]);
                        }
                    }
                }
            }
            i = i + 1;
        }
        if wants.len() == 0 {
            proof {
                assert forall|k: Seq<u8>| #[trigger]
                    self.want_set().contains(k) implies self.have_set().contains(k) by {
                    self.wants.lemma_dom(k);
                    let ki = choose|ki: int|
                        0 <= ki < self.wants.key_seq().len() && self.wants.key_seq()[ki] == k;
                    if !self.haves@.contains_key(k) {
                        let j = choose|j: int|
                            0 <= j < wants@.len() && (wants@[j])@ == self.wants.key_seq()[ki];
                        assert(false);
                    }
                }
            }
            return None;
        }
        proof {
            assert forall|k: Seq<u8>| #[trigger]
                self.want_set().contains(k) && !self.have_set().contains(k) implies exists|i2: int|
                0 <= i2 < wants@.len() && (wants@[i2])@ == k by {
                self.wants.lemma_dom(k);
                let ki = choose|ki: int|
                    0 <= ki < self.wants.key_seq().len() && self.wants.key_seq()[ki] == k;
            }
        }
        let mut haves: Vec<Oid> = Vec::new();
        let hn = self.haves.len();
        let mut j: usize = 0;
        while j < hn
            invariant
                self.wf(),
                hn == self.haves.spec_len(),
                j <= hn,
                forall|j2: int|
                    0 <= j2 < haves@.len() ==> self.have_set().contains((#[trigger] haves@[j2])@),
                forall|ki: int|
                    0 <= ki < j ==> exists|j2: int|
                        0 <= j2 < haves@.len() && (#[trigger] self.haves.key_seq()[ki]) == (
                        haves@[j2])@,
            decreases hn - j,
        {
            let (_, oid) = self.haves.entry_at(j);
            let ghost h_before = haves@;
            haves.push(oid.clone());
            proof {
                self.haves.lemma_entry(j as int);
                assert((haves@[haves@.len() - 1])@ == self.haves.key_seq()[j as int]);
                assert(self.haves@.contains_key(self.haves.key_seq()[j as int])) by {
                    self.haves.lemma_dom(self.haves.key_seq()[j as int]);
                }
                assert forall|ki: int| 0 <= ki < j + 1 implies exists|j2: int|
                    0 <= j2 < haves@.len() && (#[trigger] self.haves.key_seq()[ki]) == (
                haves@[j2])@ by {
                    if ki < j {
                        let j2 = choose|j2: int|
                            0 <= j2 < h_before.len() && self.haves.key_seq()[ki] == (
                            h_before[j2])@;
                        assert(self.haves.key_seq()[ki] == (haves@[j2])@);
                    } else {
                        assert(self.haves.key_seq()[ki] == (haves@[haves@.len() - 1])@);
                    }
                }
            }
            j = j + 1;
        }
        proof {
            assert forall|k: Seq<u8>| #[trigger] self.have_set().contains(k) implies exists|
                i2: int,
            |
                0 <= i2 < haves@.len() && (haves@[i2])@ == k by {
                self.haves.lemma_dom(k);
                let ki = choose|ki: int|
                    0 <= ki < self.haves.key_seq().len() && self.haves.key_seq()[ki] == k;
            }
        }
        proof {
            assert(wants@.len() > 0);
            assert(forall|i: int|
                0 <= i < wants@.len() ==> self.want_set().contains((#[trigger] wants@[i])@));
            assert(forall|i: int|
                0 <= i < wants@.len() ==> self.offered_tips().contains((#[trigger] wants@[i])@)
                    && !refdb.objects().contains_key((wants@[i])@) && !self.have_set().contains(
                    (wants@[i])@,
                ));
            assert(forall|i: int, j2: int|
                0 <= i < j2 < wants@.len() ==> (#[trigger] wants@[i])@ != (
                #[trigger] wants@[j2])@);
            assert(forall|k: Seq<u8>| #[trigger]
                self.want_set().contains(k) && !self.have_set().contains(k) ==> exists|i: int|
                    0 <= i < wants@.len() && (wants@[i])@ == k);
            assert(forall|i: int|
                0 <= i < haves@.len() ==> self.have_set().contains((#[trigger] haves@[i])@));
            assert(forall|k: Seq<u8>| #[trigger]
                self.have_set().contains(k) ==> exists|i: int|
                    0 <= i < haves@.len() && (haves@[i])@ == k);
        }
        let wh = WantsHaves { wants, haves };
        proof {
            assert forall|k: Seq<u8>| #[trigger]
                self.want_set().contains(k) && !self.have_set().contains(k) implies exists|i: int|
                0 <= i < wh.wants@.len() && (wh.wants@[i])@ == k by {
                let i = choose|i: int| 0 <= i < wh.wants@.len() && (wh.wants@[i])@ == k;
            }
            assert forall|k: Seq<u8>| #[trigger] self.have_set().contains(k) implies exists|
                i: int,
            |
                0 <= i < wh.haves@.len() && (wh.haves@[i])@ == k by {
                let i = choose|i: int| 0 <= i < wh.haves@.len() && (wh.haves@[i])@ == k;
            }
        }
        Some(wh)
    }
}

/// Why a fetch from the remote failed.
#[derive(Debug)]
pub enum FetchError {
    /// A wanted object was not in the pack the remote sent.
    NotFound(Oid),
}

/// The remote peer, as data: what it advertises and what its object store
/// holds. Standing in for the wire, it answers `ls-refs` from its refs and
/// a `fetch` by handing its objects over.
#[derive(Debug)]
pub struct RemoteState {
    /// The remote's references: name to tip.
    pub refs: ByteMap<Oid>,
    /// The remote's objects: id to parent ids.
    pub objects: ByteMap<Vec<Oid>>,
}

impl RemoteState {
    pub open spec fn wf(&self) -> bool {
        &&& self.refs.wf()
        &&& self.objects.wf()
        &&& forall|k: Seq<u8>| #[trigger]
            self.objects@.contains_key(k) ==> k.len() == crate::oid::OID_SIZE
        &&& forall|k: Seq<u8>| #[trigger]
            self.ref_tips().contains_key(k) ==> self.ref_tips()[k].len() == crate::oid::OID_SIZE
    }

    /// The advertised tips, as a map of byte strings.
    pub open spec fn ref_tips(&self) -> Map<Seq<u8>, Seq<u8>> {
        self.refs@.map_values(|o: Oid| o@)
    }

    /// An empty remote.
    pub fn new() -> (r: RemoteState)
        ensures
            r.wf(),
            r.ref_tips() == Map::<Seq<u8>, Seq<u8>>::empty(),
            r.objects@ == Map::<Seq<u8>, Vec<Oid>>::empty(),
    {
        let r = RemoteState { refs: ByteMap::new(), objects: ByteMap::new() };
        proof {
            assert(r.ref_tips() =~= Map::<Seq<u8>, Seq<u8>>::empty());
        }
        r
    }

    /// Answer `ls-refs`: the advertised references whose names match one of
    /// the prefixes.
    pub fn ls_refs(&self, prefixes: &Vec<Vec<u8>>) -> (r: Vec<(Vec<u8>, Oid)>)
        requires
            self.wf(),
        ensures
            forall|i: int|
                0 <= i < r@.len() ==> self.ref_tips().contains_key(#[trigger] r@[i].0@)
                    && self.ref_tips()[r@[i].0@] == r@[i].1@ && (exists|p: int|
                    0 <= p < prefixes@.len() && has_prefix(r@[i].0@, prefixes@[p]@)),
            forall|k: Seq<u8>| #[trigger]
                self.ref_tips().contains_key(k) && (exists|p: int|
                    0 <= p < prefixes@.len() && has_prefix(k, prefixes@[p]@)) ==> exists|i: int|
                    0 <= i < r@.len() && r@[i].0@ == k,
            forall|i: int, j: int| 0 <= i < j < r@.len() ==> r@[i].0@ != r@[j].0@,
    {
        let ghost m = self.ref_tips();
        let mut r: Vec<(Vec<u8>, Oid)> = Vec::new();
        let n = self.refs.len();
        let mut i: usize = 0;
        while i < n
            invariant
                self.wf(),
                m == self.ref_tips(),
                n == self.refs.spec_len(),
                i <= n,
                forall|j: int|
                    0 <= j < r@.len() ==> m.contains_key(#[trigger] r@[j].0@) && m[r@[j].0@]
                        == r@[j].1@ && (exists|p: int|
                        0 <= p < prefixes@.len() && has_prefix(r@[j].0@, prefixes@[p]@)),
                forall|ki: int|
                    0 <= ki < i && (exists|p: int|
                        0 <= p < prefixes@.len() && has_prefix(
                            #[trigger] self.refs.key_seq()[ki],
                            prefixes@[p]@,
                        )) ==> exists|j: int|
                        0 <= j < r@.len() && r@[j].0@ == self.refs.key_seq()[ki],
                forall|j: int|
                    0 <= j < r@.len() ==> exists|ki: int|
                        0 <= ki < i && self.refs.key_seq()[ki] == #[trigger] r@[j].0@,
                forall|j1: int, j2: int| 0 <= j1 < j2 < r@.len() ==> r@[j1].0@ != r@[j2].0@,
            decreases n - i,
        {
            let (name, oid) = self.refs.entry_at(i);
            let mut matched = false;
            let mut p: usize = 0;
            while p < prefixes.len()
                invariant
                    0 <= p <= prefixes@.len(),
                    matched ==> exists|p2: int|
                        0 <= p2 < prefixes@.len() && has_prefix(name@, prefixes@[p2]@),
                    !matched ==> forall|p2: int|
                        0 <= p2 < p ==> !has_prefix(name@, (#[trigger] prefixes@[p2])@),
                decreases prefixes@.len() - p,
            {
                if crate::bytes::starts_with(name, &prefixes[p]) {
                    matched = true;
                }
                p = p + 1;
            }
            if matched {
                let name2 = name.clone();
                let o2 = oid.clone();
                proof {
                    assert(name2@ =~= name@);
                    self.refs.lemma_entry(i as int);
                }
                let ghost r_before = r@;
                r.push((name2, o2));
                proof {
                    assert(r@[r@.len() - 1].0@ == self.refs.key_seq()[i as int]);
                    assert forall|j1: int, j2: int|
                        0 <= j1 < j2 < r@.len() implies r@[j1].0@ != r@[j2].0@ by {
                        if j2 == r@.len() - 1 {
                            let ki = choose|ki: int|
                                0 <= ki < i && self.refs.key_seq()[ki] == r_before[j1].0@;
                            self.refs.lemma_keys_distinct(ki, i as int);
                        }
                    }
                    assert forall|ki: int|
                        0 <= ki < i + 1 && (exists|p2: int|
                            0 <= p2 < prefixes@.len() && has_prefix(
                                #[trigger] self.refs.key_seq()[ki],
                                prefixes@[p2]@,
                            )) implies exists|j: int|
                        0 <= j < r@.len() && r@[j].0@ == self.refs.key_seq()[ki] by {
                        if ki < i {
                            let j = choose|j: int|
                                0 <= j < r_before.len() && r_before[j].0@
                                    == self.refs.key_seq()[ki];
                            assert(r@[j].0@ == self.refs.key_seq()[ki]);
                        } else {
                            assert(r@[r@.len() - 1].0@ == self.refs.key_seq()[ki]);
                        }
                    }
                    assert forall|j: int| 0 <= j < r@.len() implies exists|ki: int|
                        0 <= ki < i + 1 && self.refs.key_seq()[ki] == #[trigger] r@[j].0@ by {
                        if j < r_before.len() {
                            let ki = choose|ki: int|
                                0 <= ki < i && self.refs.key_seq()[ki] == r_before[j].0@;
                            assert(self.refs.key_seq()[ki] == r@[j].0@);
                        } else {
                            assert(self.refs.key_seq()[i as int] == r@[j].0@);
                        }
                    }
                }
            } else {
                proof {
                    assert(name@ == self.refs.key_seq()[i as int]);
                    if exists|p2: int|
                        0 <= p2 < prefixes@.len() && has_prefix(
                            self.refs.key_seq()[i as int],
                            prefixes@[p2]@,
                        ) {
                        let p2 = choose|p2: int|
                            0 <= p2 < prefixes@.len() && has_prefix(
                                self.refs.key_seq()[i as int],
                                prefixes@[p2]@,
                            );
                        assert(!has_prefix(name@, prefixes@[p2]@));
                        assert(false);
                    }
                }
            }
            i = i + 1;
        }
        proof {
            assert forall|k: Seq<u8>| #[trigger]
                m.contains_key(k) && (exists|p: int|
                    0 <= p < prefixes@.len() && has_prefix(k, prefixes@[p]@)) implies exists|i2: int|
                0 <= i2 < r@.len() && r@[i2].0@ == k by {
                self.refs.lemma_dom(k);
                let ki = choose|ki: int|
                    0 <= ki < self.refs.key_seq().len() && self.refs.key_seq()[ki] == k;
            }
        }
        r
    }

    /// Answer a `fetch`: the remote's pack carries its objects into the
    /// local store, and every wanted object must be among them.
    pub fn fetch(&self, wants: &Vec<Oid>, refdb: &mut Refdb) -> (r: Result<(), FetchError>)
        requires
            self.wf(),
            old(refdb).wf(),
        ensures
            final(refdb).wf(),
            final(refdb)@ == old(refdb)@,
            match r {
                Ok(_) => (forall|i: int|
                    0 <= i < wants@.len() ==> self.objects@.contains_key(
                        (#[trigger] wants@[i])@,
                    )) && (forall|k: Seq<u8>| #![all_triggers]
                    final(refdb).objects().contains_key(k) <==> (old(refdb).objects().contains_key(
                        k,
                    ) || self.objects@.contains_key(k))) && (forall|k: Seq<u8>| #[trigger]
                    old(refdb).objects().contains_key(k) ==> final(refdb).objects()[k] == old(
                        refdb,
                    ).objects()[k]),
                Err(e) => match e {
                    FetchError::NotFound(o) => !self.objects@.contains_key(o@) && (exists|i: int|
                        0 <= i < wants@.len() && (#[trigger] wants@[i])@ == o@),
                },
            },
    {
        let mut w: usize = 0;
        while w < wants.len()
            invariant
                self.wf(),
                refdb.wf(),
                *refdb == *old(refdb),
                w <= wants@.len(),
                forall|i: int|
                    0 <= i < w ==> self.objects@.contains_key((#[trigger] wants@[i])@),
            decreases wants@.len() - w,
        {
            if !self.objects.contains_key(wants[w].bytes()) {
                return Err(FetchError::NotFound(wants[w].clone()));
            }
            w = w + 1;
        }
        let n = self.objects.len();
        let mut i: usize = 0;
        while i < n
            invariant
                self.wf(),
                refdb.wf(),
                refdb@ == old(refdb)@,
                n == self.objects.spec_len(),
                i <= n,
                forall|k: Seq<u8>| #![all_triggers]
                    refdb.objects().contains_key(k) <==> (old(refdb).objects().contains_key(k) || (
                    exists|ki: int| 0 <= ki < i && self.objects.key_seq()[ki] == k)),
                forall|k: Seq<u8>| #[trigger]
                    old(refdb).objects().contains_key(k) ==> refdb.objects()[k] == old(
                        refdb,
                    ).objects()[k],
            decreases n - i,
        {
            let (key, parents) = self.objects.entry_at(i);
            let oid = match Oid::from_bytes(key.clone()) {
                Some(o) => Some(o),
                None => None,
            };
            let ghost objs_before = refdb.objects();
            match oid {
                Some(o) => {
                    proof {
                        assert(o@ =~= key@);
                    }
                    if !refdb.contains(&o) {
                        let mut ps: Vec<Oid> = Vec::new();
                        let mut pi: usize = 0;
                        while pi < parents.len()
                            invariant
                                pi <= parents@.len(),
                                ps@.len() == pi,
                                forall|z: int| 0 <= z < pi ==> (#[trigger] ps@[z])@ == parents@[z]@,
                            decreases parents@.len() - pi,
                        {
                            ps.push(parents[pi].clone());
                            pi = pi + 1;
                        }
                        refdb.add_object(&o, ps);
                    }
                },
                None => {
                    proof {
                        self.objects.lemma_entry(i as int);
                        assert(self.objects@.contains_key(key@));
                        assert(false);
                    }
                },
            }
            proof {
                assert forall|k: Seq<u8>| #![all_triggers]
                    refdb.objects().contains_key(k) <==> (old(refdb).objects().contains_key(k) || (
                    exists|ki: int| 0 <= ki < i + 1 && self.objects.key_seq()[ki] == k)) by {
                    if refdb.objects().contains_key(k) && !objs_before.contains_key(k) {
                        assert(self.objects.key_seq()[i as int] == k);
                    }
                    if self.objects.key_seq()[i as int] == k && !refdb.objects().contains_key(k) {
                        assert(false);
                    }
                }
            }
            i = i + 1;
        }
        proof {
            assert forall|k: Seq<u8>| #![all_triggers]
                final(refdb).objects().contains_key(k) <==> (old(refdb).objects().contains_key(k)
                    || self.objects@.contains_key(k)) by {
                self.objects.lemma_dom(k);
                if self.objects@.contains_key(k) {
                    let ki = choose|ki: int|
                        0 <= ki < self.objects.key_seq().len() && self.objects.key_seq()[ki] == k;
                }
                if exists|ki: int| 0 <= ki < n && self.objects.key_seq()[ki] == k {
                    let ki = choose|ki: int| 0 <= ki < n && self.objects.key_seq()[ki] == k;
                    assert(self.objects.key_seq().contains(k));
                }
            }
        }
        Ok(())
    }
}

/// Strict lexicographic order on byte strings: the shorter prefix comes
/// first, otherwise the first differing byte decides.
pub open spec fn lex_lt(a: Seq<u8>, b: Seq<u8>) -> bool
    decreases a.len(),
{
    if b.len() == 0 {
        false
    } else if a.len() == 0 {
        true
    } else if a[0] < b[0] {
        true
    } else if a[0] > b[0] {
        false
    } else {
        lex_lt(a.skip(1), b.skip(1))
    }
}

/// Compare two byte strings lexicographically: strictly before, equal, or
/// strictly after.
fn lex_cmp(a: &Vec<u8>, b: &Vec<u8>) -> (r: i8)
    ensures
        r == -1 ==> lex_lt(a@, b@),
        r == 0 ==> a@ == b@,
        r == 1 ==> lex_lt(b@, a@),
        r == -1 || r == 0 || r == 1,
{
    let mut i: usize = 0;
    proof {
        assert(a@.skip(0) =~= a@);
        assert(b@.skip(0) =~= b@);
    }
    while i < a.len() && i < b.len()
        invariant
            i <= a@.len(),
            i <= b@.len(),
            forall|j: int| 0 <= j < i ==> a@[j] == b@[j],
            lex_lt(a@, b@) == lex_lt(a@.skip(i as int), b@.skip(i as int)),
            lex_lt(b@, a@) == lex_lt(b@.skip(i as int), a@.skip(i as int)),
        decreases a@.len() - i,
    {
        if a[i] < b[i] {
            proof {
                assert(a@.skip(i as int)[0] == a@[i as int]);
                assert(b@.skip(i as int)[0] == b@[i as int]);
            }
            return -1;
        }
        if a[i] > b[i] {
            proof {
                assert(a@.skip(i as int)[0] == a@[i as int]);
                assert(b@.skip(i as int)[0] == b@[i as int]);
            }
            return 1;
        }
        proof {
            assert(a@.skip(i as int)[0] == a@[i as int]);
            assert(b@.skip(i as int)[0] == b@[i as int]);
            assert(a@.skip(i as int).skip(1) =~= a@.skip(i as int + 1));
            assert(b@.skip(i as int).skip(1) =~= b@.skip(i as int + 1));
        }
        i = i + 1;
    }
    if a.len() < b.len() {
        proof {
            assert(a@.skip(i as int).len() == 0);
            assert(b@.skip(i as int).len() > 0);
        }
        return -1;
    }
    if a.len() > b.len() {
        proof {
            assert(b@.skip(i as int).len() == 0);
            assert(a@.skip(i as int).len() > 0);
        }
        return 1;
    }
    proof {
        assert(a@ =~= b@);
    }
    0
}

/// One of the names is `k`.
pub open spec fn holds_name_of(v: Seq<Vec<u8>>, k: Seq<u8>) -> bool {
    exists|i: int| 0 <= i < v.len() && (#[trigger] v[i])@ == k
}

/// Sort a list of names lexicographically and take duplicates out: the
/// result is strictly increasing and holds exactly the names given.
pub fn sort_prefixes(prefixes: Vec<Vec<u8>>) -> (r: Vec<Vec<u8>>)
    ensures
        forall|i: int, j: int|
            0 <= i < j < r@.len() ==> lex_lt((#[trigger] r@[i])@, (#[trigger] r@[j])@),
        forall|k: Seq<u8>| #[trigger] holds_name_of(prefixes@, k) <==> holds_name_of(r@, k),
{
    let ghost input = prefixes@;
    let mut r: Vec<Vec<u8>> = Vec::new();
    let mut n: usize = 0;
    proof {
        assert forall|k: Seq<u8>| #[trigger]
            holds_name_of(input.take(0), k) <==> holds_name_of(r@, k) by {}
    }
    while n < prefixes.len()
        invariant
            input == prefixes@,
            n <= input.len(),
            forall|i: int, j: int|
            0 <= i < j < r@.len() ==> lex_lt((#[trigger] r@[i])@, (#[trigger] r@[j])@),
            forall|k: Seq<u8>| #[trigger]
                holds_name_of(input.take(n as int), k) <==> holds_name_of(r@, k),
        decreases input.len() - n,
    {
        let x = prefixes[n].clone();
        proof {
            assert(x@ =~= input[n as int]@);
        }
        // find the place of x: the first entry not strictly before it
        let mut p: usize = 0;
        let mut dup = false;
        while p < r.len() && !dup && lex_cmp(&r[p], &x) == -1
            invariant
                0 <= p <= r@.len(),
                forall|i: int, j: int|
                    0 <= i < j < r@.len() ==> lex_lt((#[trigger] r@[i])@, (#[trigger] r@[j])@),
                forall|i: int| 0 <= i < p ==> lex_lt((#[trigger] r@[i])@, x@),
                !dup,
            decreases r@.len() - p,
        {
            p = p + 1;
        }
        if p < r.len() && lex_cmp(&r[p], &x) == 0 {
            dup = true;
        }
        let ghost r_before = r@;
        if !dup {
            proof {
                if p < r@.len() {
                    assert(!lex_lt((r@[p as int])@, x@) && (r@[p as int])@ != x@) by {
                        lemma_lex_trichotomy((r@[p as int])@, x@);
                    }
                }
            }
            r.insert(p, x);
            proof {
                assert forall|i: int, j: int|
                    0 <= i < j < r@.len() implies lex_lt((#[trigger] r@[i])@, (#[trigger] r@[j])@) by {
                    let oi = if i < p { i } else { i - 1 };
                    let oj = if j < p { j } else { j - 1 };
                    if i == p {
                        // x before everything at and after p
                        assert(r@[j] == r_before[j - 1]);
                        if j - 1 > p {
                            assert(lex_lt((r_before[p as int])@, (r_before[j - 1])@));
                        }
                        lemma_lex_trichotomy((r_before[p as int])@, x@);
                        if j - 1 == p {
                        } else {
                            lemma_lex_trans(x@, (r_before[p as int])@, (r_before[j - 1])@);
                        }
                    } else if j == p {
                        assert(r@[i] == r_before[i]);
                        assert(lex_lt((r_before[i])@, x@));
                    } else {
                        assert(r@[i] == r_before[oi]);
                        assert(r@[j] == r_before[oj]);
                        if i < p && j > p {
                            assert(lex_lt((r_before[oi])@, (r_before[oj])@) || oi == oj);
                            if oi == oj {
                                assert(lex_lt((r_before[oi])@, x@));
                                assert(!lex_lt((r_before[oj])@, x@));
                            }
                        }
                    }
                }
                assert forall|k: Seq<u8>| #[trigger]
                    holds_name_of(input.take(n as int + 1), k) <==> holds_name_of(r@, k) by {
                    let v1 = input.take(n as int + 1);
                    let v0 = input.take(n as int);
                    if holds_name_of(v1, k) {
                        let i = choose|i: int| 0 <= i < v1.len() && (#[trigger] v1[i])@ == k;
                        if i < n {
                            assert(v1[i] == input[i]);
                            assert(v0[i] == input[i]);
                            assert(v0[i]@ == k);
                            assert(holds_name_of(v0, k));
                            assert(holds_name_of(r_before, k));
                            let w = choose|w: int|
                                0 <= w < r_before.len() && (#[trigger] r_before[w])@ == k;
                            let nw = if w < p { w } else { w + 1 };
                            assert(r@[nw] == r_before[w]);
                            assert(holds_name_of(r@, k));
                        } else {
                            assert(v1[i] == input[n as int]);
                            assert((r@[p as int])@ == x@);
                            assert(r@[p as int]@ == k);
                            assert(holds_name_of(r@, k));
                        }
                    }
                    if holds_name_of(r@, k) {
                        let w = choose|w: int| 0 <= w < r@.len() && (#[trigger] r@[w])@ == k;
                        if w != p {
                            let ow = if w < p { w } else { w - 1 };
                            assert(r@[w] == r_before[ow]);
                            assert(r_before[ow]@ == k);
                            assert(holds_name_of(r_before, k));
                            assert(holds_name_of(v0, k));
                            let i = choose|i: int| 0 <= i < v0.len() && (#[trigger] v0[i])@ == k;
                            assert(v0[i] == input[i]);
                            assert(v1[i] == input[i]);
                            assert(v1[i]@ == k);
                            assert(holds_name_of(v1, k));
                        } else {
                            assert((r@[p as int])@ == x@);
                            assert(v1[n as int] == input[n as int]);
                            assert(v1[n as int]@ == k);
                            assert(holds_name_of(v1, k));
                        }
                    }
                }
            }
        } else {
            proof {
                assert((r@[p as int])@ == x@);
                assert forall|k: Seq<u8>| #[trigger]
                    holds_name_of(input.take(n as int + 1), k) <==> holds_name_of(r@, k) by {
                    let v1 = input.take(n as int + 1);
                    let v0 = input.take(n as int);
                    if holds_name_of(v1, k) {
                        let i = choose|i: int| 0 <= i < v1.len() && (#[trigger] v1[i])@ == k;
                        if i == n {
                            assert(v1[n as int] == input[n as int]);
                            assert((r@[p as int])@ == k);
                        } else {
                            assert(v1[i] == input[i]);
                            assert(v0[i] == input[i]);
                            assert(v0[i]@ == k);
                            assert(holds_name_of(v0, k));
                        }
                    }
                    if holds_name_of(r@, k) {
                        assert(holds_name_of(v0, k));
                        let i = choose|i: int| 0 <= i < v0.len() && (#[trigger] v0[i])@ == k;
                        assert(v0[i] == input[i]);
                        assert(v1[i] == input[i]);
                        assert(v1[i]@ == k);
                        assert(holds_name_of(v1, k));
                    }
                }
            }
        }
        n = n + 1;
    }
    proof {
        assert(input.take(input.len() as int) =~= input);
        assert forall|k: Seq<u8>| #[trigger]
            holds_name_of(input, k) <==> holds_name_of(r@, k) by {
            assert(holds_name_of(input.take(input.len() as int), k) == holds_name_of(input, k));
        }
    }
    r
}

/// Two distinct byte strings compare strictly one way.
proof fn lemma_lex_trichotomy(a: Seq<u8>, b: Seq<u8>)
    ensures
        lex_lt(a, b) || lex_lt(b, a) || a == b,
        !(lex_lt(a, b) && lex_lt(b, a)),
        lex_lt(a, b) ==> a != b,
    decreases a.len() + b.len(),
{
    if a.len() == 0 && b.len() == 0 {
        assert(a =~= b);
    } else if a.len() == 0 || b.len() == 0 {
    } else if a[0] == b[0] {
        lemma_lex_trichotomy(a.skip(1), b.skip(1));
        if a.skip(1) == b.skip(1) {
            assert(a =~= b) by {
                assert forall|j: int| 0 <= j < a.len() implies a[j] == b[j] by {
                    if j > 0 {
                        assert(a.skip(1)[j - 1] == a[j]);
                        assert(b.skip(1)[j - 1] == b[j]);
                    }
                }
            }
        }
        if a == b {
            assert(a.skip(1) =~= b.skip(1));
        }
    }
}

/// The lexicographic order is transitive.
proof fn lemma_lex_trans(a: Seq<u8>, b: Seq<u8>, c: Seq<u8>)
    requires
        lex_lt(a, b),
        lex_lt(b, c),
    ensures
        lex_lt(a, c),
    decreases a.len() + b.len() + c.len(),
{
    if a.len() == 0 {
    } else if b.len() > 0 && c.len() > 0 && a[0] == b[0] && b[0] == c[0] {
        lemma_lex_trans(a.skip(1), b.skip(1), c.skip(1));
    }
}

} // verus!
