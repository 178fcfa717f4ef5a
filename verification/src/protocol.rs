//! The exchange driver: clone and pull.
//!
//! An exchange runs the verification round, loads the signed manifests,
//! decides whether the local peer must confirm an identity change, commits
//! the verification batch, runs the data round, commits the rest, and
//! validates every trusted namespace. Updates accumulate in the staging
//! state between commits, and each commit is one atomic transaction; an
//! aborted exchange can therefore have changed nothing but the
//! verification names.

use crate::identity::{newer, requires_confirmation, IdentityError, IdentityStore, Newer, VerifiedIdentity};
use crate::keys::PublicKey;
use crate::oid::Oid;
use crate::refdb::{BatchV, EditV, Refdb, TargetV, UpdateError};
use crate::refname::RemoteRef;
use crate::sigrefs::{SigrefStore, Sigrefs};
use crate::stage::{ls_prefixes, pre_validate, prepare, ref_filter, LayoutError, PrepareError, Stage};
use crate::state::{is_verification_name, FetchState};
use crate::tracking::TrackedSet;
use crate::transport::{FetchError, ReceivedRef, RemoteState, WantsHavesBuilder, WantsHavesError};
use crate::update::{Applied, Update};
use crate::validation::{validate, validated_exact, Validation};
use vstd::prelude::*;

verus! {

/// Byte ceiling for the verification rounds' packs.
pub const FETCH_SPECIAL_LIMIT: u64 = 1024 * 1024 * 5;

/// Byte ceiling for the data round's pack.
pub const FETCH_REFS_LIMIT: u64 = 1024 * 1024 * 1024 * 5;

/// Byte ceilings for the exchange's packs. The wire adapter enforces them;
/// the engine threads them through to each round.
#[derive(Clone, Copy, Debug)]
pub struct FetchLimit {
    pub special: u64,
    pub refs: u64,
}

impl Default for FetchLimit {
    fn default() -> (r: Self)
        ensures
            r.special == FETCH_SPECIAL_LIMIT,
            r.refs == FETCH_REFS_LIMIT,
    {
        FetchLimit { special: FETCH_SPECIAL_LIMIT, refs: FETCH_REFS_LIMIT }
    }
}

/// What a finished exchange reports.
#[derive(Debug)]
pub struct FetchResult {
    /// The changes applied to the reference store, and the rejected ones.
    pub applied: Applied,
    /// The local peer keeps its own identity copy and the exchange found a
    /// newer one that needs confirmation.
    pub requires_confirmation: bool,
    /// Validation findings, as warnings.
    pub validation: Vec<Validation>,
}

/// Why an exchange failed.
#[derive(Debug)]
pub enum Error {
    /// An identity tip failed verification.
    Identity(IdentityError),
    /// Two delegate identities have unrelated histories.
    Fork,
    /// The local identity could not be found.
    MissingRadId,
    /// A delegate's identity ref was not found.
    MissingDelegateId(PublicKey),
    /// A required manifest was not found.
    SigrefsNotFound(PublicKey),
    /// Attempted to replicate from self.
    ReplicateSelf,
    /// A round's advertisement missed required refs.
    Layout(LayoutError),
    /// A round could not queue its updates.
    Prepare(PrepareError),
    /// The negotiation failed on an ancestry walk.
    WantsHaves(WantsHavesError),
    /// The pack transfer failed.
    Fetch(FetchError),
    /// A commit failed.
    Update(UpdateError),
    /// The anchor's delegate keys are malformed.
    BadAnchor,
}

/// The handle driving one replication: the local peer, its reference
/// store, and the collaborating oracles.
pub struct Handle {
    /// The local peer's key.
    pub local: PublicKey,
    /// The local reference store with its object database.
    pub refdb: Refdb,
    /// The identity oracle.
    pub ids: IdentityStore,
    /// The signed-refs store.
    pub sigrefs: SigrefStore,
    /// The tracking policy.
    pub tracking: TrackedSet,
}

impl Handle {
    pub open spec fn wf(&self) -> bool {
        &&& self.local.wf()
        &&& self.refdb.wf()
        &&& self.ids.wf()
        &&& self.sigrefs.wf()
        &&& self.tracking.wf()
    }
}

/// The store holds a loadable current manifest for `r`: a current tip is
/// filed, a manifest is filed under that tip, and its own tip matches.
pub open spec fn store_manifest_defined(s: &SigrefStore, r: Seq<u8>) -> bool {
    &&& s.current_tips().contains_key(r)
    &&& s.at_tip_map().contains_key(crate::sigrefs::tip_key(r, s.current_tips()[r]))
    &&& s.at_tip_map()[crate::sigrefs::tip_key(r, s.current_tips()[r])].at@ == s.current_tips()[r]
}

/// The store's current manifest of `r`.
pub open spec fn store_manifest(s: &SigrefStore, r: Seq<u8>) -> Sigrefs {
    s.at_tip_map()[crate::sigrefs::tip_key(r, s.current_tips()[r])]
}

/// Whether the loader resolves a manifest for `r`: the one filed at the
/// sigrefs tip the exchange observed, when it observed one, else the
/// store's current manifest.
pub open spec fn cached_manifest_defined(
    state: &FetchState,
    s: &SigrefStore,
    r: Seq<u8>,
) -> bool {
    if state.sigref_tips().contains_key(r) {
        s.at_tip_map().contains_key(crate::sigrefs::tip_key(r, state.sigref_tips()[r]))
    } else {
        store_manifest_defined(s, r)
    }
}

/// The manifest the loader resolves for `r`.
pub open spec fn cached_manifest(state: &FetchState, s: &SigrefStore, r: Seq<u8>) -> Sigrefs {
    if state.sigref_tips().contains_key(r) {
        s.at_tip_map()[crate::sigrefs::tip_key(r, state.sigref_tips()[r])]
    } else {
        store_manifest(s, r)
    }
}

/// The two stores differ at most on verification names.
pub open spec fn rad_only_diff(old_m: Map<Seq<u8>, TargetV>, new_m: Map<Seq<u8>, TargetV>) -> bool {
    &&& forall|k: Seq<u8>|
        !is_verification_name(k) ==> ((#[trigger] old_m.contains_key(k)) <==> new_m.contains_key(
            k,
        ))
    &&& forall|k: Seq<u8>|
        !is_verification_name(k) && old_m.contains_key(k) ==> (#[trigger] new_m[k]) == old_m[k]
}

/// A fresh copy of a key list.
fn clone_keys(v: &Vec<PublicKey>) -> (r: Vec<PublicKey>)
    ensures
        r@.len() == v@.len(),
        forall|i: int| 0 <= i < v@.len() ==> (#[trigger] r@[i])@ == v@[i]@,
        forall|i: int| 0 <= i < v@.len() ==> ((#[trigger] r@[i]).wf() == v@[i].wf()),
{
    let mut r: Vec<PublicKey> = Vec::new();
    let mut i: usize = 0;
    while i < v.len()
        invariant
            i <= v@.len(),
            r@.len() == i,
            forall|j: int| 0 <= j < i ==> (#[trigger] r@[j])@ == v@[j]@,
        decreases v@.len() - i,
    {
        r.push(v[i].clone());
        i = i + 1;
    }
    r
}

/// One round against the remote: ask, filter, check the layout, negotiate,
/// transfer the pack, record the observed tips, queue the round's updates.
///
/// The reference store's references are untouched — only its object store
/// grows; every pending change sits in the staging state until a commit.
#[verifier::rlimit(100)]
pub fn step(
    state: &mut FetchState,
    handle: &mut Handle,
    remote_state: &RemoteState,
    stage: &Stage,
) -> (r: Result<(), Error>)
    requires
        old(state).wf(),
        old(handle).wf(),
        remote_state.wf(),
        stage.wf(),
    ensures
        final(state).wf(),
        final(handle).wf(),
        final(handle).refdb@ == old(handle).refdb@,
        final(handle).local@ == old(handle).local@,
        final(handle).ids.doc_map() == old(handle).ids.doc_map(),
        final(handle).sigrefs.current_tips() == old(handle).sigrefs.current_tips(),
        final(handle).sigrefs.at_tip_map() == old(handle).sigrefs.at_tip_map(),
        r is Ok && (stage is CloneStep || stage is VerificationRefs) ==> forall|i: int|
            old(state).tip_queue().len() <= i < final(state).tip_queue().len()
                ==> (#[trigger] final(state).tip_queue()[i]) matches Update::Direct {
                no_ff: crate::update::Policy::Abort,
                ..
            },
        r is Ok ==> final(state).tip_queue().len() >= old(state).tip_queue().len(),
        r is Ok ==> forall|i: int|
            0 <= i < old(state).tip_queue().len() ==> (#[trigger] final(state).tip_queue()[i])
                == old(state).tip_queue()[i],
        r is Ok && stage is CloneStep && remote_state.ref_tips().contains_key(
            crate::refname::refs_rad_id(),
        ) ==> final(state).canonical() == Some(
            remote_state.ref_tips()[crate::refname::refs_rad_id()],
        ),
        r is Ok ==> (stage matches Stage::VerificationRefs { delegates, tracked_peers, .. }
            ==> (tracked_peers.scope is Trusted ==> forall|j: int|
            0 <= j < delegates@.len() ==> ((remote_state.ref_tips().contains_key(
                crate::stage::ns_id_name((#[trigger] delegates@[j])@),
            ) ==> final(state).id_tips().contains_key(delegates@[j]@)) && (
            remote_state.ref_tips().contains_key(crate::stage::ns_sig_name(delegates@[j]@))
                ==> final(state).sigref_tips().contains_key(delegates@[j]@))))),
        r is Ok ==> (stage matches Stage::VerificationRefs { tracked_peers, .. }
            ==> (tracked_peers.scope is All ==> forall|b: Seq<u8>|
            b.len() == crate::keys::KEY_SIZE && #[trigger] crate::stage::special_shapes_known(b)
                ==> ((remote_state.ref_tips().contains_key(crate::stage::ns_id_name(b))
                ==> final(state).id_tips().contains_key(b)) && (
            remote_state.ref_tips().contains_key(crate::stage::ns_sig_name(b))
                ==> final(state).sigref_tips().contains_key(b))))),
        !(r matches Err(Error::ReplicateSelf)),
        !(r matches Err(Error::MissingRadId)),
        r matches Err(Error::Layout(_)) ==> (stage is CloneStep
            ==> !remote_state.ref_tips().contains_key(crate::refname::refs_rad_id())),
        r matches Err(Error::Fetch(crate::transport::FetchError::NotFound(o)))
            ==> !remote_state.objects@.contains_key(o@),
{
    handle.refdb.reload();
    let raw_prefixes = ls_prefixes(stage);
    let ghost rawp = raw_prefixes@;
    // the wire request is sorted and de-duplicated; it asks for the same names
    let prefixes = crate::transport::sort_prefixes(raw_prefixes);
    let advertised = remote_state.ls_refs(&prefixes);
    let mut refs: Vec<ReceivedRef> = Vec::new();
    let mut i: usize = 0;
    while i < advertised.len()
        invariant
            remote_state.wf(),
            stage.wf(),
            *handle == *old(handle),
            *state == *old(state),
            i <= advertised@.len(),
            forall|j: int|
                0 <= j < advertised@.len() ==> remote_state.ref_tips().contains_key(
                    (#[trigger] advertised@[j]).0@,
                ) && remote_state.ref_tips()[advertised@[j].0@] == advertised@[j].1@,
            forall|j: int| 0 <= j < refs@.len() ==> (#[trigger] refs@[j]).wf(),
            forall|j: int|
                0 <= j < refs@.len() ==> ((stage is CloneStep || stage is VerificationRefs)
                    ==> is_verification_received(#[trigger] refs@[j])),
            // the canonical identity, once advertised, was kept — and every
            // kept canonical entry carries the advertised tip
            stage is CloneStep ==> ((exists|j: int|
                0 <= j < i && (#[trigger] advertised@[j]).0@ == crate::refname::refs_rad_id())
                ==> (exists|jj: int|
                0 <= jj < refs@.len() && (#[trigger] refs@[jj]).name is RadId)),
            forall|jj: int|
                0 <= jj < refs@.len() && (#[trigger] refs@[jj]).name is RadId ==> refs@[jj].tip@
                    == remote_state.ref_tips()[crate::refname::refs_rad_id()],
            // a delegate's advertised special was kept under its remote
            stage matches Stage::VerificationRefs { delegates, tracked_peers, .. } ==> (
            tracked_peers.scope is Trusted ==> forall|d: int|
                0 <= d < delegates@.len() ==> (crate::stage::special_shapes_known(
                    (#[trigger] delegates@[d])@,
                )
                    && ((exists|j: int|
                    0 <= j < i && (#[trigger] advertised@[j]).0@ == crate::stage::ns_id_name(
                        delegates@[d]@,
                    )) ==> (exists|jj: int|
                    0 <= jj < refs@.len() && received_special(
                        #[trigger] refs@[jj],
                        delegates@[d]@,
                        false,
                    ))) && ((exists|j: int|
                    0 <= j < i && (#[trigger] advertised@[j]).0@ == crate::stage::ns_sig_name(
                        delegates@[d]@,
                    )) ==> (exists|jj: int|
                    0 <= jj < refs@.len() && received_special(refs@[jj], delegates@[d]@, true))))),
            // with scope All, every advertised special of every remote was kept
            stage matches Stage::VerificationRefs { tracked_peers, .. } ==> (
            tracked_peers.scope is All ==> forall|b: Seq<u8>|
                b.len() == crate::keys::KEY_SIZE && #[trigger] crate::stage::special_shapes_known(
                    b,
                ) ==> (((exists|j: int|
                    0 <= j < i && (#[trigger] advertised@[j]).0@ == crate::stage::ns_id_name(b))
                    ==> (exists|jj: int|
                    0 <= jj < refs@.len() && received_special(#[trigger] refs@[jj], b, false)))
                    && ((exists|j: int|
                    0 <= j < i && (#[trigger] advertised@[j]).0@ == crate::stage::ns_sig_name(b))
                    ==> (exists|jj: int|
                    0 <= jj < refs@.len() && received_special(refs@[jj], b, true))))),
        decreases advertised@.len() - i,
    {
        let tip = &advertised[i].1;
        proof {
            assert(remote_state.ref_tips()[advertised@[i as int].0@] == tip@);
        }
        let ghost refs_before = refs@;
        match ref_filter(stage, &advertised[i].0, tip) {
            Some(rr) => {
                refs.push(rr);
            },
            None => {},
        }
        proof {
            let aname = advertised@[i as int].0@;
            // entries kept so far stay in place when one more is kept
            assert forall|jj: int|
                0 <= jj < refs_before.len() implies refs@[jj] == refs_before[jj] by {}
            if stage is CloneStep && (exists|j: int|
                0 <= j < i && (#[trigger] advertised@[j]).0@ == crate::refname::refs_rad_id()) {
                let jj = choose|jj: int|
                    0 <= jj < refs_before.len() && (#[trigger] refs_before[jj]).name is RadId;
                assert(refs@[jj].name is RadId);
            }
            match stage {
                Stage::VerificationRefs { delegates, tracked_peers, .. } => {
                    if tracked_peers.scope is Trusted {
                        assert forall|d: int|
                            0 <= d < delegates@.len() && (exists|j: int|
                                0 <= j < i && (#[trigger] advertised@[j]).0@
                                    == crate::stage::ns_id_name(
                                    (#[trigger] delegates@[d])@,
                                )) implies (exists|jj: int|
                            0 <= jj < refs@.len() && received_special(
                                #[trigger] refs@[jj],
                                delegates@[d]@,
                                false,
                            )) by {
                            let jj = choose|jj: int|
                                0 <= jj < refs_before.len() && received_special(
                                    #[trigger] refs_before[jj],
                                    delegates@[d]@,
                                    false,
                                );
                            assert(received_special(refs@[jj], delegates@[d]@, false));
                        }
                        assert forall|d: int|
                            0 <= d < delegates@.len() && (exists|j: int|
                                0 <= j < i && (#[trigger] advertised@[j]).0@
                                    == crate::stage::ns_sig_name(
                                    (#[trigger] delegates@[d])@,
                                )) implies (exists|jj: int|
                            0 <= jj < refs@.len() && received_special(
                                #[trigger] refs@[jj],
                                delegates@[d]@,
                                true,
                            )) by {
                            let jj = choose|jj: int|
                                0 <= jj < refs_before.len() && received_special(
                                    #[trigger] refs_before[jj],
                                    delegates@[d]@,
                                    true,
                                );
                            assert(received_special(refs@[jj], delegates@[d]@, true));
                        }
                    }
                    if tracked_peers.scope is All {
                        assert forall|b: Seq<u8>|
                            b.len() == crate::keys::KEY_SIZE
                                && #[trigger] crate::stage::special_shapes_known(b) && (exists|
                                j: int,
                            |
                                0 <= j < i && (#[trigger] advertised@[j]).0@
                                    == crate::stage::ns_id_name(b)) implies (exists|jj: int|
                            0 <= jj < refs@.len() && received_special(
                                #[trigger] refs@[jj],
                                b,
                                false,
                            )) by {
                            let jj = choose|jj: int|
                                0 <= jj < refs_before.len() && received_special(
                                    #[trigger] refs_before[jj],
                                    b,
                                    false,
                                );
                            assert(received_special(refs@[jj], b, false));
                        }
                        assert forall|b: Seq<u8>|
                            b.len() == crate::keys::KEY_SIZE
                                && #[trigger] crate::stage::special_shapes_known(b) && (exists|
                                j: int,
                            |
                                0 <= j < i && (#[trigger] advertised@[j]).0@
                                    == crate::stage::ns_sig_name(b)) implies (exists|jj: int|
                            0 <= jj < refs@.len() && received_special(
                                #[trigger] refs@[jj],
                                b,
                                true,
                            )) by {
                            let jj = choose|jj: int|
                                0 <= jj < refs_before.len() && received_special(
                                    #[trigger] refs_before[jj],
                                    b,
                                    true,
                                );
                            assert(received_special(refs@[jj], b, true));
                        }
                    }
                },
                _ => {},
            }
            if stage is CloneStep && aname == crate::refname::refs_rad_id() {
                // the canonical identity parses to RadId and is kept
                assert(refs@.len() > refs_before.len());
                let rr = refs@[refs@.len() - 1];
                match rr.name {
                    crate::refname::Refname::Namespaced(n) => {
                        assert(crate::refname::has_ns_shape(aname));
                        assert(crate::bytes::has_prefix(aname, crate::refname::ns_prefix()));
                        assert(false);
                    },
                    crate::refname::Refname::RadId => {},
                }
                assert(rr.name is RadId);
            }
            match stage {
                Stage::VerificationRefs { delegates, tracked_peers, .. } => {
                    if tracked_peers.scope is Trusted {
                        assert forall|d: int|
                            0 <= d < delegates@.len() && aname == crate::stage::ns_id_name(
                                (#[trigger] delegates@[d])@,
                            ) implies (refs@.len() > refs_before.len() && received_special(
                            refs@[refs@.len() - 1],
                            delegates@[d]@,
                            false,
                        )) by {
                            assert(crate::stage::special_shapes_known(delegates@[d]@));
                            assert((delegates@[d]).wf());
                            assert(refs@.len() > refs_before.len());
                            let rr = refs@[refs@.len() - 1];
                            match rr.name {
                                crate::refname::Refname::Namespaced(n) => {
                                    assert(n.remote@ == delegates@[d]@);
                                },
                                crate::refname::Refname::RadId => {
                                    assert(aname == crate::refname::refs_rad_id());
                                    assert(crate::bytes::has_prefix(
                                        aname,
                                        crate::refname::ns_prefix(),
                                    ));
                                    assert(false);
                                },
                            }
                        }
                        assert forall|d: int|
                            0 <= d < delegates@.len() && aname == crate::stage::ns_sig_name(
                                (#[trigger] delegates@[d])@,
                            ) implies (refs@.len() > refs_before.len() && received_special(
                            refs@[refs@.len() - 1],
                            delegates@[d]@,
                            true,
                        )) by {
                            assert(crate::stage::special_shapes_known(delegates@[d]@));
                            assert((delegates@[d]).wf());
                            assert(refs@.len() > refs_before.len());
                            let rr = refs@[refs@.len() - 1];
                            match rr.name {
                                crate::refname::Refname::Namespaced(n) => {
                                    assert(n.remote@ == delegates@[d]@);
                                },
                                crate::refname::Refname::RadId => {
                                    assert(aname == crate::refname::refs_rad_id());
                                    assert(crate::bytes::has_prefix(
                                        aname,
                                        crate::refname::ns_prefix(),
                                    ));
                                    assert(false);
                                },
                            }
                        }
                    }
                    if tracked_peers.scope is All {
                        assert forall|b: Seq<u8>|
                            b.len() == crate::keys::KEY_SIZE
                                && #[trigger] crate::stage::special_shapes_known(b) && aname
                                == crate::stage::ns_id_name(b) implies (refs@.len()
                            > refs_before.len() && received_special(
                            refs@[refs@.len() - 1],
                            b,
                            false,
                        )) by {
                            assert(crate::refname::has_ns_shape(aname));
                            assert(crate::refname::ns_component(aname)
                                == crate::keys::key_text(b));
                            assert(refs@.len() > refs_before.len());
                            let rr = refs@[refs@.len() - 1];
                            match rr.name {
                                crate::refname::Refname::Namespaced(n) => {
                                    assert(n.remote@ == b);
                                },
                                crate::refname::Refname::RadId => {
                                    assert(aname == crate::refname::refs_rad_id());
                                    assert(crate::bytes::has_prefix(
                                        aname,
                                        crate::refname::ns_prefix(),
                                    ));
                                    assert(false);
                                },
                            }
                        }
                        assert forall|b: Seq<u8>|
                            b.len() == crate::keys::KEY_SIZE
                                && #[trigger] crate::stage::special_shapes_known(b) && aname
                                == crate::stage::ns_sig_name(b) implies (refs@.len()
                            > refs_before.len() && received_special(
                            refs@[refs@.len() - 1],
                            b,
                            true,
                        )) by {
                            assert(crate::refname::has_ns_shape(aname));
                            assert(crate::refname::ns_component(aname)
                                == crate::keys::key_text(b));
                            assert(refs@.len() > refs_before.len());
                            let rr = refs@[refs@.len() - 1];
                            match rr.name {
                                crate::refname::Refname::Namespaced(n) => {
                                    assert(n.remote@ == b);
                                },
                                crate::refname::Refname::RadId => {
                                    assert(aname == crate::refname::refs_rad_id());
                                    assert(crate::bytes::has_prefix(
                                        aname,
                                        crate::refname::ns_prefix(),
                                    ));
                                    assert(false);
                                },
                            }
                        }
                    }
                },
                _ => {},
            }
            assert forall|jj: int|
                0 <= jj < refs@.len() && (#[trigger] refs@[jj]).name is RadId implies refs@[jj].tip@
                == remote_state.ref_tips()[crate::refname::refs_rad_id()] by {
                if jj < refs_before.len() {
                    assert(refs@[jj] == refs_before[jj]);
                }
            }
        }
        i = i + 1;
    }
    proof {
        if stage is CloneStep && remote_state.ref_tips().contains_key(
            crate::refname::refs_rad_id(),
        ) {
            assert(crate::bytes::has_prefix(
                crate::refname::refs_rad_id(),
                crate::refname::refs_rad_id(),
            )) by {
                assert(crate::refname::refs_rad_id().subrange(
                    0,
                    crate::refname::refs_rad_id().len() as int,
                ) =~= crate::refname::refs_rad_id());
            }
            assert((rawp[0])@ == crate::refname::refs_rad_id());
            assert(crate::transport::holds_name_of(rawp, crate::refname::refs_rad_id()));
            assert(crate::transport::holds_name_of(prefixes@, crate::refname::refs_rad_id()));
            let pi = choose|pi: int|
                0 <= pi < prefixes@.len() && (#[trigger] prefixes@[pi])@
                    == crate::refname::refs_rad_id();
            assert(crate::bytes::has_prefix(crate::refname::refs_rad_id(), (prefixes@[pi])@));
            let j = choose|j: int|
                0 <= j < advertised@.len() && (#[trigger] advertised@[j]).0@
                    == crate::refname::refs_rad_id();
        }
    }
    match stage {
        Stage::VerificationRefs { delegates, tracked_peers, .. } => {
            proof {
                if tracked_peers.scope is Trusted {
                    assert forall|d: int|
                        0 <= d < delegates@.len() && remote_state.ref_tips().contains_key(
                            crate::stage::ns_id_name((#[trigger] delegates@[d])@),
                        ) implies (exists|jj: int|
                        0 <= jj < refs@.len() && received_special(
                            #[trigger] refs@[jj],
                            delegates@[d]@,
                            false,
                        )) by {
                        let kn = crate::stage::ns_id_name(delegates@[d]@);
                        assert((rawp[2 * d])@ == kn);
                        assert(crate::transport::holds_name_of(rawp, kn));
                        assert(crate::transport::holds_name_of(prefixes@, kn));
                        let pi = choose|pi: int|
                            0 <= pi < prefixes@.len() && (#[trigger] prefixes@[pi])@ == kn;
                        assert(crate::bytes::has_prefix(kn, kn)) by {
                            assert(kn.subrange(0, kn.len() as int) =~= kn);
                        }
                        assert(crate::bytes::has_prefix(kn, (prefixes@[pi])@));
                        let j = choose|j: int|
                            0 <= j < advertised@.len() && (#[trigger] advertised@[j]).0@ == kn;
                    }
                    assert forall|d: int|
                        0 <= d < delegates@.len() && remote_state.ref_tips().contains_key(
                            crate::stage::ns_sig_name((#[trigger] delegates@[d])@),
                        ) implies (exists|jj: int|
                        0 <= jj < refs@.len() && received_special(
                            #[trigger] refs@[jj],
                            delegates@[d]@,
                            true,
                        )) by {
                        let kn = crate::stage::ns_sig_name(delegates@[d]@);
                        assert((rawp[2 * d])@ == crate::stage::ns_id_name(delegates@[d]@));
                        assert((rawp[2 * d + 1])@ == kn);
                        assert(crate::transport::holds_name_of(rawp, kn));
                        assert(crate::transport::holds_name_of(prefixes@, kn));
                        let pi = choose|pi: int|
                            0 <= pi < prefixes@.len() && (#[trigger] prefixes@[pi])@ == kn;
                        assert(crate::bytes::has_prefix(kn, kn)) by {
                            assert(kn.subrange(0, kn.len() as int) =~= kn);
                        }
                        assert(crate::bytes::has_prefix(kn, (prefixes@[pi])@));
                        let j = choose|j: int|
                            0 <= j < advertised@.len() && (#[trigger] advertised@[j]).0@ == kn;
                        assert(crate::stage::ns_sig_name(delegates@[d]@)
                            != crate::stage::ns_id_name(delegates@[d]@)) by {
                            assert(crate::refname::ns_rest(kn)
                                == crate::refname::refs_rad_sigrefs());
                        }
                    }
                }
                if tracked_peers.scope is All {
                    assert((rawp[0])@ == crate::refname::ns_prefix());
                    assert(crate::transport::holds_name_of(rawp, crate::refname::ns_prefix()));
                    assert(crate::transport::holds_name_of(
                        prefixes@,
                        crate::refname::ns_prefix(),
                    ));
                    let pi = choose|pi: int|
                        0 <= pi < prefixes@.len() && (#[trigger] prefixes@[pi])@
                            == crate::refname::ns_prefix();
                    assert forall|b: Seq<u8>|
                        b.len() == crate::keys::KEY_SIZE
                            && #[trigger] crate::stage::special_shapes_known(b)
                            && remote_state.ref_tips().contains_key(crate::stage::ns_id_name(b))
                        implies (exists|jj: int|
                        0 <= jj < refs@.len() && received_special(#[trigger] refs@[jj], b, false))
                        by {
                        let kn = crate::stage::ns_id_name(b);
                        assert(crate::refname::has_ns_shape(kn));
                        assert(crate::bytes::has_prefix(kn, crate::refname::ns_prefix()));
                        assert(crate::bytes::has_prefix(kn, (prefixes@[pi])@));
                        let j = choose|j: int|
                            0 <= j < advertised@.len() && (#[trigger] advertised@[j]).0@ == kn;
                    }
                    assert forall|b: Seq<u8>|
                        b.len() == crate::keys::KEY_SIZE
                            && #[trigger] crate::stage::special_shapes_known(b)
                            && remote_state.ref_tips().contains_key(crate::stage::ns_sig_name(b))
                        implies (exists|jj: int|
                        0 <= jj < refs@.len() && received_special(#[trigger] refs@[jj], b, true))
                        by {
                        let kn = crate::stage::ns_sig_name(b);
                        assert(crate::refname::has_ns_shape(kn));
                        assert(crate::bytes::has_prefix(kn, crate::refname::ns_prefix()));
                        assert(crate::bytes::has_prefix(kn, (prefixes@[pi])@));
                        let j = choose|j: int|
                            0 <= j < advertised@.len() && (#[trigger] advertised@[j]).0@ == kn;
                    }
                }
            }
        },
        _ => {},
    }
    match pre_validate(stage, &refs) {
        Ok(_) => {},
        Err(e) => {
            proof {
                // on a clone round the layout cannot fail while the
                // canonical identity is advertised: it was kept
                if stage is CloneStep && remote_state.ref_tips().contains_key(
                    crate::refname::refs_rad_id(),
                ) {
                    assert(crate::bytes::has_prefix(
                        crate::refname::refs_rad_id(),
                        crate::refname::refs_rad_id(),
                    )) by {
                        assert(crate::refname::refs_rad_id().subrange(
                            0,
                            crate::refname::refs_rad_id().len() as int,
                        ) =~= crate::refname::refs_rad_id());
                    }
                    assert((rawp[0])@ == crate::refname::refs_rad_id());
                    assert(crate::transport::holds_name_of(
                        rawp,
                        crate::refname::refs_rad_id(),
                    ));
                    assert(crate::transport::holds_name_of(
                        prefixes@,
                        crate::refname::refs_rad_id(),
                    ));
                    let pi = choose|pi: int|
                        0 <= pi < prefixes@.len() && (#[trigger] prefixes@[pi])@
                            == crate::refname::refs_rad_id();
                    assert(crate::bytes::has_prefix(
                        crate::refname::refs_rad_id(),
                        (prefixes@[pi])@,
                    ));
                    let j = choose|j: int|
                        0 <= j < advertised@.len() && (#[trigger] advertised@[j]).0@
                            == crate::refname::refs_rad_id();
                    let jj = choose|jj: int|
                        0 <= jj < refs@.len() && (#[trigger] refs@[jj]).name is RadId;
                    assert(refs@[jj].name.spec_name() == crate::refname::refs_rad_id());
                    assert(!crate::stage::name_missing(refs@, crate::refname::refs_rad_id()));
                    assert(false);
                }
            }
            return Err(Error::Layout(e));
        },
    }
    let mut builder = WantsHavesBuilder::new();
    let mut i: usize = 0;
    while i < refs.len()
        invariant
            handle.wf(),
            state.wf(),
            *handle == *old(handle),
            *state == *old(state),
            builder.wf(),
            i <= refs@.len(),
            forall|j: int| 0 <= j < refs@.len() ==> (#[trigger] refs@[j]).wf(),
            forall|k: Seq<u8>| #[trigger]
                builder.want_set().contains(k) ==> builder.offered_tips().contains(k)
                    && !handle.refdb.objects().contains_key(k),
        decreases refs@.len() - i,
    {
        let name = refs[i].name.name();
        match builder.add_one(&handle.refdb, &name, &refs[i].tip) {
            Ok(_) => {},
            Err(e) => {
                return Err(Error::WantsHaves(e));
            },
        }
        i = i + 1;
    }
    match stage {
        Stage::DataRefs { trusted, .. } => {
            let mut t: usize = 0;
            while t < trusted.len()
                invariant
                    handle.wf(),
                    state.wf(),
                    *handle == *old(handle),
                    *state == *old(state),
                    builder.wf(),
                    stage.wf(),
                    stage matches Stage::DataRefs { trusted: tr, .. } && tr == trusted,
                    t <= trusted@.len(),
                    forall|k: Seq<u8>| #[trigger]
                        builder.want_set().contains(k) ==> builder.offered_tips().contains(k)
                            && !handle.refdb.objects().contains_key(k),
                decreases trusted@.len() - t,
            {
                let n = trusted[t].1.refs.len();
                let mut s: usize = 0;
                while s < n
                    invariant
                        handle.wf(),
                        state.wf(),
                        *handle == *old(handle),
                        *state == *old(state),
                        builder.wf(),
                        stage.wf(),
                        stage matches Stage::DataRefs { trusted: tr, .. } && tr == trusted,
                        0 <= t < trusted@.len(),
                        n == trusted@[t as int].1.refs.spec_len(),
                        s <= n,
                        forall|k: Seq<u8>| #[trigger]
                            builder.want_set().contains(k) ==> builder.offered_tips().contains(k)
                                && !handle.refdb.objects().contains_key(k),
                    decreases n - s,
                {
                    let (sname, tip) = trusted[t].1.refs.entry_at(s);
                    match crate::refname::parse_qualified_suffix(sname) {
                        Some(suffix) => {
                            let rr = RemoteRef { remote: trusted[t].0.clone(), suffix };
                            let full = rr.namespaced();
                            let tip2 = tip.clone();
                            match builder.add_one(&handle.refdb, &full, &tip2) {
                                Ok(_) => {},
                                Err(e) => {
                                    return Err(Error::WantsHaves(e));
                                },
                            }
                        },
                        None => {},
                    }
                    s = s + 1;
                }
                t = t + 1;
            }
        },
        _ => {},
    }
    match builder.build(&handle.refdb) {
        Some(wh) => {
            match remote_state.fetch(&wh.wants, &mut handle.refdb) {
                Ok(_) => {},
                Err(e) => {
                    return Err(Error::Fetch(e));
                },
            }
        },
        None => {
            // nothing to fetch
        },
    }
    let mut i: usize = 0;
    let ghost rt = remote_state.ref_tips();
    while i < refs.len()
        invariant
            state.wf(),
            handle.wf(),
            handle.refdb@ == old(handle).refdb@,
            handle.local@ == old(handle).local@,
            handle.ids.doc_map() == old(handle).ids.doc_map(),
            handle.sigrefs.current_tips() == old(handle).sigrefs.current_tips(),
            handle.sigrefs.at_tip_map() == old(handle).sigrefs.at_tip_map(),
            i <= refs@.len(),
            forall|j: int| 0 <= j < refs@.len() ==> (#[trigger] refs@[j]).wf(),
            state.tip_queue() == old(state).tip_queue(),
            forall|jj: int|
                0 <= jj < refs@.len() && (#[trigger] refs@[jj]).name is RadId ==> refs@[jj].tip@
                    == rt[crate::refname::refs_rad_id()],
            stage is CloneStep && (exists|jj: int|
                0 <= jj < i && (#[trigger] refs@[jj]).name is RadId) ==> state.canonical()
                == Some(rt[crate::refname::refs_rad_id()]),
            forall|k: Seq<u8>|
                (exists|jj: int|
                    0 <= jj < i && received_special(#[trigger] refs@[jj], k, false))
                    ==> state.id_tips().contains_key(k),
            forall|k: Seq<u8>|
                (exists|jj: int| 0 <= jj < i && received_special(#[trigger] refs@[jj], k, true))
                    ==> state.sigref_tips().contains_key(k),
        decreases refs@.len() - i,
    {
        state.record_ref(&refs[i]);
        proof {
            assert forall|k: Seq<u8>|
                (exists|jj: int|
                    0 <= jj < i + 1 && received_special(
                        #[trigger] refs@[jj],
                        k,
                        false,
                    )) implies state.id_tips().contains_key(k) by {
                let jj = choose|jj: int|
                    0 <= jj < i + 1 && received_special(refs@[jj], k, false);
            }
            assert forall|k: Seq<u8>|
                (exists|jj: int|
                    0 <= jj < i + 1 && received_special(
                        #[trigger] refs@[jj],
                        k,
                        true,
                    )) implies state.sigref_tips().contains_key(k) by {
                let jj = choose|jj: int| 0 <= jj < i + 1 && received_special(refs@[jj], k, true);
            }
        }
        i = i + 1;
    }
    let ups = match prepare(stage, state, &handle.refdb, &handle.ids, &refs) {
        Ok(ups) => ups,
        Err(e) => {
            return Err(Error::Prepare(e));
        },
    };
    let ghost upsv = ups@;
    let ghost pre_queue = state.tip_queue();
    let _ = state.update_all(ups);
    proof {
        if stage is CloneStep || stage is VerificationRefs {
            assert forall|i: int|
                pre_queue.len() <= i < state.tip_queue().len() implies (
            #[trigger] state.tip_queue()[i]) matches Update::Direct {
                no_ff: crate::update::Policy::Abort,
                ..
            } by {
                let j = i - pre_queue.len();
                assert(state.tip_queue()[pre_queue.len() + j].matches_spec(&upsv[j]));
                assert(state.tip_queue()[i] == state.tip_queue()[pre_queue.len() + j]);
                assert(upsv[j] matches Update::Direct { no_ff: crate::update::Policy::Abort, .. });
            }
        }
    }
    Ok(())
}

/// A received ref of the verification rounds.
pub open spec fn is_verification_received(r: ReceivedRef) -> bool {
    r.name is RadId || (r.name matches crate::refname::Refname::Namespaced(n)
        && n.suffix is Special)
}

/// A received special ref of the given remote: its `rad/sigrefs` when
/// `sig`, its `rad/id` otherwise.
pub open spec fn received_special(r: ReceivedRef, remote: Seq<u8>, sig: bool) -> bool {
    r.name matches crate::refname::Refname::Namespaced(n) && n.remote@ == remote
        && n.suffix is Special && n.suffix.spec_name() == (if sig {
        crate::refname::refs_rad_sigrefs()
    } else {
        crate::refname::refs_rad_id()
    })
}

/// Keys that `put_edit` leaves in a verification-name key set stay in it.
proof fn lemma_put_edit_ver(s: Seq<(Seq<u8>, EditV)>, name: Seq<u8>, e: EditV)
    requires
        forall|i: int| 0 <= i < s.len() ==> is_verification_name((#[trigger] s[i]).0),
        is_verification_name(name),
    ensures
        forall|i: int|
            0 <= i < crate::refdb::put_edit(s, name, e).len() ==> is_verification_name(
                (#[trigger] crate::refdb::put_edit(s, name, e)[i]).0,
            ),
    decreases s.len(),
{
    let out = crate::refdb::put_edit(s, name, e);
    if s.len() == 0 {
        assert forall|i: int| 0 <= i < out.len() implies is_verification_name(
            (#[trigger] out[i]).0,
        ) by {
            assert(out[i] == (name, e));
        }
    } else if s[0].0 == name {
        assert forall|i: int| 0 <= i < out.len() implies is_verification_name(
            (#[trigger] out[i]).0,
        ) by {
            if i == 0 {
                assert(out[0] == (name, e));
            } else {
                assert(out[i] == s.drop_first()[i - 1]);
                assert(s.drop_first()[i - 1] == s[i]);
            }
        }
    } else {
        assert forall|i: int|
            0 <= i < s.drop_first().len() implies is_verification_name(
            (#[trigger] s.drop_first()[i]).0,
        ) by {
            assert(s.drop_first()[i] == s[i + 1]);
        }
        lemma_put_edit_ver(s.drop_first(), name, e);
        let rest = crate::refdb::put_edit(s.drop_first(), name, e);
        assert forall|i: int| 0 <= i < out.len() implies is_verification_name(
            (#[trigger] out[i]).0,
        ) by {
            if i == 0 {
                assert(out[0] == s[0]);
            } else {
                assert(out[i] == rest[i - 1]);
            }
        }
    }
}

/// Deciding a batch of direct updates on verification names yields edits
/// keyed by verification names only.
proof fn lemma_decide_ver(
    m: Map<Seq<u8>, TargetV>,
    objs: Map<Seq<u8>, Vec<Oid>>,
    updates: Seq<Update>,
    rejected: Seq<Update>,
    edits: Seq<(Seq<u8>, EditV)>,
)
    requires
        forall|i: int|
            0 <= i < updates.len() ==> ((#[trigger] updates[i]) matches Update::Direct { .. }
                && is_verification_name(updates[i].spec_refname())),
        forall|i: int| 0 <= i < edits.len() ==> is_verification_name((#[trigger] edits[i]).0),
    ensures
        crate::refdb::decide_from(m, objs, updates, rejected, edits) matches BatchV::Go {
            edits: e2,
            ..
        } ==> forall|i: int| 0 <= i < e2.len() ==> is_verification_name((#[trigger] e2[i]).0),
    decreases updates.len(),
{
    if updates.len() > 0 {
        let u = updates[0];
        assert(u matches Update::Direct { .. } && is_verification_name(u.spec_refname()));
        assert forall|i: int|
            0 <= i < updates.drop_first().len() implies ((#[trigger] updates.drop_first()[i]) matches Update::Direct {
            ..
        } && is_verification_name(updates.drop_first()[i].spec_refname())) by {
            assert(updates.drop_first()[i] == updates[i + 1]);
        }
        match crate::refdb::decide_one(m, objs, u) {
            crate::refdb::DecisionV::Fail(_) => {},
            crate::refdb::DecisionV::Reject => {
                lemma_decide_ver(m, objs, updates.drop_first(), rejected.push(u), edits);
            },
            crate::refdb::DecisionV::Skip => {
                lemma_decide_ver(m, objs, updates.drop_first(), rejected, edits);
            },
            crate::refdb::DecisionV::Edits(es) => {
                // a direct update edits its own name only
                match u {
                    Update::Direct { name, target, no_ff } => {
                        assert forall|i: int|
                            0 <= i < es.len() implies is_verification_name(
                            (#[trigger] es[i]).0,
                        ) by {
                            assert(es[i].0 == name@);
                        }
                        assert(es.len() == 1);
                        crate::refdb::lemma_put_edits_one(edits, es[0].0, es[0].1);
                        assert(es =~= seq![(es[0].0, es[0].1)]);
                        lemma_put_edit_ver(edits, es[0].0, es[0].1);
                        lemma_decide_ver(
                            m,
                            objs,
                            updates.drop_first(),
                            rejected,
                            crate::refdb::put_edits(edits, es),
                        );
                    },
                    _ => {
                        assert(false);
                    },
                }
            },
        }
    }
}

/// Applying edits keyed by verification names touches nothing else.
proof fn lemma_apply_ver(m: Map<Seq<u8>, TargetV>, edits: Seq<(Seq<u8>, EditV)>)
    requires
        forall|i: int| 0 <= i < edits.len() ==> is_verification_name((#[trigger] edits[i]).0),
    ensures
        rad_only_diff(m, crate::refdb::apply_edits(m, edits)),
    decreases edits.len(),
{
    if edits.len() > 0 {
        let m2 = match edits[0].1 {
            EditV::Write { target, prev } => m.insert(edits[0].0, target),
            EditV::Delete { prev } => m.remove(edits[0].0),
        };
        assert forall|k: Seq<u8>|
            !is_verification_name(k) implies ((m.contains_key(k) <==> m2.contains_key(k)) && (
        m.contains_key(k) ==> (#[trigger] m2[k]) == m[k])) by {
            assert(is_verification_name(edits[0].0));
            assert(k != edits[0].0);
        }
        assert(rad_only_diff(m, m2));
        assert forall|i: int|
            0 <= i < edits.drop_first().len() implies is_verification_name(
            (#[trigger] edits.drop_first()[i]).0,
        ) by {
            assert(edits.drop_first()[i] == edits[i + 1]);
        }
        lemma_apply_ver(m2, edits.drop_first());
        assert(crate::refdb::apply_edits(m, edits) == crate::refdb::apply_edits(
            m2,
            edits.drop_first(),
        ));
        let fin = crate::refdb::apply_edits(m, edits);
        assert forall|k: Seq<u8>|
            !is_verification_name(k) implies ((#[trigger] m.contains_key(k)) <==> fin.contains_key(
            k,
        )) by {
            assert(m.contains_key(k) <==> m2.contains_key(k));
            assert(m2.contains_key(k) <==> fin.contains_key(k));
        }
        assert forall|k: Seq<u8>|
            !is_verification_name(k) && m.contains_key(k) implies (#[trigger] fin[k]) == m[k] by {
            assert(m2.contains_key(k));
            assert(m2[k] == m[k]);
            assert(fin[k] == m2[k]);
        }
    }
}

/// Elements kept by the verification filter are verification-named
/// elements of the source.
proof fn lemma_filter_ver_elems(s: Seq<Update>)
    ensures
        forall|i: int|
            0 <= i < crate::state::filter_ver(s, true).len() ==> is_verification_name(
                (#[trigger] crate::state::filter_ver(s, true)[i]).spec_refname(),
            ) && (exists|j: int|
                0 <= j < s.len() && crate::state::filter_ver(s, true)[i] == s[j]),
    decreases s.len(),
{
    let out = crate::state::filter_ver(s, true);
    if s.len() > 0 {
        lemma_filter_ver_elems(s.drop_first());
        let rest = crate::state::filter_ver(s.drop_first(), true);
        assert forall|i: int| 0 <= i < out.len() implies is_verification_name(
            (#[trigger] out[i]).spec_refname(),
        ) && (exists|j: int| 0 <= j < s.len() && out[i] == s[j]) by {
            if is_verification_name(s[0].spec_refname()) {
                assert(out == seq![s[0]] + rest);
                if i == 0 {
                    assert(out[0] == s[0]);
                } else {
                    assert(out[i] == rest[i - 1]);
                    let j = choose|j: int|
                        0 <= j < s.drop_first().len() && rest[i - 1] == s.drop_first()[j];
                    assert(s.drop_first()[j] == s[j + 1]);
                }
            } else {
                assert(out == rest);
                let j = choose|j: int|
                    0 <= j < s.drop_first().len() && rest[i] == s.drop_first()[j];
                assert(s.drop_first()[j] == s[j + 1]);
            }
        }
    }
}

/// Load a remote's manifest through the observed tips first, then the
/// store.
fn load_cached(
    state: &FetchState,
    store: &SigrefStore,
    remote: &PublicKey,
) -> (r: Option<Sigrefs>)
    requires
        state.wf(),
        store.wf(),
    ensures
        match r {
            Some(s) => s.wf() && cached_manifest_defined(state, store, remote@) && s.at@
                == cached_manifest(state, store, remote@).at@ && s.refs_map() == cached_manifest(
                state,
                store,
                remote@,
            ).refs_map(),
            None => !cached_manifest_defined(state, store, remote@),
        },
{
    match state.sigref_tip(remote) {
        Some(tip) => {
            let tip2 = tip.clone();
            match store.load_at(&tip2, remote) {
                Some(s) => Some(s.duplicate()),
                None => None,
            }
        },
        None => match store.load(remote) {
            Some(s) => Some(s.duplicate()),
            None => None,
        },
    }
}

/// Load the manifests of the `must` and `may` remotes: a missing `must`
/// manifest fails, a missing `may` one is skipped.
fn load_remote_refs(
    state: &FetchState,
    store: &SigrefStore,
    must: &Vec<PublicKey>,
    may: &Vec<PublicKey>,
) -> (r: Result<Vec<(PublicKey, Sigrefs)>, Error>)
    requires
        state.wf(),
        store.wf(),
        forall|i: int| 0 <= i < must@.len() ==> (#[trigger] must@[i]).wf(),
        forall|i: int| 0 <= i < may@.len() ==> (#[trigger] may@[i]).wf(),
    ensures
        match r {
            Ok(list) => (forall|i: int|
                0 <= i < list@.len() ==> (#[trigger] list@[i]).0.wf() && list@[i].1.wf())
                && list@.len() >= must@.len() && (forall|i: int|
                0 <= i < must@.len() ==> (#[trigger] list@[i]).0@ == must@[i]@
                    && cached_manifest_defined(state, store, must@[i]@) && list@[i].1.at@
                    == cached_manifest(state, store, must@[i]@).at@ && list@[i].1.refs_map()
                    == cached_manifest(state, store, must@[i]@).refs_map()),
            Err(e) => e matches Error::SigrefsNotFound(k) && (exists|i: int|
                0 <= i < must@.len() && (#[trigger] must@[i])@ == k@) && !cached_manifest_defined(
                state,
                store,
                k@,
            ),
        },
        (exists|i: int|
            0 <= i < must@.len() && !cached_manifest_defined(
                state,
                store,
                (#[trigger] must@[i])@,
            )) <==> r is Err,
        !(r matches Err(Error::ReplicateSelf)),
        !(r matches Err(Error::MissingRadId)),
{
    let mut out: Vec<(PublicKey, Sigrefs)> = Vec::new();
    let mut i: usize = 0;
    while i < must.len()
        invariant
            state.wf(),
            store.wf(),
            forall|j: int| 0 <= j < must@.len() ==> (#[trigger] must@[j]).wf(),
            i <= must@.len(),
            out@.len() == i,
            forall|j: int|
                0 <= j < i ==> (#[trigger] out@[j]).0@ == must@[j]@ && cached_manifest_defined(
                    state,
                    store,
                    must@[j]@,
                ) && out@[j].1.at@ == cached_manifest(state, store, must@[j]@).at@
                    && out@[j].1.refs_map() == cached_manifest(state, store, must@[j]@).refs_map(),
            forall|j: int| 0 <= j < out@.len() ==> (#[trigger] out@[j]).0.wf() && out@[j].1.wf(),
        decreases must@.len() - i,
    {
        match load_cached(state, store, &must[i]) {
            Some(s) => {
                out.push((must[i].clone(), s));
            },
            None => {
                return Err(Error::SigrefsNotFound(must[i].clone()));
            },
        }
        i = i + 1;
    }
    let mut i: usize = 0;
    while i < may.len()
        invariant
            state.wf(),
            store.wf(),
            forall|j: int| 0 <= j < may@.len() ==> (#[trigger] may@[j]).wf(),
            i <= may@.len(),
            out@.len() >= must@.len(),
            forall|j: int|
                0 <= j < must@.len() ==> (#[trigger] out@[j]).0@ == must@[j]@
                    && cached_manifest_defined(state, store, must@[j]@) && out@[j].1.at@
                    == cached_manifest(state, store, must@[j]@).at@ && out@[j].1.refs_map()
                    == cached_manifest(state, store, must@[j]@).refs_map(),
            forall|j: int| 0 <= j < out@.len() ==> (#[trigger] out@[j]).0.wf() && out@[j].1.wf(),
        decreases may@.len() - i,
    {
        match load_cached(state, store, &may[i]) {
            Some(s) => {
                out.push((may[i].clone(), s));
            },
            None => {},
        }
        i = i + 1;
    }
    proof {
        assert forall|ii: int| 0 <= ii < must@.len() implies cached_manifest_defined(
            state,
            store,
            (#[trigger] must@[ii])@,
        ) by {
            assert(out@[ii].0@ == must@[ii]@);
        }
    }
    Ok(out)
}

/// The newest delegate identity, read through the staging overlay.
fn newest_delegate(
    state: &FetchState,
    handle: &Handle,
    delegates: &Vec<PublicKey>,
) -> (r: Result<Option<VerifiedIdentity>, Error>)
    requires
        state.wf(),
        handle.wf(),
        forall|i: int| 0 <= i < delegates@.len() ==> (#[trigger] delegates@[i]).wf(),
    ensures
        !(r matches Err(Error::ReplicateSelf)),
        !(r matches Err(Error::MissingRadId)),
        r is Err ==> ((r matches Err(Error::MissingDelegateId(_))) || (r matches Err(
            Error::Identity(_),
        )) || (r matches Err(Error::Fork))),
        r matches Ok(None) ==> delegates@.len() == 0,
        r matches Ok(Some(doc)) ==> exists|d: VerifiedIdentity|
            handle.ids.doc_map().contains_value(d) && d.revision@ == doc.revision@,
{
    let mut newest: Option<VerifiedIdentity> = None;
    let mut i: usize = 0;
    while i < delegates.len()
        invariant
            state.wf(),
            handle.wf(),
            forall|j: int| 0 <= j < delegates@.len() ==> (#[trigger] delegates@[j]).wf(),
            i <= delegates@.len(),
            i > 0 ==> newest is Some,
            newest matches Some(b) ==> exists|d: VerifiedIdentity|
                handle.ids.doc_map().contains_value(d) && d.revision@ == b.revision@,
        decreases delegates@.len() - i,
    {
        let id_ref = RemoteRef::rad_id(delegates[i].clone());
        let name = id_ref.namespaced();
        let tip = match state.cached_refname_to_id(&handle.refdb, &name) {
            Some(t) => t,
            None => {
                return Err(Error::MissingDelegateId(delegates[i].clone()));
            },
        };
        let doc = match handle.ids.verified(&tip) {
            Ok(d) => d.duplicate(),
            Err(e) => {
                return Err(Error::Identity(e));
            },
        };
        proof {
            assert(handle.ids.doc_map().contains_value(handle.ids.doc_map()[tip@])) by {
                assert(handle.ids.doc_map().contains_key(tip@));
                assert(handle.ids.doc_map().dom().contains(tip@));
            }
            assert(doc.revision@ == handle.ids.doc_map()[tip@].revision@);
        }
        newest = match newest {
            None => Some(doc),
            Some(best) => match newer(&doc, &best) {
                Ok(Newer::Left) => Some(doc),
                Ok(Newer::Right) => Some(best),
                Err(_) => {
                    return Err(Error::Fork);
                },
            },
        };
        i = i + 1;
    }
    Ok(newest)
}

/// Drive one exchange: the verification round, the manifests, the
/// confirmation check, the verification commit, the data round, the final
/// commit, and the validation.
///
/// On failure the reference store differs from its entry state at most on
/// the verification names — the verification batch either committed wholly
/// or not at all, and nothing else was committed.
pub fn exchange(
    state: &mut FetchState,
    handle: &mut Handle,
    remote_state: &RemoteState,
    pull_local: Option<&PublicKey>,
    anchor: &VerifiedIdentity,
    remote: &PublicKey,
    limit: FetchLimit,
) -> (r: Result<FetchResult, Error>)
    requires
        old(state).wf(),
        old(handle).wf(),
        remote_state.wf(),
        remote.wf(),
        match pull_local {
            Some(l) => l.wf(),
            None => true,
        },
        forall|i: int|
            0 <= i < old(state).tip_queue().len() ==> (#[trigger] old(state).tip_queue()[i]) matches Update::Direct {
                no_ff: crate::update::Policy::Abort,
                ..
            },
    ensures
        final(handle).local@ == old(handle).local@,
        final(handle).ids.doc_map() == old(handle).ids.doc_map(),
        !(r matches Err(Error::ReplicateSelf)),
        !(r matches Err(Error::MissingRadId)),
        r matches Err(Error::Fetch(crate::transport::FetchError::NotFound(o)))
            ==> !remote_state.objects@.contains_key(o@),
        r is Err ==> rad_only_diff(old(handle).refdb@, final(handle).refdb@),
        r matches Ok(res) && res.requires_confirmation ==> anchor.spec_is_delegate(
            old(handle).local@,
        ),
        r matches Ok(res) && res.requires_confirmation ==> (exists|d: VerifiedIdentity|
            old(handle).ids.doc_map().contains_value(d) && anchor.revision@ != d.revision@
                && !anchor.spec_in_history(d.revision@)),
        r matches Ok(res) ==> final(handle).refdb@ == crate::refdb::apply_updated(
            old(handle).refdb@,
            res.applied.updated@,
        ),
        r matches Ok(res) && res.validation@.len() == 0 ==> forall|j: int|
            0 <= j < anchor.delegates@.len() && !(pull_local matches Some(l) && l@ == (
            #[trigger] anchor.delegates@[j])@) && store_manifest_defined(
                &final(handle).sigrefs,
                anchor.delegates@[j]@,
            ) ==> validated_exact(
                final(handle).refdb@,
                anchor.delegates@[j]@,
                store_manifest(&final(handle).sigrefs, anchor.delegates@[j]@).at@,
                store_manifest(&final(handle).sigrefs, anchor.delegates@[j]@).refs_map(),
            ),
{
    // the delegates of the anchor, leaving the local peer out on a pull
    let mut delegates: Vec<PublicKey> = Vec::new();
    let mut i: usize = 0;
    while i < anchor.delegates.len()
        invariant
            *handle == *old(handle),
            *state == *old(state),
            i <= anchor.delegates@.len(),
            forall|j: int|
                0 <= j < i && !(pull_local matches Some(l) && l@ == (
                #[trigger] anchor.delegates@[j])@) ==> exists|k: int|
                    0 <= k < delegates@.len() && (delegates@[k])@ == anchor.delegates@[j]@,
        decreases anchor.delegates@.len() - i,
    {
        let keep = match pull_local {
            Some(l) => !crate::bytes::bytes_eq(l.bytes(), anchor.delegates[i].bytes()),
            None => true,
        };
        let ghost before = delegates@;
        if keep {
            delegates.push(anchor.delegates[i].clone());
        }
        proof {
            assert forall|j: int|
                0 <= j < i + 1 && !(pull_local matches Some(l) && l@ == (
                #[trigger] anchor.delegates@[j])@) implies exists|k: int|
                0 <= k < delegates@.len() && (delegates@[k])@ == anchor.delegates@[j]@ by {
                if j < i {
                    let k = choose|k: int|
                        0 <= k < before.len() && (before[k])@ == anchor.delegates@[j]@;
                    assert((delegates@[k])@ == anchor.delegates@[j]@);
                } else {
                    assert((delegates@[delegates@.len() - 1])@ == anchor.delegates@[j]@);
                }
            }
        }
        i = i + 1;
    }
    if !check_keys_wf(&delegates) {
        // a malformed delegate key cannot name a namespace
        return Err(Error::BadAnchor);
    }
    // the tracked peers that are not delegates
    let mut may: Vec<PublicKey> = Vec::new();
    let mut i: usize = 0;
    while i < handle.tracking.remotes.len()
        invariant
            handle.wf(),
            *handle == *old(handle),
            *state == *old(state),
            forall|j: int| 0 <= j < delegates@.len() ==> (#[trigger] delegates@[j]).wf(),
            i <= handle.tracking.remotes@.len(),
            forall|j: int| 0 <= j < may@.len() ==> (#[trigger] may@[j]).wf(),
        decreases handle.tracking.remotes@.len() - i,
    {
        let mut is_delegate = false;
        let mut d: usize = 0;
        while d < delegates.len()
            invariant
                handle.wf(),
                forall|j: int| 0 <= j < delegates@.len() ==> (#[trigger] delegates@[j]).wf(),
                0 <= i < handle.tracking.remotes@.len(),
                d <= delegates@.len(),
            decreases delegates@.len() - d,
        {
            if crate::bytes::bytes_eq(
                delegates[d].bytes(),
                handle.tracking.remotes[i].bytes(),
            ) {
                is_delegate = true;
            }
            d = d + 1;
        }
        if !is_delegate {
            may.push(handle.tracking.remotes[i].clone());
        }
        i = i + 1;
    }
    // the verification round
    let stage1 = Stage::VerificationRefs {
        local: match pull_local {
            Some(l) => Some(l.clone()),
            None => None,
        },
        remote: remote.clone(),
        delegates: clone_keys(&delegates),
        tracked_peers: TrackedSet {
            scope: handle.tracking.scope,
            remotes: clone_keys(&handle.tracking.remotes),
        },
        limit: limit.special,
    };
    proof {
        assert(stage1.wf()) by {
            match pull_local {
                Some(l) => {},
                None => {},
            }
        }
    }
    match step(state, handle, remote_state, &stage1) {
        Ok(_) => {},
        Err(e) => {
            proof {
                assert(rad_only_diff(old(handle).refdb@, handle.refdb@));
            }
            return Err(e);
        },
    }
    // the signed manifests
    let signed_refs = match load_remote_refs(state, &handle.sigrefs, &delegates, &may) {
        Ok(list) => list,
        Err(e) => {
            proof {
                assert(rad_only_diff(old(handle).refdb@, handle.refdb@));
            }
            return Err(e);
        },
    };
    // does the local peer need to confirm an identity change?
    let mut rc = false;
    let ghost mut rc_rev: Seq<u8> = Seq::empty();
    match newest_delegate(state, handle, &delegates) {
        Ok(None) => {},
        Ok(Some(theirs)) => {
            rc = requires_confirmation(Some(anchor), &theirs, &handle.local);
            proof {
                rc_rev = theirs.revision@;
            }
        },
        Err(e) => {
            proof {
                assert(rad_only_diff(old(handle).refdb@, handle.refdb@));
            }
            return Err(e);
        },
    }
    proof {
        if rc {
            assert(exists|d: VerifiedIdentity|
                old(handle).ids.doc_map().contains_value(d) && d.revision@ == rc_rev);
            assert(anchor.revision@ != rc_rev && !anchor.spec_in_history(rc_rev));
        }
    }
    // commit the verification batch
    let ghost qbt = state.tip_queue();
    proof {
        assert forall|i: int|
            0 <= i < qbt.len() implies (#[trigger] qbt[i]) matches Update::Direct {
            no_ff: crate::update::Policy::Abort,
            ..
        } by {
            if i < old(state).tip_queue().len() {
                assert(qbt[i] == old(state).tip_queue()[i]);
            }
        }
    }
    let ver_tips = state.take_verification_tips();
    let ghost ver_seq = ver_tips@;
    proof {
        lemma_filter_ver_elems(qbt);
        assert forall|i: int|
            0 <= i < ver_seq.len() implies ((#[trigger] ver_seq[i]) matches Update::Direct { .. }
            && is_verification_name(ver_seq[i].spec_refname())) by {
            let j = choose|j: int| 0 <= j < qbt.len() && ver_seq[i] == qbt[j];
        }
    }
    let ghost refdb_before_commit = handle.refdb@;
    let mut applied = match handle.refdb.update(ver_tips) {
        Ok(a) => a,
        Err(e) => {
            proof {
                assert(rad_only_diff(old(handle).refdb@, handle.refdb@));
            }
            return Err(Error::Update(e));
        },
    };
    let ghost u1 = applied.updated@;
    proof {
        let objs = handle.refdb.objects();
        lemma_decide_ver(
            refdb_before_commit,
            objs,
            ver_seq,
            Seq::empty(),
            Seq::empty(),
        );
        match crate::refdb::decide_all(refdb_before_commit, objs, ver_seq) {
            BatchV::Go { edits, .. } => {
                lemma_apply_ver(refdb_before_commit, edits);
                crate::refdb::lemma_apply_updated_matches(refdb_before_commit, edits, u1);
            },
            BatchV::Fail(_) => {
                assert(false);
            },
        }
        assert(rad_only_diff(old(handle).refdb@, handle.refdb@));
        assert(handle.refdb@ == crate::refdb::apply_updated(old(handle).refdb@, u1));
    }
    state.clear_rad_refs();
    // the data round
    let stage2 = Stage::DataRefs {
        remote: remote.clone(),
        trusted: signed_refs,
        limit: limit.refs,
    };
    let ghost refdb_after_first = handle.refdb@;
    match step(state, handle, remote_state, &stage2) {
        Ok(_) => {},
        Err(e) => {
            proof {
                assert(rad_only_diff(old(handle).refdb@, handle.refdb@));
            }
            return Err(e);
        },
    }
    // commit the rest
    let rest = state.drain_tips();
    let ghost restv = rest@;
    match handle.refdb.update(rest) {
        Ok(a) => {
            let ghost u2 = a.updated@;
            proof {
                match crate::refdb::decide_all(refdb_after_first, handle.refdb.objects(), restv) {
                    BatchV::Go { edits, .. } => {
                        crate::refdb::lemma_apply_updated_matches(refdb_after_first, edits, u2);
                    },
                    BatchV::Fail(_) => {
                        assert(false);
                    },
                }
                crate::refdb::lemma_apply_updated_append(old(handle).refdb@, u1, u2);
            }
            applied.append(a);
            proof {
                assert(applied.updated@ == u1 + u2);
                assert(handle.refdb@ == crate::refdb::apply_updated(
                    old(handle).refdb@,
                    applied.updated@,
                ));
            }
        },
        Err(e) => {
            proof {
                assert(handle.refdb@ == refdb_after_first);
                assert(rad_only_diff(old(handle).refdb@, handle.refdb@));
            }
            return Err(Error::Update(e));
        },
    }
    // validate every trusted namespace against its manifest, and then
    // against the store's own copy
    let trusted = match stage2 {
        Stage::DataRefs { trusted, .. } => trusted,
        _ => Vec::new(),
    };
    let ghost rdb_final = handle.refdb@;
    let ghost sg_cur = handle.sigrefs.current_tips();
    let ghost sg_at = handle.sigrefs.at_tip_map();
    let mut warnings: Vec<Validation> = Vec::new();
    let mut i: usize = 0;
    while i < trusted.len()
        invariant
            handle.wf(),
            handle.refdb@ == rdb_final,
            handle.sigrefs.current_tips() == sg_cur,
            handle.sigrefs.at_tip_map() == sg_at,
            i <= trusted@.len(),
            forall|j: int|
                0 <= j < trusted@.len() ==> (#[trigger] trusted@[j]).0.wf() && trusted@[j].1.wf(),
        decreases trusted@.len() - i,
    {
        let mut ws = validate(&handle.refdb, &trusted[i].0, &trusted[i].1);
        warnings.append(&mut ws);
        i = i + 1;
    }
    let mut i: usize = 0;
    while i < trusted.len()
        invariant
            handle.wf(),
            handle.refdb@ == rdb_final,
            handle.sigrefs.current_tips() == sg_cur,
            handle.sigrefs.at_tip_map() == sg_at,
            i <= trusted@.len(),
            forall|j: int|
                0 <= j < trusted@.len() ==> (#[trigger] trusted@[j]).0.wf() && trusted@[j].1.wf(),
            warnings@.len() == 0 ==> forall|i2: int|
                0 <= i2 < i ==> ((pull_local matches Some(l) && l@ == (
                #[trigger] trusted@[i2]).0@) || !store_manifest_defined(
                    &handle.sigrefs,
                    trusted@[i2].0@,
                ) || validated_exact(
                    rdb_final,
                    trusted@[i2].0@,
                    store_manifest(&handle.sigrefs, trusted@[i2].0@).at@,
                    store_manifest(&handle.sigrefs, trusted@[i2].0@).refs_map(),
                )),
        decreases trusted@.len() - i,
    {
        let skip = match pull_local {
            Some(l) => crate::bytes::bytes_eq(l.bytes(), trusted[i].0.bytes()),
            None => false,
        };
        if !skip {
            match handle.sigrefs.load(&trusted[i].0) {
                None => {
                    warnings.push(Validation::NoData(trusted[i].0.clone()));
                },
                Some(s) => {
                    let s2 = s.duplicate();
                    proof {
                        assert(store_manifest_defined(&handle.sigrefs, trusted@[i as int].0@));
                        assert(store_manifest(&handle.sigrefs, trusted@[i as int].0@) == *s);
                    }
                    let mut ws = validate(&handle.refdb, &trusted[i].0, &s2);
                    warnings.append(&mut ws);
                },
            }
        }
        i = i + 1;
    }
    proof {
        if warnings@.len() == 0 {
            assert forall|j: int|
                0 <= j < anchor.delegates@.len() && !(pull_local matches Some(l) && l@ == (
                #[trigger] anchor.delegates@[j])@) && store_manifest_defined(
                    &handle.sigrefs,
                    anchor.delegates@[j]@,
                ) implies validated_exact(
                handle.refdb@,
                anchor.delegates@[j]@,
                store_manifest(&handle.sigrefs, anchor.delegates@[j]@).at@,
                store_manifest(&handle.sigrefs, anchor.delegates@[j]@).refs_map(),
            ) by {
                let k = choose|k: int|
                    0 <= k < delegates@.len() && (delegates@[k])@ == anchor.delegates@[j]@;
                assert((trusted@[k]).0@ == (delegates@[k])@);
            }
        }
        if rc {
            let d = choose|d: VerifiedIdentity|
                old(handle).ids.doc_map().contains_value(d) && d.revision@ == rc_rev;
            assert(old(handle).ids.doc_map().contains_value(d) && anchor.revision@
                != d.revision@ && !anchor.spec_in_history(d.revision@));
        }
    }
        Ok(FetchResult { applied, requires_confirmation: rc, validation: warnings })
}

/// Every key in the list is well formed.
fn check_keys_wf(v: &Vec<PublicKey>) -> (r: bool)
    ensures
        r == forall|i: int| 0 <= i < v@.len() ==> (#[trigger] v@[i]).wf(),
{
    let mut i: usize = 0;
    while i < v.len()
        invariant
            i <= v@.len(),
            forall|j: int| 0 <= j < i ==> (#[trigger] v@[j]).wf(),
        decreases v@.len() - i,
    {
        if v[i].bytes().len() != crate::keys::KEY_SIZE {
            proof {
                assert(!v@[i as int].wf());
            }
            return false;
        }
        i = i + 1;
    }
    true
}

/// Pull changes from the remote: the local peer already holds a copy of the
/// repository. Pulling from oneself always fails.
pub fn pull(
    handle: &mut Handle,
    remote_state: &RemoteState,
    limit: FetchLimit,
    remote: &PublicKey,
) -> (r: Result<FetchResult, Error>)
    requires
        old(handle).wf(),
        remote_state.wf(),
        remote.wf(),
    ensures
        (r matches Err(Error::ReplicateSelf)) <==> old(handle).local@ == remote@,
        old(handle).local@ == remote@ ==> final(handle).refdb@ == old(handle).refdb@,
        r is Err ==> rad_only_diff(old(handle).refdb@, final(handle).refdb@),
        (r matches Err(Error::MissingRadId)) <==> (old(handle).local@ != remote@
            && crate::refdb::lookup(
            old(handle).refdb@,
            crate::stage::ns_id_name(old(handle).local@),
        ) is None && crate::refdb::lookup(old(handle).refdb@, crate::refname::refs_rad_id())
            is None),
        r matches Err(Error::MissingRadId) ==> final(handle).refdb@ == old(handle).refdb@,
        r matches Err(Error::Fetch(crate::transport::FetchError::NotFound(o)))
            ==> !remote_state.objects@.contains_key(o@),
        r matches Ok(res) ==> final(handle).refdb@ == crate::refdb::apply_updated(
            old(handle).refdb@,
            res.applied.updated@,
        ),
        r matches Ok(res) && res.requires_confirmation ==> (exists|d: VerifiedIdentity|
            old(handle).ids.doc_map().contains_value(d) && d.spec_is_delegate(
                old(handle).local@,
            )),
{
    if crate::bytes::bytes_eq(handle.local.bytes(), remote.bytes()) {
        return Err(Error::ReplicateSelf);
    }
    let mut state = FetchState::new();
    // the local identity: the own namespace first, then the canonical ref
    let own = RemoteRef::rad_id(handle.local.clone()).namespaced();
    let tip = match state.cached_refname_to_id(&handle.refdb, &own) {
        Some(t) => Some(t),
        None => {
            let canonical = crate::refname::refs_rad_id_vec();
            state.cached_refname_to_id(&handle.refdb, &canonical)
        },
    };
    let tip = match tip {
        Some(t) => t,
        None => {
            return Err(Error::MissingRadId);
        },
    };
    let anchor = match handle.ids.verified(&tip) {
        Ok(d) => d.duplicate(),
        Err(e) => {
            return Err(Error::Identity(e));
        },
    };
    let local = handle.local.clone();
    exchange(&mut state, handle, remote_state, Some(&local), &anchor, remote, limit)
}

/// Clone from the remote: the local peer starts from an empty repository.
/// Cloning from oneself always fails.
pub fn clone(
    handle: &mut Handle,
    remote_state: &RemoteState,
    limit: FetchLimit,
    remote: &PublicKey,
) -> (r: Result<FetchResult, Error>)
    requires
        old(handle).wf(),
        remote_state.wf(),
        remote.wf(),
    ensures
        (r matches Err(Error::ReplicateSelf)) <==> old(handle).local@ == remote@,
        old(handle).local@ == remote@ ==> final(handle).refdb@ == old(handle).refdb@,
        r is Err ==> rad_only_diff(old(handle).refdb@, final(handle).refdb@),
        r matches Err(Error::Fetch(crate::transport::FetchError::NotFound(o)))
            ==> !remote_state.objects@.contains_key(o@),
        r matches Ok(res) ==> final(handle).refdb@ == crate::refdb::apply_updated(
            old(handle).refdb@,
            res.applied.updated@,
        ),
{
    if crate::bytes::bytes_eq(handle.local.bytes(), remote.bytes()) {
        return Err(Error::ReplicateSelf);
    }
    let mut state = FetchState::new();
    let stage0 = Stage::CloneStep { remote: remote.clone(), limit: limit.special };
    match step(&mut state, handle, remote_state, &stage0) {
        Ok(_) => {},
        Err(e) => {
            proof {
                assert(rad_only_diff(old(handle).refdb@, handle.refdb@));
            }
            return Err(e);
        },
    }
    let tip = match state.canonical_id() {
        Some(t) => t.clone(),
        None => {
            return Err(Error::MissingRadId);
        },
    };
    let anchor = match handle.ids.verified(&tip) {
        Ok(d) => d.duplicate(),
        Err(e) => {
            return Err(Error::Identity(e));
        },
    };
    exchange(&mut state, handle, remote_state, None, &anchor, remote, limit)
}


} // verus!
