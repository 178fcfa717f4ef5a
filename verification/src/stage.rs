//! The three rounds of an exchange.
//!
//! A stage says what to ask the remote for (`ls-refs` prefixes), which
//! advertised refs to keep, what a round's advertisement must contain, and
//! which updates to queue from what was received. The clone round fetches
//! the initial verification refs; the verification round fetches every
//! tracked remote's `rad/id` and `rad/sigrefs`; the data round fetches the
//! signed payload refs and prunes what is no longer signed.

use crate::identity::{IdentityError, IdentityStore};
use crate::keys::{is_key_char, key_text};
use crate::keys::PublicKey;
use crate::oid::Oid;
use crate::refdb::{lookup, prefix_view, scan_post, Refdb};
use crate::refname::{ns_prefix, ns_prefix_vec, Refname, RemoteRef, Suffix};
use crate::sigrefs::Sigrefs;
use crate::state::FetchState;
use crate::tracking::{Scope, TrackedSet};
use crate::transport::ReceivedRef;
use crate::update::{Policy, PrevValue, Update};
use vstd::prelude::*;

verus! {

/// One round of the exchange.
pub enum Stage {
    /// The clone round: fetch the canonical identity and the initiating
    /// remote's verification refs.
    CloneStep { remote: PublicKey, limit: u64 },
    /// The verification round: fetch every relevant remote's `rad/id` and
    /// `rad/sigrefs`. On a pull the local peer's own namespace is skipped.
    VerificationRefs {
        local: Option<PublicKey>,
        remote: PublicKey,
        delegates: Vec<PublicKey>,
        tracked_peers: TrackedSet,
        limit: u64,
    },
    /// The data round: fetch what the signed manifests list, prune the
    /// rest.
    DataRefs { remote: PublicKey, trusted: Vec<(PublicKey, Sigrefs)>, limit: u64 },
}

impl Stage {
    pub open spec fn wf(&self) -> bool {
        match self {
            Stage::CloneStep { remote, .. } => remote.wf(),
            Stage::VerificationRefs { local, remote, delegates, tracked_peers, .. } => {
                &&& remote.wf()
                &&& match local {
                    Some(l) => l.wf(),
                    None => true,
                }
                &&& forall|i: int| 0 <= i < delegates@.len() ==> (#[trigger] delegates@[i]).wf()
                &&& tracked_peers.wf()
            },
            Stage::DataRefs { remote, trusted, .. } => {
                &&& remote.wf()
                &&& forall|i: int|
                    0 <= i < trusted@.len() ==> (#[trigger] trusted@[i]).0.wf()
                        && trusted@[i].1.wf()
            },
        }
    }
}

/// The advertisement did not contain a required reference.
#[derive(Debug)]
pub enum LayoutError {
    /// The names that were required and missing.
    MissingRequiredRefs(Vec<Vec<u8>>),
}

/// Why preparing a round's updates failed.
#[derive(Debug)]
pub enum PrepareError {
    /// A delegate's identity tip failed verification.
    Verification(IdentityError),
    /// The canonical identity tip was never observed.
    MissingRadId,
}

/// The `ls-refs` prefixes of a round: the clone round asks for the
/// canonical identity and the initiating remote's pair; the verification
/// round for the whole namespace hierarchy (scope `All`) or the pairs of
/// the delegates and tracked peers (scope `Trusted`); the data round for
/// the pairs of the trusted remotes.
#[verifier::rlimit(100)]
pub fn ls_prefixes(stage: &Stage) -> (r: Vec<Vec<u8>>)
    requires
        stage.wf(),
    ensures
        match stage {
            Stage::CloneStep { remote, .. } => r@.len() == 3 && (r@[0])@
                == crate::refname::refs_rad_id() && (r@[1])@ == ns_id_name(remote@) && (r@[2])@
                == ns_sig_name(remote@),
            Stage::VerificationRefs { delegates, tracked_peers, .. } => {
                &&& (tracked_peers.scope is All ==> r@.len() == 1 && (r@[0])@ == ns_prefix())
                &&& (tracked_peers.scope is Trusted ==> r@.len() == 2 * (delegates@.len()
                    + tracked_peers.remotes@.len()) && (forall|i: int|
                    0 <= i < delegates@.len() ==> (#[trigger] r@[2 * i])@ == ns_id_name(
                        delegates@[i]@,
                    ) && (r@[2 * i + 1])@ == ns_sig_name(delegates@[i]@)) && (forall|i: int|
                    0 <= i < delegates@.len() ==> special_shapes_known(
                        (#[trigger] delegates@[i])@,
                    )))
            },
            Stage::DataRefs { trusted, .. } => r@.len() == 2 * trusted@.len() && (forall|i: int|
                0 <= i < trusted@.len() ==> (#[trigger] r@[2 * i])@ == ns_id_name(
                    (trusted@[i]).0@,
                ) && (r@[2 * i + 1])@ == ns_sig_name((trusted@[i]).0@)),
        },
{
    match stage {
        Stage::CloneStep { remote, .. } => {
            let mut r: Vec<Vec<u8>> = Vec::new();
            r.push(crate::refname::refs_rad_id_vec());
            r.push(RemoteRef::rad_id(remote.clone()).namespaced());
            r.push(RemoteRef::rad_sigrefs(remote.clone()).namespaced());
            proof {
                assert((r@[0])@ == crate::refname::refs_rad_id());
                assert((r@[1])@ == ns_id_name(remote@));
                assert((r@[2])@ == ns_sig_name(remote@));
            }
            r
        },
        Stage::VerificationRefs { local, delegates, tracked_peers, .. } => {
            match tracked_peers.scope {
                Scope::All => {
                    let mut r: Vec<Vec<u8>> = Vec::new();
                    r.push(ns_prefix_vec());
                    r
                },
                Scope::Trusted => {
                    let mut r: Vec<Vec<u8>> = Vec::new();
                    let mut i: usize = 0;
                    while i < delegates.len()
                        invariant
                            stage.wf(),
                            forall|j: int|
                                0 <= j < delegates@.len() ==> (#[trigger] delegates@[j]).wf(),
                            i <= delegates@.len(),
                            r@.len() == 2 * i,
                            forall|j: int|
                                0 <= j < i ==> ((#[trigger] r@[2 * j])@ == ns_id_name(
                                    delegates@[j]@,
                                ) && (r@[2 * j + 1])@ == ns_sig_name(delegates@[j]@)),
                            forall|j: int|
                                0 <= j < i ==> special_shapes_known((#[trigger] delegates@[j])@),
                        decreases delegates@.len() - i,
                    {
                        let ghost before = r@;
                        r.push(RemoteRef::rad_id(delegates[i].clone()).namespaced());
                        r.push(RemoteRef::rad_sigrefs(delegates[i].clone()).namespaced());
                        proof {
                            assert forall|j2: int| 0 <= j2 < i + 1 implies ((#[trigger] r@[2
                                * j2])@ == ns_id_name(delegates@[j2]@) && (r@[2 * j2 + 1])@
                                == ns_sig_name(delegates@[j2]@)) by {
                                if j2 < i {
                                    assert(r@[2 * j2] == before[2 * j2]);
                                    assert(r@[2 * j2 + 1] == before[2 * j2 + 1]);
                                } else {
                                    assert(2 * j2 == r@.len() - 2);
                                    assert(2 * j2 + 1 == r@.len() - 1);
                                }
                            }
                        }
                        i = i + 1;
                    }
                    let mut j: usize = 0;
                    while j < tracked_peers.remotes.len()
                        invariant
                            stage.wf(),
                            tracked_peers.wf(),
                            forall|j2: int|
                                0 <= j2 < delegates@.len() ==> (#[trigger] delegates@[j2]).wf(),
                            j <= tracked_peers.remotes@.len(),
                            r@.len() == 2 * (delegates@.len() + j),
                            forall|j2: int|
                                0 <= j2 < delegates@.len() ==> ((#[trigger] r@[2 * j2])@
                                    == ns_id_name(delegates@[j2]@) && (r@[2 * j2 + 1])@
                                    == ns_sig_name(delegates@[j2]@)),
                            forall|j2: int|
                                0 <= j2 < delegates@.len() ==> special_shapes_known(
                                    (#[trigger] delegates@[j2])@,
                                ),
                        decreases tracked_peers.remotes@.len() - j,
                    {
                        let ghost before = r@;
                        r.push(RemoteRef::rad_id(tracked_peers.remotes[j].clone()).namespaced());
                        r.push(RemoteRef::rad_sigrefs(tracked_peers.remotes[j].clone()).namespaced());
                        proof {
                            assert forall|j2: int| 0 <= j2 < delegates@.len() implies ((
                            #[trigger] r@[2 * j2])@ == ns_id_name(delegates@[j2]@) && (r@[2 * j2
                                + 1])@ == ns_sig_name(delegates@[j2]@)) by {
                                assert(r@[2 * j2] == before[2 * j2]);
                                assert(r@[2 * j2 + 1] == before[2 * j2 + 1]);
                            }
                        }
                        j = j + 1;
                    }
                    r
                },
            }
        },
        Stage::DataRefs { trusted, .. } => {
            let mut r: Vec<Vec<u8>> = Vec::new();
            let mut i: usize = 0;
            while i < trusted.len()
                invariant
                    stage.wf(),
                    forall|j: int|
                        0 <= j < trusted@.len() ==> (#[trigger] trusted@[j]).0.wf()
                            && trusted@[j].1.wf(),
                    i <= trusted@.len(),
                    r@.len() == 2 * i,
                    forall|j: int|
                        0 <= j < i ==> ((#[trigger] r@[2 * j])@ == ns_id_name((trusted@[j]).0@)
                            && (r@[2 * j + 1])@ == ns_sig_name((trusted@[j]).0@)),
                decreases trusted@.len() - i,
            {
                let ghost before = r@;
                r.push(RemoteRef::rad_id(trusted[i].0.clone()).namespaced());
                r.push(RemoteRef::rad_sigrefs(trusted[i].0.clone()).namespaced());
                proof {
                    assert forall|j: int| 0 <= j < i + 1 implies ((#[trigger] r@[2 * j])@
                        == ns_id_name((trusted@[j]).0@) && (r@[2 * j + 1])@ == ns_sig_name(
                        (trusted@[j]).0@,
                    )) by {
                        if j < i {
                            assert(r@[2 * j] == before[2 * j]);
                            assert(r@[2 * j + 1] == before[2 * j + 1]);
                        } else {
                            assert(2 * j == r@.len() - 2);
                            assert(2 * j + 1 == r@.len() - 1);
                        }
                    }
                }
                i = i + 1;
            }
            r
        },
    }
}

/// Keep an advertised ref if the round cares for it: the clone round keeps
/// the canonical identity and namespaced specials, the verification round
/// the namespaced specials, the data round everything namespaced. A name
/// that does not parse is dropped — and a well-shaped name of the round's
/// class, whose component is some key's text, is always kept.
pub fn ref_filter(stage: &Stage, name: &Vec<u8>, tip: &Oid) -> (r: Option<ReceivedRef>)
    requires
        tip.wf(),
    ensures
        match r {
            Some(rr) => {
                &&& rr.wf() && rr.tip@ == tip@
                &&& (rr.name is RadId ==> name@ == crate::refname::refs_rad_id())
                &&& (rr.name matches Refname::Namespaced(n) ==> crate::refname::has_ns_shape(
                    name@,
                ) && n.suffix.spec_name() == crate::refname::ns_rest(name@) && (forall|b: Seq<u8>|
                    b.len() == crate::keys::KEY_SIZE && key_text(b) == crate::refname::ns_component(
                        name@,
                    ) ==> n.remote@ == b))
                &&& (match stage {
                    Stage::CloneStep { .. } => rr.name is RadId || (
                    rr.name matches Refname::Namespaced(n) && n.suffix is Special),
                    Stage::VerificationRefs { .. } => rr.name matches Refname::Namespaced(n)
                        && n.suffix is Special,
                    Stage::DataRefs { .. } => rr.name is Namespaced,
                })
            },
            None => true,
        },
        stage is CloneStep && name@ == crate::refname::refs_rad_id() ==> r is Some,
        (stage is CloneStep || stage is VerificationRefs) && crate::refname::has_ns_shape(name@)
            && (crate::refname::ns_rest(name@) == crate::refname::refs_rad_id()
            || crate::refname::ns_rest(name@) == crate::refname::refs_rad_sigrefs()) && (
        exists|b: Seq<u8>|
            b.len() == crate::keys::KEY_SIZE && key_text(b) == crate::refname::ns_component(
                name@,
            )) ==> r is Some,
        stage is DataRefs && crate::refname::has_ns_shape(name@) && usable_suffix(
            crate::refname::ns_rest(name@),
        ) && (exists|b: Seq<u8>|
            b.len() == crate::keys::KEY_SIZE && key_text(b) == crate::refname::ns_component(
                name@,
            )) ==> r is Some,
{
    proof {
        if crate::refname::has_ns_shape(name@) && name@ == crate::refname::refs_rad_id() {
            // the canonical name is too short to carry the namespace prefix
            assert(crate::bytes::has_prefix(name@, ns_prefix()));
            assert(false);
        }
        if crate::refname::has_ns_shape(name@) && (crate::refname::ns_rest(name@)
            == crate::refname::refs_rad_id() || crate::refname::ns_rest(name@)
            == crate::refname::refs_rad_sigrefs()) {
            assert(crate::bytes::has_prefix(
                crate::refname::ns_rest(name@),
                crate::refname::refs_rad_slash(),
            )) by {
                if crate::refname::ns_rest(name@) == crate::refname::refs_rad_id() {
                    assert(crate::refname::refs_rad_id().subrange(
                        0,
                        crate::refname::refs_rad_slash().len() as int,
                    ) =~= crate::refname::refs_rad_slash());
                } else {
                    assert(crate::refname::refs_rad_sigrefs().subrange(
                        0,
                        crate::refname::refs_rad_slash().len() as int,
                    ) =~= crate::refname::refs_rad_slash());
                }
            }
        }
    }
    match crate::refname::parse_refname(name) {
        Err(_) => None,
        Ok(parsed) => {
            let keep = match stage {
                Stage::CloneStep { .. } => match &parsed {
                    Refname::RadId => true,
                    Refname::Namespaced(n) => matches!(n.suffix, Suffix::Special(_)),
                },
                Stage::VerificationRefs { .. } => match &parsed {
                    Refname::RadId => false,
                    Refname::Namespaced(n) => matches!(n.suffix, Suffix::Special(_)),
                },
                Stage::DataRefs { .. } => matches!(parsed, Refname::Namespaced(_)),
            };
            if keep {
                Some(ReceivedRef { tip: tip.clone(), name: parsed })
            } else {
                None
            }
        },
    }
}

/// No received ref carries this name.
pub open spec fn name_missing(refs: Seq<ReceivedRef>, name: Seq<u8>) -> bool {
    forall|j: int| 0 <= j < refs.len() ==> (#[trigger] refs[j]).name.spec_name() != name
}

/// Does the received set hold a ref with this name?
fn holds_name(refs: &Vec<ReceivedRef>, name: &Vec<u8>) -> (r: bool)
    requires
        forall|i: int| 0 <= i < refs@.len() ==> (#[trigger] refs@[i]).wf(),
    ensures
        r == exists|i: int|
            0 <= i < refs@.len() && (#[trigger] refs@[i]).name.spec_name() == name@,
{
    let mut i: usize = 0;
    while i < refs.len()
        invariant
            forall|j: int| 0 <= j < refs@.len() ==> (#[trigger] refs@[j]).wf(),
            i <= refs@.len(),
            forall|j: int| 0 <= j < i ==> (#[trigger] refs@[j]).name.spec_name() != name@,
        decreases refs@.len() - i,
    {
        let n = refs[i].name.name();
        if crate::bytes::bytes_eq(&n, name) {
            proof {
                assert(refs@[i as int].name.spec_name() == name@);
            }
            return true;
        }
        i = i + 1;
    }
    false
}

/// Every required name must be among the received ones — unless nothing at
/// all was received, which passes (the server had nothing to advertise; the
/// later rounds will fail on what is genuinely missing).
pub fn ensure_refs(required: Vec<Vec<u8>>, refs: &Vec<ReceivedRef>) -> (r: Result<
    (),
    LayoutError,
>)
    requires
        forall|i: int| 0 <= i < refs@.len() ==> (#[trigger] refs@[i]).wf(),
    ensures
        match r {
            Ok(_) => refs@.len() == 0 || forall|i: int|
                0 <= i < required@.len() ==> !name_missing(refs@, (#[trigger] required@[i])@),
            Err(e) => refs@.len() > 0 && (exists|i: int|
                0 <= i < required@.len() && name_missing(refs@, (#[trigger] required@[i])@)) && (
            e matches LayoutError::MissingRequiredRefs(ms) && ms@.len() > 0 && (forall|x: int|
                0 <= x < ms@.len() ==> name_missing(refs@, (#[trigger] ms@[x])@) && (exists|
                    i: int,
                |
                    0 <= i < required@.len() && (ms@[x])@ == required@[i]@)) && (forall|i: int|
                0 <= i < required@.len() && name_missing(refs@, (#[trigger] required@[i])@)
                    ==> exists|x: int| 0 <= x < ms@.len() && (ms@[x])@ == required@[i]@)),
        },
{
    if refs.len() == 0 {
        return Ok(());
    }
    let mut missing: Vec<Vec<u8>> = Vec::new();
    let mut i: usize = 0;
    let ghost req = required@;
    let mut required = required;
    let mut found_missing = false;
    let ghost missing_idx: int = 0;
    while i < required.len()
        invariant
            forall|j: int| 0 <= j < refs@.len() ==> (#[trigger] refs@[j]).wf(),
            required@ == req,
            i <= req.len(),
            !found_missing ==> forall|j: int|
                0 <= j < i ==> !name_missing(refs@, (#[trigger] req[j])@),
            found_missing ==> 0 <= missing_idx < req.len() && name_missing(
                refs@,
                (req[missing_idx])@,
            ),
            found_missing <==> missing@.len() > 0,
            forall|x: int|
                0 <= x < missing@.len() ==> name_missing(refs@, (#[trigger] missing@[x])@) && (
                exists|j: int| 0 <= j < req.len() && (missing@[x])@ == req[j]@),
            forall|j: int|
                0 <= j < i && name_missing(refs@, (#[trigger] req[j])@) ==> exists|x: int|
                    0 <= x < missing@.len() && (missing@[x])@ == req[j]@,
        decreases req.len() - i,
    {
        if !holds_name(refs, &required[i]) {
            proof {
                missing_idx = i as int;
                assert(name_missing(refs@, (req[i as int])@));
            }
            found_missing = true;
            let name = required[i].clone();
            proof {
                assert(name@ =~= req[i as int]@);
            }
            let ghost m_before = missing@;
            missing.push(name);
            proof {
                assert((missing@[missing@.len() - 1])@ == req[i as int]@);
                assert forall|j: int|
                    0 <= j < i + 1 && name_missing(refs@, (#[trigger] req[j])@) implies exists|
                    x: int,
                |
                    0 <= x < missing@.len() && (missing@[x])@ == req[j]@ by {
                    if j < i {
                        let x = choose|x: int|
                            0 <= x < m_before.len() && (m_before[x])@ == req[j]@;
                        assert((missing@[x])@ == req[j]@);
                    } else {
                        assert((missing@[missing@.len() - 1])@ == req[j]@);
                    }
                }
            }
        }
        i = i + 1;
    }
    if found_missing {
        Err(LayoutError::MissingRequiredRefs(missing))
    } else {
        Ok(())
    }
}

/// What a round's advertisement must contain — unless nothing at all was
/// received, which passes (the server had nothing to advertise; the later
/// rounds fail on what is genuinely missing).
///
/// The clone round requires exactly the canonical `refs/rad/id`; the
/// verification round requires the `rad/id` and `rad/sigrefs` pair of
/// every delegate, leaving the local peer out on a pull; the data round
/// requires nothing.
#[verifier::rlimit(100)]
pub fn pre_validate(stage: &Stage, refs: &Vec<ReceivedRef>) -> (r: Result<(), LayoutError>)
    requires
        stage.wf(),
        forall|i: int| 0 <= i < refs@.len() ==> (#[trigger] refs@[i]).wf(),
    ensures
        match stage {
            Stage::CloneStep { .. } => r is Ok <==> (refs@.len() == 0 || !name_missing(
                refs@,
                crate::refname::refs_rad_id(),
            )),
            Stage::VerificationRefs { local, delegates, .. } => r is Ok <==> (refs@.len() == 0
                || forall|i: int|
                0 <= i < delegates@.len() ==> ((local matches Some(l) && l@ == (
                #[trigger] delegates@[i])@) || (!name_missing(refs@, ns_id_name(delegates@[i]@))
                    && !name_missing(refs@, ns_sig_name(delegates@[i]@))))),
            Stage::DataRefs { .. } => r is Ok,
        },
        r matches Err(e) ==> (e matches LayoutError::MissingRequiredRefs(ms) && ms@.len() > 0 && (
        forall|x: int|
            0 <= x < ms@.len() ==> name_missing(refs@, (#[trigger] ms@[x])@) && required_name(
                stage,
                (ms@[x])@,
            ))),
{
    match stage {
        Stage::CloneStep { .. } => {
            let mut required: Vec<Vec<u8>> = Vec::new();
            required.push(crate::refname::refs_rad_id_vec());
            let ghost reqv = required@;
            proof {
                assert(reqv.len() == 1);
                assert(reqv[0]@ == crate::refname::refs_rad_id());
            }
            let r = ensure_refs(required, refs);
            proof {
                if r is Ok && refs@.len() > 0 {
                    assert(!name_missing(refs@, (reqv[0])@));
                }
                if r is Err {
                    let i = choose|i: int|
                        0 <= i < reqv.len() && name_missing(refs@, (#[trigger] reqv[i])@);
                    assert(i == 0);
                    assert(name_missing(refs@, crate::refname::refs_rad_id()));
                    match &r {
                        Err(LayoutError::MissingRequiredRefs(ms)) => {
                            assert forall|x: int| 0 <= x < ms@.len() implies name_missing(
                                refs@,
                                (#[trigger] ms@[x])@,
                            ) && required_name(stage, (ms@[x])@) by {
                                let i2 = choose|i2: int|
                                    0 <= i2 < reqv.len() && (ms@[x])@ == reqv[i2]@;
                                assert(i2 == 0);
                                assert((ms@[x])@ == crate::refname::refs_rad_id());
                            }
                        },
                        _ => {},
                    }
                }
            }
            r
        },
        Stage::VerificationRefs { local, delegates, .. } => {
            if refs.len() == 0 {
                return Ok(());
            }
            let mut missing: Vec<Vec<u8>> = Vec::new();
            let ghost bad: int = 0;
            let mut i: usize = 0;
            while i < delegates.len()
                invariant
                    (*stage) matches Stage::VerificationRefs { local: ll, delegates: dd, .. }
                        && ll == *local && dd == *delegates,
                    forall|j: int| 0 <= j < delegates@.len() ==> (#[trigger] delegates@[j]).wf(),
                    forall|j: int| 0 <= j < refs@.len() ==> (#[trigger] refs@[j]).wf(),
                    i <= delegates@.len(),
                    missing@.len() == 0 ==> forall|di: int|
                        0 <= di < i ==> ((local matches Some(l) && l@ == (
                        #[trigger] delegates@[di])@) || (!name_missing(
                            refs@,
                            ns_id_name(delegates@[di]@),
                        ) && !name_missing(refs@, ns_sig_name(delegates@[di]@)))),
                    missing@.len() > 0 ==> 0 <= bad < i && !(local matches Some(l) && l@
                        == delegates@[bad]@) && (name_missing(refs@, ns_id_name(delegates@[bad]@))
                        || name_missing(refs@, ns_sig_name(delegates@[bad]@))),
                    forall|x: int|
                        0 <= x < missing@.len() ==> name_missing(refs@, (#[trigger] missing@[x])@)
                            && required_name(stage, (missing@[x])@),
                decreases delegates@.len() - i,
            {
                let skip = match local {
                    Some(l) => crate::bytes::bytes_eq(l.bytes(), delegates[i].bytes()),
                    None => false,
                };
                if !skip {
                    let idn = RemoteRef::rad_id(delegates[i].clone()).namespaced();
                    let sgn = RemoteRef::rad_sigrefs(delegates[i].clone()).namespaced();
                    proof {
                        assert(idn@ == ns_id_name(delegates@[i as int]@));
                        assert(sgn@ == ns_sig_name(delegates@[i as int]@));
                    }
                    if !holds_name(refs, &idn) {
                        proof {
                            if missing@.len() == 0 {
                                bad = i as int;
                            }
                            assert(required_name(stage, idn@)) by {
                                assert(!(local matches Some(l) && l@ == (
                                #[trigger] delegates@[i as int])@));
                            }
                        }
                        missing.push(idn);
                    }
                    if !holds_name(refs, &sgn) {
                        proof {
                            if missing@.len() == 0 {
                                bad = i as int;
                            }
                            assert(required_name(stage, sgn@)) by {
                                assert(!(local matches Some(l) && l@ == (
                                #[trigger] delegates@[i as int])@));
                            }
                        }
                        missing.push(sgn);
                    }
                }
                i = i + 1;
            }
            if missing.len() == 0 {
                Ok(())
            } else {
                Err(LayoutError::MissingRequiredRefs(missing))
            }
        },
        Stage::DataRefs { .. } => Ok(()),
    }
}

/// A name that a round's advertisement owes: the canonical `rad/id` of a
/// clone round, or one of the special pair of a delegate the verification
/// round does not skip.
pub open spec fn required_name(stage: &Stage, n: Seq<u8>) -> bool {
    match stage {
        Stage::CloneStep { .. } => n == crate::refname::refs_rad_id(),
        Stage::VerificationRefs { local, delegates, .. } => exists|d: int|
            0 <= d < delegates@.len() && !(local matches Some(l) && l@ == (
            #[trigger] delegates@[d])@) && (n == ns_id_name(delegates@[d]@) || n == ns_sig_name(
                delegates@[d]@,
            )),
        Stage::DataRefs { .. } => false,
    }
}

/// The full name of a reference under a remote's namespace.
pub open spec fn ns_full_name(remote: Seq<u8>, suffix: Seq<u8>) -> Seq<u8> {
    ns_prefix() + key_text(remote) + seq![crate::refname::SLASH] + suffix
}

/// The full name of a remote's `rad/id`.
pub open spec fn ns_id_name(remote: Seq<u8>) -> Seq<u8> {
    ns_full_name(remote, crate::refname::refs_rad_id())
}

/// The full name of a remote's `rad/sigrefs`.
pub open spec fn ns_sig_name(remote: Seq<u8>) -> Seq<u8> {
    ns_full_name(remote, crate::refname::refs_rad_sigrefs())
}

/// A signed suffix the engine can track under a namespace: one of the two
/// special names, or a qualified name outside `refs/rad/`.
pub open spec fn usable_suffix(n: Seq<u8>) -> bool {
    ||| n == crate::refname::refs_rad_id()
    ||| n == crate::refname::refs_rad_sigrefs()
    ||| (crate::refname::is_qualified(n) && !crate::bytes::has_prefix(
        n,
        crate::refname::refs_rad_slash(),
    ))
}

/// The updates hold a direct update of `name` to `target` under policy `p`.
pub open spec fn has_direct(ups: Seq<Update>, name: Seq<u8>, target: Seq<u8>, p: Policy) -> bool {
    exists|i: int|
        0 <= i < ups.len() && ((#[trigger] ups[i]) matches Update::Direct {
            name: n,
            target: t,
            no_ff,
        } && n@ == name && t@ == target && no_ff == p)
}

/// At the even position `q`, the updates hold the pair of the remote `k`:
/// its `rad/id` at the observed id tip, then its `rad/sigrefs` at the
/// observed sigrefs tip, both aborting on non-fast-forward.
pub open spec fn pair_at(
    ups: Seq<Update>,
    id_tips: Map<Seq<u8>, Seq<u8>>,
    sig_tips: Map<Seq<u8>, Seq<u8>>,
    q: int,
    k: Seq<u8>,
) -> bool {
    &&& k.len() == crate::keys::KEY_SIZE
    &&& id_tips.contains_key(k)
    &&& sig_tips.contains_key(k)
    &&& (ups[q] matches Update::Direct { name, target, no_ff: Policy::Abort } && name@
        == ns_id_name(k) && target@ == id_tips[k])
    &&& (ups[q + 1] matches Update::Direct { name, target, no_ff: Policy::Abort } && name@
        == ns_sig_name(k) && target@ == sig_tips[k])
}

/// The even position `q` starts the adjacent special pair of some remote.
pub open spec fn paired(
    ups: Seq<Update>,
    id_tips: Map<Seq<u8>, Seq<u8>>,
    sig_tips: Map<Seq<u8>, Seq<u8>>,
    q: int,
) -> bool {
    exists|k: Seq<u8>| pair_at(ups, id_tips, sig_tips, q, k)
}

/// Appending one more pair keeps every even position paired.
proof fn lemma_paired_push2(
    before: Seq<Update>,
    ups: Seq<Update>,
    id_tips: Map<Seq<u8>, Seq<u8>>,
    sig_tips: Map<Seq<u8>, Seq<u8>>,
    k: Seq<u8>,
)
    requires
        ups.len() == before.len() + 2,
        forall|i: int| 0 <= i < before.len() ==> ups[i] == before[i],
        before.len() % 2 == 0,
        forall|q: int|
            0 <= q < before.len() && q % 2 == 0 ==> #[trigger] paired(
                before,
                id_tips,
                sig_tips,
                q,
            ),
        pair_at(ups, id_tips, sig_tips, before.len() as int, k),
    ensures
        forall|q: int|
            0 <= q < ups.len() && q % 2 == 0 ==> #[trigger] paired(ups, id_tips, sig_tips, q),
{
    assert forall|q: int| 0 <= q < ups.len() && q % 2 == 0 implies #[trigger] paired(
        ups,
        id_tips,
        sig_tips,
        q,
    ) by {
        if q < before.len() {
            assert(paired(before, id_tips, sig_tips, q));
            let k2 = choose|k2: Seq<u8>| pair_at(before, id_tips, sig_tips, q, k2);
            assert(q + 1 < before.len());
            assert(pair_at(ups, id_tips, sig_tips, q, k2));
        } else {
            assert(q == before.len());
            assert(pair_at(ups, id_tips, sig_tips, q, k));
        }
    }
}

/// The updates hold a prune of `name` expecting the previous id `prev`.
pub open spec fn has_prune(ups: Seq<Update>, name: Seq<u8>, prev: Seq<u8>) -> bool {
    exists|i: int|
        0 <= i < ups.len() && ((#[trigger] ups[i]) matches Update::Prune {
            name: n,
            prev: PrevValue::Oid(o),
        } && n@ == name && o@ == prev)
}

/// The composed special names of a remote have the namespace shape, with
/// the remote's text as component. The facts come from the trusted
/// encoder's contract at composition time.
pub open spec fn special_shapes_known(remote: Seq<u8>) -> bool {
    &&& crate::refname::has_ns_shape(ns_id_name(remote))
    &&& crate::refname::ns_component(ns_id_name(remote)) == key_text(remote)
    &&& crate::refname::ns_rest(ns_id_name(remote)) == crate::refname::refs_rad_id()
    &&& crate::refname::has_ns_shape(ns_sig_name(remote))
    &&& crate::refname::ns_component(ns_sig_name(remote)) == key_text(remote)
    &&& crate::refname::ns_rest(ns_sig_name(remote)) == crate::refname::refs_rad_sigrefs()
}

/// The key stands in the delegate list.
pub open spec fn in_delegates(delegates: Seq<PublicKey>, k: Seq<u8>) -> bool {
    exists|d: int| 0 <= d < delegates.len() && (#[trigger] delegates[d])@ == k
}

/// A received name of the shape the verification rounds turn into an
/// update: the canonical identity, or a namespaced special.
pub open spec fn is_verification_shaped(r: ReceivedRef) -> bool {
    r.name is RadId || (r.name matches Refname::Namespaced(n) && n.suffix is Special)
}

/// A direct update stays present when the list grows at the end.
proof fn lemma_has_direct_grow(
    a: Seq<Update>,
    b: Seq<Update>,
    name: Seq<u8>,
    target: Seq<u8>,
    p: Policy,
)
    requires
        a.len() <= b.len(),
        forall|i: int| 0 <= i < a.len() ==> a[i] == b[i],
        has_direct(a, name, target, p),
    ensures
        has_direct(b, name, target, p),
{
    let i = choose|i: int|
        0 <= i < a.len() && ((#[trigger] a[i]) matches Update::Direct {
            name: n,
            target: t,
            no_ff,
        } && n@ == name && t@ == target && no_ff == p);
    assert(b[i] == a[i]);
}

/// A prune stays present when the list grows at the end.
proof fn lemma_has_prune_grow(a: Seq<Update>, b: Seq<Update>, name: Seq<u8>, prev: Seq<u8>)
    requires
        a.len() <= b.len(),
        forall|i: int| 0 <= i < a.len() ==> a[i] == b[i],
        has_prune(a, name, prev),
    ensures
        has_prune(b, name, prev),
{
    let i = choose|i: int|
        0 <= i < a.len() && ((#[trigger] a[i]) matches Update::Prune {
            name: n,
            prev: PrevValue::Oid(o),
        } && n@ == name && o@ == prev);
    assert(b[i] == a[i]);
}

/// The updates owed by the data round for one trusted remote: every
/// usable signed name as an allowed direct update, and a prune — with the
/// observed previous id — for every resolvable unsigned name under the
/// namespace outside `refs/rad/`.
pub open spec fn data_round_complete(
    ups: Seq<Update>,
    m: Map<Seq<u8>, crate::refdb::TargetV>,
    remote: Seq<u8>,
    srefs: Map<Seq<u8>, Seq<u8>>,
) -> bool {
    &&& forall|sn: Seq<u8>| #[trigger]
        srefs.contains_key(sn) && usable_suffix(sn) ==> has_direct(
            ups,
            ns_full_name(remote, sn),
            srefs[sn],
            Policy::Allow,
        )
    &&& forall|k: Seq<u8>|
        m.contains_key(k) && crate::bytes::has_prefix(k, ns_full_name(remote, Seq::empty())) && (
        #[trigger] lookup(m, k)) is Some && !crate::bytes::has_prefix(
            k,
            ns_full_name(remote, crate::refname::refs_rad_slash()),
        ) && !(exists|sn: Seq<u8>|
            #[trigger] srefs.contains_key(sn) && usable_suffix(sn) && k == ns_full_name(
                remote,
                sn,
            )) ==> has_prune(ups, k, lookup(m, k)->0)
}

/// No prepared update prunes a name under a namespace's `refs/rad/`
/// hierarchy, and every prepared prune names a reference that was scanned
/// from the store.
pub open spec fn prunes_guarded(ups: Seq<Update>) -> bool {
    forall|i: int|
        0 <= i < ups.len() ==> ((#[trigger] ups[i]) matches Update::Prune { name, .. }
            ==> !(crate::refname::has_ns_shape(name@) && crate::bytes::has_prefix(
            crate::refname::ns_rest(name@),
            crate::refname::refs_rad_slash(),
        )))
}

/// Queue a round's updates.
///
/// The clone round verifies the canonical identity — failing exactly when
/// it was not observed or does not verify — and, when the initiating
/// remote is one of its delegates, turns every received verification ref
/// into a `Direct`/`Abort` update; otherwise it queues nothing. The
/// verification round fails exactly when an observed delegate identity
/// does not verify, and otherwise queues the `rad/id`+`rad/sigrefs` pair
/// of every verified remote whose two tips were observed — a remote
/// contributes its pair or nothing. The data round queues a
/// `Direct`/`Allow` update for every usable signed `(name, tip)` and a
/// prune for every resolvable unsigned reference under a trusted
/// namespace, leaving the `refs/rad/` hierarchy alone.
#[verifier::rlimit(100)]
pub fn prepare(
    stage: &Stage,
    state: &FetchState,
    refdb: &Refdb,
    ids: &IdentityStore,
    refs: &Vec<ReceivedRef>,
) -> (r: Result<Vec<Update>, PrepareError>)
    requires
        stage.wf(),
        state.wf(),
        refdb.wf(),
        ids.wf(),
        forall|i: int| 0 <= i < refs@.len() ==> (#[trigger] refs@[i]).wf(),
    ensures
        match r {
            Ok(ups) => {
                &&& prunes_guarded(ups@)
                &&& (stage is CloneStep || stage is VerificationRefs ==> forall|i: int|
                    0 <= i < ups@.len() ==> (#[trigger] ups@[i]) matches Update::Direct {
                        no_ff: Policy::Abort,
                        ..
                    })
                &&& (match stage {
                    Stage::CloneStep { remote, .. } => {
                        &&& state.canonical() matches Some(t) && ids.doc_map().contains_key(t)
                        &&& (ids.doc_map()[state.canonical()->0].spec_is_delegate(remote@)
                            ==> forall|j: int|
                            0 <= j < refs@.len() && is_verification_shaped(#[trigger] refs@[j])
                                ==> has_direct(
                                ups@,
                                refs@[j].name.spec_name(),
                                refs@[j].tip@,
                                Policy::Abort,
                            ))
                        &&& (!ids.doc_map()[state.canonical()->0].spec_is_delegate(remote@)
                            ==> ups@.len() == 0)
                        &&& forall|q: int|
                            0 <= q < ups@.len() ==> exists|j: int|
                                0 <= j < refs@.len() && is_verification_shaped(refs@[j]) && ((
                                #[trigger] ups@[q]) matches Update::Direct {
                                    name,
                                    target,
                                    ..
                                } && name@ == refs@[j].name.spec_name() && target@
                                    == refs@[j].tip@)
                    },
                    Stage::VerificationRefs { delegates, .. } => {
                        &&& forall|k: Seq<u8>| #[trigger]
                            state.id_tips().contains_key(k) && k.len() == crate::keys::KEY_SIZE
                                && in_delegates(delegates@, k) ==> ids.doc_map().contains_key(
                                state.id_tips()[k],
                            )
                        &&& forall|k: Seq<u8>| #[trigger]
                            state.id_tips().contains_key(k) && k.len() == crate::keys::KEY_SIZE
                                && ids.doc_map().contains_key(state.id_tips()[k])
                                && state.sigref_tips().contains_key(k) ==> (has_direct(
                                ups@,
                                ns_id_name(k),
                                state.id_tips()[k],
                                Policy::Abort,
                            ) && has_direct(
                                ups@,
                                ns_sig_name(k),
                                state.sigref_tips()[k],
                                Policy::Abort,
                            ))
                        &&& ups@.len() % 2 == 0
                        &&& forall|q: int|
                            0 <= q < ups@.len() && q % 2 == 0 ==> #[trigger] paired(
                                ups@,
                                state.id_tips(),
                                state.sigref_tips(),
                                q,
                            )
                    },
                    Stage::DataRefs { trusted, .. } => forall|ti: int|
                        0 <= ti < trusted@.len() ==> data_round_complete(
                            ups@,
                            refdb@,
                            (#[trigger] trusted@[ti]).0@,
                            trusted@[ti].1.refs_map(),
                        ),
                })
            },
            Err(e) => match e {
                PrepareError::MissingRadId => stage is CloneStep && state.canonical() is None,
                PrepareError::Verification(_) => match stage {
                    Stage::CloneStep { .. } => state.canonical() matches Some(t)
                        && !ids.doc_map().contains_key(t),
                    Stage::VerificationRefs { delegates, .. } => exists|k: Seq<u8>| #[trigger]
                        state.id_tips().contains_key(k) && k.len() == crate::keys::KEY_SIZE
                            && in_delegates(delegates@, k) && !ids.doc_map().contains_key(
                            state.id_tips()[k],
                        ),
                    Stage::DataRefs { .. } => false,
                },
            },
        },
{
    match stage {
        Stage::CloneStep { remote, .. } => {
            let anchor_tip = match state.canonical_id() {
                Some(t) => t.clone(),
                None => {
                    return Err(PrepareError::MissingRadId);
                },
            };
            let anchor = match ids.verified(&anchor_tip) {
                Ok(a) => a,
                Err(e) => {
                    return Err(PrepareError::Verification(e));
                },
            };
            let mut ups: Vec<Update> = Vec::new();
            if anchor.is_delegate(remote) {
                let mut i: usize = 0;
                while i < refs.len()
                    invariant
                        forall|j: int| 0 <= j < refs@.len() ==> (#[trigger] refs@[j]).wf(),
                        i <= refs@.len(),
                        forall|j: int|
                            0 <= j < ups@.len() ==> (#[trigger] ups@[j]) matches Update::Direct {
                                no_ff: Policy::Abort,
                                ..
                            },
                        forall|j: int|
                            0 <= j < i && is_verification_shaped(#[trigger] refs@[j])
                                ==> has_direct(
                                ups@,
                                refs@[j].name.spec_name(),
                                refs@[j].tip@,
                                Policy::Abort,
                            ),
                        forall|q: int|
                            0 <= q < ups@.len() ==> exists|j: int|
                                0 <= j < i && is_verification_shaped(refs@[j]) && ((
                                #[trigger] ups@[q]) matches Update::Direct {
                                    name,
                                    target,
                                    ..
                                } && name@ == refs@[j].name.spec_name() && target@
                                    == refs@[j].tip@),
                    decreases refs@.len() - i,
                {
                    let ghost before = ups@;
                    match refs[i].as_verification_ref_update() {
                        Some(u) => {
                            ups.push(u);
                            proof {
                                assert forall|j: int|
                                    0 <= j < i + 1 && is_verification_shaped(
                                        #[trigger] refs@[j],
                                    ) implies has_direct(
                                    ups@,
                                    refs@[j].name.spec_name(),
                                    refs@[j].tip@,
                                    Policy::Abort,
                                ) by {
                                    if j < i {
                                        lemma_has_direct_grow(
                                            before,
                                            ups@,
                                            refs@[j].name.spec_name(),
                                            refs@[j].tip@,
                                            Policy::Abort,
                                        );
                                    } else {
                                        assert(ups@[ups@.len() - 1] == ups@.last());
                                    }
                                }
                                assert(is_verification_shaped(refs@[i as int]));
                                assert forall|q: int| 0 <= q < ups@.len() implies exists|j: int|
                                    0 <= j < i + 1 && is_verification_shaped(refs@[j]) && ((
                                    #[trigger] ups@[q]) matches Update::Direct {
                                        name,
                                        target,
                                        ..
                                    } && name@ == refs@[j].name.spec_name() && target@
                                        == refs@[j].tip@) by {
                                    if q < before.len() {
                                        assert(ups@[q] == before[q]);
                                        let j = choose|j: int|
                                            0 <= j < i && is_verification_shaped(refs@[j]) && ((
                                            before[q]) matches Update::Direct {
                                                name,
                                                target,
                                                ..
                                            } && name@ == refs@[j].name.spec_name() && target@
                                                == refs@[j].tip@);
                                    } else {
                                        assert((ups@[q]) matches Update::Direct {
                                            name,
                                            target,
                                            ..
                                        } && name@ == refs@[i as int].name.spec_name()
                                            && target@ == refs@[i as int].tip@);
                                    }
                                }
                            }
                        },
                        None => {},
                    }
                    i = i + 1;
                }
            }
            proof {
                assert(prunes_guarded(ups@));
            }
            Ok(ups)
        },
        Stage::VerificationRefs { delegates, .. } => {
            let remotes = state.id_remotes();
            let mut ups: Vec<Update> = Vec::new();
            let mut i: usize = 0;
            while i < remotes.len()
                invariant
                    state.wf(),
                    ids.wf(),
                    (*stage) matches Stage::VerificationRefs { delegates: dd, .. } && dd
                        == *delegates,
                    forall|j: int| 0 <= j < delegates@.len() ==> (#[trigger] delegates@[j]).wf(),
                    i <= remotes@.len(),
                    forall|j: int|
                        0 <= j < remotes@.len() ==> state.id_tips().contains_key(
                            (#[trigger] remotes@[j]).0@,
                        ) && state.id_tips()[remotes@[j].0@] == remotes@[j].1@,
                    forall|k: Seq<u8>| #[trigger]
                        state.id_tips().contains_key(k) ==> exists|j: int|
                            0 <= j < remotes@.len() && remotes@[j].0@ == k,
                    forall|j: int|
                        0 <= j < ups@.len() ==> (#[trigger] ups@[j]) matches Update::Direct {
                            no_ff: Policy::Abort,
                            ..
                        },
                    forall|j: int|
                        0 <= j < i && (#[trigger] remotes@[j]).0@.len() == crate::keys::KEY_SIZE
                            && in_delegates(delegates@, remotes@[j].0@)
                            ==> ids.doc_map().contains_key(remotes@[j].1@),
                    forall|j: int|
                        0 <= j < i && (#[trigger] remotes@[j]).0@.len() == crate::keys::KEY_SIZE
                            && ids.doc_map().contains_key(remotes@[j].1@)
                            && state.sigref_tips().contains_key(remotes@[j].0@) ==> (has_direct(
                            ups@,
                            ns_id_name(remotes@[j].0@),
                            remotes@[j].1@,
                            Policy::Abort,
                        ) && has_direct(
                            ups@,
                            ns_sig_name(remotes@[j].0@),
                            state.sigref_tips()[remotes@[j].0@],
                            Policy::Abort,
                        )),
                    ups@.len() % 2 == 0,
                    forall|q: int|
                        0 <= q < ups@.len() && q % 2 == 0 ==> #[trigger] paired(
                            ups@,
                            state.id_tips(),
                            state.sigref_tips(),
                            q,
                        ),
                decreases remotes@.len() - i,
            {
                let key_bytes = remotes[i].0.clone();
                proof {
                    assert(key_bytes@ =~= remotes@[i as int].0@);
                }
                let remote_key = match PublicKey::from_bytes(key_bytes) {
                    Some(k) => k,
                    None => {
                        proof {
                            assert(remotes@[i as int].0@.len() != crate::keys::KEY_SIZE);
                        }
                        i = i + 1;
                        continue ;
                    },
                };
                proof {
                    assert(remote_key@ == remotes@[i as int].0@);
                }
                let id_tip = &remotes[i].1;
                match ids.verified(id_tip) {
                    Err(e) => {
                        // a delegate must verify; a stranger's namespace is
                        // merely dropped for this exchange
                        let mut is_delegate = false;
                        let mut d: usize = 0;
                        while d < delegates.len()
                            invariant
                                forall|j: int|
                                    0 <= j < delegates@.len() ==> (#[trigger] delegates@[j]).wf(),
                                d <= delegates@.len(),
                                remote_key@ == remotes@[i as int].0@,
                                0 <= i < remotes@.len(),
                                is_delegate ==> in_delegates(delegates@, remote_key@),
                                !is_delegate ==> forall|d2: int|
                                    0 <= d2 < d ==> (#[trigger] delegates@[d2])@ != remote_key@,
                            decreases delegates@.len() - d,
                        {
                            if crate::bytes::bytes_eq(delegates[d].bytes(), remote_key.bytes()) {
                                proof {
                                    assert(delegates@[d as int]@ == remote_key@);
                                }
                                is_delegate = true;
                            }
                            d = d + 1;
                        }
                        if is_delegate {
                            proof {
                                let kw = remotes@[i as int].0@;
                                assert(state.id_tips().contains_key(kw));
                                assert(state.id_tips()[kw] == remotes@[i as int].1@);
                                assert(kw.len() == crate::keys::KEY_SIZE);
                                assert(in_delegates(delegates@, kw));
                                assert(!ids.doc_map().contains_key(state.id_tips()[kw]));
                                assert(exists|k2: Seq<u8>| #[trigger] state.id_tips(
                                ).contains_key(k2) && k2.len() == crate::keys::KEY_SIZE
                                    && in_delegates(delegates@, k2) && !ids.doc_map(
                                ).contains_key(state.id_tips()[k2]));
                            }
                            return Err(PrepareError::Verification(e));
                        }
                        proof {
                            if in_delegates(delegates@, remotes@[i as int].0@) {
                                let d2 = choose|d2: int|
                                    0 <= d2 < delegates@.len() && (#[trigger] delegates@[d2])@
                                        == remotes@[i as int].0@;
                                assert(false);
                            }
                        }
                    },
                    Ok(_) => {
                        match state.sigref_tip(&remote_key) {
                            Some(sig_tip) => {
                                let id_ref = RemoteRef::rad_id(remote_key.clone());
                                let sig_ref = RemoteRef::rad_sigrefs(remote_key.clone());
                                let ghost before = ups@;
                                ups.push(
                                    Update::Direct {
                                        name: id_ref.namespaced(),
                                        target: id_tip.clone(),
                                        no_ff: Policy::Abort,
                                    },
                                );
                                ups.push(
                                    Update::Direct {
                                        name: sig_ref.namespaced(),
                                        target: sig_tip.clone(),
                                        no_ff: Policy::Abort,
                                    },
                                );
                                proof {
                                    assert(has_direct(
                                        ups@,
                                        ns_id_name(remotes@[i as int].0@),
                                        remotes@[i as int].1@,
                                        Policy::Abort,
                                    )) by {
                                        assert(ups@[ups@.len() - 2] matches Update::Direct {
                                            name: n,
                                            target: t,
                                            no_ff,
                                        } && n@ == ns_id_name(remotes@[i as int].0@) && t@
                                            == remotes@[i as int].1@ && no_ff == Policy::Abort);
                                    }
                                    assert(has_direct(
                                        ups@,
                                        ns_sig_name(remotes@[i as int].0@),
                                        state.sigref_tips()[remotes@[i as int].0@],
                                        Policy::Abort,
                                    )) by {
                                        assert(ups@[ups@.len() - 1] matches Update::Direct {
                                            name: n,
                                            target: t,
                                            no_ff,
                                        } && n@ == ns_sig_name(remotes@[i as int].0@) && t@
                                            == state.sigref_tips()[remotes@[i as int].0@]
                                            && no_ff == Policy::Abort);
                                    }
                                    assert forall|j: int|
                                        0 <= j < i && (#[trigger] remotes@[j]).0@.len()
                                            == crate::keys::KEY_SIZE && ids.doc_map(
                                        ).contains_key(remotes@[j].1@) && state.sigref_tips(
                                        ).contains_key(remotes@[j].0@) implies (has_direct(
                                        ups@,
                                        ns_id_name(remotes@[j].0@),
                                        remotes@[j].1@,
                                        Policy::Abort,
                                    ) && has_direct(
                                        ups@,
                                        ns_sig_name(remotes@[j].0@),
                                        state.sigref_tips()[remotes@[j].0@],
                                        Policy::Abort,
                                    )) by {
                                        lemma_has_direct_grow(
                                            before,
                                            ups@,
                                            ns_id_name(remotes@[j].0@),
                                            remotes@[j].1@,
                                            Policy::Abort,
                                        );
                                        lemma_has_direct_grow(
                                            before,
                                            ups@,
                                            ns_sig_name(remotes@[j].0@),
                                            state.sigref_tips()[remotes@[j].0@],
                                            Policy::Abort,
                                        );
                                    }
                                    assert(ups@.len() == before.len() + 2);
                                    assert(pair_at(
                                        ups@,
                                        state.id_tips(),
                                        state.sigref_tips(),
                                        before.len() as int,
                                        remotes@[i as int].0@,
                                    ));
                                    lemma_paired_push2(
                                        before,
                                        ups@,
                                        state.id_tips(),
                                        state.sigref_tips(),
                                        remotes@[i as int].0@,
                                    );
                                }
                            },
                            None => {
                                // no sigrefs tip observed: the pair stays
                                // incomplete and contributes nothing
                            },
                        }
                    },
                }
                i = i + 1;
            }
            proof {
                assert(prunes_guarded(ups@));
                assert forall|k: Seq<u8>| #[trigger]
                    state.id_tips().contains_key(k) && k.len() == crate::keys::KEY_SIZE
                        && in_delegates(delegates@, k) implies ids.doc_map().contains_key(
                    state.id_tips()[k],
                ) by {
                    let j = choose|j: int| 0 <= j < remotes@.len() && remotes@[j].0@ == k;
                }
                assert forall|k: Seq<u8>| #[trigger]
                    state.id_tips().contains_key(k) && k.len() == crate::keys::KEY_SIZE
                        && ids.doc_map().contains_key(state.id_tips()[k]) && state.sigref_tips(
                ).contains_key(k) implies (has_direct(
                    ups@,
                    ns_id_name(k),
                    state.id_tips()[k],
                    Policy::Abort,
                ) && has_direct(ups@, ns_sig_name(k), state.sigref_tips()[k], Policy::Abort)) by {
                    let j = choose|j: int| 0 <= j < remotes@.len() && remotes@[j].0@ == k;
                }
            }
            Ok(ups)
        },
        Stage::DataRefs { trusted, .. } => {
            let mut ups: Vec<Update> = Vec::new();
            let mut t: usize = 0;
            while t < trusted.len()
                invariant
                    refdb.wf(),
                    forall|j: int|
                        0 <= j < trusted@.len() ==> (#[trigger] trusted@[j]).0.wf()
                            && trusted@[j].1.wf(),
                    t <= trusted@.len(),
                    prunes_guarded(ups@),
                    forall|ti: int|
                        0 <= ti < t ==> data_round_complete(
                            ups@,
                            refdb@,
                            (#[trigger] trusted@[ti]).0@,
                            trusted@[ti].1.refs_map(),
                        ),
                decreases trusted@.len() - t,
            {
                // the signed refs, queued as allowed direct updates
                let ghost round_start = ups@;
                proof {
                    trusted@[t as int].1.refs.lemma_lens();
                }
                let n = trusted[t].1.refs.len();
                let mut i: usize = 0;
                while i < n
                    invariant
                        refdb.wf(),
                        forall|j: int|
                            0 <= j < trusted@.len() ==> (#[trigger] trusted@[j]).0.wf()
                                && trusted@[j].1.wf(),
                        0 <= t < trusted@.len(),
                        n == trusted@[t as int].1.refs.spec_len(),
                        trusted@[t as int].1.refs.val_seq().len() == trusted@[t as int].1.refs.key_seq().len(),
                        i <= n,
                        prunes_guarded(ups@),
                        round_start.len() <= ups@.len(),
                        forall|j: int| 0 <= j < round_start.len() ==> round_start[j] == ups@[j],
                        forall|ti: int|
                            0 <= ti < t ==> data_round_complete(
                                round_start,
                                refdb@,
                                (#[trigger] trusted@[ti]).0@,
                                trusted@[ti].1.refs_map(),
                            ),
                        forall|s: int|
                            0 <= s < i && usable_suffix(
                                (#[trigger] trusted@[t as int].1.refs.key_seq()[s]),
                            ) ==> has_direct(
                                ups@,
                                ns_full_name(
                                    trusted@[t as int].0@,
                                    trusted@[t as int].1.refs.key_seq()[s],
                                ),
                                trusted@[t as int].1.refs.val_seq()[s]@,
                                Policy::Allow,
                            ),
                    decreases n - i,
                {
                    let (name, tip) = trusted[t].1.refs.entry_at(i);
                    match crate::refname::parse_qualified_suffix(name) {
                        Some(suffix) => {
                            let ghost sfx_name = suffix.spec_name();
                            let rr = RemoteRef { remote: trusted[t].0.clone(), suffix };
                            let full = rr.namespaced();
                            proof {
                                assert(full@ == ns_full_name(trusted@[t as int].0@, name@));
                                assert(usable_suffix(name@));
                            }
                            let ghost before = ups@;
                            ups.push(
                                Update::Direct {
                                    name: full,
                                    target: tip.clone(),
                                    no_ff: Policy::Allow,
                                },
                            );
                            proof {
                                assert forall|j: int|
                                    0 <= j < ups@.len() implies ((#[trigger] ups@[j]) matches Update::Prune {
                                    name,
                                    ..
                                } ==> !(crate::refname::has_ns_shape(name@)
                                    && crate::bytes::has_prefix(
                                    crate::refname::ns_rest(name@),
                                    crate::refname::refs_rad_slash(),
                                ))) by {
                                    if j < before.len() {
                                        assert(before[j] == ups@[j]);
                                    }
                                }
                                assert forall|s: int|
                                    0 <= s < i + 1 && usable_suffix(
                                        (#[trigger] trusted@[t as int].1.refs.key_seq()[s]),
                                    ) implies has_direct(
                                    ups@,
                                    ns_full_name(
                                        trusted@[t as int].0@,
                                        trusted@[t as int].1.refs.key_seq()[s],
                                    ),
                                    trusted@[t as int].1.refs.val_seq()[s]@,
                                    Policy::Allow,
                                ) by {
                                    if s < i {
                                        lemma_has_direct_grow(
                                            before,
                                            ups@,
                                            ns_full_name(
                                                trusted@[t as int].0@,
                                                trusted@[t as int].1.refs.key_seq()[s],
                                            ),
                                            trusted@[t as int].1.refs.val_seq()[s]@,
                                            Policy::Allow,
                                        );
                                    } else {
                                        assert(ups@[ups@.len() - 1] matches Update::Direct {
                                            name: nn,
                                            target: tt,
                                            no_ff,
                                        } && nn@ == ns_full_name(
                                            trusted@[t as int].0@,
                                            trusted@[t as int].1.refs.key_seq()[s],
                                        ) && tt@ == trusted@[t as int].1.refs.val_seq()[s]@
                                            && no_ff == Policy::Allow);
                                    }
                                }
                            }
                        },
                        None => {
                            proof {
                                assert(!usable_suffix(name@));
                            }
                        },
                    }
                    i = i + 1;
                }
                // prune what the store knows under this namespace and the
                // manifest no longer signs, leaving refs/rad/ alone
                let p0 = ns_prefix_vec();
                let comp = trusted[t].0.to_component();
                let p1 = crate::bytes::join(&p0, &comp);
                let mut slash: Vec<u8> = Vec::new();
                slash.push(crate::refname::SLASH);
                let prefix = crate::bytes::join(&p1, &slash);
                let rad = crate::refname::refs_rad_slash_vec();
                let prefix_rad = crate::bytes::join(&prefix, &rad);
                proof {
                    assert(prefix@ =~= ns_full_name(trusted@[t as int].0@, Seq::empty()));
                    assert(prefix@ =~= ns_prefix() + key_text(trusted@[t as int].0@) + seq![
                        crate::refname::SLASH,
                    ]);
                    assert(prefix_rad@ =~= prefix@ + crate::refname::refs_rad_slash());
                    assert(prefix_rad@ =~= ns_full_name(
                        trusted@[t as int].0@,
                        crate::refname::refs_rad_slash(),
                    ));
                }
                let known = refdb.scan(Some(&prefix));
                let mut k: usize = 0;
                while k < known.len()
                    invariant
                        refdb.wf(),
                        forall|j: int|
                            0 <= j < trusted@.len() ==> (#[trigger] trusted@[j]).0.wf()
                                && trusted@[j].1.wf(),
                        0 <= t < trusted@.len(),
                        k <= known@.len(),
                        prefix@ == ns_full_name(trusted@[t as int].0@, Seq::empty()),
                        prefix@ == ns_prefix() + key_text(trusted@[t as int].0@) + seq![
                            crate::refname::SLASH,
                        ],
                        prefix_rad@ == prefix@ + crate::refname::refs_rad_slash(),
                        prefix_rad@ == ns_full_name(
                            trusted@[t as int].0@,
                            crate::refname::refs_rad_slash(),
                        ),
                        key_text(trusted@[t as int].0@).len() > 0,
                        forall|x: int|
                            0 <= x < key_text(trusted@[t as int].0@).len() ==> is_key_char(
                                #[trigger] key_text(trusted@[t as int].0@)[x],
                            ),
                        scan_post(refdb@, prefix_view(Some(&prefix)), known@),
                        trusted@[t as int].1.refs.val_seq().len() == trusted@[t as int].1.refs.key_seq().len(),
                        prunes_guarded(ups@),
                        round_start.len() <= ups@.len(),
                        forall|j: int| 0 <= j < round_start.len() ==> round_start[j] == ups@[j],
                        forall|ti: int|
                            0 <= ti < t ==> data_round_complete(
                                round_start,
                                refdb@,
                                (#[trigger] trusted@[ti]).0@,
                                trusted@[ti].1.refs_map(),
                            ),
                        forall|s: int|
                            0 <= s < trusted@[t as int].1.refs.spec_len() && usable_suffix(
                                (#[trigger] trusted@[t as int].1.refs.key_seq()[s]),
                            ) ==> has_direct(
                                ups@,
                                ns_full_name(
                                    trusted@[t as int].0@,
                                    trusted@[t as int].1.refs.key_seq()[s],
                                ),
                                trusted@[t as int].1.refs.val_seq()[s]@,
                                Policy::Allow,
                            ),
                        forall|kk: int|
                            0 <= kk < k && !crate::bytes::has_prefix(
                                (#[trigger] known@[kk]).0@,
                                prefix_rad@,
                            ) && !(exists|sn: Seq<u8>|
                                #[trigger] trusted@[t as int].1.refs_map().contains_key(sn)
                                    && usable_suffix(sn) && known@[kk].0@ == ns_full_name(
                                    trusted@[t as int].0@,
                                    sn,
                                )) ==> has_prune(ups@, known@[kk].0@, known@[kk].1@),
                    decreases known@.len() - k,
                {
                    let kname = &known[k].0;
                    if crate::bytes::starts_with(kname, &prefix_rad) {
                        // 'refs/rad/' refs are never subject to pruning
                        k = k + 1;
                        continue ;
                    }
                    // is the known name among the signed full names?
                    let mut signed = false;
                    let n2 = trusted[t].1.refs.len();
                    let mut s: usize = 0;
                    while s < n2
                        invariant
                            forall|j: int|
                                0 <= j < trusted@.len() ==> (#[trigger] trusted@[j]).0.wf()
                                    && trusted@[j].1.wf(),
                            0 <= t < trusted@.len(),
                            n2 == trusted@[t as int].1.refs.spec_len(),
                            s <= n2,
                            0 <= k < known@.len(),
                            kname@ == known@[k as int].0@,
                            signed ==> exists|sn: Seq<u8>|
                                #[trigger] trusted@[t as int].1.refs_map().contains_key(sn)
                                    && usable_suffix(sn) && kname@ == ns_full_name(
                                    trusted@[t as int].0@,
                                    sn,
                                ),
                            !signed ==> forall|s2: int|
                                0 <= s2 < s && usable_suffix(
                                    (#[trigger] trusted@[t as int].1.refs.key_seq()[s2]),
                                ) ==> kname@ != ns_full_name(
                                    trusted@[t as int].0@,
                                    trusted@[t as int].1.refs.key_seq()[s2],
                                ),
                        decreases n2 - s,
                    {
                        let (sname, _) = trusted[t].1.refs.entry_at(s);
                        match crate::refname::parse_qualified_suffix(sname) {
                            Some(suffix) => {
                                let rr = RemoteRef { remote: trusted[t].0.clone(), suffix };
                                let full = rr.namespaced();
                                proof {
                                    assert(full@ == ns_full_name(trusted@[t as int].0@, sname@));
                                    assert(usable_suffix(sname@));
                                }
                                if crate::bytes::bytes_eq(&full, kname) {
                                    proof {
                                        trusted@[t as int].1.refs.lemma_entry(s as int);
                                        trusted@[t as int].1.refs.lemma_dom(sname@);
                                        assert(trusted@[t as int].1.refs_map().contains_key(
                                            sname@,
                                        ));
                                    }
                                    signed = true;
                                }
                            },
                            None => {
                                proof {
                                    assert(!usable_suffix(sname@));
                                }
                            },
                        }
                        s = s + 1;
                    }
                    if !signed {
                        let ghost before = ups@;
                        let prev = known[k].1.clone();
                        let pname = kname.clone();
                        proof {
                            assert(pname@ =~= kname@);
                            assert(!crate::bytes::has_prefix(kname@, prefix_rad@));
                            lemma_unguarded_prune(kname@, trusted@[t as int].0@);
                            // the scan concluded the name is unsigned
                            if exists|sn: Seq<u8>|
                                #[trigger] trusted@[t as int].1.refs_map().contains_key(sn)
                                    && usable_suffix(sn) && kname@ == ns_full_name(
                                    trusted@[t as int].0@,
                                    sn,
                                ) {
                                let sn = choose|sn: Seq<u8>|
                                    #[trigger] trusted@[t as int].1.refs_map().contains_key(sn)
                                        && usable_suffix(sn) && kname@ == ns_full_name(
                                        trusted@[t as int].0@,
                                        sn,
                                    );
                                trusted@[t as int].1.refs.lemma_dom(sn);
                                let s2 = choose|s2: int|
                                    0 <= s2 < trusted@[t as int].1.refs.key_seq().len()
                                        && trusted@[t as int].1.refs.key_seq()[s2] == sn;
                                assert(false);
                            }
                        }
                        ups.push(Update::Prune { name: pname, prev: PrevValue::Oid(prev) });
                        proof {
                            assert forall|j: int|
                                0 <= j < ups@.len() implies ((#[trigger] ups@[j]) matches Update::Prune {
                                name,
                                ..
                            } ==> !(crate::refname::has_ns_shape(name@) && crate::bytes::has_prefix(
                                crate::refname::ns_rest(name@),
                                crate::refname::refs_rad_slash(),
                            ))) by {
                                if j < before.len() {
                                    assert(before[j] == ups@[j]);
                                }
                            }
                            assert(has_prune(ups@, known@[k as int].0@, known@[k as int].1@)) by {
                                assert(ups@[ups@.len() - 1] matches Update::Prune {
                                    name: nn,
                                    prev: PrevValue::Oid(oo),
                                } && nn@ == known@[k as int].0@ && oo@ == known@[k as int].1@);
                            }
                            assert forall|kk: int|
                                0 <= kk < k + 1 && !crate::bytes::has_prefix(
                                    (#[trigger] known@[kk]).0@,
                                    prefix_rad@,
                                ) && !(exists|sn: Seq<u8>|
                                    #[trigger] trusted@[t as int].1.refs_map().contains_key(sn)
                                        && usable_suffix(sn) && known@[kk].0@ == ns_full_name(
                                        trusted@[t as int].0@,
                                        sn,
                                    )) implies has_prune(ups@, known@[kk].0@, known@[kk].1@) by {
                                if kk < k {
                                    lemma_has_prune_grow(
                                        before,
                                        ups@,
                                        known@[kk].0@,
                                        known@[kk].1@,
                                    );
                                }
                            }
                            assert forall|s2: int|
                                0 <= s2 < trusted@[t as int].1.refs.spec_len() && usable_suffix(
                                    (#[trigger] trusted@[t as int].1.refs.key_seq()[s2]),
                                ) implies has_direct(
                                ups@,
                                ns_full_name(
                                    trusted@[t as int].0@,
                                    trusted@[t as int].1.refs.key_seq()[s2],
                                ),
                                trusted@[t as int].1.refs.val_seq()[s2]@,
                                Policy::Allow,
                            ) by {
                                lemma_has_direct_grow(
                                    before,
                                    ups@,
                                    ns_full_name(
                                        trusted@[t as int].0@,
                                        trusted@[t as int].1.refs.key_seq()[s2],
                                    ),
                                    trusted@[t as int].1.refs.val_seq()[s2]@,
                                    Policy::Allow,
                                );
                            }
                            assert forall|ti: int| 0 <= ti < t implies data_round_complete(
                                round_start,
                                refdb@,
                                (#[trigger] trusted@[ti]).0@,
                                trusted@[ti].1.refs_map(),
                            ) by {}
                        }
                    }
                    k = k + 1;
                }
                proof {
                    // this remote's round is complete
                    assert(data_round_complete(
                        ups@,
                        refdb@,
                        trusted@[t as int].0@,
                        trusted@[t as int].1.refs_map(),
                    )) by {
                        assert forall|sn: Seq<u8>| #[trigger]
                            trusted@[t as int].1.refs_map().contains_key(sn) && usable_suffix(sn)
                            implies has_direct(
                            ups@,
                            ns_full_name(trusted@[t as int].0@, sn),
                            trusted@[t as int].1.refs_map()[sn],
                            Policy::Allow,
                        ) by {
                            trusted@[t as int].1.refs.lemma_dom(sn);
                            let s = choose|s: int|
                                0 <= s < trusted@[t as int].1.refs.key_seq().len()
                                    && trusted@[t as int].1.refs.key_seq()[s] == sn;
                            trusted@[t as int].1.refs.lemma_entry(s);
                        }
                        assert forall|kx: Seq<u8>|
                            refdb@.contains_key(kx) && crate::bytes::has_prefix(
                                kx,
                                ns_full_name(trusted@[t as int].0@, Seq::empty()),
                            ) && (#[trigger] lookup(refdb@, kx)) is Some
                            && !crate::bytes::has_prefix(
                                kx,
                                ns_full_name(
                                    trusted@[t as int].0@,
                                    crate::refname::refs_rad_slash(),
                                ),
                            ) && !(exists|sn: Seq<u8>|
                                #[trigger] trusted@[t as int].1.refs_map().contains_key(sn)
                                    && usable_suffix(sn) && kx == ns_full_name(
                                    trusted@[t as int].0@,
                                    sn,
                                )) implies has_prune(ups@, kx, lookup(refdb@, kx)->0) by {
                            let kk = choose|kk: int|
                                0 <= kk < known@.len() && known@[kk].0@ == kx;
                            assert(lookup(refdb@, kx) == Some(known@[kk].1@));
                        }
                    }
                    // the earlier remotes' rounds are kept
                    assert forall|ti: int| 0 <= ti < t + 1 implies data_round_complete(
                        ups@,
                        refdb@,
                        (#[trigger] trusted@[ti]).0@,
                        trusted@[ti].1.refs_map(),
                    ) by {
                        if ti < t {
                            lemma_data_round_grow(
                                round_start,
                                ups@,
                                refdb@,
                                trusted@[ti].0@,
                                trusted@[ti].1.refs_map(),
                            );
                        }
                    }
                }
                t = t + 1;
            }
            Ok(ups)
        },
    }
}

/// A finished remote's round stays complete when the list grows at the
/// end.
proof fn lemma_data_round_grow(
    a: Seq<Update>,
    b: Seq<Update>,
    m: Map<Seq<u8>, crate::refdb::TargetV>,
    remote: Seq<u8>,
    srefs: Map<Seq<u8>, Seq<u8>>,
)
    requires
        a.len() <= b.len(),
        forall|i: int| 0 <= i < a.len() ==> a[i] == b[i],
        data_round_complete(a, m, remote, srefs),
    ensures
        data_round_complete(b, m, remote, srefs),
{
    assert forall|sn: Seq<u8>| #[trigger]
        srefs.contains_key(sn) && usable_suffix(sn) implies has_direct(
        b,
        ns_full_name(remote, sn),
        srefs[sn],
        Policy::Allow,
    ) by {
        lemma_has_direct_grow(a, b, ns_full_name(remote, sn), srefs[sn], Policy::Allow);
    }
    assert forall|k: Seq<u8>|
        m.contains_key(k) && crate::bytes::has_prefix(k, ns_full_name(remote, Seq::empty())) && (
    #[trigger] lookup(m, k)) is Some && !crate::bytes::has_prefix(
        k,
        ns_full_name(remote, crate::refname::refs_rad_slash()),
    ) && !(exists|sn: Seq<u8>|
        #[trigger] srefs.contains_key(sn) && usable_suffix(sn) && k == ns_full_name(
            remote,
            sn,
        )) implies has_prune(b, k, lookup(m, k)->0) by {
        lemma_has_prune_grow(a, b, k, lookup(m, k)->0);
    }
}

/// A name that does not start with `refs/namespaces/<remote>/refs/rad/`
/// cannot be a guarded name whose namespace component is that remote's
/// text — but it could be guarded under another component; what the data
/// round scans always carries the remote's own component, so the name is
/// unguarded outright.
proof fn lemma_unguarded_prune(n: Seq<u8>, remote: Seq<u8>)
    requires
        key_text(remote).len() > 0,
        forall|x: int|
            0 <= x < key_text(remote).len() ==> is_key_char(#[trigger] key_text(remote)[x]),
        !crate::bytes::has_prefix(
            n,
            ns_prefix() + key_text(remote) + seq![crate::refname::SLASH]
                + crate::refname::refs_rad_slash(),
        ),
        crate::bytes::has_prefix(n, ns_prefix() + key_text(remote) + seq![crate::refname::SLASH]),
    ensures
        !(crate::refname::has_ns_shape(n) && crate::bytes::has_prefix(
            crate::refname::ns_rest(n),
            crate::refname::refs_rad_slash(),
        )),
{
    if crate::refname::has_ns_shape(n) && crate::bytes::has_prefix(
        crate::refname::ns_rest(n),
        crate::refname::refs_rad_slash(),
    ) {
        let kt = key_text(remote);
        let p = ns_prefix().len() as int;
        let pfx1 = ns_prefix() + kt + seq![crate::refname::SLASH];
        assert(n.subrange(0, pfx1.len() as int) == pfx1);
        assert forall|x: int| 0 <= x < pfx1.len() implies n[x] == pfx1[x] by {
            assert(n.subrange(0, pfx1.len() as int)[x] == pfx1[x]);
        }
        crate::refname::lemma_first_slash_bounds(n, p);
        let fs = crate::refname::first_slash_from(n, p);
        assert(n[p + kt.len()] == crate::refname::SLASH) by {
            assert(pfx1[p + kt.len()] == crate::refname::SLASH);
        }
        assert(fs <= p + kt.len());
        assert(fs >= p + kt.len()) by {
            if fs < p + kt.len() {
                assert(n[fs] == crate::refname::SLASH);
                assert(pfx1[fs] == kt[fs - p]);
                assert(is_key_char(kt[fs - p]));
                assert(false);
            }
        }
        let comp = crate::refname::ns_component(n);
        let rest = crate::refname::ns_rest(n);
        assert(comp =~= kt);
        let rrs = crate::refname::refs_rad_slash();
        let pfx2 = pfx1 + rrs;
        assert(crate::bytes::has_prefix(n, pfx2)) by {
            assert(rest.len() >= rrs.len());
            assert(n.len() >= pfx2.len());
            assert(n.subrange(0, pfx2.len() as int) =~= pfx2) by {
                assert forall|x: int| 0 <= x < pfx2.len() implies n[x] == pfx2[x] by {
                    if x < pfx1.len() {
                    } else {
                        assert(rest.subrange(0, rrs.len() as int)[x - pfx1.len()] == rrs[x
                            - pfx1.len()]);
                        assert(rest[x - pfx1.len()] == rrs[x - pfx1.len()]);
                        assert(rest[x - pfx1.len()] == n[fs + 1 + (x - pfx1.len())]);
                    }
                }
            }
        }
        assert(false);
    }
}

} // verus!
