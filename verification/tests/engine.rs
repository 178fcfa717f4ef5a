use radicle_fetch::bytemap::ByteMap;
use radicle_fetch::identity::{IdentityStore, VerifiedIdentity};
use radicle_fetch::keys::PublicKey;
use radicle_fetch::oid::Oid;
use radicle_fetch::protocol::{clone, pull, Error, FetchLimit, Handle};
use radicle_fetch::refdb::Refdb;
use radicle_fetch::refname::RemoteRef;
use radicle_fetch::sigrefs::{SigrefStore, Sigrefs};
use radicle_fetch::stage::PrepareError;
use radicle_fetch::tracking::{Scope, TrackedSet};
use radicle_fetch::transport::RemoteState;
use radicle_fetch::update::{Policy, Update, Updated};

fn oid(n: u8) -> Oid {
    Oid::from_bytes(vec![n; 20]).expect("twenty bytes")
}

fn key(n: u8) -> PublicKey {
    PublicKey::from_bytes(vec![n; 32]).expect("thirty-two bytes")
}

fn ns_name(remote: &PublicKey, suffix: &[u8]) -> Vec<u8> {
    let mut n = b"refs/namespaces/".to_vec();
    n.extend_from_slice(&remote.to_component());
    n.push(b'/');
    n.extend_from_slice(suffix);
    n
}

fn doc(content: u8, delegates: &[&PublicKey], history: &[u8]) -> VerifiedIdentity {
    VerifiedIdentity {
        content_id: oid(content),
        revision: oid(content),
        delegates: delegates.iter().map(|k| (*k).clone()).collect(),
        history: history.iter().map(|n| oid(*n)).collect(),
    }
}

fn sigrefs(at: u8, entries: &[(&[u8], u8)]) -> Sigrefs {
    let mut refs = ByteMap::new();
    for (name, tip) in entries {
        refs.insert(name.to_vec(), oid(*tip));
    }
    Sigrefs { at: oid(at), refs }
}

fn handle(local: u8) -> Handle {
    Handle {
        local: key(local),
        refdb: Refdb::new(),
        ids: IdentityStore::new(),
        sigrefs: SigrefStore::new(),
        tracking: TrackedSet { scope: Scope::Trusted, remotes: Vec::new() },
    }
}

fn remote_with(refs: &[(Vec<u8>, u8)], objects: &[(u8, &[u8])]) -> RemoteState {
    let mut rs = RemoteState::new();
    for (name, tip) in refs {
        rs.refs.insert(name.clone(), oid(*tip));
    }
    for (o, parents) in objects {
        let ps = parents.iter().map(|p| oid(*p)).collect();
        rs.objects.insert(oid(*o).bytes().clone(), ps);
    }
    rs
}

fn updated_names(updated: &[Updated]) -> Vec<Vec<u8>> {
    updated
        .iter()
        .map(|u| match u {
            Updated::Direct { name, .. } => name.clone(),
            Updated::Symbolic { name, .. } => name.clone(),
            Updated::Prune { name, .. } => name.clone(),
        })
        .collect()
}

#[test]
fn empty_clone_creates_all_refs() {
    let pk_a = key(1);
    let mut h = handle(2);
    h.ids.record(&oid(1), doc(1, &[&pk_a], &[1]));
    h.sigrefs
        .publish(&pk_a, sigrefs(2, &[(b"refs/heads/main", 3)]));
    let remote = remote_with(
        &[
            (b"refs/rad/id".to_vec(), 1),
            (ns_name(&pk_a, b"refs/rad/id"), 1),
            (ns_name(&pk_a, b"refs/rad/sigrefs"), 2),
            (ns_name(&pk_a, b"refs/heads/main"), 3),
        ],
        &[(1, &[]), (2, &[]), (3, &[])],
    );
    let r = clone(&mut h, &remote, FetchLimit::default(), &pk_a).expect("clone succeeds");
    assert!(!r.requires_confirmation);
    assert_eq!(r.validation.len(), 0);
    assert_eq!(r.applied.rejected.len(), 0);
    let names = updated_names(&r.applied.updated);
    assert_eq!(names.len(), 4);
    assert!(names.contains(&b"refs/rad/id".to_vec()));
    assert!(names.contains(&ns_name(&pk_a, b"refs/rad/id")));
    assert!(names.contains(&ns_name(&pk_a, b"refs/rad/sigrefs")));
    assert!(names.contains(&ns_name(&pk_a, b"refs/heads/main")));
    assert_eq!(
        h.refdb
            .refname_to_id(&ns_name(&pk_a, b"refs/heads/main"))
            .map(|o| o.bytes().clone()),
        Some(oid(3).bytes().clone())
    );
}

fn pull_setup(sig_at: u8, main_tip: u8, main_parents: &[u8]) -> (PublicKey, Handle, RemoteState) {
    let pk_a = key(1);
    let mut h = handle(2);
    let pk_b = h.local.clone();
    // the local identity and PK_A's current state
    h.ids.record(&oid(1), doc(1, &[&pk_a], &[1]));
    h.sigrefs
        .publish(&pk_a, sigrefs(sig_at, &[(b"refs/heads/main", main_tip)]));
    // local objects and refs: main at O3
    h.refdb.add_object(&oid(1), Vec::new());
    h.refdb.add_object(&oid(2), Vec::new());
    h.refdb.add_object(&oid(3), Vec::new());
    let setup = vec![
        Update::Direct {
            name: ns_name(&pk_b, b"refs/rad/id"),
            target: oid(1),
            no_ff: Policy::Allow,
        },
        Update::Direct {
            name: ns_name(&pk_a, b"refs/rad/id"),
            target: oid(1),
            no_ff: Policy::Allow,
        },
        Update::Direct {
            name: ns_name(&pk_a, b"refs/rad/sigrefs"),
            target: oid(2),
            no_ff: Policy::Allow,
        },
        Update::Direct {
            name: ns_name(&pk_a, b"refs/heads/main"),
            target: oid(3),
            no_ff: Policy::Allow,
        },
    ];
    h.refdb.update(setup).expect("setup commits");
    let remote = remote_with(
        &[
            (ns_name(&pk_a, b"refs/rad/id"), 1),
            (ns_name(&pk_a, b"refs/rad/sigrefs"), sig_at),
            (ns_name(&pk_a, b"refs/heads/main"), main_tip),
        ],
        &[
            (1, &[]),
            (2, &[]),
            (3, &[]),
            (sig_at, &[2]),
            (main_tip, main_parents),
        ],
    );
    (pk_a, h, remote)
}

#[test]
fn pull_fast_forwards_main() {
    let (pk_a, mut h, remote) = pull_setup(22, 4, &[3]);
    let r = pull(&mut h, &remote, FetchLimit::default(), &pk_a).expect("pull succeeds");
    assert_eq!(r.validation.len(), 0);
    assert_eq!(r.applied.rejected.len(), 0);
    // the data round fast-forwards main from O3 to O4
    let main = ns_name(&pk_a, b"refs/heads/main");
    let mut saw_main = false;
    for u in &r.applied.updated {
        if let Updated::Direct { name, prev, target } = u {
            if name == &main {
                saw_main = true;
                assert_eq!(prev.bytes(), oid(3).bytes());
                assert_eq!(target.bytes(), oid(4).bytes());
            }
        }
    }
    assert!(saw_main);
    assert!(h
        .refdb
        .is_in_ancestry_path(&oid(4), &oid(3))
        .expect("walk succeeds"));
}

#[test]
fn replay_pull_applies_nothing() {
    let (pk_a, mut h, remote) = pull_setup(22, 4, &[3]);
    pull(&mut h, &remote, FetchLimit::default(), &pk_a).expect("first pull succeeds");
    let main = ns_name(&pk_a, b"refs/heads/main");
    let before = h.refdb.refname_to_id(&main).expect("main exists");
    let r = pull(&mut h, &remote, FetchLimit::default(), &pk_a).expect("second pull succeeds");
    assert_eq!(r.applied.updated.len(), 0);
    assert_eq!(r.applied.rejected.len(), 0);
    let after = h.refdb.refname_to_id(&main).expect("main still exists");
    assert_eq!(before.bytes(), after.bytes());
}

#[test]
fn non_fast_forward_update_is_rejected() {
    let mut db = Refdb::new();
    db.add_object(&oid(3), Vec::new());
    db.add_object(&oid(4), Vec::new());
    let name = b"refs/namespaces/x/refs/heads/main".to_vec();
    db.update(vec![Update::Direct {
        name: name.clone(),
        target: oid(3),
        no_ff: Policy::Allow,
    }])
    .expect("create succeeds");
    let a = db
        .update(vec![Update::Direct {
            name: name.clone(),
            target: oid(4),
            no_ff: Policy::Reject,
        }])
        .expect("transaction survives a rejection");
    assert_eq!(a.updated.len(), 0);
    assert_eq!(a.rejected.len(), 1);
    let cur = db.refname_to_id(&name).expect("ref still there");
    assert_eq!(cur.bytes(), oid(3).bytes());
}

#[test]
fn prune_unsigned_leaves_rad_hierarchy_alone() {
    let (pk_a, mut h, remote) = pull_setup(22, 4, &[3]);
    // two extra local refs: an unsigned payload ref, and one under refs/rad/
    h.refdb.add_object(&oid(5), Vec::new());
    h.refdb.add_object(&oid(6), Vec::new());
    h.refdb
        .update(vec![
            Update::Direct {
                name: ns_name(&pk_a, b"refs/cobs/issue.x"),
                target: oid(5),
                no_ff: Policy::Allow,
            },
            Update::Direct {
                name: ns_name(&pk_a, b"refs/rad/keep"),
                target: oid(6),
                no_ff: Policy::Allow,
            },
        ])
        .expect("extra refs commit");
    let r = pull(&mut h, &remote, FetchLimit::default(), &pk_a).expect("pull succeeds");
    let cobs = ns_name(&pk_a, b"refs/cobs/issue.x");
    let mut pruned = false;
    for u in &r.applied.updated {
        if let Updated::Prune { name, prev } = u {
            assert_ne!(name, &ns_name(&pk_a, b"refs/rad/keep"));
            if name == &cobs {
                pruned = true;
                assert_eq!(prev.bytes(), oid(5).bytes());
            }
        }
    }
    assert!(pruned);
    assert!(h.refdb.refname_to_id(&cobs).is_none());
    assert!(h
        .refdb
        .refname_to_id(&ns_name(&pk_a, b"refs/rad/keep"))
        .is_some());
}

#[test]
fn delegate_verification_failure_aborts_without_commit() {
    let pk_a = key(1);
    let mut h = handle(2);
    let pk_b = h.local.clone();
    h.ids.record(&oid(1), doc(1, &[&pk_a], &[1]));
    h.sigrefs.publish(&pk_a, sigrefs(2, &[]));
    h.refdb.add_object(&oid(1), Vec::new());
    h.refdb
        .update(vec![Update::Direct {
            name: ns_name(&pk_b, b"refs/rad/id"),
            target: oid(1),
            no_ff: Policy::Allow,
        }])
        .expect("setup commits");
    // PK_A's advertised identity tip O6 has no verified document
    let remote = remote_with(
        &[
            (ns_name(&pk_a, b"refs/rad/id"), 6),
            (ns_name(&pk_a, b"refs/rad/sigrefs"), 2),
        ],
        &[(1, &[]), (2, &[]), (6, &[])],
    );
    let r = pull(&mut h, &remote, FetchLimit::default(), &pk_a);
    match r {
        Err(Error::Prepare(PrepareError::Verification(_))) => {}
        other => panic!("expected a verification failure, got {:?}", other.is_ok()),
    }
    // nothing was committed
    assert!(h
        .refdb
        .refname_to_id(&ns_name(&pk_a, b"refs/rad/id"))
        .is_none());
    assert!(h
        .refdb
        .refname_to_id(&ns_name(&pk_a, b"refs/rad/sigrefs"))
        .is_none());
}

#[test]
fn identity_fork_requires_confirmation() {
    let pk_a = key(1);
    let mut h = handle(2);
    let pk_b = h.local.clone();
    // the local anchor at O1 delegates to the local peer as well, so a
    // newer unrelated identity needs confirmation
    h.ids.record(&oid(1), doc(1, &[&pk_a, &pk_b], &[1]));
    h.ids.record(&oid(7), doc(7, &[&pk_a, &pk_b], &[7]));
    h.sigrefs.publish(&pk_a, sigrefs(2, &[]));
    h.refdb.add_object(&oid(1), Vec::new());
    h.refdb
        .update(vec![Update::Direct {
            name: ns_name(&pk_b, b"refs/rad/id"),
            target: oid(1),
            no_ff: Policy::Allow,
        }])
        .expect("setup commits");
    let remote = remote_with(
        &[
            (ns_name(&pk_a, b"refs/rad/id"), 7),
            (ns_name(&pk_a, b"refs/rad/sigrefs"), 2),
        ],
        &[(1, &[]), (2, &[]), (7, &[])],
    );
    let r = pull(&mut h, &remote, FetchLimit::default(), &pk_a).expect("pull succeeds");
    assert!(r.requires_confirmation);
    // the verification batch was committed
    assert!(h
        .refdb
        .refname_to_id(&ns_name(&pk_a, b"refs/rad/id"))
        .is_some());
}

#[test]
fn replicating_from_self_fails() {
    let mut h = handle(2);
    let me = h.local.clone();
    let remote = RemoteState::new();
    assert!(matches!(
        pull(&mut h, &remote, FetchLimit::default(), &me),
        Err(Error::ReplicateSelf)
    ));
    assert!(matches!(
        clone(&mut h, &remote, FetchLimit::default(), &me),
        Err(Error::ReplicateSelf)
    ));
    let other = key(9);
    assert!(!matches!(
        pull(&mut h, &remote, FetchLimit::default(), &other),
        Err(Error::ReplicateSelf)
    ));
}

#[test]
fn snapshot_keeps_its_view_across_updates() {
    let mut db = Refdb::new();
    db.add_object(&oid(3), Vec::new());
    db.add_object(&oid(4), Vec::new());
    let name = b"refs/namespaces/x/refs/heads/main".to_vec();
    db.update(vec![Update::Direct {
        name: name.clone(),
        target: oid(3),
        no_ff: Policy::Allow,
    }])
    .expect("create succeeds");
    let snap = db.snapshot();
    db.update(vec![Update::Direct {
        name: name.clone(),
        target: oid(4),
        no_ff: Policy::Allow,
    }])
    .expect("overwrite succeeds");
    // the writer moved the ref; the snapshot still sees the old value
    assert_eq!(
        db.refname_to_id(&name).expect("ref exists").bytes(),
        oid(4).bytes()
    );
    assert_eq!(snap.find(&name).expect("ref exists").bytes(), oid(3).bytes());
    let listed = snap.iter(None);
    assert_eq!(listed.len(), 1);
    assert_eq!(listed[0].1.bytes(), oid(3).bytes());
}

#[test]
fn pull_without_local_identity_fails() {
    let mut h = handle(2);
    let remote = RemoteState::new();
    assert!(matches!(
        pull(&mut h, &remote, FetchLimit::default(), &key(1)),
        Err(Error::MissingRadId)
    ));
}

#[test]
fn clone_needs_the_canonical_identity() {
    let pk_a = key(1);
    let mut h = handle(2);
    h.ids.record(&oid(1), doc(1, &[&pk_a], &[1]));
    h.sigrefs.publish(&pk_a, sigrefs(2, &[]));
    // the remote advertises the namespaced pair but not refs/rad/id
    let remote = remote_with(
        &[
            (ns_name(&pk_a, b"refs/rad/id"), 1),
            (ns_name(&pk_a, b"refs/rad/sigrefs"), 2),
        ],
        &[(1, &[]), (2, &[])],
    );
    assert!(matches!(
        clone(&mut h, &remote, FetchLimit::default(), &pk_a),
        Err(Error::Layout(_))
    ));
}

#[test]
fn missing_required_sigrefs_fails_the_pull() {
    let (pk_a, mut h, remote) = pull_setup(22, 4, &[3]);
    // take the delegate's manifest out of the store and the observed tips
    // cannot be loaded either, since the advertised tip is not filed
    h.sigrefs = SigrefStore::new();
    assert!(matches!(
        pull(&mut h, &remote, FetchLimit::default(), &pk_a),
        Err(Error::SigrefsNotFound(_))
    ));
}

#[test]
fn missing_wanted_object_fails_the_fetch() {
    let pk_a = key(1);
    let mut h = handle(2);
    h.ids.record(&oid(1), doc(1, &[&pk_a], &[1]));
    h.sigrefs.publish(&pk_a, sigrefs(2, &[]));
    // the remote advertises an id whose object its store does not hold
    let remote = remote_with(
        &[
            (b"refs/rad/id".to_vec(), 1),
            (ns_name(&pk_a, b"refs/rad/id"), 1),
            (ns_name(&pk_a, b"refs/rad/sigrefs"), 2),
        ],
        &[(2, &[])],
    );
    assert!(matches!(
        clone(&mut h, &remote, FetchLimit::default(), &pk_a),
        Err(Error::Fetch(_))
    ));
}
