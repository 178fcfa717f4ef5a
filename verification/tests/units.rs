use radicle_fetch::bytemap::ByteMap;
use radicle_fetch::bytes::{bytes_eq, ends_with, join, starts_with, subvec};
use radicle_fetch::keys::PublicKey;
use radicle_fetch::mem::InMemory;
use radicle_fetch::odb::{Ancestry, Odb};
use radicle_fetch::oid::Oid;
use radicle_fetch::refdb::{Refdb, Target, UpdateError};
use radicle_fetch::refname::{parse_refname, RefnameError, Refname, RemoteRef, Special, Suffix};
use radicle_fetch::sigrefs::Sigrefs;
use radicle_fetch::update::{Policy, PrevValue, SymrefTarget, Update, Updated};
use radicle_fetch::validation::{validate, Validation};
use radicle_fetch::wire::{Header, HeaderError, Subscribe, ZeroBytes};

fn oid(n: u8) -> Oid {
    Oid::from_bytes(vec![n; 20]).expect("twenty bytes")
}

fn key(n: u8) -> PublicKey {
    PublicKey::from_bytes(vec![n; 32]).expect("thirty-two bytes")
}

#[test]
fn key_component_is_the_multibase_text() {
    let pk = key(1);
    let component = pk.to_component();
    // the component must be what radicle_crypto encodes, not the raw bytes
    let expected = radicle_crypto::PublicKey::from_bytes([1; 32]).to_human();
    assert_eq!(component, expected.into_bytes());
    assert_ne!(component, vec![1u8; 32]);
    // and parsing the component gives the key back
    let parsed = PublicKey::parse_component(&pk.to_component()).expect("round trip");
    assert_eq!(parsed.bytes(), pk.bytes());
}

#[test]
fn refname_grammar_round_trips() {
    let pk = key(3);
    let rr = RemoteRef::rad_id(pk.clone());
    let name = rr.namespaced();
    match parse_refname(&name).expect("parses") {
        Refname::Namespaced(parsed) => {
            assert_eq!(parsed.remote.bytes(), pk.bytes());
            assert!(matches!(parsed.suffix, Suffix::Special(Special::Id)));
        }
        Refname::RadId => panic!("not the canonical name"),
    }
    let sig = RemoteRef::rad_sigrefs(pk.clone()).namespaced();
    match parse_refname(&sig).expect("parses") {
        Refname::Namespaced(parsed) => {
            assert!(matches!(parsed.suffix, Suffix::Special(Special::SignedRefs)));
        }
        Refname::RadId => panic!("not the canonical name"),
    }
    assert!(matches!(
        parse_refname(&b"refs/rad/id".to_vec()).expect("parses"),
        Refname::RadId
    ));
}

#[test]
fn refname_grammar_rejects_bad_names() {
    assert!(matches!(
        parse_refname(&b"refs/heads/main".to_vec()),
        Err(RefnameError::NotNamespaced)
    ));
    let pk = key(3);
    let mut ns = b"refs/namespaces/".to_vec();
    ns.extend_from_slice(&pk.to_component());
    let mut bad = ns.clone();
    bad.extend_from_slice(b"/refs/rad/other");
    assert!(matches!(
        parse_refname(&bad),
        Err(RefnameError::MalformedSuffix)
    ));
    let mut short = ns.clone();
    short.extend_from_slice(b"/refs");
    assert!(matches!(
        parse_refname(&short),
        Err(RefnameError::NotQualified)
    ));
    let mut badkey = b"refs/namespaces/notakey/refs/heads/main".to_vec();
    assert!(matches!(
        parse_refname(&mut badkey),
        Err(RefnameError::PublicKey)
    ));
}

#[test]
fn byte_helpers_behave() {
    let a = b"refs/heads/main".to_vec();
    assert!(starts_with(&a, &b"refs/".to_vec()));
    assert!(!starts_with(&a, &b"refsx".to_vec()));
    assert!(ends_with(&a, &b"/main".to_vec()));
    assert!(!ends_with(&a, &b"/mane".to_vec()));
    assert!(bytes_eq(&a, &b"refs/heads/main".to_vec()));
    assert!(!bytes_eq(&a, &b"refs/heads/mair".to_vec()));
    assert_eq!(join(&b"ab".to_vec(), &b"cd".to_vec()), b"abcd".to_vec());
    assert_eq!(subvec(&a, 5, 10), b"heads".to_vec());
}

#[test]
fn bytemap_insert_get_remove() {
    let mut m: ByteMap<u64> = ByteMap::new();
    assert_eq!(m.len(), 0);
    m.insert(b"one".to_vec(), 1);
    m.insert(b"two".to_vec(), 2);
    m.insert(b"one".to_vec(), 10);
    assert_eq!(m.len(), 2);
    assert_eq!(m.get(&b"one".to_vec()), Some(&10));
    assert_eq!(m.get(&b"two".to_vec()), Some(&2));
    assert_eq!(m.get(&b"three".to_vec()), None);
    assert_eq!(m.remove(&b"one".to_vec()), Some(10));
    assert_eq!(m.get(&b"one".to_vec()), None);
    assert_eq!(m.len(), 1);
}

#[test]
fn ancestry_walk_answers_exactly() {
    let mut odb = Odb::new();
    // a chain c <- b <- a, and an unrelated commit x
    odb.insert_object(&oid(1), vec![oid(2)]);
    odb.insert_object(&oid(2), vec![oid(3)]);
    odb.insert_object(&oid(3), Vec::new());
    odb.insert_object(&oid(9), Vec::new());
    assert!(odb.is_in_ancestry_path(&oid(1), &oid(1)).unwrap());
    assert!(odb.is_in_ancestry_path(&oid(1), &oid(2)).unwrap());
    assert!(odb.is_in_ancestry_path(&oid(1), &oid(3)).unwrap());
    assert!(!odb.is_in_ancestry_path(&oid(3), &oid(1)).unwrap());
    assert!(!odb.is_in_ancestry_path(&oid(1), &oid(9)).unwrap());
    // a missing id means "diverged", not an error
    assert!(!odb.is_in_ancestry_path(&oid(1), &oid(8)).unwrap());
    // a missing parent in the walked chain is an error
    let mut broken = Odb::new();
    broken.insert_object(&oid(1), vec![oid(2)]);
    broken.insert_object(&oid(9), Vec::new());
    assert!(broken.is_in_ancestry_path(&oid(1), &oid(9)).is_err());
}

#[test]
fn direct_update_aborts_on_non_fast_forward() {
    let mut db = Refdb::new();
    db.add_object(&oid(3), Vec::new());
    db.add_object(&oid(4), Vec::new());
    let name = b"refs/heads/main".to_vec();
    db.update(vec![Update::Direct {
        name: name.clone(),
        target: oid(3),
        no_ff: Policy::Allow,
    }])
    .expect("create succeeds");
    let r = db.update(vec![Update::Direct {
        name: name.clone(),
        target: oid(4),
        no_ff: Policy::Abort,
    }]);
    assert!(matches!(r, Err(UpdateError::NonFF { .. })));
    // the store is untouched
    assert_eq!(db.refname_to_id(&name).unwrap().bytes(), oid(3).bytes());
}

#[test]
fn symbolic_updates_create_and_guard() {
    let mut db = Refdb::new();
    db.add_object(&oid(3), Vec::new());
    let head = b"HEAD/of/x".to_vec();
    let main = b"refs/heads/main".to_vec();
    let a = db
        .update(vec![Update::Symbolic {
            name: head.clone(),
            target: SymrefTarget {
                name: main.clone(),
                target: oid(3),
            },
            type_change: Policy::Abort,
        }])
        .expect("symbolic create succeeds");
    assert_eq!(a.updated.len(), 2);
    // the symref resolves through its target
    assert_eq!(db.refname_to_id(&head).unwrap().bytes(), oid(3).bytes());
    // a symbolic update pointing at a symbolic ref is refused
    let r = db.update(vec![Update::Symbolic {
        name: b"other/link".to_vec(),
        target: SymrefTarget {
            name: head.clone(),
            target: oid(3),
        },
        type_change: Policy::Abort,
    }]);
    assert!(matches!(r, Err(UpdateError::TargetSymbolic(_))));
}

#[test]
fn prune_of_missing_name_is_rejected() {
    let mut db = Refdb::new();
    let r = db
        .update(vec![Update::Prune {
            name: b"refs/heads/gone".to_vec(),
            prev: PrevValue::Oid(oid(5)),
        }])
        .expect("transaction survives");
    assert_eq!(r.updated.len(), 0);
    assert_eq!(r.rejected.len(), 1);
}

#[test]
fn staging_overlays_and_clears() {
    let mut mem = InMemory::new();
    let ups = vec![
        Update::Direct {
            name: b"refs/heads/main".to_vec(),
            target: oid(3),
            no_ff: Policy::Allow,
        },
        Update::Symbolic {
            name: b"HEAD/of/x".to_vec(),
            target: SymrefTarget {
                name: b"refs/heads/main".to_vec(),
                target: oid(3),
            },
            type_change: Policy::Allow,
        },
    ];
    let a = mem.update(&ups);
    assert_eq!(a.rejected.len(), 0);
    assert_eq!(a.updated.len(), 2);
    assert_eq!(
        mem.refname_to_id(&b"refs/heads/main".to_vec())
            .unwrap()
            .bytes(),
        oid(3).bytes()
    );
    // the symbolic entry collapsed to the target's id
    assert_eq!(
        mem.refname_to_id(&b"HEAD/of/x".to_vec()).unwrap().bytes(),
        oid(3).bytes()
    );
    let a2 = mem.update(&vec![Update::Prune {
        name: b"refs/heads/main".to_vec(),
        prev: PrevValue::Oid(oid(3)),
    }]);
    assert_eq!(a2.updated.len(), 1);
    assert!(mem.refname_to_id(&b"refs/heads/main".to_vec()).is_none());
    // pruning an absent name records nothing
    let a3 = mem.update(&vec![Update::Prune {
        name: b"refs/heads/main".to_vec(),
        prev: PrevValue::Oid(oid(3)),
    }]);
    assert_eq!(a3.updated.len(), 0);
}

#[test]
fn validation_flags_each_failure() {
    let pk = key(1);
    let mut db = Refdb::new();
    db.add_object(&oid(2), Vec::new());
    db.add_object(&oid(3), Vec::new());
    db.add_object(&oid(5), Vec::new());
    let mut ns = b"refs/namespaces/".to_vec();
    ns.extend_from_slice(&pk.to_component());
    let name = |suffix: &[u8]| {
        let mut n = ns.clone();
        n.push(b'/');
        n.extend_from_slice(suffix);
        n
    };
    // an exact namespace validates silently
    db.update(vec![
        Update::Direct {
            name: name(b"refs/rad/id"),
            target: oid(5),
            no_ff: Policy::Allow,
        },
        Update::Direct {
            name: name(b"refs/rad/sigrefs"),
            target: oid(2),
            no_ff: Policy::Allow,
        },
        Update::Direct {
            name: name(b"refs/heads/main"),
            target: oid(3),
            no_ff: Policy::Allow,
        },
    ])
    .expect("setup commits");
    let mut refs = ByteMap::new();
    refs.insert(b"refs/heads/main".to_vec(), oid(3));
    let sig = Sigrefs { at: oid(2), refs };
    assert_eq!(validate(&db, &pk, &sig).len(), 0);
    // a mismatched tip, an unsigned ref, and a missing signed ref
    let mut refs = ByteMap::new();
    refs.insert(b"refs/heads/main".to_vec(), oid(4));
    refs.insert(b"refs/heads/dev".to_vec(), oid(5));
    let sig = Sigrefs { at: oid(2), refs };
    let ws = validate(&db, &pk, &sig);
    assert!(ws
        .iter()
        .any(|w| matches!(w, Validation::MismatchedRef { .. })));
    assert!(ws.iter().any(|w| matches!(w, Validation::MissingRef { .. })));
    // a namespace with nothing at all
    let other = key(8);
    let ws = validate(&db, &other, &sig);
    assert!(ws.iter().any(|w| matches!(w, Validation::NoData(_))));
}

#[test]
fn zero_bytes_and_subscriptions() {
    let z = ZeroBytes::new(0);
    assert!(z.is_empty());
    assert_eq!(z.len(), 0);
    let z = ZeroBytes::new(42);
    assert!(!z.is_empty());
    assert_eq!(z.len(), 42);
    let s = Subscribe::all();
    assert_eq!(s.since, 0);
    assert_eq!(s.until, u64::MAX);
    assert_eq!(s.filter.bits.len(), 0);
}

#[test]
fn upload_header_parses_and_rejects() {
    let line = b"git-upload-pack /project.git\0host=myserver.com\0".to_vec();
    let h = Header::parse(&line).expect("parses");
    assert_eq!(h.path, b"/project.git".to_vec());
    assert_eq!(h.host, Some((b"myserver.com".to_vec(), None)));
    assert_eq!(h.extra.len(), 0);
    let line = b"git-upload-pack /p\0host=h:9418\0\0version=2\0".to_vec();
    let h = Header::parse(&line).expect("parses");
    assert_eq!(h.host, Some((b"h".to_vec(), Some(9418))));
    assert_eq!(
        h.extra,
        vec![(b"version".to_vec(), Some(b"2".to_vec()))]
    );
    assert!(matches!(
        Header::parse(&b"git-receive-pack /p\0".to_vec()),
        Err(HeaderError::UnsupportedService)
    ));
    assert!(matches!(
        Header::parse(&b"git-upload-pack \0host=h\0".to_vec()),
        Err(HeaderError::EmptyPath)
    ));
    assert!(matches!(
        Header::parse(&b"git-upload-pack /p\0h=x\0".to_vec()),
        Err(HeaderError::InvalidHost)
    ));
    assert!(matches!(
        Header::parse(&b"git-upload-pack /p\0host=h:99999\0".to_vec()),
        Err(HeaderError::InvalidPort)
    ));
}

#[test]
fn oid_zero_and_equality() {
    let z = Oid::zero();
    assert!(z.is_zero());
    assert!(!oid(1).is_zero());
    assert_eq!(oid(1), oid(1));
    assert_ne!(oid(1), oid(2));
    assert!(Oid::from_bytes(vec![0u8; 19]).is_none());
}

#[test]
fn target_and_updated_shapes() {
    let t = Target::Direct(oid(1));
    let t2 = t.clone();
    match t2 {
        Target::Direct(o) => assert_eq!(o.bytes(), oid(1).bytes()),
        Target::Symbolic(_) => panic!("cloned the wrong variant"),
    }
    let u = Update::Direct {
        name: b"refs/x/y/z".to_vec(),
        target: oid(1),
        no_ff: Policy::Reject,
    };
    assert_eq!(u.refname(), &b"refs/x/y/z".to_vec());
    let rec = Updated::Prune {
        name: b"refs/x/y/z".to_vec(),
        prev: oid(1),
    };
    match rec {
        Updated::Prune { prev, .. } => assert_eq!(prev.bytes(), oid(1).bytes()),
        _ => panic!("wrong record"),
    }
}

#[test]
fn wants_never_include_held_objects() {
    let mut db = Refdb::new();
    db.add_object(&oid(3), Vec::new());
    db.update(vec![Update::Direct {
        name: b"refs/heads/main".to_vec(),
        target: oid(3),
        no_ff: Policy::Allow,
    }])
    .expect("setup commits");
    let mut b = radicle_fetch::transport::WantsHavesBuilder::new();
    // a tip the store already holds, and a fresh one
    b.add_one(&db, &b"refs/heads/main".to_vec(), &oid(3))
        .expect("negotiation succeeds");
    b.add_one(&db, &b"refs/heads/dev".to_vec(), &oid(7))
        .expect("negotiation succeeds");
    let wh = b.build(&db).expect("something is wanted");
    assert_eq!(wh.wants.len(), 1);
    assert_eq!(wh.wants[0].bytes(), oid(7).bytes());
    // everything already held: nothing to fetch
    let mut b = radicle_fetch::transport::WantsHavesBuilder::new();
    b.add_one(&db, &b"refs/heads/main".to_vec(), &oid(3))
        .expect("negotiation succeeds");
    assert!(b.build(&db).is_none());
}

#[test]
fn update_error_variants_have_inputs() {
    // a prune whose expected previous ref cannot be resolved
    let mut db = Refdb::new();
    db.add_object(&oid(3), Vec::new());
    db.update(vec![Update::Direct {
        name: b"refs/heads/main".to_vec(),
        target: oid(3),
        no_ff: Policy::Allow,
    }])
    .expect("setup commits");
    let r = db.update(vec![Update::Prune {
        name: b"refs/heads/main".to_vec(),
        prev: PrevValue::Name(b"refs/heads/gone".to_vec()),
    }]);
    assert!(matches!(r, Err(UpdateError::Missing(_))));
    // a symbolic update over an existing direct ref
    let r = db.update(vec![Update::Symbolic {
        name: b"refs/heads/main".to_vec(),
        target: SymrefTarget {
            name: b"refs/heads/dev".to_vec(),
            target: oid(3),
        },
        type_change: Policy::Abort,
    }]);
    assert!(matches!(r, Err(UpdateError::TypeChange(_))));
    // a fast-forward check that walks into a missing parent
    db.add_object(&oid(4), vec![oid(9)]);
    let r = db.update(vec![Update::Direct {
        name: b"refs/heads/main".to_vec(),
        target: oid(4),
        no_ff: Policy::Allow,
    }]);
    assert!(matches!(r, Err(UpdateError::Revwalk(_))));
}

#[test]
fn ancestry_classifies_four_ways() {
    let mut odb = Odb::new();
    odb.insert_object(&oid(1), vec![oid(2)]);
    odb.insert_object(&oid(2), Vec::new());
    odb.insert_object(&oid(9), Vec::new());
    assert_eq!(odb.ancestry(&oid(1), &oid(1)).unwrap(), Ancestry::Equal);
    assert_eq!(odb.ancestry(&oid(2), &oid(1)).unwrap(), Ancestry::Ahead);
    assert_eq!(odb.ancestry(&oid(1), &oid(2)).unwrap(), Ancestry::Behind);
    assert_eq!(odb.ancestry(&oid(9), &oid(1)).unwrap(), Ancestry::Diverged);
    assert_eq!(odb.ancestry(&oid(8), &oid(1)).unwrap(), Ancestry::Diverged);
}

#[test]
fn prefixes_are_sorted_and_deduplicated() {
    let input = vec![
        b"refs/rad/sigrefs".to_vec(),
        b"refs/rad/id".to_vec(),
        b"refs/rad/id".to_vec(),
        b"refs/heads/".to_vec(),
        b"refs/heads".to_vec(),
    ];
    let out = radicle_fetch::transport::sort_prefixes(input);
    assert_eq!(
        out,
        vec![
            b"refs/heads".to_vec(),
            b"refs/heads/".to_vec(),
            b"refs/rad/id".to_vec(),
            b"refs/rad/sigrefs".to_vec(),
        ]
    );
    assert_eq!(
        radicle_fetch::transport::sort_prefixes(Vec::new()),
        Vec::<Vec<u8>>::new()
    );
}

#[test]
fn user_info_formats_the_committer() {
    let info = radicle_fetch::refdb::UserInfo {
        alias: b"alice".to_vec(),
        key: key(1),
    };
    assert_eq!(info.name(), b"alice".to_vec());
    // key(1) is thirty-two 0x01 bytes: the hex text is "01" repeated
    let mut expected = b"alice@".to_vec();
    for _ in 0..32 {
        expected.extend_from_slice(b"01");
    }
    assert_eq!(info.email(), expected);
}

#[test]
fn staging_records_previous_values() {
    let mut mem = InMemory::new();
    // creation records the zero id as the previous value
    let a = mem.update(&vec![Update::Direct {
        name: b"refs/heads/main".to_vec(),
        target: oid(3),
        no_ff: Policy::Allow,
    }]);
    assert_eq!(a.updated.len(), 1);
    match &a.updated[0] {
        Updated::Direct { name, prev, target } => {
            assert_eq!(name, &b"refs/heads/main".to_vec());
            assert_eq!(prev.bytes(), Oid::zero().bytes());
            assert_eq!(target.bytes(), oid(3).bytes());
        }
        other => panic!("expected a direct record, got {:?}", other),
    }
    // overwriting records what was staged before
    let a = mem.update(&vec![Update::Direct {
        name: b"refs/heads/main".to_vec(),
        target: oid(4),
        no_ff: Policy::Allow,
    }]);
    match &a.updated[0] {
        Updated::Direct { prev, .. } => assert_eq!(prev.bytes(), oid(3).bytes()),
        other => panic!("expected a direct record, got {:?}", other),
    }
    // pruning an absent name leaves no record; a present one records the
    // removed value
    let a = mem.update(&vec![
        Update::Prune {
            name: b"refs/heads/gone".to_vec(),
            prev: PrevValue::Oid(oid(9)),
        },
        Update::Prune {
            name: b"refs/heads/main".to_vec(),
            prev: PrevValue::Oid(oid(4)),
        },
    ]);
    assert_eq!(a.updated.len(), 1);
    match &a.updated[0] {
        Updated::Prune { name, prev } => {
            assert_eq!(name, &b"refs/heads/main".to_vec());
            assert_eq!(prev.bytes(), oid(4).bytes());
        }
        other => panic!("expected a prune record, got {:?}", other),
    }
}

#[test]
fn negotiation_reports_current_values_as_held() {
    let mut db = Refdb::new();
    db.add_object(&oid(3), Vec::new());
    db.update(vec![Update::Direct {
        name: b"refs/heads/main".to_vec(),
        target: oid(3),
        no_ff: Policy::Allow,
    }])
    .expect("setup commits");
    let mut b = radicle_fetch::transport::WantsHavesBuilder::new();
    // the current value of the ref is advertised as held even when the
    // received tip is new
    b.add_one(&db, &b"refs/heads/main".to_vec(), &oid(7))
        .expect("negotiation succeeds");
    let wh = b.build(&db).expect("something is wanted");
    assert_eq!(wh.wants.len(), 1);
    assert_eq!(wh.wants[0].bytes(), oid(7).bytes());
    assert_eq!(wh.haves.len(), 1);
    assert_eq!(wh.haves[0].bytes(), oid(3).bytes());
}
