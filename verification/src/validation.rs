//! Validation of a remote's namespace against its signed-refs manifest.
//!
//! After an exchange, the references under `refs/namespaces/<remote>/`
//! must be exactly the signed set together with the two verification refs,
//! and every object id must match the signed one. The checks return
//! warnings rather than aborting; the warning list is empty exactly when
//! the namespace is exact, every warning states a real violation, and
//! every violation is warned about.

use crate::bytes::{bytes_eq, has_prefix, join, starts_with, subvec};
use crate::keys::{key_text, PublicKey};
use crate::oid::Oid;
use crate::refdb::{lookup, scan_post, Refdb, TargetV};
use crate::refname::{
    ns_prefix, ns_prefix_vec, refs_rad_id, refs_rad_id_vec, refs_rad_sigrefs,
    refs_rad_sigrefs_vec, refs_rad_slash, refs_rad_slash_vec, SLASH,
};
use crate::sigrefs::Sigrefs;
use vstd::prelude::*;

verus! {

/// A finding of the validation: all are warnings, none aborts.
#[derive(Debug)]
pub enum Validation {
    /// A reference under the namespace that the manifest does not sign.
    AdditionalRef(Vec<u8>),
    /// A malformed reference under the namespace.
    BadRef(Vec<u8>),
    /// A reference whose object id differs from the signed one.
    MismatchedRef { expected: Oid, actual: Oid, refname: Vec<u8> },
    /// The namespace misses its `rad/id`.
    MissingRadId(PublicKey),
    /// The namespace misses its `rad/sigrefs`.
    MissingRadSigRefs(PublicKey),
    /// A signed reference that the namespace does not hold.
    MissingRef { refname: Vec<u8>, remote: PublicKey },
    /// The namespace holds nothing at all.
    NoData(PublicKey),
}

/// The namespace prefix of a remote: `refs/namespaces/<remote>/`.
pub open spec fn remote_prefix(remote: Seq<u8>) -> Seq<u8> {
    ns_prefix() + key_text(remote) + seq![SLASH]
}

/// No reference under the remote's prefix resolves.
pub open spec fn namespace_empty(m: Map<Seq<u8>, TargetV>, remote: Seq<u8>) -> bool {
    forall|k: Seq<u8>|
        !(m.contains_key(k) && has_prefix(k, remote_prefix(remote)) && (#[trigger] lookup(
            m,
            k,
        )) is Some)
}

/// One reference under the namespace, as validation accepts it: the
/// `rad/id`, the `rad/sigrefs` at the manifest tip `at`, or a reference
/// signed in `srefs` at its signed object id.
pub open spec fn entry_ok(
    m: Map<Seq<u8>, TargetV>,
    remote: Seq<u8>,
    at: Seq<u8>,
    srefs: Map<Seq<u8>, Seq<u8>>,
    k: Seq<u8>,
) -> bool {
    let rest = k.skip(remote_prefix(remote).len() as int);
    ||| rest == refs_rad_id()
    ||| (rest == refs_rad_sigrefs() && lookup(m, k) == Some(at))
    ||| (!has_prefix(rest, refs_rad_slash()) && srefs.contains_key(rest) && lookup(m, k)
        == Some(srefs[rest]))
}

/// The namespace holds the manifest `(at, srefs)` exactly: both
/// verification refs resolve — `rad/sigrefs` to the manifest tip — every
/// signed name resolves, and every resolvable name under the prefix is a
/// verification ref or a signed name at its signed id.
pub open spec fn validated_exact(
    m: Map<Seq<u8>, TargetV>,
    remote: Seq<u8>,
    at: Seq<u8>,
    srefs: Map<Seq<u8>, Seq<u8>>,
) -> bool {
    let pfx = remote_prefix(remote);
    &&& lookup(m, pfx + refs_rad_id()) is Some
    &&& lookup(m, pfx + refs_rad_sigrefs()) == Some(at)
    &&& forall|sn: Seq<u8>| #[trigger] srefs.contains_key(sn) ==> lookup(m, pfx + sn) is Some
    &&& forall|k: Seq<u8>|
        m.contains_key(k) && has_prefix(k, pfx) && (#[trigger] lookup(m, k)) is Some ==> entry_ok(
            m,
            remote,
            at,
            srefs,
            k,
        )
}

/// The condition under which each finding is produced, against the state
/// `m` and the manifest `(at, srefs)` of `remote`.
pub open spec fn finding_expected(
    m: Map<Seq<u8>, TargetV>,
    remote: Seq<u8>,
    at: Seq<u8>,
    srefs: Map<Seq<u8>, Seq<u8>>,
    f: Validation,
) -> bool {
    let pfx = remote_prefix(remote);
    match f {
        Validation::NoData(k) => k@ == remote && namespace_empty(m, remote),
        Validation::MissingRadId(k) => k@ == remote && !namespace_empty(m, remote) && lookup(
            m,
            pfx + refs_rad_id(),
        ) is None,
        Validation::MissingRadSigRefs(k) => k@ == remote && !namespace_empty(m, remote) && lookup(
            m,
            pfx + refs_rad_sigrefs(),
        ) is None,
        Validation::MismatchedRef { expected, actual, refname } => {
            ||| (refname@ == pfx + refs_rad_sigrefs() && expected@ == at && lookup(m, refname@)
                == Some(actual@) && actual@ != at)
            ||| (exists|sn: Seq<u8>|
                #[trigger] srefs.contains_key(sn) && !has_prefix(sn, refs_rad_slash())
                    && refname@ == pfx + sn && expected@ == srefs[sn] && lookup(m, refname@)
                    == Some(actual@) && actual@ != srefs[sn])
        },
        Validation::AdditionalRef(rest) => !has_prefix(rest@, refs_rad_slash())
            && !srefs.contains_key(rest@) && lookup(m, pfx + rest@) is Some,
        Validation::BadRef(name) => has_prefix(name@, pfx) && has_prefix(
            name@.skip(pfx.len() as int),
            refs_rad_slash(),
        ) && name@.skip(pfx.len() as int) != refs_rad_id() && name@.skip(pfx.len() as int)
            != refs_rad_sigrefs() && lookup(m, name@) is Some,
        Validation::MissingRef { refname, remote: rk } => rk@ == remote && srefs.contains_key(
            refname@,
        ) && lookup(m, pfx + refname@) is None,
    }
}

/// A `MismatchedRef` with these fields is among the findings.
pub open spec fn has_mismatch(r: Seq<Validation>, expected: Seq<u8>, name: Seq<u8>) -> bool {
    exists|i: int|
        0 <= i < r.len() && ((#[trigger] r[i]) matches Validation::MismatchedRef {
            expected: e,
            refname: n,
            ..
        } && e@ == expected && n@ == name)
}

/// An `AdditionalRef` of this suffix is among the findings.
pub open spec fn has_additional(r: Seq<Validation>, rest: Seq<u8>) -> bool {
    exists|i: int|
        0 <= i < r.len() && ((#[trigger] r[i]) matches Validation::AdditionalRef(n) && n@ == rest)
}

/// A `BadRef` of this name is among the findings.
pub open spec fn has_bad(r: Seq<Validation>, name: Seq<u8>) -> bool {
    exists|i: int|
        0 <= i < r.len() && ((#[trigger] r[i]) matches Validation::BadRef(n) && n@ == name)
}

/// A `MissingRef` of this signed name is among the findings.
pub open spec fn has_missing_ref(r: Seq<Validation>, name: Seq<u8>, remote: Seq<u8>) -> bool {
    exists|i: int|
        0 <= i < r.len() && ((#[trigger] r[i]) matches Validation::MissingRef {
            refname: n,
            remote: k,
        } && n@ == name && k@ == remote)
}

/// A `NoData` of this remote is among the findings.
pub open spec fn has_nodata(r: Seq<Validation>, remote: Seq<u8>) -> bool {
    exists|i: int|
        0 <= i < r.len() && ((#[trigger] r[i]) matches Validation::NoData(k) && k@ == remote)
}

/// A `MissingRadId` of this remote is among the findings.
pub open spec fn has_missing_rad_id(r: Seq<Validation>, remote: Seq<u8>) -> bool {
    exists|i: int|
        0 <= i < r.len() && ((#[trigger] r[i]) matches Validation::MissingRadId(k) && k@
            == remote)
}

/// A `MissingRadSigRefs` of this remote is among the findings.
pub open spec fn has_missing_rad_sigrefs(r: Seq<Validation>, remote: Seq<u8>) -> bool {
    exists|i: int|
        0 <= i < r.len() && ((#[trigger] r[i]) matches Validation::MissingRadSigRefs(k) && k@
            == remote)
}

/// The finding owed for one scanned name, if it violates the manifest, is
/// among the findings.
pub open spec fn scanned_handled(
    m: Map<Seq<u8>, TargetV>,
    remote: Seq<u8>,
    at: Seq<u8>,
    srefs: Map<Seq<u8>, Seq<u8>>,
    r: Seq<Validation>,
    k: Seq<u8>,
) -> bool {
    let pfx = remote_prefix(remote);
    let rest = k.skip(pfx.len() as int);
    &&& (rest == refs_rad_sigrefs() && lookup(m, k) != Some(at) ==> has_mismatch(r, at, k))
    &&& (rest != refs_rad_id() && rest != refs_rad_sigrefs() && has_prefix(
        rest,
        refs_rad_slash(),
    ) ==> has_bad(r, k))
    &&& (rest != refs_rad_id() && rest != refs_rad_sigrefs() && !has_prefix(
        rest,
        refs_rad_slash(),
    ) && srefs.contains_key(rest) && lookup(m, k) != Some(srefs[rest]) ==> has_mismatch(
        r,
        srefs[rest],
        k,
    ))
    &&& (rest != refs_rad_id() && rest != refs_rad_sigrefs() && !has_prefix(
        rest,
        refs_rad_slash(),
    ) && !srefs.contains_key(rest) ==> has_additional(r, rest))
}

/// Findings survive when the list grows at the end.
proof fn lemma_findings_grow(a: Seq<Validation>, b: Seq<Validation>)
    requires
        a.len() <= b.len(),
        forall|i: int| 0 <= i < a.len() ==> a[i] == b[i],
    ensures
        forall|e: Seq<u8>, n: Seq<u8>| #[trigger] has_mismatch(a, e, n) ==> has_mismatch(b, e, n),
        forall|n: Seq<u8>| #[trigger] has_additional(a, n) ==> has_additional(b, n),
        forall|n: Seq<u8>| #[trigger] has_bad(a, n) ==> has_bad(b, n),
        forall|n: Seq<u8>, k: Seq<u8>| #[trigger]
            has_missing_ref(a, n, k) ==> has_missing_ref(b, n, k),
        forall|k: Seq<u8>| #[trigger] has_nodata(a, k) ==> has_nodata(b, k),
        forall|k: Seq<u8>| #[trigger] has_missing_rad_id(a, k) ==> has_missing_rad_id(b, k),
        forall|k: Seq<u8>| #[trigger]
            has_missing_rad_sigrefs(a, k) ==> has_missing_rad_sigrefs(b, k),
{
    assert forall|e: Seq<u8>, n: Seq<u8>| #[trigger] has_mismatch(a, e, n) implies has_mismatch(
        b,
        e,
        n,
    ) by {
        let i = choose|i: int|
            0 <= i < a.len() && ((#[trigger] a[i]) matches Validation::MismatchedRef {
                expected: e2,
                refname: n2,
                ..
            } && e2@ == e && n2@ == n);
        assert(b[i] == a[i]);
    }
    assert forall|n: Seq<u8>| #[trigger] has_additional(a, n) implies has_additional(b, n) by {
        let i = choose|i: int|
            0 <= i < a.len() && ((#[trigger] a[i]) matches Validation::AdditionalRef(n2) && n2@
                == n);
        assert(b[i] == a[i]);
    }
    assert forall|n: Seq<u8>| #[trigger] has_bad(a, n) implies has_bad(b, n) by {
        let i = choose|i: int|
            0 <= i < a.len() && ((#[trigger] a[i]) matches Validation::BadRef(n2) && n2@ == n);
        assert(b[i] == a[i]);
    }
    assert forall|n: Seq<u8>, k: Seq<u8>| #[trigger] has_missing_ref(a, n, k)
        implies has_missing_ref(b, n, k) by {
        let i = choose|i: int|
            0 <= i < a.len() && ((#[trigger] a[i]) matches Validation::MissingRef {
                refname: n2,
                remote: k2,
            } && n2@ == n && k2@ == k);
        assert(b[i] == a[i]);
    }
    assert forall|k: Seq<u8>| #[trigger] has_nodata(a, k) implies has_nodata(b, k) by {
        let i = choose|i: int|
            0 <= i < a.len() && ((#[trigger] a[i]) matches Validation::NoData(k2) && k2@ == k);
        assert(b[i] == a[i]);
    }
    assert forall|k: Seq<u8>| #[trigger] has_missing_rad_id(a, k) implies has_missing_rad_id(
        b,
        k,
    ) by {
        let i = choose|i: int|
            0 <= i < a.len() && ((#[trigger] a[i]) matches Validation::MissingRadId(k2) && k2@
                == k);
        assert(b[i] == a[i]);
    }
    assert forall|k: Seq<u8>| #[trigger] has_missing_rad_sigrefs(a, k)
        implies has_missing_rad_sigrefs(b, k) by {
        let i = choose|i: int|
            0 <= i < a.len() && ((#[trigger] a[i]) matches Validation::MissingRadSigRefs(k2)
                && k2@ == k);
        assert(b[i] == a[i]);
    }
}

/// Handled names stay handled when the list grows at the end.
proof fn lemma_handled_grow(
    m: Map<Seq<u8>, TargetV>,
    remote: Seq<u8>,
    at: Seq<u8>,
    srefs: Map<Seq<u8>, Seq<u8>>,
    a: Seq<Validation>,
    b: Seq<Validation>,
)
    requires
        a.len() <= b.len(),
        forall|i: int| 0 <= i < a.len() ==> a[i] == b[i],
    ensures
        forall|k: Seq<u8>| #[trigger]
            scanned_handled(m, remote, at, srefs, a, k) ==> scanned_handled(
                m,
                remote,
                at,
                srefs,
                b,
                k,
            ),
{
    lemma_findings_grow(a, b);
}

/// Validate the `remote`'s namespace against its signed manifest.
///
/// The contract pins the outcome: the warnings are empty exactly when the
/// namespace holds the manifest ([`validated_exact`]); every warning
/// states a condition that really holds ([`finding_expected`]); and each
/// violation yields its warning — a mismatched `rad/sigrefs` tip or
/// signed reference a `MismatchedRef`, an unsigned reference an
/// `AdditionalRef`, a stray name under `refs/rad/` a `BadRef`, an
/// unresolvable signed name a `MissingRef`, an empty namespace a
/// `NoData`, and a missing verification ref its `MissingRad*`.
pub fn validate(refdb: &Refdb, remote: &PublicKey, sig: &Sigrefs) -> (r: Vec<Validation>)
    requires
        refdb.wf(),
        remote.wf(),
        sig.wf(),
    ensures
        r@.len() == 0 <==> validated_exact(refdb@, remote@, sig.at@, sig.refs_map()),
        forall|i: int|
            0 <= i < r@.len() ==> finding_expected(
                refdb@,
                remote@,
                sig.at@,
                sig.refs_map(),
                #[trigger] r@[i],
            ),
        namespace_empty(refdb@, remote@) ==> has_nodata(r@, remote@),
        !namespace_empty(refdb@, remote@) && lookup(
            refdb@,
            remote_prefix(remote@) + refs_rad_id(),
        ) is None ==> has_missing_rad_id(r@, remote@),
        !namespace_empty(refdb@, remote@) && lookup(
            refdb@,
            remote_prefix(remote@) + refs_rad_sigrefs(),
        ) is None ==> has_missing_rad_sigrefs(r@, remote@),
        forall|k: Seq<u8>|
            refdb@.contains_key(k) && has_prefix(k, remote_prefix(remote@)) && (#[trigger] lookup(
                refdb@,
                k,
            )) is Some ==> scanned_handled(refdb@, remote@, sig.at@, sig.refs_map(), r@, k),
        forall|sn: Seq<u8>| #[trigger]
            sig.refs_map().contains_key(sn) && lookup(refdb@, remote_prefix(remote@) + sn)
                is None ==> has_missing_ref(r@, sn, remote@),
{
    let ghost m = refdb@;
    let ghost at = sig.at@;
    let ghost srefs = sig.refs_map();
    let ghost exact = validated_exact(refdb@, remote@, sig.at@, sig.refs_map());
    let comp = remote.to_component();
    let p0 = ns_prefix_vec();
    let p1 = join(&p0, &comp);
    let mut slash: Vec<u8> = Vec::new();
    slash.push(SLASH);
    let prefix = join(&p1, &slash);
    proof {
        assert(prefix@ =~= remote_prefix(remote@));
    }
    let radid = refs_rad_id_vec();
    let sigref_name = refs_rad_sigrefs_vec();
    let radslash = refs_rad_slash_vec();
    let scanned = refdb.scan(Some(&prefix));
    let mut failures: Vec<Validation> = Vec::new();
    let mut has_rad_id = false;
    let mut has_rad_sigrefs = false;
    let has_data = scanned.len() > 0;
    let mut i: usize = 0;
    while i < scanned.len()
        invariant
            refdb.wf(),
            remote.wf(),
            sig.wf(),
            m == refdb@,
            at == sig.at@,
            srefs == sig.refs_map(),
            exact == validated_exact(refdb@, remote@, sig.at@, sig.refs_map()),
            prefix@ == remote_prefix(remote@),
            radid@ == refs_rad_id(),
            sigref_name@ == refs_rad_sigrefs(),
            radslash@ == refs_rad_slash(),
            scan_post(m, Some(prefix@), scanned@),
            i <= scanned@.len(),
            has_rad_id ==> lookup(m, prefix@ + refs_rad_id()) is Some,
            !has_rad_id ==> forall|j: int|
                0 <= j < i ==> (#[trigger] scanned@[j]).0@ != prefix@ + refs_rad_id(),
            !has_rad_sigrefs ==> forall|j: int|
                0 <= j < i ==> (#[trigger] scanned@[j]).0@ != prefix@ + refs_rad_sigrefs(),
            has_rad_sigrefs ==> lookup(m, prefix@ + refs_rad_sigrefs()) is Some,
            has_rad_sigrefs && failures@.len() == 0 ==> lookup(m, prefix@ + refs_rad_sigrefs())
                == Some(sig.at@),
            failures@.len() == 0 ==> forall|j: int|
                0 <= j < i ==> entry_ok(m, remote@, at, srefs, (#[trigger] scanned@[j]).0@),
            exact ==> failures@.len() == 0,
            forall|fi: int|
                0 <= fi < failures@.len() ==> finding_expected(
                    m,
                    remote@,
                    at,
                    srefs,
                    #[trigger] failures@[fi],
                ),
            forall|j: int|
                0 <= j < i ==> scanned_handled(
                    m,
                    remote@,
                    at,
                    srefs,
                    failures@,
                    (#[trigger] scanned@[j]).0@,
                ),
        decreases scanned@.len() - i,
    {
        let kname = &scanned[i].0;
        let oid = &scanned[i].1;
        proof {
            assert(m.contains_key(kname@) && has_prefix(kname@, prefix@) && lookup(m, kname@)
                == Some(oid@));
        }
        let rest = subvec(kname, prefix.len(), kname.len());
        proof {
            assert(rest@ == kname@.skip(prefix@.len() as int));
            assert(kname@ =~= prefix@ + rest@);
            if rest@ != refs_rad_id() && kname@ == prefix@ + refs_rad_id() {
                assert((prefix@ + refs_rad_id()).skip(prefix@.len() as int) =~= refs_rad_id());
                assert(false);
            }
            if rest@ != refs_rad_sigrefs() && kname@ == prefix@ + refs_rad_sigrefs() {
                assert((prefix@ + refs_rad_sigrefs()).skip(prefix@.len() as int)
                    =~= refs_rad_sigrefs());
                assert(false);
            }
        }
        let ghost fb = failures@;
        if bytes_eq(&rest, &radid) {
            has_rad_id = true;
            proof {
                assert(kname@ =~= prefix@ + refs_rad_id());
            }
        } else if bytes_eq(&rest, &sigref_name) {
            has_rad_sigrefs = true;
            proof {
                assert(kname@ =~= prefix@ + refs_rad_sigrefs());
            }
            if !bytes_eq(oid.bytes(), sig.at.bytes()) {
                proof {
                    if exact {
                        // the manifest tip would have to match
                        assert(lookup(m, prefix@ + refs_rad_sigrefs()) == Some(sig.at@));
                        assert(false);
                    }
                }
                failures.push(
                    Validation::MismatchedRef {
                        expected: sig.at.clone(),
                        actual: oid.clone(),
                        refname: kname.clone(),
                    },
                );
                proof {
                    assert(has_mismatch(failures@, at, kname@)) by {
                        assert(failures@[failures@.len() - 1] matches Validation::MismatchedRef {
                            expected: e,
                            refname: n,
                            ..
                        } && e@ == at && n@ == kname@);
                    }
                }
            } else {
                proof {
                    assert(lookup(m, prefix@ + refs_rad_sigrefs()) == Some(sig.at@));
                }
            }
        } else if starts_with(&rest, &radslash) {
            // under `refs/rad/` only the two specials belong
            proof {
                if exact {
                    assert(entry_ok(m, remote@, at, srefs, kname@));
                    assert(false);
                }
            }
            failures.push(Validation::BadRef(kname.clone()));
            proof {
                assert(has_bad(failures@, kname@)) by {
                    assert(failures@[failures@.len() - 1] matches Validation::BadRef(n) && n@
                        == kname@);
                }
            }
        } else {
            match sig.refs.get(&rest) {
                Some(tip) => {
                    proof {
                        assert(srefs.contains_key(rest@));
                        assert(srefs[rest@] == tip@);
                    }
                    if !bytes_eq(oid.bytes(), tip.bytes()) {
                        proof {
                            if exact {
                                assert(entry_ok(m, remote@, at, srefs, kname@));
                                assert(false);
                            }
                        }
                        failures.push(
                            Validation::MismatchedRef {
                                expected: tip.clone(),
                                actual: oid.clone(),
                                refname: kname.clone(),
                            },
                        );
                        proof {
                            assert(has_mismatch(failures@, srefs[rest@], kname@)) by {
                                assert(failures@[failures@.len()
                                    - 1] matches Validation::MismatchedRef {
                                    expected: e,
                                    refname: n,
                                    ..
                                } && e@ == srefs[rest@] && n@ == kname@);
                            }
                        }
                    }
                },
                None => {
                    proof {
                        if exact {
                            assert(entry_ok(m, remote@, at, srefs, kname@));
                            assert(false);
                        }
                    }
                    failures.push(Validation::AdditionalRef(rest));
                    proof {
                        assert(has_additional(failures@, kname@.skip(prefix@.len() as int))) by {
                            assert(failures@[failures@.len()
                                - 1] matches Validation::AdditionalRef(n) && n@ == kname@.skip(
                                prefix@.len() as int,
                            ));
                        }
                    }
                },
            }
        }
        proof {
            lemma_findings_grow(fb, failures@);
            lemma_handled_grow(m, remote@, at, srefs, fb, failures@);
            assert(scanned_handled(m, remote@, at, srefs, failures@, scanned@[i as int].0@));
        }
        i = i + 1;
    }
    // every signed name must stand in the namespace
    let n = sig.refs.len();
    let mut s: usize = 0;
    while s < n
        invariant
            refdb.wf(),
            remote.wf(),
            sig.wf(),
            m == refdb@,
            at == sig.at@,
            srefs == sig.refs_map(),
            exact == validated_exact(refdb@, remote@, sig.at@, sig.refs_map()),
            prefix@ == remote_prefix(remote@),
            n == sig.refs.spec_len(),
            s <= n,
            scan_post(m, Some(prefix@), scanned@),
            has_rad_id ==> lookup(m, prefix@ + refs_rad_id()) is Some,
            !has_rad_id ==> forall|j: int|
                0 <= j < scanned@.len() ==> (#[trigger] scanned@[j]).0@ != prefix@
                    + refs_rad_id(),
            !has_rad_sigrefs ==> forall|j: int|
                0 <= j < scanned@.len() ==> (#[trigger] scanned@[j]).0@ != prefix@
                    + refs_rad_sigrefs(),
            has_rad_sigrefs ==> lookup(m, prefix@ + refs_rad_sigrefs()) is Some,
            has_rad_sigrefs && failures@.len() == 0 ==> lookup(m, prefix@ + refs_rad_sigrefs())
                == Some(sig.at@),
            failures@.len() == 0 ==> forall|j: int|
                0 <= j < scanned@.len() ==> entry_ok(
                    m,
                    remote@,
                    at,
                    srefs,
                    (#[trigger] scanned@[j]).0@,
                ),
            failures@.len() == 0 ==> forall|j: int|
                0 <= j < s ==> lookup(m, prefix@ + (#[trigger] sig.refs.key_seq()[j])) is Some,
            exact ==> failures@.len() == 0,
            forall|fi: int|
                0 <= fi < failures@.len() ==> finding_expected(
                    m,
                    remote@,
                    at,
                    srefs,
                    #[trigger] failures@[fi],
                ),
            forall|j: int|
                0 <= j < scanned@.len() ==> scanned_handled(
                    m,
                    remote@,
                    at,
                    srefs,
                    failures@,
                    (#[trigger] scanned@[j]).0@,
                ),
            forall|j: int|
                0 <= j < s && lookup(m, prefix@ + (#[trigger] sig.refs.key_seq()[j])) is None
                    ==> has_missing_ref(failures@, sig.refs.key_seq()[j], remote@),
        decreases n - s,
    {
        let (sn, _) = sig.refs.entry_at(s);
        let full = join(&prefix, sn);
        proof {
            assert(full@ =~= prefix@ + sig.refs.key_seq()[s as int]);
        }
        let ghost fb = failures@;
        match refdb.refname_to_id(&full) {
            Some(_) => {},
            None => {
                proof {
                    if exact {
                        sig.refs.lemma_entry(s as int);
                        sig.refs.lemma_dom(sig.refs.key_seq()[s as int]);
                        assert(srefs.contains_key(sig.refs.key_seq()[s as int]));
                        assert(lookup(m, prefix@ + sig.refs.key_seq()[s as int]) is Some);
                        assert(false);
                    }
                    sig.refs.lemma_dom(sig.refs.key_seq()[s as int]);
                    assert(srefs.contains_key(sig.refs.key_seq()[s as int]));
                }
                failures.push(
                    Validation::MissingRef { refname: sn.clone(), remote: remote.clone() },
                );
                proof {
                    assert(has_missing_ref(failures@, sig.refs.key_seq()[s as int], remote@)) by {
                        assert(failures@[failures@.len() - 1] matches Validation::MissingRef {
                            refname: n2,
                            remote: k2,
                        } && n2@ == sig.refs.key_seq()[s as int] && k2@ == remote@);
                    }
                }
            },
        }
        proof {
            lemma_findings_grow(fb, failures@);
            lemma_handled_grow(m, remote@, at, srefs, fb, failures@);
        }
        s = s + 1;
    }
    proof {
        if exact {
            // the resolvable rad/id must have been scanned
            assert(has_prefix(prefix@ + refs_rad_id(), prefix@)) by {
                assert((prefix@ + refs_rad_id()).subrange(0, prefix@.len() as int) =~= prefix@);
            }
            assert(lookup(m, prefix@ + refs_rad_id()) is Some);
            assert(m.contains_key(prefix@ + refs_rad_id()));
            let j = choose|j: int|
                0 <= j < scanned@.len() && scanned@[j].0@ == prefix@ + refs_rad_id();
            assert(scanned@.len() > 0);
            assert(has_rad_id);
            assert(has_prefix(prefix@ + refs_rad_sigrefs(), prefix@)) by {
                assert((prefix@ + refs_rad_sigrefs()).subrange(0, prefix@.len() as int)
                    =~= prefix@);
            }
            assert(lookup(m, prefix@ + refs_rad_sigrefs()) is Some);
            assert(m.contains_key(prefix@ + refs_rad_sigrefs()));
            let j2 = choose|j2: int|
                0 <= j2 < scanned@.len() && scanned@[j2].0@ == prefix@ + refs_rad_sigrefs();
            assert(has_rad_sigrefs);
        }
        // the scan decides whether the namespace is empty
        if has_data {
            assert(!namespace_empty(m, remote@)) by {
                assert(m.contains_key(scanned@[0].0@) && has_prefix(scanned@[0].0@, prefix@)
                    && lookup(m, scanned@[0].0@) is Some);
            }
        } else {
            assert(namespace_empty(m, remote@)) by {
                assert forall|k: Seq<u8>|
                    !(m.contains_key(k) && has_prefix(k, remote_prefix(remote@)) && (
                    #[trigger] lookup(m, k)) is Some) by {
                    if m.contains_key(k) && has_prefix(k, remote_prefix(remote@)) && lookup(
                        m,
                        k,
                    ) is Some {
                        let j = choose|j: int| 0 <= j < scanned@.len() && scanned@[j].0@ == k;
                        assert(false);
                    }
                }
            }
        }
    }
    let ghost fb2 = failures@;
    if !has_data {
        failures.push(Validation::NoData(remote.clone()));
        proof {
            assert(has_nodata(failures@, remote@)) by {
                assert(failures@[failures@.len() - 1] matches Validation::NoData(k) && k@
                    == remote@);
            }
            assert forall|fi: int| 0 <= fi < failures@.len() implies finding_expected(
                m,
                remote@,
                at,
                srefs,
                #[trigger] failures@[fi],
            ) by {
                if fi < fb2.len() {
                    assert(failures@[fi] == fb2[fi]);
                } else {
                    assert(failures@[fi] matches Validation::NoData(k) && k@ == remote@);
                }
            }
        }
    } else {
        if !has_rad_id {
            proof {
                // an unscanned rad/id cannot resolve
                if lookup(m, prefix@ + refs_rad_id()) is Some {
                    assert(m.contains_key(prefix@ + refs_rad_id()));
                    assert(has_prefix(prefix@ + refs_rad_id(), prefix@)) by {
                        assert((prefix@ + refs_rad_id()).subrange(0, prefix@.len() as int)
                            =~= prefix@);
                    }
                    let j = choose|j: int|
                        0 <= j < scanned@.len() && scanned@[j].0@ == prefix@ + refs_rad_id();
                    assert(false);
                }
            }
            failures.push(Validation::MissingRadId(remote.clone()));
            proof {
                assert(has_missing_rad_id(failures@, remote@)) by {
                    assert(failures@[failures@.len() - 1] matches Validation::MissingRadId(k)
                        && k@ == remote@);
                }
                assert forall|fi: int| 0 <= fi < failures@.len() implies finding_expected(
                    m,
                    remote@,
                    at,
                    srefs,
                    #[trigger] failures@[fi],
                ) by {
                    if fi < fb2.len() {
                        assert(failures@[fi] == fb2[fi]);
                    } else {
                        assert(failures@[fi] matches Validation::MissingRadId(k) && k@
                            == remote@);
                    }
                }
            }
        }
        let ghost fb3 = failures@;
        if !has_rad_sigrefs {
            proof {
                if lookup(m, prefix@ + refs_rad_sigrefs()) is Some {
                    assert(m.contains_key(prefix@ + refs_rad_sigrefs()));
                    assert(has_prefix(prefix@ + refs_rad_sigrefs(), prefix@)) by {
                        assert((prefix@ + refs_rad_sigrefs()).subrange(0, prefix@.len() as int)
                            =~= prefix@);
                    }
                    let j = choose|j: int|
                        0 <= j < scanned@.len() && scanned@[j].0@ == prefix@
                            + refs_rad_sigrefs();
                    assert(false);
                }
            }
            failures.push(Validation::MissingRadSigRefs(remote.clone()));
            proof {
                assert(has_missing_rad_sigrefs(failures@, remote@)) by {
                    assert(failures@[failures@.len()
                        - 1] matches Validation::MissingRadSigRefs(k) && k@ == remote@);
                }
                assert forall|fi: int| 0 <= fi < failures@.len() implies finding_expected(
                    m,
                    remote@,
                    at,
                    srefs,
                    #[trigger] failures@[fi],
                ) by {
                    if fi < fb3.len() {
                        assert(failures@[fi] == fb3[fi]);
                    } else {
                        assert(failures@[fi] matches Validation::MissingRadSigRefs(k) && k@
                            == remote@);
                    }
                }
            }
        }
        proof {
            lemma_findings_grow(fb3, failures@);
            lemma_handled_grow(m, remote@, at, srefs, fb3, failures@);
        }
    }
    proof {
        lemma_findings_grow(fb2, failures@);
        lemma_handled_grow(m, remote@, at, srefs, fb2, failures@);
        // the final iff, the soundness of every finding, and the
        // per-violation completeness
        if failures@.len() == 0 {
            assert(lookup(m, prefix@ + refs_rad_id()) is Some);
            assert(lookup(m, prefix@ + refs_rad_sigrefs()) == Some(sig.at@));
            assert forall|sn: Seq<u8>| #[trigger]
                srefs.contains_key(sn) implies lookup(m, remote_prefix(remote@) + sn) is Some by {
                sig.refs.lemma_dom(sn);
                let j = choose|j: int|
                    0 <= j < sig.refs.key_seq().len() && sig.refs.key_seq()[j] == sn;
            }
            assert forall|k: Seq<u8>|
                m.contains_key(k) && has_prefix(k, remote_prefix(remote@)) && (#[trigger] lookup(
                    m,
                    k,
                )) is Some implies entry_ok(m, remote@, at, srefs, k) by {
                let j = choose|j: int| 0 <= j < scanned@.len() && scanned@[j].0@ == k;
            }
        }
        assert forall|k: Seq<u8>|
            m.contains_key(k) && has_prefix(k, remote_prefix(remote@)) && (#[trigger] lookup(
                m,
                k,
            )) is Some implies scanned_handled(m, remote@, at, srefs, failures@, k) by {
            let j = choose|j: int| 0 <= j < scanned@.len() && scanned@[j].0@ == k;
        }
        assert forall|sn: Seq<u8>| #[trigger]
            srefs.contains_key(sn) && lookup(m, remote_prefix(remote@) + sn) is None
            implies has_missing_ref(failures@, sn, remote@) by {
            sig.refs.lemma_dom(sn);
            let j = choose|j: int|
                0 <= j < sig.refs.key_seq().len() && sig.refs.key_seq()[j] == sn;
        }
    }
    failures
}

} // verus!
