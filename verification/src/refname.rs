//! The reference-name grammar.
//!
//! Names are byte strings. A *refname* is a nonempty sequence of nonempty
//! `/`-separated components; a *qualified* name has at least three components
//! and begins with `refs/`. A *namespaced* name is
//! `refs/namespaces/<key>/<suffix>` where `<key>` is a public key in its
//! reference-component text and `<suffix>` is qualified. Under a namespace,
//! `refs/rad/id` and `refs/rad/sigrefs` are the two special verification
//! refs; any other name under `refs/rad/` is malformed, and everything else
//! is a generic payload ref.

use crate::bytes::{bytes_eq, has_prefix, join, starts_with};
use crate::keys::{key_text, PublicKey, KEY_SIZE};
use vstd::prelude::*;

verus! {

/// The byte `/`.
pub const SLASH: u8 = 47;

/// `refs/`
pub open spec fn refs_slash() -> Seq<u8> {
    seq![114u8, 101u8, 102u8, 115u8, 47u8]
}

/// `refs/namespaces/`
pub open spec fn ns_prefix() -> Seq<u8> {
    seq![114u8, 101u8, 102u8, 115u8, 47u8, 110u8, 97u8, 109u8, 101u8, 115u8, 112u8, 97u8, 99u8, 101u8, 115u8, 47u8]
}

/// `refs/rad/id`
pub open spec fn refs_rad_id() -> Seq<u8> {
    seq![114u8, 101u8, 102u8, 115u8, 47u8, 114u8, 97u8, 100u8, 47u8, 105u8, 100u8]
}

/// `refs/rad/sigrefs`
pub open spec fn refs_rad_sigrefs() -> Seq<u8> {
    seq![114u8, 101u8, 102u8, 115u8, 47u8, 114u8, 97u8, 100u8, 47u8, 115u8, 105u8, 103u8, 114u8, 101u8, 102u8, 115u8]
}

/// `refs/rad/`
pub open spec fn refs_rad_slash() -> Seq<u8> {
    seq![114u8, 101u8, 102u8, 115u8, 47u8, 114u8, 97u8, 100u8, 47u8]
}

/// `refs/`, as bytes.
pub fn refs_slash_vec() -> (r: Vec<u8>)
    ensures
        r@ == refs_slash(),
{
    let v: Vec<u8> = vec![114u8, 101u8, 102u8, 115u8, 47u8];
    proof {
        assert(v@ =~= refs_slash());
    }
    v
}

/// `refs/namespaces/`, as bytes.
pub fn ns_prefix_vec() -> (r: Vec<u8>)
    ensures
        r@ == ns_prefix(),
{
    let v: Vec<u8> = vec![114u8, 101u8, 102u8, 115u8, 47u8, 110u8, 97u8, 109u8, 101u8, 115u8, 112u8, 97u8, 99u8, 101u8, 115u8, 47u8];
    proof {
        assert(v@ =~= ns_prefix());
    }
    v
}

/// `refs/rad/id`, as bytes.
pub fn refs_rad_id_vec() -> (r: Vec<u8>)
    ensures
        r@ == refs_rad_id(),
{
    let v: Vec<u8> = vec![114u8, 101u8, 102u8, 115u8, 47u8, 114u8, 97u8, 100u8, 47u8, 105u8, 100u8];
    proof {
        assert(v@ =~= refs_rad_id());
    }
    v
}

/// `refs/rad/sigrefs`, as bytes.
pub fn refs_rad_sigrefs_vec() -> (r: Vec<u8>)
    ensures
        r@ == refs_rad_sigrefs(),
{
    let v: Vec<u8> = vec![114u8, 101u8, 102u8, 115u8, 47u8, 114u8, 97u8, 100u8, 47u8, 115u8, 105u8, 103u8, 114u8, 101u8, 102u8, 115u8];
    proof {
        assert(v@ =~= refs_rad_sigrefs());
    }
    v
}

/// `refs/rad/`, as bytes.
pub fn refs_rad_slash_vec() -> (r: Vec<u8>)
    ensures
        r@ == refs_rad_slash(),
{
    let v: Vec<u8> = vec![114u8, 101u8, 102u8, 115u8, 47u8, 114u8, 97u8, 100u8, 47u8];
    proof {
        assert(v@ =~= refs_rad_slash());
    }
    v
}

/// A single refname component: nonempty, and free of `/`.
pub open spec fn is_component(c: Seq<u8>) -> bool {
    c.len() > 0 && forall|i: int| 0 <= i < c.len() ==> c[i] != SLASH
}

/// Number of `/` bytes among the first `i` bytes of `n`.
pub open spec fn slashes_upto(n: Seq<u8>, i: int) -> nat
    decreases i,
{
    if i <= 0 {
        0
    } else {
        slashes_upto(n, i - 1) + if n[i - 1] == SLASH {
            1nat
        } else {
            0nat
        }
    }
}

/// Number of `/` bytes in `n`.
pub open spec fn slash_count(n: Seq<u8>) -> nat {
    slashes_upto(n, n.len() as int)
}

/// A well-shaped refname: nonempty components separated by single slashes.
pub open spec fn is_refname_shape(n: Seq<u8>) -> bool {
    &&& n.len() > 0
    &&& n[0] != SLASH
    &&& n[n.len() - 1] != SLASH
    &&& forall|i: int| 0 <= i < n.len() - 1 ==> !(n[i] == SLASH && #[trigger] n[i + 1] == SLASH)
}

/// A qualified refname: well-shaped, starting with `refs/`, and of at
/// least three components (two or more slashes).
pub open spec fn is_qualified(n: Seq<u8>) -> bool {
    is_refname_shape(n) && has_prefix(n, refs_slash()) && slash_count(n) >= 2
}

/// Check a name for the qualified shape.
pub fn check_qualified(n: &Vec<u8>) -> (r: bool)
    ensures
        r == is_qualified(n@),
{
    if n.len() == 0 {
        return false;
    }
    if n[0] == SLASH || n[n.len() - 1] == SLASH {
        return false;
    }
    let refs = refs_slash_vec();
    if !starts_with(n, &refs) {
        return false;
    }
    let mut slashes: usize = 0;
    let mut i: usize = 0;
    while i < n.len()
        invariant
            i <= n@.len(),
            n@.len() <= usize::MAX,
            slashes <= i,
            slashes == slashes_upto(n@, i as int),
            n@.len() > 0,
            n@[0] != SLASH,
            n@[n@.len() - 1] != SLASH,
            has_prefix(n@, refs_slash()),
            forall|j: int|
                0 <= j < i && j + 1 < n@.len() ==> !(n@[j] == SLASH && #[trigger] n@[j + 1]
                    == SLASH),
        decreases n@.len() - i,
    {
        if n[i] == SLASH {
            if i + 1 < n.len() && n[i + 1] == SLASH {
                proof {
                    assert(n@[i as int] == SLASH && n@[i as int + 1] == SLASH);
                }
                return false;
            }
            slashes = slashes + 1;
        }
        i = i + 1;
    }
    proof {
        assert(is_refname_shape(n@));
    }
    slashes >= 2
}

/// Position of the first `/` at or after `i`, or the length if none.
pub open spec fn first_slash_from(n: Seq<u8>, i: int) -> int
    decreases n.len() - i,
{
    if i < 0 || i >= n.len() {
        n.len() as int
    } else if n[i] == SLASH {
        i
    } else {
        first_slash_from(n, i + 1)
    }
}

/// What `first_slash_from` returns: the least slash position at or after `p`.
pub proof fn lemma_first_slash(n: Seq<u8>, p: int, i: int)
    requires
        0 <= p <= i <= n.len(),
        forall|j: int| p <= j < i ==> n[j] != SLASH,
        i == n.len() || n[i] == SLASH,
    ensures
        first_slash_from(n, p) == i,
    decreases i - p,
{
    if p < i {
        lemma_first_slash(n, p + 1, i);
    }
}

/// A name of the shape `refs/namespaces/<component>/<rest>`.
pub open spec fn has_ns_shape(n: Seq<u8>) -> bool {
    let p = ns_prefix().len() as int;
    let fs = first_slash_from(n, p);
    has_prefix(n, ns_prefix()) && p < fs < n.len()
}

/// The namespace component of a namespaced name.
pub open spec fn ns_component(n: Seq<u8>) -> Seq<u8> {
    let p = ns_prefix().len() as int;
    n.subrange(p, first_slash_from(n, p))
}

/// What follows the namespace component of a namespaced name.
pub open spec fn ns_rest(n: Seq<u8>) -> Seq<u8> {
    let p = ns_prefix().len() as int;
    n.subrange(first_slash_from(n, p) + 1, n.len() as int)
}

/// Composing `refs/namespaces/<comp>/<rest>` and splitting it again gives
/// the parts back.
pub proof fn lemma_ns_split(n: Seq<u8>, comp: Seq<u8>, rest: Seq<u8>)
    requires
        is_component(comp),
        n == ns_prefix() + comp + seq![SLASH] + rest,
    ensures
        has_ns_shape(n),
        ns_component(n) == comp,
        ns_rest(n) == rest,
{
    let p = ns_prefix().len() as int;
    let fs = p + comp.len() as int;
    assert(n.len() == p + comp.len() + 1 + rest.len());
    assert(n.subrange(0, p) =~= ns_prefix());
    assert(has_prefix(n, ns_prefix()));
    assert forall|j: int| p <= j < fs implies n[j] != SLASH by {
        assert(n[j] == comp[j - p]);
    }
    assert(n[fs] == SLASH);
    lemma_first_slash(n, p, fs);
    assert(ns_component(n) =~= comp);
    assert(ns_rest(n) =~= rest);
}

/// A namespaced name is its prefix, component, a slash, and the rest.
pub proof fn lemma_ns_join(n: Seq<u8>)
    requires
        has_ns_shape(n),
    ensures
        n == ns_prefix() + ns_component(n) + seq![SLASH] + ns_rest(n),
        is_component(ns_component(n)),
{
    let p = ns_prefix().len() as int;
    let fs = first_slash_from(n, p);
    lemma_first_slash_bounds(n, p);
    assert(n =~= ns_prefix() + ns_component(n) + seq![SLASH] + ns_rest(n));
}

/// Bounds and meaning of the first-slash position.
pub proof fn lemma_first_slash_bounds(n: Seq<u8>, p: int)
    requires
        0 <= p <= n.len(),
    ensures
        p <= first_slash_from(n, p) <= n.len(),
        forall|j: int| p <= j < first_slash_from(n, p) ==> n[j] != SLASH,
        first_slash_from(n, p) < n.len() ==> n[first_slash_from(n, p)] == SLASH,
    decreases n.len() - p,
{
    if p < n.len() && n[p] != SLASH {
        lemma_first_slash_bounds(n, p + 1);
    }
}

/// The two special verification refs that live under `refs/rad/` in each
/// remote namespace.
#[derive(Clone, Copy, Debug, PartialEq, Eq, Structural)]
pub enum Special {
    /// `rad/id`: the remote's identity tip.
    Id,
    /// `rad/sigrefs`: the remote's signed-refs manifest tip.
    SignedRefs,
}

impl Special {
    /// The qualified name of the special ref.
    pub open spec fn spec_name(&self) -> Seq<u8> {
        match self {
            Special::Id => refs_rad_id(),
            Special::SignedRefs => refs_rad_sigrefs(),
        }
    }

    /// The qualified name of the special ref, as bytes.
    pub fn name(&self) -> (r: Vec<u8>)
        ensures
            r@ == self.spec_name(),
    {
        match self {
            Special::Id => refs_rad_id_vec(),
            Special::SignedRefs => refs_rad_sigrefs_vec(),
        }
    }
}

/// The suffix of a remote-tracking ref under its namespace: one of the two
/// specials, or a generic qualified name.
#[derive(Debug)]
pub enum Suffix {
    Special(Special),
    Generic(Vec<u8>),
}

impl Clone for Suffix {
    fn clone(&self) -> (r: Self)
        ensures
            r.spec_name() == self.spec_name(),
            r.wf() == self.wf(),
            r is Special == self is Special,
    {
        match self {
            Suffix::Special(s) => Suffix::Special(*s),
            Suffix::Generic(q) => {
                let q2 = q.clone();
                proof {
                    assert(q2@ =~= q@);
                }
                Suffix::Generic(q2)
            },
        }
    }
}

impl Suffix {
    /// The qualified name the suffix stands for.
    pub open spec fn spec_name(&self) -> Seq<u8> {
        match self {
            Suffix::Special(s) => s.spec_name(),
            Suffix::Generic(q) => q@,
        }
    }

    /// Generic suffixes are qualified and never under `refs/rad/`.
    pub open spec fn wf(&self) -> bool {
        match self {
            Suffix::Special(_) => true,
            Suffix::Generic(q) => is_qualified(q@) && !has_prefix(q@, refs_rad_slash()),
        }
    }

    /// The qualified name the suffix stands for, as bytes.
    pub fn name(&self) -> (r: Vec<u8>)
        ensures
            r@ == self.spec_name(),
    {
        match self {
            Suffix::Special(s) => s.name(),
            Suffix::Generic(q) => {
                let r = q.clone();
                proof {
                    assert(r@ =~= q@);
                }
                r
            },
        }
    }
}

/// A reference of a remote peer: its public key together with the suffix
/// under its namespace.
#[derive(Debug)]
pub struct RemoteRef {
    pub remote: PublicKey,
    pub suffix: Suffix,
}

impl Clone for RemoteRef {
    fn clone(&self) -> (r: Self)
        ensures
            r.remote@ == self.remote@,
            r.suffix.spec_name() == self.suffix.spec_name(),
            r.wf() == self.wf(),
            r.suffix is Special == self.suffix is Special,
    {
        RemoteRef { remote: self.remote.clone(), suffix: self.suffix.clone() }
    }
}

impl RemoteRef {
    pub open spec fn wf(&self) -> bool {
        self.remote.wf() && self.suffix.wf()
    }

    /// The full name of this ref: `refs/namespaces/<remote>/<suffix>`.
    pub open spec fn spec_namespaced(&self) -> Seq<u8> {
        ns_prefix() + key_text(self.remote@) + seq![SLASH] + self.suffix.spec_name()
    }

    /// The remote's `rad/id` ref.
    pub fn rad_id(remote: PublicKey) -> (r: RemoteRef)
        ensures
            r.remote@ == remote@,
            r.suffix == Suffix::Special(Special::Id),
    {
        RemoteRef { remote, suffix: Suffix::Special(Special::Id) }
    }

    /// The remote's `rad/sigrefs` ref.
    pub fn rad_sigrefs(remote: PublicKey) -> (r: RemoteRef)
        ensures
            r.remote@ == remote@,
            r.suffix == Suffix::Special(Special::SignedRefs),
    {
        RemoteRef { remote, suffix: Suffix::Special(Special::SignedRefs) }
    }

    /// The suffix as a qualified name of its own.
    pub fn to_qualified(&self) -> (r: Vec<u8>)
        ensures
            r@ == self.suffix.spec_name(),
    {
        self.suffix.name()
    }

    /// The full name of this ref, as bytes.
    pub fn namespaced(&self) -> (r: Vec<u8>)
        requires
            self.remote.wf(),
        ensures
            r@ == self.spec_namespaced(),
            has_ns_shape(r@),
            ns_component(r@) == key_text(self.remote@),
            ns_rest(r@) == self.suffix.spec_name(),
    {
        let comp = self.remote.to_component();
        let mut r = ns_prefix_vec();
        let ghost before = r@;
        r.extend_from_slice(comp.as_slice());
        proof {
            assert(r@ =~= ns_prefix() + comp@);
        }
        r.push(SLASH);
        let sfx = self.suffix.name();
        let ghost with_slash = r@;
        r.extend_from_slice(sfx.as_slice());
        proof {
            assert(r@ =~= with_slash + sfx@);
            assert(r@ =~= ns_prefix() + comp@ + seq![SLASH] + sfx@);
            lemma_ns_split(r@, comp@, sfx@);
        }
        r
    }
}

/// A parsed received reference name: the canonical `refs/rad/id`, or a ref
/// under a remote namespace.
#[derive(Debug)]
pub enum Refname {
    RadId,
    Namespaced(RemoteRef),
}

impl Clone for Refname {
    fn clone(&self) -> (r: Self)
        ensures
            r is RadId == self is RadId,
            r matches Refname::Namespaced(rr) ==> self matches Refname::Namespaced(s) && rr.remote@
                == s.remote@ && rr.suffix.spec_name() == s.suffix.spec_name() && rr.wf() == s.wf()
                && (rr.suffix is Special == s.suffix is Special),
    {
        match self {
            Refname::RadId => Refname::RadId,
            Refname::Namespaced(rr) => Refname::Namespaced(rr.clone()),
        }
    }
}

impl Refname {
    pub open spec fn wf(&self) -> bool {
        match self {
            Refname::RadId => true,
            Refname::Namespaced(rr) => rr.wf(),
        }
    }

    /// The full received name.
    pub open spec fn spec_name(&self) -> Seq<u8> {
        match self {
            Refname::RadId => refs_rad_id(),
            Refname::Namespaced(rr) => rr.spec_namespaced(),
        }
    }

    /// The full received name, as bytes.
    pub fn name(&self) -> (r: Vec<u8>)
        requires
            self.wf(),
        ensures
            r@ == self.spec_name(),
    {
        match self {
            Refname::RadId => refs_rad_id_vec(),
            Refname::Namespaced(rr) => rr.namespaced(),
        }
    }
}

/// Why a received reference name is rejected.
#[derive(Clone, Copy, Debug, PartialEq, Eq, Structural)]
pub enum RefnameError {
    /// Not the canonical `refs/rad/id`, and not under `refs/namespaces/`.
    NotNamespaced,
    /// The namespace component is no public key.
    PublicKey,
    /// A name under `refs/rad/` other than `rad/id` and `rad/sigrefs`.
    MalformedSuffix,
    /// The name under the namespace is not qualified.
    NotQualified,
}

/// Parse a received reference name.
///
/// The contract pins the outcome for every input: the canonical name parses
/// to [`Refname::RadId`]; a well-shaped namespaced name whose component is a
/// key's text parses to that key and its classified suffix; and each error
/// comes exactly when its shape fails.
pub fn parse_refname(n: &Vec<u8>) -> (r: Result<Refname, RefnameError>)
    ensures
        match r {
            Ok(name) => name.wf() && match name {
                Refname::RadId => n@ == refs_rad_id(),
                Refname::Namespaced(rr) => {
                    &&& n@ != refs_rad_id()
                    &&& has_ns_shape(n@)
                    &&& rr.suffix.spec_name() == ns_rest(n@)
                    &&& (rr.suffix is Special <==> (ns_rest(n@) == refs_rad_id() || ns_rest(n@)
                        == refs_rad_sigrefs()))
                    &&& forall|b: Seq<u8>|
                        b.len() == KEY_SIZE && key_text(b) == ns_component(n@) ==> rr.remote@ == b
                },
            },
            Err(e) => {
                &&& n@ != refs_rad_id()
                &&& match e {
                    RefnameError::NotNamespaced => !has_ns_shape(n@),
                    RefnameError::PublicKey => has_ns_shape(n@) && forall|b: Seq<u8>|
                        b.len() == KEY_SIZE ==> key_text(b) != ns_component(n@),
                    RefnameError::MalformedSuffix => has_ns_shape(n@) && has_prefix(
                        ns_rest(n@),
                        refs_rad_slash(),
                    ) && ns_rest(n@) != refs_rad_id() && ns_rest(n@) != refs_rad_sigrefs(),
                    RefnameError::NotQualified => has_ns_shape(n@) && !is_qualified(ns_rest(n@))
                        && !has_prefix(ns_rest(n@), refs_rad_slash()),
                }
            },
        },
{
    let radid = refs_rad_id_vec();
    if bytes_eq(n, &radid) {
        return Ok(Refname::RadId);
    }
    let nsp = ns_prefix_vec();
    if !starts_with(n, &nsp) {
        return Err(RefnameError::NotNamespaced);
    }
    let p: usize = nsp.len();
    let nlen: usize = n.len();
    let mut i: usize = p;
    while i < nlen && n[i] != SLASH
        invariant
            p == ns_prefix().len(),
            nlen == n@.len(),
            p <= i <= n@.len(),
            forall|j: int| p <= j < i ==> n@[j] != SLASH,
        decreases n@.len() - i,
    {
        i = i + 1;
    }
    proof {
        lemma_first_slash(n@, p as int, i as int);
    }
    if i >= n.len() || i == p {
        return Err(RefnameError::NotNamespaced);
    }
    let comp = crate::bytes::subvec(n, p, i);
    let rest = crate::bytes::subvec(n, i + 1, n.len());
    proof {
        assert(comp@ == ns_component(n@));
        assert(rest@ == ns_rest(n@));
    }
    let pk = match PublicKey::parse_component(&comp) {
        Some(pk) => pk,
        None => {
            return Err(RefnameError::PublicKey);
        },
    };
    if bytes_eq(&rest, &radid) {
        return Ok(Refname::Namespaced(RemoteRef { remote: pk, suffix: Suffix::Special(Special::Id) }));
    }
    let sigrefs = refs_rad_sigrefs_vec();
    if bytes_eq(&rest, &sigrefs) {
        return Ok(
            Refname::Namespaced(
                RemoteRef { remote: pk, suffix: Suffix::Special(Special::SignedRefs) },
            ),
        );
    }
    let radslash = refs_rad_slash_vec();
    if starts_with(&rest, &radslash) {
        return Err(RefnameError::MalformedSuffix);
    }
    if check_qualified(&rest) {
        Ok(Refname::Namespaced(RemoteRef { remote: pk, suffix: Suffix::Generic(rest) }))
    } else {
        Err(RefnameError::NotQualified)
    }
}


/// Classify a qualified name as a suffix under a namespace: the two
/// special names, or a generic qualified name outside `refs/rad/`.
pub fn parse_qualified_suffix(n: &Vec<u8>) -> (r: Option<Suffix>)
    ensures
        match r {
            Some(s) => s.wf() && s.spec_name() == n@,
            None => !(n@ == refs_rad_id()) && !(n@ == refs_rad_sigrefs()) && !(is_qualified(n@)
                && !has_prefix(n@, refs_rad_slash())),
        },
{
    let radid = refs_rad_id_vec();
    if bytes_eq(n, &radid) {
        return Some(Suffix::Special(Special::Id));
    }
    let sigrefs = refs_rad_sigrefs_vec();
    if bytes_eq(n, &sigrefs) {
        return Some(Suffix::Special(Special::SignedRefs));
    }
    let radslash = refs_rad_slash_vec();
    if !starts_with(n, &radslash) && check_qualified(n) {
        let q = n.clone();
        proof {
            assert(q@ =~= n@);
        }
        Some(Suffix::Generic(q))
    } else {
        None
    }
}

} // verus!
