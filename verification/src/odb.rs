//! The object database, seen as a commit graph.
//!
//! The engine reads the object store only to ask whether an object is
//! present and whether one commit is an ancestor of another. Both are
//! answered from the parent edges, which this model holds as plain data:
//! each object id maps to the list of its parent ids.

use crate::bytemap::ByteMap;
use crate::bytes::bytes_eq;
use crate::oid::Oid;
use vstd::prelude::*;

verus! {

/// `b` is a parent of `a` in the graph `m`.
pub open spec fn is_parent_of(m: Map<Seq<u8>, Vec<Oid>>, a: Seq<u8>, b: Seq<u8>) -> bool {
    m.contains_key(a) && exists|i: int| 0 <= i < m[a]@.len() && m[a]@[i]@ == b
}

/// Consecutive entries of `p` are parent edges of `m`.
pub open spec fn is_chain(m: Map<Seq<u8>, Vec<Oid>>, p: Seq<Seq<u8>>) -> bool {
    forall|i: int| 0 <= i < p.len() - 1 ==> #[trigger] is_parent_of(m, p[i], p[i + 1])
}

/// `p` is a chain leading from `from` to `to`.
pub open spec fn chain_from_to(
    m: Map<Seq<u8>, Vec<Oid>>,
    p: Seq<Seq<u8>>,
    from: Seq<u8>,
    to: Seq<u8>,
) -> bool {
    p.len() >= 1 && p[0] == from && p[p.len() - 1] == to && is_chain(m, p)
}

/// `to` stands in the ancestor chain of `from` (reflexively).
pub open spec fn reachable(m: Map<Seq<u8>, Vec<Oid>>, from: Seq<u8>, to: Seq<u8>) -> bool {
    exists|p: Seq<Seq<u8>>| #[trigger] chain_from_to(m, p, from, to)
}

/// `x` is a present object in the ancestor chain of `from` whose `i`-th
/// parent is not in the store.
pub open spec fn missing_witness(
    m: Map<Seq<u8>, Vec<Oid>>,
    from: Seq<u8>,
    x: Seq<u8>,
    i: int,
) -> bool {
    reachable(m, from, x) && m.contains_key(x) && 0 <= i < m[x]@.len() && !m.contains_key(m[x]@[i]@)
}

/// Some object in the ancestor chain of `from` has a parent that is not in
/// the store.
pub open spec fn missing_reachable(m: Map<Seq<u8>, Vec<Oid>>, from: Seq<u8>) -> bool {
    exists|x: Seq<u8>, i: int| #[trigger] missing_witness(m, from, x, i)
}

/// Reachability is reflexive.
pub proof fn lemma_reachable_self(m: Map<Seq<u8>, Vec<Oid>>, from: Seq<u8>)
    ensures
        reachable(m, from, from),
{
    let p = seq![from];
    assert(chain_from_to(m, p, from, from));
}

/// Reachability runs along parent edges.
pub proof fn lemma_reachable_step(m: Map<Seq<u8>, Vec<Oid>>, from: Seq<u8>, b: Seq<u8>, c: Seq<u8>)
    requires
        reachable(m, from, b),
        is_parent_of(m, b, c),
    ensures
        reachable(m, from, c),
{
    let p = choose|p: Seq<Seq<u8>>| #[trigger] chain_from_to(m, p, from, b);
    let q = p.push(c);
    assert(q[q.len() - 1] == c);
    assert(is_chain(m, q)) by {
        assert forall|i: int| 0 <= i < q.len() - 1 implies #[trigger] is_parent_of(
            m,
            q[i],
            q[i + 1],
        ) by {
            if i < p.len() - 1 {
                assert(q[i] == p[i] && q[i + 1] == p[i + 1]);
            } else {
                assert(q[i] == b && q[i + 1] == c);
            }
        }
    }
    assert(chain_from_to(m, q, from, c));
}

/// The queue holds key `k`.
pub open spec fn queue_holds(q: Seq<Vec<u8>>, k: Seq<u8>) -> bool {
    exists|i: int| 0 <= i < q.len() && q[i]@ == k
}

/// Taking the last element out of the queue: what it held.
proof fn lemma_queue_drop(q: Seq<Vec<u8>>, k: Seq<u8>)
    requires
        q.len() > 0,
    ensures
        queue_holds(q, k) <==> (queue_holds(q.drop_last(), k) || q.last()@ == k),
{
    if queue_holds(q, k) {
        let i = choose|i: int| 0 <= i < q.len() && q[i]@ == k;
        if i < q.len() - 1 {
            assert(q.drop_last()[i]@ == k);
        }
    }
    if queue_holds(q.drop_last(), k) {
        let i = choose|i: int| 0 <= i < q.drop_last().len() && q.drop_last()[i]@ == k;
        assert(q[i]@ == k);
    }
    if q.last()@ == k {
        assert(q[q.len() - 1]@ == k);
    }
}

/// Pushing onto the queue: what it then holds.
proof fn lemma_queue_push(q: Seq<Vec<u8>>, e: Vec<u8>, k: Seq<u8>)
    ensures
        queue_holds(q.push(e), k) <==> (queue_holds(q, k) || e@ == k),
{
    let q2 = q.push(e);
    if queue_holds(q2, k) {
        let i = choose|i: int| 0 <= i < q2.len() && q2[i]@ == k;
        if i < q.len() {
            assert(q[i]@ == k);
        }
    }
    if queue_holds(q, k) {
        let i = choose|i: int| 0 <= i < q.len() && q[i]@ == k;
        assert(q2[i]@ == k);
    }
    if e@ == k {
        assert(q2[q2.len() - 1]@ == k);
    }
}

/// With the walk done — the seen set holds `from`, is closed under present
/// parents, and never met `to` as a parent — every chain from `from` that
/// ends at a present object stays inside the seen set.
proof fn lemma_walked_all(
    m: Map<Seq<u8>, Vec<Oid>>,
    seen: Map<Seq<u8>, bool>,
    from: Seq<u8>,
    to: Seq<u8>,
    p: Seq<Seq<u8>>,
    i: int,
)
    requires
        seen.contains_key(from),
        forall|k: Seq<u8>, j: int|
            seen.contains_key(k) && m.contains_key(k) && 0 <= j < m[k]@.len() ==> (#[trigger] m[k]@[j]@)
                != to && (m.contains_key(m[k]@[j]@) ==> seen.contains_key(m[k]@[j]@)),
        p.len() >= 1,
        p[0] == from,
        m.contains_key(p[p.len() - 1]),
        is_chain(m, p),
        0 <= i < p.len(),
        seen.contains_key(p[i]),
    ensures
        seen.contains_key(p[p.len() - 1]),
    decreases p.len() - i,
{
    if i < p.len() - 1 {
        assert(is_parent_of(m, p[i], p[i + 1]));
        let j = choose|j: int| 0 <= j < m[p[i]]@.len() && m[p[i]]@[j]@ == p[i + 1];
        assert(m.contains_key(m[p[i]]@[j]@) ==> seen.contains_key(m[p[i]]@[j]@));
        let i2 = i + 1;
        if i2 < p.len() - 1 {
            assert(is_parent_of(m, p[i2], p[i2 + 1]));
        }
        assert(m.contains_key(p[i2]));
        lemma_walked_all(m, seen, from, to, p, i2);
    }
}

/// Why an ancestry walk failed.
#[derive(Debug)]
pub enum RevwalkError {
    /// A parent of a walked commit is not in the store.
    MissingObject(Oid),
}

/// The object database: each object id maps to its parents' ids.
pub struct Odb {
    commits: ByteMap<Vec<Oid>>,
}

impl View for Odb {
    type V = Map<Seq<u8>, Vec<Oid>>;

    closed spec fn view(&self) -> Map<Seq<u8>, Vec<Oid>> {
        self.commits@
    }
}

impl Odb {
    pub closed spec fn wf(&self) -> bool {
        self.commits.wf()
    }

    /// An empty store.
    pub fn new() -> (r: Odb)
        ensures
            r.wf(),
            r@ == Map::<Seq<u8>, Vec<Oid>>::empty(),
    {
        Odb { commits: ByteMap::new() }
    }

    /// Record an object with its parents.
    pub fn insert_object(&mut self, oid: &Oid, parents: Vec<Oid>)
        requires
            old(self).wf(),
        ensures
            final(self).wf(),
            final(self)@ == old(self)@.insert(oid@, parents),
    {
        let key = oid.bytes().clone();
        proof {
            assert(key@ =~= oid@);
        }
        self.commits.insert(key, parents);
    }

    /// Is the object in the store?
    pub fn contains(&self, oid: &Oid) -> (r: bool)
        requires
            self.wf(),
        ensures
            r == self@.contains_key(oid@),
    {
        self.commits.contains_key(oid.bytes())
    }

    /// Is `old_oid` an ancestor of `new`?
    ///
    /// Equal ids are trivially in ancestry; if either id is missing from the
    /// store the answer is `false`; otherwise the parent chains of `new` are
    /// walked. The answer is exactly [`reachable`]; the walk fails only when
    /// no chain leads to `old_oid` and some walked commit has a parent
    /// outside the store.
    pub fn is_in_ancestry_path(&self, new: &Oid, old_oid: &Oid) -> (r: Result<
        bool,
        RevwalkError,
    >)
        requires
            self.wf(),
        ensures
            match r {
                Ok(b) => if new@ == old_oid@ {
                    b == true
                } else if !(self@.contains_key(new@) && self@.contains_key(old_oid@)) {
                    b == false
                } else if reachable(self@, new@, old_oid@) {
                    b == true
                } else {
                    b == false && !missing_reachable(self@, new@)
                },
                Err(e) => new@ != old_oid@ && self@.contains_key(new@) && self@.contains_key(
                    old_oid@,
                ) && !reachable(self@, new@, old_oid@) && missing_reachable(self@, new@) && match e {
                    RevwalkError::MissingObject(o) => !self@.contains_key(o@),
                },
            },
    {
        let ghost m = self@;
        if bytes_eq(new.bytes(), old_oid.bytes()) {
            return Ok(true);
        }
        if !self.contains(new) || !self.contains(old_oid) {
            return Ok(false);
        }
        let ghost total = self.commits.spec_len() as int;
        let mut seen: ByteMap<bool> = ByteMap::new();
        let first = new.bytes().clone();
        let first2 = first.clone();
        proof {
            assert(first@ =~= new@);
            assert(first2@ =~= first@);
        }
        seen.insert(first2, true);
        let mut queue: Vec<Vec<u8>> = Vec::new();
        queue.push(first);
        let mut missing: Option<Oid> = None;
        proof {
            lemma_reachable_self(m, new@);
            seen.lemma_submap_len(&self.commits);
            assert(queue_holds(queue@, new@)) by {
                assert(queue@[0]@ == new@);
            }
        }
        while queue.len() > 0
            invariant
                self.wf(),
                seen.wf(),
                m == self@,
                total == self.commits.spec_len(),
                new@ != old_oid@,
                m.contains_key(new@),
                m.contains_key(old_oid@),
                seen@.contains_key(new@),
                !seen@.contains_key(old_oid@),
                // every seen key is a present, reachable object
                forall|k: Seq<u8>| #[trigger]
                    seen@.contains_key(k) ==> m.contains_key(k) && reachable(m, new@, k),
                // the queue holds seen keys
                forall|qi: int| 0 <= qi < queue@.len() ==> seen@.contains_key(#[trigger] queue@[qi]@),
                // closure: parents of processed keys were all handled
                forall|k: Seq<u8>, j: int|
                    seen@.contains_key(k) && !queue_holds(queue@, k) && 0 <= j < m[k]@.len() ==> (
                    #[trigger] m[k]@[j]@) != old_oid@ && (m.contains_key(m[k]@[j]@)
                        ==> seen@.contains_key(m[k]@[j]@)) && (missing is None ==> m.contains_key(
                        m[k]@[j]@,
                    )),
                match missing {
                    Some(o) => !m.contains_key(o@) && missing_reachable(m, new@),
                    None => true,
                },
                seen.spec_len() <= total,
            decreases 2 * (total - seen.spec_len()) + queue@.len(),
        {
            let ghost q_before = queue@;
            let x = match queue.pop() {
                Some(x) => x,
                None => {
                    return Ok(false);
                },
            };
            proof {
                assert forall|k: Seq<u8>| !queue_holds(queue@, k) && k != x@ implies !queue_holds(
                    q_before,
                    k,
                ) by {
                    lemma_queue_drop(q_before, k);
                }
            }
            let ghost qlen_after_pop = queue@.len();
            let ghost slen_after_pop = seen.spec_len();
            let parents = match self.commits.get(&x) {
                Some(ps) => ps,
                None => {
                    return Ok(false);
                },
            };
            let mut j: usize = 0;
            while j < parents.len()
                invariant
                    self.wf(),
                    seen.wf(),
                    m == self@,
                    total == self.commits.spec_len(),
                    new@ != old_oid@,
                    m.contains_key(new@),
                    m.contains_key(old_oid@),
                    seen@.contains_key(new@),
                    !seen@.contains_key(old_oid@),
                    j <= parents@.len(),
                    m.contains_key(x@),
                    parents@ == m[x@]@,
                    seen@.contains_key(x@),
                    reachable(m, new@, x@),
                    forall|k: Seq<u8>| #[trigger]
                        seen@.contains_key(k) ==> m.contains_key(k) && reachable(m, new@, k),
                    forall|qi: int|
                        0 <= qi < queue@.len() ==> seen@.contains_key(#[trigger] queue@[qi]@),
                    // parents of x handled so far
                    forall|j2: int|
                        0 <= j2 < j ==> (#[trigger] m[x@]@[j2]@) != old_oid@ && (m.contains_key(
                            m[x@]@[j2]@,
                        ) ==> seen@.contains_key(m[x@]@[j2]@)) && (missing is None
                            ==> m.contains_key(m[x@]@[j2]@)),
                    // closure for the other processed keys is kept
                    forall|k: Seq<u8>, j2: int|
                        seen@.contains_key(k) && !queue_holds(queue@, k) && k != x@ && 0 <= j2
                            < m[k]@.len() ==> (#[trigger] m[k]@[j2]@) != old_oid@ && (
                        m.contains_key(m[k]@[j2]@) ==> seen@.contains_key(m[k]@[j2]@)) && (
                        missing is None ==> m.contains_key(m[k]@[j2]@)),
                    match missing {
                        Some(o) => !m.contains_key(o@) && missing_reachable(m, new@),
                        None => true,
                    },
                    seen.spec_len() <= total,
                    // the outer measure never grows inside this loop
                    2 * (total - seen.spec_len()) + queue@.len() <= 2 * (total - slen_after_pop)
                        + qlen_after_pop,
                    slen_after_pop <= seen.spec_len(),
                decreases parents@.len() - j,
            {
                let p = &parents[j];
                proof {
                    assert(is_parent_of(m, x@, p@)) by {
                        assert(m[x@]@[j as int]@ == p@);
                    }
                    lemma_reachable_step(m, new@, x@, p@);
                }
                if bytes_eq(p.bytes(), old_oid.bytes()) {
                    return Ok(true);
                }
                if !self.commits.contains_key(p.bytes()) {
                    proof {
                        assert(missing_witness(m, new@, x@, j as int));
                    }
                    missing = Some(p.clone());
                } else if !seen.contains_key(p.bytes()) {
                    let pb = p.bytes().clone();
                    let pb2 = pb.clone();
                    proof {
                        assert(pb@ =~= p@);
                        assert(pb2@ =~= pb@);
                    }
                    let ghost q_in = queue@;
                    seen.insert(pb2, true);
                    queue.push(pb);
                    proof {
                        seen.lemma_submap_len(&self.commits);
                        assert forall|qi: int| 0 <= qi < queue@.len() implies seen@.contains_key(
                            #[trigger] queue@[qi]@,
                        ) by {
                            if qi < queue@.len() - 1 {
                                assert(queue@[qi] == q_in[qi]);
                            } else {
                                assert(queue@[qi]@ == p@);
                            }
                        }
                        assert(queue_holds(queue@, p@)) by {
                            assert(queue@[queue@.len() - 1]@ == p@);
                        }
                        assert forall|k: Seq<u8>| !queue_holds(queue@, k) implies !queue_holds(
                            q_in,
                            k,
                        ) by {
                            lemma_queue_push(q_in, queue@.last(), k);
                            assert(queue@ == q_in.push(queue@.last()));
                        }
                    }
                }
                j = j + 1;
            }
            proof {
                // x's parents are now fully handled, restoring the closure
                assert forall|k: Seq<u8>, j2: int|
                    seen@.contains_key(k) && !queue_holds(queue@, k) && 0 <= j2 < m[k]@.len()
                    implies (#[trigger] m[k]@[j2]@) != old_oid@ && (m.contains_key(m[k]@[j2]@)
                    ==> seen@.contains_key(m[k]@[j2]@)) && (missing is None ==> m.contains_key(
                    m[k]@[j2]@,
                )) by {
                    if k == x@ {
                        assert(m[x@]@[j2]@ != old_oid@);
                    }
                }
            }
        }
        proof {
            assert forall|k: Seq<u8>, j: int|
                seen@.contains_key(k) && m.contains_key(k) && 0 <= j < m[k]@.len() implies (
            #[trigger] m[k]@[j]@) != old_oid@ && (m.contains_key(m[k]@[j]@)
                ==> seen@.contains_key(m[k]@[j]@)) by {
                assert(!queue_holds(queue@, k)) by {
                    if queue_holds(queue@, k) {
                        let qi = choose|qi: int| 0 <= qi < queue@.len() && queue@[qi]@ == k;
                        assert(false);
                    }
                }
            }
            if reachable(m, new@, old_oid@) {
                let p = choose|p: Seq<Seq<u8>>| #[trigger] chain_from_to(m, p, new@, old_oid@);
                lemma_walked_all(m, seen@, new@, old_oid@, p, 0);
                assert(false);
            }
        }
        match missing {
            Some(o) => Err(RevwalkError::MissingObject(o)),
            None => {
                proof {
                    if missing_reachable(m, new@) {
                        let (x, i) = choose|x: Seq<u8>, i: int| #[trigger] missing_witness(
                            m,
                            new@,
                            x,
                            i,
                        );
                        let p = choose|p: Seq<Seq<u8>>| #[trigger] chain_from_to(m, p, new@, x);
                        lemma_walked_all(m, seen@, new@, old_oid@, p, 0);
                        assert(seen@.contains_key(x));
                        assert(!queue_holds(queue@, x)) by {
                            if queue_holds(queue@, x) {
                                let qi = choose|qi: int|
                                    0 <= qi < queue@.len() && queue@[qi]@ == x;
                                assert(false);
                            }
                        }
                        assert(m.contains_key(m[x]@[i]@));
                        assert(false);
                    }
                }
                Ok(false)
            },
        }
    }
}

/// How two commits relate in the graph.
#[derive(Clone, Copy, Debug, PartialEq, Eq, Structural)]
pub enum Ancestry {
    /// The two ids are the same.
    Equal,
    /// The new id descends from the old one.
    Ahead,
    /// The old id descends from the new one.
    Behind,
    /// Neither descends from the other, or one is missing.
    Diverged,
}

impl Odb {
    /// Classify how `new` relates to `old_oid`: equal ids, a fast-forward
    /// (`Ahead`), the reverse (`Behind`), or unrelated — where a missing
    /// object also counts as `Diverged`.
    pub fn ancestry(&self, old_oid: &Oid, new: &Oid) -> (r: Result<Ancestry, RevwalkError>)
        requires
            self.wf(),
        ensures
            match r {
                Ok(a) => match a {
                    Ancestry::Equal => old_oid@ == new@ && self@.contains_key(old_oid@)
                        && self@.contains_key(new@),
                    Ancestry::Ahead => old_oid@ != new@ && reachable(self@, new@, old_oid@),
                    Ancestry::Behind => old_oid@ != new@ && !reachable(self@, new@, old_oid@)
                        && reachable(self@, old_oid@, new@),
                    Ancestry::Diverged => !(self@.contains_key(old_oid@) && self@.contains_key(
                        new@,
                    )) || (old_oid@ != new@ && !reachable(self@, new@, old_oid@) && !reachable(
                        self@,
                        old_oid@,
                        new@,
                    )),
                },
                Err(_) => crate::refdb::ff_check(self@, new@, old_oid@) is Fault
                    || crate::refdb::ff_check(self@, old_oid@, new@) is Fault,
            },
    {
        if !self.contains(old_oid) || !self.contains(new) {
            return Ok(Ancestry::Diverged);
        }
        if bytes_eq(old_oid.bytes(), new.bytes()) {
            return Ok(Ancestry::Equal);
        }
        match self.is_in_ancestry_path(new, old_oid)? {
            true => Ok(Ancestry::Ahead),
            false => match self.is_in_ancestry_path(old_oid, new)? {
                true => Ok(Ancestry::Behind),
                false => Ok(Ancestry::Diverged),
            },
        }
    }
}

} // verus!
