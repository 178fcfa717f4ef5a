//! The reference store: snapshot reads and transactional updates.
//!
//! The store maps reference names to targets — direct object ids or
//! symbolic pointers to another reference. A batch of [`Update`]s is turned
//! into edits in two phases, as a transaction: first every update is decided
//! against the state at entry (fast-forward checks against the object
//! database, policies, de-duplication by name with the last write winning),
//! then either all edits apply or — on any error — none do.

use crate::bytemap::ByteMap;
use crate::bytes::{bytes_eq, has_prefix};
use crate::odb::{missing_reachable, reachable, Odb, RevwalkError};
use crate::keys::PublicKey;
use crate::oid::{zero_oid, Oid};
use crate::update::{Applied, Policy, PrevValue, SymrefTarget, Update, Updated};
use vstd::prelude::*;

verus! {

/// The value of a reference, at the spec level.
pub enum TargetV {
    Direct(Seq<u8>),
    Symbolic(Seq<u8>),
}

/// The value of a reference: an object id, or the name of another
/// reference.
#[derive(Debug)]
pub enum Target {
    Direct(Oid),
    Symbolic(Vec<u8>),
}

impl View for Target {
    type V = TargetV;

    open spec fn view(&self) -> TargetV {
        match self {
            Target::Direct(oid) => TargetV::Direct(oid@),
            Target::Symbolic(name) => TargetV::Symbolic(name@),
        }
    }
}

impl Clone for Target {
    fn clone(&self) -> (r: Self)
        ensures
            r@ == self@,
    {
        match self {
            Target::Direct(oid) => Target::Direct(oid.clone()),
            Target::Symbolic(name) => {
                let n = name.clone();
                proof {
                    assert(n@ =~= name@);
                }
                Target::Symbolic(n)
            },
        }
    }
}

/// Resolve a name to the object id it peels to: a direct target directly,
/// a symbolic target through one hop (nested symbolic refs are never
/// written, see [`Refdb::update`]).
pub open spec fn lookup(m: Map<Seq<u8>, TargetV>, name: Seq<u8>) -> Option<Seq<u8>> {
    if m.contains_key(name) {
        match m[name] {
            TargetV::Direct(o) => Some(o),
            TargetV::Symbolic(t) => if m.contains_key(t) {
                match m[t] {
                    TargetV::Direct(o) => Some(o),
                    TargetV::Symbolic(_) => None,
                }
            } else {
                None
            },
        }
    } else {
        None
    }
}

/// What the ancestry check concludes.
#[derive(Clone, Copy, Debug, PartialEq, Eq, Structural)]
pub enum FfCheck {
    Yes,
    No,
    Fault,
}

/// The outcome of `Odb::is_in_ancestry_path(new, old)` on the graph
/// `objs`, at the spec level.
pub open spec fn ff_check(objs: Map<Seq<u8>, Vec<Oid>>, new: Seq<u8>, old: Seq<u8>) -> FfCheck {
    if new == old {
        FfCheck::Yes
    } else if !(objs.contains_key(new) && objs.contains_key(old)) {
        FfCheck::No
    } else if reachable(objs, new, old) {
        FfCheck::Yes
    } else if missing_reachable(objs, new) {
        FfCheck::Fault
    } else {
        FfCheck::No
    }
}

/// An edit of one reference, at the spec level.
pub enum EditV {
    Write { target: TargetV, prev: Seq<u8> },
    Delete { prev: Seq<u8> },
}

/// An edit of one reference: set it to a target, or delete it; `prev` is
/// the object id observed when the edit was decided.
#[derive(Debug)]
pub enum Edit {
    Write { target: Target, prev: Oid },
    Delete { prev: Oid },
}

impl View for Edit {
    type V = EditV;

    open spec fn view(&self) -> EditV {
        match self {
            Edit::Write { target, prev } => EditV::Write { target: target@, prev: prev@ },
            Edit::Delete { prev } => EditV::Delete { prev: prev@ },
        }
    }
}

/// Why a batch of updates was aborted, at the spec level.
pub enum UpdateErrorV {
    NonFF { name: Seq<u8>, new: Seq<u8>, cur: Seq<u8> },
    Missing(Seq<u8>),
    TargetSymbolic(Seq<u8>),
    TypeChange(Seq<u8>),
    Revwalk(Seq<u8>),
}

/// Why a batch of updates was aborted.
#[derive(Debug)]
pub enum UpdateError {
    /// A direct update was no fast-forward and its policy said to abort.
    NonFF { name: Vec<u8>, new: Oid, cur: Oid },
    /// A name whose value was needed could not be resolved.
    Missing(Vec<u8>),
    /// A symbolic update pointed at a reference that is itself symbolic.
    TargetSymbolic(Vec<u8>),
    /// A symbolic update would overwrite a direct reference.
    TypeChange(Vec<u8>),
    /// An ancestry walk met an object missing from the store.
    Revwalk(Oid),
}

impl View for UpdateError {
    type V = UpdateErrorV;

    open spec fn view(&self) -> UpdateErrorV {
        match self {
            UpdateError::NonFF { name, new, cur } => UpdateErrorV::NonFF {
                name: name@,
                new: new@,
                cur: cur@,
            },
            UpdateError::Missing(n) => UpdateErrorV::Missing(n@),
            UpdateError::TargetSymbolic(n) => UpdateErrorV::TargetSymbolic(n@),
            UpdateError::TypeChange(n) => UpdateErrorV::TypeChange(n@),
            UpdateError::Revwalk(o) => UpdateErrorV::Revwalk(o@),
        }
    }
}

/// What deciding one update concludes.
pub enum DecisionV {
    /// Abort the whole batch.
    Fail(UpdateErrorV),
    /// Reject this update, go on with the rest.
    Reject,
    /// Nothing to do (the reference already holds the target).
    Skip,
    /// Apply these edits, keyed by reference name.
    Edits(Seq<(Seq<u8>, EditV)>),
}

/// Decide one update against the state `m` and object graph `objs`.
///
/// This is the transaction's decision table: what `Refdb::update` does with
/// each update, stated as a function.
pub open spec fn decide_one(
    m: Map<Seq<u8>, TargetV>,
    objs: Map<Seq<u8>, Vec<Oid>>,
    u: Update,
) -> DecisionV {
    match u {
        Update::Direct { name, target, no_ff } => {
            if !m.contains_key(name@) {
                DecisionV::Edits(
                    seq![
                        (name@, EditV::Write { target: TargetV::Direct(target@), prev: zero_oid() }),
                    ],
                )
            } else {
                match lookup(m, name@) {
                    None => DecisionV::Fail(UpdateErrorV::Missing(name@)),
                    Some(prev) => if prev == target@ {
                        DecisionV::Skip
                    } else {
                        match ff_check(objs, target@, prev) {
                            FfCheck::Yes => DecisionV::Edits(
                                seq![
                                    (
                                        name@,
                                        EditV::Write {
                                            target: TargetV::Direct(target@),
                                            prev: prev,
                                        },
                                    ),
                                ],
                            ),
                            FfCheck::Fault => DecisionV::Fail(UpdateErrorV::Revwalk(target@)),
                            FfCheck::No => match no_ff {
                                Policy::Abort => DecisionV::Fail(
                                    UpdateErrorV::NonFF { name: name@, new: target@, cur: prev },
                                ),
                                Policy::Reject => DecisionV::Reject,
                                Policy::Allow => DecisionV::Edits(
                                    seq![
                                        (
                                            name@,
                                            EditV::Write {
                                                target: TargetV::Direct(target@),
                                                prev: prev,
                                            },
                                        ),
                                    ],
                                ),
                            },
                        }
                    },
                }
            }
        },
        Update::Symbolic { name, target, type_change } => {
            let src_is_direct = m.contains_key(name@) && m[name@] is Direct;
            if src_is_direct && type_change is Abort {
                DecisionV::Fail(UpdateErrorV::TypeChange(name@))
            } else if src_is_direct && type_change is Reject {
                DecisionV::Reject
            } else {
                let dst = target.name@;
                let dst_oid = target.target@;
                if m.contains_key(dst) && m[dst] is Symbolic {
                    DecisionV::Fail(UpdateErrorV::TargetSymbolic(dst))
                } else if !m.contains_key(dst) {
                    DecisionV::Edits(
                        seq![
                            (dst, EditV::Write { target: TargetV::Direct(dst_oid), prev: zero_oid() }),
                            (
                                name@,
                                EditV::Write { target: TargetV::Symbolic(dst), prev: zero_oid() },
                            ),
                        ],
                    )
                } else {
                    let cur = m[dst]->Direct_0;
                    if dst_oid != cur && ff_check(objs, dst_oid, cur) is Fault {
                        DecisionV::Fail(UpdateErrorV::Revwalk(dst_oid))
                    } else if dst_oid != cur && ff_check(objs, dst_oid, cur) is Yes {
                        DecisionV::Edits(
                            seq![
                                (dst, EditV::Write { target: TargetV::Direct(dst_oid), prev: cur }),
                                (name@, EditV::Write { target: TargetV::Symbolic(dst), prev: cur }),
                            ],
                        )
                    } else {
                        DecisionV::Edits(
                            seq![
                                (name@, EditV::Write { target: TargetV::Symbolic(dst), prev: cur }),
                            ],
                        )
                    }
                }
            }
        },
        Update::Prune { name, prev } => {
            let resolved = match prev {
                PrevValue::Oid(o) => Some(o@),
                PrevValue::Name(n) => lookup(m, n@),
            };
            if resolved is None {
                DecisionV::Fail(
                    UpdateErrorV::Missing(
                        match prev {
                            PrevValue::Oid(o) => o@,
                            PrevValue::Name(n) => n@,
                        },
                    ),
                )
            } else if !m.contains_key(name@) {
                DecisionV::Reject
            } else {
                let cur = match lookup(m, name@) {
                    Some(o) => o,
                    None => zero_oid(),
                };
                DecisionV::Edits(seq![(name@, EditV::Delete { prev: cur })])
            }
        },
    }
}

/// Record an edit under its name: an existing name keeps its place in the
/// order and takes the new edit (the last write wins); a fresh name goes to
/// the end.
pub open spec fn put_edit(
    s: Seq<(Seq<u8>, EditV)>,
    name: Seq<u8>,
    e: EditV,
) -> Seq<(Seq<u8>, EditV)>
    decreases s.len(),
{
    if s.len() == 0 {
        seq![(name, e)]
    } else if s[0].0 == name {
        seq![(name, e)] + s.drop_first()
    } else {
        seq![s[0]] + put_edit(s.drop_first(), name, e)
    }
}

/// Record a run of edits in order.
pub open spec fn put_edits(
    s: Seq<(Seq<u8>, EditV)>,
    es: Seq<(Seq<u8>, EditV)>,
) -> Seq<(Seq<u8>, EditV)>
    decreases es.len(),
{
    if es.len() == 0 {
        s
    } else {
        put_edits(put_edit(s, es[0].0, es[0].1), es.drop_first())
    }
}

/// What deciding a whole batch concludes.
pub enum BatchV {
    Fail(UpdateErrorV),
    Go { rejected: Seq<Update>, edits: Seq<(Seq<u8>, EditV)> },
}

/// Decide a batch of updates in order, de-duplicating edits by name.
pub open spec fn decide_from(
    m: Map<Seq<u8>, TargetV>,
    objs: Map<Seq<u8>, Vec<Oid>>,
    updates: Seq<Update>,
    rejected: Seq<Update>,
    edits: Seq<(Seq<u8>, EditV)>,
) -> BatchV
    decreases updates.len(),
{
    if updates.len() == 0 {
        BatchV::Go { rejected, edits }
    } else {
        match decide_one(m, objs, updates[0]) {
            DecisionV::Fail(e) => BatchV::Fail(e),
            DecisionV::Reject => decide_from(
                m,
                objs,
                updates.drop_first(),
                rejected.push(updates[0]),
                edits,
            ),
            DecisionV::Skip => decide_from(m, objs, updates.drop_first(), rejected, edits),
            DecisionV::Edits(es) => decide_from(
                m,
                objs,
                updates.drop_first(),
                rejected,
                put_edits(edits, es),
            ),
        }
    }
}

/// Decide a batch of updates against state `m` and object graph `objs`.
pub open spec fn decide_all(
    m: Map<Seq<u8>, TargetV>,
    objs: Map<Seq<u8>, Vec<Oid>>,
    updates: Seq<Update>,
) -> BatchV {
    decide_from(m, objs, updates, Seq::empty(), Seq::empty())
}

/// Apply decided edits to the state, in order.
pub open spec fn apply_edits(
    m: Map<Seq<u8>, TargetV>,
    edits: Seq<(Seq<u8>, EditV)>,
) -> Map<Seq<u8>, TargetV>
    decreases edits.len(),
{
    if edits.len() == 0 {
        m
    } else {
        let m2 = match edits[0].1 {
            EditV::Write { target, prev } => m.insert(edits[0].0, target),
            EditV::Delete { prev } => m.remove(edits[0].0),
        };
        apply_edits(m2, edits.drop_first())
    }
}

/// The change record that committing an edit produces.
pub open spec fn updated_matches_edit(u: Updated, name: Seq<u8>, e: EditV) -> bool {
    match e {
        EditV::Write { target, prev } => match target {
            TargetV::Direct(o) => u matches Updated::Direct {
                name: n,
                prev: p,
                target: t,
            } && n@ == name && p@ == prev && t@ == o,
            TargetV::Symbolic(s) => u matches Updated::Symbolic {
                name: n,
                prev: p,
                target: t,
            } && n@ == name && p@ == prev && t@ == s,
        },
        EditV::Delete { prev } => u matches Updated::Prune { name: n, prev: p } && n@ == name && p@
            == prev,
    }
}

/// Replay a sequence of change records on the state, in order: a direct
/// or symbolic record writes its target under its name, a prune removes
/// the name.
pub open spec fn apply_updated(
    m: Map<Seq<u8>, TargetV>,
    ups: Seq<Updated>,
) -> Map<Seq<u8>, TargetV>
    decreases ups.len(),
{
    if ups.len() == 0 {
        m
    } else {
        let m2 = match ups[0] {
            Updated::Direct { name, target, .. } => m.insert(name@, TargetV::Direct(target@)),
            Updated::Symbolic { name, target, .. } => m.insert(name@, TargetV::Symbolic(target@)),
            Updated::Prune { name, .. } => m.remove(name@),
        };
        apply_updated(m2, ups.drop_first())
    }
}

/// Change records that match committed edits replay to the same state.
pub proof fn lemma_apply_updated_matches(
    m: Map<Seq<u8>, TargetV>,
    edits: Seq<(Seq<u8>, EditV)>,
    ups: Seq<Updated>,
)
    requires
        ups.len() == edits.len(),
        forall|i: int|
            0 <= i < edits.len() ==> updated_matches_edit(
                #[trigger] ups[i],
                edits[i].0,
                edits[i].1,
            ),
    ensures
        apply_updated(m, ups) == apply_edits(m, edits),
    decreases edits.len(),
{
    if edits.len() > 0 {
        assert(updated_matches_edit(ups[0], edits[0].0, edits[0].1));
        let m2 = match edits[0].1 {
            EditV::Write { target, prev } => m.insert(edits[0].0, target),
            EditV::Delete { prev } => m.remove(edits[0].0),
        };
        let m2u = match ups[0] {
            Updated::Direct { name, target, .. } => m.insert(name@, TargetV::Direct(target@)),
            Updated::Symbolic { name, target, .. } => m.insert(
                name@,
                TargetV::Symbolic(target@),
            ),
            Updated::Prune { name, .. } => m.remove(name@),
        };
        assert(m2u == m2);
        assert forall|i: int| 0 <= i < edits.drop_first().len() implies updated_matches_edit(
            #[trigger] ups.drop_first()[i],
            edits.drop_first()[i].0,
            edits.drop_first()[i].1,
        ) by {
            assert(ups.drop_first()[i] == ups[i + 1]);
            assert(edits.drop_first()[i] == edits[i + 1]);
        }
        lemma_apply_updated_matches(m2, edits.drop_first(), ups.drop_first());
    }
}

/// Replaying a concatenation replays the parts in turn.
pub proof fn lemma_apply_updated_append(
    m: Map<Seq<u8>, TargetV>,
    a: Seq<Updated>,
    b: Seq<Updated>,
)
    ensures
        apply_updated(m, a + b) == apply_updated(apply_updated(m, a), b),
    decreases a.len(),
{
    if a.len() == 0 {
        assert(a + b =~= b);
        assert(apply_updated(m, a) == m);
    } else {
        assert((a + b).len() > 0);
        assert((a + b)[0] == a[0]);
        assert((a + b).drop_first() =~= a.drop_first() + b);
        let m2 = match a[0] {
            Updated::Direct { name, target, .. } => m.insert(name@, TargetV::Direct(target@)),
            Updated::Symbolic { name, target, .. } => m.insert(
                name@,
                TargetV::Symbolic(target@),
            ),
            Updated::Prune { name, .. } => m.remove(name@),
        };
        lemma_apply_updated_append(m2, a.drop_first(), b);
    }
}

/// The edits of a map, as (name, edit) pairs in iteration order.
pub open spec fn pairs_of(bm: ByteMap<Edit>) -> Seq<(Seq<u8>, EditV)> {
    Seq::new(bm.spec_len(), |i: int| (bm.key_seq()[i], bm.val_seq()[i]@))
}

/// What `put_edit` does, pointwise: an existing name keeps its place and
/// takes the new edit; a fresh name goes to the end.
proof fn lemma_put_edit_shape(s: Seq<(Seq<u8>, EditV)>, name: Seq<u8>, e: EditV)
    requires
        forall|i: int, j: int| 0 <= i < j < s.len() ==> s[i].0 != s[j].0,
    ensures
        (exists|i: int| 0 <= i < s.len() && s[i].0 == name) ==> {
            &&& put_edit(s, name, e).len() == s.len()
            &&& forall|i: int|
                0 <= i < s.len() ==> put_edit(s, name, e)[i] == (if s[i].0 == name {
                    (name, e)
                } else {
                    s[i]
                })
        },
        !(exists|i: int| 0 <= i < s.len() && s[i].0 == name) ==> put_edit(s, name, e) == s.push(
            (name, e),
        ),
    decreases s.len(),
{
    if s.len() == 0 {
        assert(put_edit(s, name, e) =~= s.push((name, e)));
    } else if s[0].0 == name {
        assert(put_edit(s, name, e) =~= seq![(name, e)] + s.drop_first());
        assert forall|i: int| 0 <= i < s.len() implies put_edit(s, name, e)[i] == (if s[i].0
            == name {
            (name, e)
        } else {
            s[i]
        }) by {
            if i > 0 {
                assert(put_edit(s, name, e)[i] == s.drop_first()[i - 1]);
            }
        }
    } else {
        assert forall|i: int, j: int|
            0 <= i < j < s.drop_first().len() implies s.drop_first()[i].0 != s.drop_first()[j].0 by {
            assert(s[i + 1].0 != s[j + 1].0);
        }
        lemma_put_edit_shape(s.drop_first(), name, e);
        let rest = put_edit(s.drop_first(), name, e);
        assert(put_edit(s, name, e) == seq![s[0]] + rest);
        if exists|i: int| 0 <= i < s.len() && s[i].0 == name {
            assert(exists|i: int| 0 <= i < s.drop_first().len() && s.drop_first()[i].0 == name)
                by {
                let i = choose|i: int| 0 <= i < s.len() && s[i].0 == name;
                assert(s.drop_first()[i - 1].0 == name);
            }
            assert forall|i: int| 0 <= i < s.len() implies put_edit(s, name, e)[i] == (if s[i].0
                == name {
                (name, e)
            } else {
                s[i]
            }) by {
                if i > 0 {
                    assert(put_edit(s, name, e)[i] == rest[i - 1]);
                    assert(s.drop_first()[i - 1] == s[i]);
                }
            }
        } else {
            assert(!(exists|i: int|
                0 <= i < s.drop_first().len() && s.drop_first()[i].0 == name)) by {
                if exists|i: int| 0 <= i < s.drop_first().len() && s.drop_first()[i].0 == name {
                    let i = choose|i: int|
                        0 <= i < s.drop_first().len() && s.drop_first()[i].0 == name;
                    assert(s[i + 1].0 == name);
                }
            }
            assert(put_edit(s, name, e) =~= s.push((name, e)));
        }
    }
}

/// Applying edits one more step.
proof fn lemma_apply_edits_push(
    m: Map<Seq<u8>, TargetV>,
    s: Seq<(Seq<u8>, EditV)>,
    p: (Seq<u8>, EditV),
)
    ensures
        apply_edits(m, s.push(p)) == (match p.1 {
            EditV::Write { target, prev } => apply_edits(m, s).insert(p.0, target),
            EditV::Delete { prev } => apply_edits(m, s).remove(p.0),
        }),
    decreases s.len(),
{
    if s.len() == 0 {
        assert(s.push(p)[0] == p);
        assert(s.push(p).drop_first() =~= Seq::<(Seq<u8>, EditV)>::empty());
        assert(apply_edits(m, s) == m);
        let m2 = if p.1 is Write {
            m.insert(p.0, p.1->Write_target)
        } else {
            m.remove(p.0)
        };
        assert(apply_edits(m, s.push(p)) == apply_edits(m2, s.push(p).drop_first()));
        assert(apply_edits(m2, s.push(p).drop_first()) == m2);
    } else {
        assert(s.push(p).drop_first() =~= s.drop_first().push(p));
        assert(s.push(p)[0] == s[0]);
        let m2 = match s[0].1 {
            EditV::Write { target, prev } => m.insert(s[0].0, target),
            EditV::Delete { prev } => m.remove(s[0].0),
        };
        lemma_apply_edits_push(m2, s.drop_first(), p);
        assert(apply_edits(m, s.push(p)) == apply_edits(m2, s.drop_first().push(p)));
        assert(apply_edits(m, s) == apply_edits(m2, s.drop_first()));
        if p.1 is Write {
            assert(apply_edits(m2, s.drop_first().push(p)) == apply_edits(m2, s.drop_first()).insert(
                p.0,
                p.1->Write_target,
            ));
        } else {
            assert(apply_edits(m2, s.drop_first().push(p)) == apply_edits(m2, s.drop_first()).remove(
                p.0,
            ));
        }
    }
}

/// The prefix bytes asked for, if any.
pub open spec fn prefix_view(prefix: Option<&Vec<u8>>) -> Option<Seq<u8>> {
    match prefix {
        Some(p) => Some(p@),
        None => None,
    }
}

/// `name` passes the prefix filter.
pub open spec fn prefix_matches(pfx: Option<Seq<u8>>, name: Seq<u8>) -> bool {
    match pfx {
        Some(p) => has_prefix(name, p),
        None => true,
    }
}

/// What a scan returns: exactly the matching, resolvable names, each with
/// the object id it peels to, without repetition.
pub open spec fn scan_post(
    m: Map<Seq<u8>, TargetV>,
    pfx: Option<Seq<u8>>,
    r: Seq<(Vec<u8>, Oid)>,
) -> bool {
    &&& forall|i: int|
        0 <= i < r.len() ==> m.contains_key(#[trigger] r[i].0@) && prefix_matches(pfx, r[i].0@)
            && lookup(m, r[i].0@) == Some(r[i].1@)
    &&& forall|k: Seq<u8>|
        m.contains_key(k) && prefix_matches(pfx, k) && (#[trigger] lookup(m, k)) is Some
            ==> exists|i: int| 0 <= i < r.len() && r[i].0@ == k
    &&& forall|i: int, j: int| 0 <= i < j < r.len() ==> r[i].0@ != r[j].0@
}

/// Resolve a name in a reference map: a direct target directly, a symbolic
/// target through one hop.
fn resolve_in(refs: &ByteMap<Target>, name: &Vec<u8>) -> (r: Option<Oid>)
    requires
        refs.wf(),
    ensures
        ({
            let m = refs@.map_values(|t: Target| t@);
            match r {
                Some(o) => lookup(m, name@) == Some(o@),
                None => lookup(m, name@) is None,
            }
        }),
{
    match refs.get(name) {
        None => None,
        Some(t) => match t {
            Target::Direct(o) => Some(o.clone()),
            Target::Symbolic(t2) => match refs.get(t2) {
                Some(Target::Direct(o)) => Some(o.clone()),
                _ => None,
            },
        },
    }
}

/// Scan a reference map under a prefix.
fn scan_in(refs: &ByteMap<Target>, prefix: Option<&Vec<u8>>) -> (r: Vec<(Vec<u8>, Oid)>)
    requires
        refs.wf(),
    ensures
        scan_post(refs@.map_values(|t: Target| t@), prefix_view(prefix), r@),
{
    let ghost m = refs@.map_values(|t: Target| t@);
    let mut r: Vec<(Vec<u8>, Oid)> = Vec::new();
    let n = refs.len();
    let mut i: usize = 0;
    while i < n
        invariant
            refs.wf(),
            m == refs@.map_values(|t: Target| t@),
            n == refs.spec_len(),
            i <= n,
            forall|j: int|
                0 <= j < r@.len() ==> m.contains_key(#[trigger] r@[j].0@) && prefix_matches(
                    prefix_view(prefix),
                    r@[j].0@,
                ) && lookup(m, r@[j].0@) == Some(r@[j].1@),
            forall|ki: int|
                0 <= ki < i && prefix_matches(prefix_view(prefix), #[trigger] refs.key_seq()[ki])
                    && lookup(m, refs.key_seq()[ki]) is Some ==> exists|j: int|
                    0 <= j < r@.len() && r@[j].0@ == refs.key_seq()[ki],
            forall|j: int|
                0 <= j < r@.len() ==> exists|ki: int|
                    0 <= ki < i && refs.key_seq()[ki] == #[trigger] r@[j].0@,
            forall|j1: int, j2: int| 0 <= j1 < j2 < r@.len() ==> r@[j1].0@ != r@[j2].0@,
        decreases n - i,
    {
        let (name, _) = refs.entry_at(i);
        let keep = match prefix {
            Some(p) => crate::bytes::starts_with(name, p),
            None => true,
        };
        if keep {
            match resolve_in(refs, name) {
                Some(oid) => {
                    let name2 = name.clone();
                    proof {
                        assert(name2@ =~= name@);
                        refs.lemma_entry(i as int);
                    }
                    let ghost r_before = r@;
                    r.push((name2, oid));
                    proof {
                        assert(r@[r@.len() - 1].0@ == refs.key_seq()[i as int]);
                        assert forall|ki: int|
                            0 <= ki < i + 1 && prefix_matches(
                                prefix_view(prefix),
                                #[trigger] refs.key_seq()[ki],
                            ) && lookup(m, refs.key_seq()[ki]) is Some implies exists|j: int|
                            0 <= j < r@.len() && r@[j].0@ == refs.key_seq()[ki] by {
                            if ki < i {
                                let j = choose|j: int|
                                    0 <= j < r_before.len() && r_before[j].0@ == refs.key_seq()[ki];
                                assert(r@[j].0@ == refs.key_seq()[ki]);
                            } else {
                                assert(r@[r@.len() - 1].0@ == refs.key_seq()[ki]);
                            }
                        }
                        assert forall|j1: int, j2: int|
                            0 <= j1 < j2 < r@.len() implies r@[j1].0@ != r@[j2].0@ by {
                            if j2 == r@.len() - 1 {
                                let ki = choose|ki: int|
                                    0 <= ki < i && refs.key_seq()[ki] == r_before[j1].0@;
                                refs.lemma_keys_distinct(ki, i as int);
                            }
                        }
                        assert forall|j: int| 0 <= j < r@.len() implies exists|ki: int|
                            0 <= ki < i + 1 && refs.key_seq()[ki] == #[trigger] r@[j].0@ by {
                            if j < r_before.len() {
                                let ki = choose|ki: int|
                                    0 <= ki < i && refs.key_seq()[ki] == r_before[j].0@;
                                assert(refs.key_seq()[ki] == r@[j].0@);
                            } else {
                                assert(refs.key_seq()[i as int] == r@[j].0@);
                            }
                        }
                    }
                },
                None => {
                    proof {
                        assert(lookup(m, refs.key_seq()[i as int]) is None);
                    }
                },
            }
        } else {
            proof {
                assert(!prefix_matches(prefix_view(prefix), refs.key_seq()[i as int]));
            }
        }
        i = i + 1;
    }
    proof {
        assert forall|k: Seq<u8>|
            m.contains_key(k) && prefix_matches(prefix_view(prefix), k) && (#[trigger] lookup(
                m,
                k,
            )) is Some implies exists|j: int| 0 <= j < r@.len() && r@[j].0@ == k by {
            refs.lemma_dom(k);
            let ki = choose|ki: int| 0 <= ki < refs.key_seq().len() && refs.key_seq()[ki] == k;
        }
    }
    r
}

/// A read-only view of the reference store, owned by the reader: later
/// writers do not change what a snapshot holds.
pub struct Snapshot {
    refs: ByteMap<Target>,
}

impl View for Snapshot {
    type V = Map<Seq<u8>, TargetV>;

    closed spec fn view(&self) -> Map<Seq<u8>, TargetV> {
        self.refs@.map_values(|t: Target| t@)
    }
}

impl Snapshot {
    pub closed spec fn wf(&self) -> bool {
        self.refs.wf()
    }

    /// Resolve a name to the object id it peels to.
    pub fn find(&self, name: &Vec<u8>) -> (r: Option<Oid>)
        requires
            self.wf(),
        ensures
            match r {
                Some(o) => lookup(self@, name@) == Some(o@),
                None => lookup(self@, name@) is None,
            },
    {
        resolve_in(&self.refs, name)
    }

    /// The references whose names start with `prefix`, with the object ids
    /// they peel to.
    pub fn iter(&self, prefix: Option<&Vec<u8>>) -> (r: Vec<(Vec<u8>, Oid)>)
        requires
            self.wf(),
        ensures
            scan_post(self@, prefix_view(prefix), r@),
    {
        scan_in(&self.refs, prefix)
    }
}

/// `pairs_of` after inserting an edit is `put_edit` of `pairs_of` before.
proof fn lemma_pairs_insert(before: ByteMap<Edit>, after: ByteMap<Edit>, k: Seq<u8>, e: EditV)
    requires
        before.wf(),
        after.wf(),
        before.val_seq().len() == before.key_seq().len(),
        after.key_seq() == (if before@.contains_key(k) {
            before.key_seq()
        } else {
            before.key_seq().push(k)
        }),
        after.val_seq().len() == after.key_seq().len(),
        forall|i: int|
            0 <= i < after.key_seq().len() ==> after.val_seq()[i]@ == (if after.key_seq()[i] == k {
                e
            } else {
                before.val_seq()[i]@
            }),
    ensures
        pairs_of(after) == put_edit(pairs_of(before), k, e),
{
    assert forall|i: int, j: int|
        0 <= i < j < pairs_of(before).len() implies pairs_of(before)[i].0 != pairs_of(
        before,
    )[j].0 by {
        before.lemma_keys_distinct(i, j);
    }
    lemma_put_edit_shape(pairs_of(before), k, e);
    before.lemma_dom(k);
    if before@.contains_key(k) {
        assert(exists|i: int|
            0 <= i < pairs_of(before).len() && pairs_of(before)[i].0 == k) by {
            let i = choose|i: int|
                0 <= i < before.key_seq().len() && before.key_seq()[i] == k;
            assert(pairs_of(before)[i].0 == k);
        }
        assert(pairs_of(after) =~= put_edit(pairs_of(before), k, e));
    } else {
        assert(!(exists|i: int|
            0 <= i < pairs_of(before).len() && pairs_of(before)[i].0 == k)) by {
            if exists|i: int| 0 <= i < pairs_of(before).len() && pairs_of(before)[i].0 == k {
                let i = choose|i: int|
                    0 <= i < pairs_of(before).len() && pairs_of(before)[i].0 == k;
                assert(before.key_seq()[i] == k);
            }
        }
        assert(pairs_of(after) =~= put_edit(pairs_of(before), k, e));
    }
}

/// The reference store: a map from names to targets, with its object
/// database.
pub struct Refdb {
    refs: ByteMap<Target>,
    odb: Odb,
}

impl View for Refdb {
    type V = Map<Seq<u8>, TargetV>;

    closed spec fn view(&self) -> Map<Seq<u8>, TargetV> {
        self.refs@.map_values(|t: Target| t@)
    }
}

impl Refdb {
    pub closed spec fn wf(&self) -> bool {
        self.refs.wf() && self.odb.wf()
    }

    /// The object graph of the store.
    pub closed spec fn objects(&self) -> Map<Seq<u8>, Vec<Oid>> {
        self.odb@
    }

    /// An empty store.
    pub fn new() -> (r: Refdb)
        ensures
            r.wf(),
            r@ == Map::<Seq<u8>, TargetV>::empty(),
            r.objects() == Map::<Seq<u8>, Vec<Oid>>::empty(),
    {
        let r = Refdb { refs: ByteMap::new(), odb: Odb::new() };
        proof {
            assert(r@ =~= Map::<Seq<u8>, TargetV>::empty());
        }
        r
    }

    /// Record an object with its parents (a packfile entry that was
    /// indexed into the object store).
    pub fn add_object(&mut self, oid: &Oid, parents: Vec<Oid>)
        requires
            old(self).wf(),
        ensures
            final(self).wf(),
            final(self)@ == old(self)@,
            final(self).objects() == old(self).objects().insert(oid@, parents),
    {
        self.odb.insert_object(oid, parents);
    }

    /// Is the object in the object store?
    pub fn contains(&self, oid: &Oid) -> (r: bool)
        requires
            self.wf(),
        ensures
            r == self.objects().contains_key(oid@),
    {
        self.odb.contains(oid)
    }

    /// Is `old_oid` an ancestor of `new`? See `Odb::is_in_ancestry_path`.
    pub fn is_in_ancestry_path(&self, new: &Oid, old_oid: &Oid) -> (r: Result<
        bool,
        RevwalkError,
    >)
        requires
            self.wf(),
        ensures
            match r {
                Ok(b) => b == (ff_check(self.objects(), new@, old_oid@) is Yes) && !(ff_check(
                    self.objects(),
                    new@,
                    old_oid@,
                ) is Fault),
                Err(_) => ff_check(self.objects(), new@, old_oid@) is Fault,
            },
    {
        self.odb.is_in_ancestry_path(new, old_oid)
    }

    /// Does the store hold a reference of this name?
    pub fn has_ref(&self, name: &Vec<u8>) -> (r: bool)
        requires
            self.wf(),
        ensures
            r == self@.contains_key(name@),
    {
        self.refs.contains_key(name)
    }

    /// Resolve a name to the object id it peels to.
    pub fn refname_to_id(&self, name: &Vec<u8>) -> (r: Option<Oid>)
        requires
            self.wf(),
        ensures
            match r {
                Some(o) => lookup(self@, name@) == Some(o@),
                None => lookup(self@, name@) is None,
            },
    {
        resolve_in(&self.refs, name)
    }

    /// The references whose names start with `prefix`, with the object ids
    /// they peel to.
    pub fn scan(&self, prefix: Option<&Vec<u8>>) -> (r: Vec<(Vec<u8>, Oid)>)
        requires
            self.wf(),
        ensures
            scan_post(self@, prefix_view(prefix), r@),
    {
        scan_in(&self.refs, prefix)
    }

    /// A read-only copy of the current references. Later updates to the
    /// store leave the snapshot's view untouched.
    pub fn snapshot(&self) -> (r: Snapshot)
        requires
            self.wf(),
        ensures
            r.wf(),
            r@ == self@,
    {
        let mut refs: ByteMap<Target> = ByteMap::new();
        let n = self.refs.len();
        let mut i: usize = 0;
        while i < n
            invariant
                self.wf(),
                refs.wf(),
                n == self.refs.spec_len(),
                i <= n,
                forall|k: Seq<u8>| #[trigger]
                    refs@.contains_key(k) ==> self@.contains_key(k) && refs@[k]@ == self@[k],
                forall|j: int| 0 <= j < i ==> refs@.contains_key(#[trigger] self.refs.key_seq()[j]),
            decreases n - i,
        {
            let (name, t) = self.refs.entry_at(i);
            let name2 = name.clone();
            let t2 = t.clone();
            proof {
                assert(name2@ =~= name@);
                self.refs.lemma_entry(i as int);
            }
            let ghost before = refs@;
            refs.insert(name2, t2);
            proof {
                assert forall|k: Seq<u8>| #[trigger]
                    refs@.contains_key(k) implies self@.contains_key(k) && refs@[k]@
                    == self@[k] by {
                    if k == name@ {
                        assert(refs@[k] == t2);
                    } else {
                        assert(before.contains_key(k));
                        assert(refs@[k] == before[k]);
                    }
                }
            }
            i = i + 1;
        }
        proof {
            assert(refs@.map_values(|t: Target| t@) =~= self@) by {
                assert forall|k: Seq<u8>| #![all_triggers]
                    refs@.contains_key(k) <==> self@.contains_key(k) by {
                    if self@.contains_key(k) {
                        self.refs.lemma_dom(k);
                        let j = choose|j: int|
                            0 <= j < self.refs.key_seq().len() && self.refs.key_seq()[j] == k;
                        assert(refs@.contains_key(self.refs.key_seq()[j]));
                    }
                }
            }
        }
        Snapshot { refs }
    }

    /// Refresh the store's view of its backing files. The model holds its
    /// state directly, so there is nothing to refresh.
    pub fn reload(&mut self)
        requires
            old(self).wf(),
        ensures
            *final(self) == *old(self),
    {
    }
}

/// Recording one edit, unfolded.
pub proof fn lemma_put_edits_one(s: Seq<(Seq<u8>, EditV)>, name: Seq<u8>, e: EditV)
    ensures
        put_edits(s, seq![(name, e)]) == put_edit(s, name, e),
{
    let es = seq![(name, e)];
    assert(es.drop_first() =~= Seq::<(Seq<u8>, EditV)>::empty());
    assert(put_edits(s, es) == put_edits(put_edit(s, name, e), es.drop_first()));
    assert(put_edits(put_edit(s, name, e), es.drop_first()) == put_edit(s, name, e));
}

/// Recording two edits, unfolded.
proof fn lemma_put_edits_two(
    s: Seq<(Seq<u8>, EditV)>,
    n1: Seq<u8>,
    e1: EditV,
    n2: Seq<u8>,
    e2: EditV,
)
    ensures
        put_edits(s, seq![(n1, e1), (n2, e2)]) == put_edit(put_edit(s, n1, e1), n2, e2),
{
    let es = seq![(n1, e1), (n2, e2)];
    assert(es.drop_first() =~= seq![(n2, e2)]);
    assert(put_edits(s, es) == put_edits(put_edit(s, n1, e1), es.drop_first()));
    lemma_put_edits_one(put_edit(s, n1, e1), n2, e2);
}

/// Unrolling the batch decision at a fatal first update.
proof fn lemma_decide_fail(
    m: Map<Seq<u8>, TargetV>,
    objs: Map<Seq<u8>, Vec<Oid>>,
    updates: Seq<Update>,
    rejected: Seq<Update>,
    edits: Seq<(Seq<u8>, EditV)>,
    e: UpdateErrorV,
)
    requires
        updates.len() > 0,
        decide_one(m, objs, updates[0]) == DecisionV::Fail(e),
    ensures
        decide_from(m, objs, updates, rejected, edits) == BatchV::Fail(e),
{
}

/// Unrolling the batch decision at a rejected first update.
proof fn lemma_decide_reject(
    m: Map<Seq<u8>, TargetV>,
    objs: Map<Seq<u8>, Vec<Oid>>,
    updates: Seq<Update>,
    rejected: Seq<Update>,
    edits: Seq<(Seq<u8>, EditV)>,
)
    requires
        updates.len() > 0,
        decide_one(m, objs, updates[0]) == DecisionV::Reject,
    ensures
        decide_from(m, objs, updates, rejected, edits) == decide_from(
            m,
            objs,
            updates.drop_first(),
            rejected.push(updates[0]),
            edits,
        ),
{
}

/// Unrolling the batch decision at a skipped first update.
proof fn lemma_decide_skip(
    m: Map<Seq<u8>, TargetV>,
    objs: Map<Seq<u8>, Vec<Oid>>,
    updates: Seq<Update>,
    rejected: Seq<Update>,
    edits: Seq<(Seq<u8>, EditV)>,
)
    requires
        updates.len() > 0,
        decide_one(m, objs, updates[0]) == DecisionV::Skip,
    ensures
        decide_from(m, objs, updates, rejected, edits) == decide_from(
            m,
            objs,
            updates.drop_first(),
            rejected,
            edits,
        ),
{
}

/// Unrolling the batch decision at a first update that edits.
proof fn lemma_decide_edits(
    m: Map<Seq<u8>, TargetV>,
    objs: Map<Seq<u8>, Vec<Oid>>,
    updates: Seq<Update>,
    rejected: Seq<Update>,
    edits: Seq<(Seq<u8>, EditV)>,
    es: Seq<(Seq<u8>, EditV)>,
)
    requires
        updates.len() > 0,
        decide_one(m, objs, updates[0]) == DecisionV::Edits(es),
    ensures
        decide_from(m, objs, updates, rejected, edits) == decide_from(
            m,
            objs,
            updates.drop_first(),
            rejected,
            put_edits(edits, es),
        ),
{
}

impl Refdb {
    /// Apply a batch of updates as one transaction.
    ///
    /// Every update is decided against the state at entry — see
    /// [`decide_one`] — and the edits are de-duplicated by name, the last
    /// write winning. On any fatal decision the store is left untouched;
    /// otherwise all edits apply, and the outcome reports them faithfully:
    /// the new state is exactly the old state with the reported changes
    /// applied, and the rejected updates are returned as given.
    pub fn update(&mut self, updates: Vec<Update>) -> (r: Result<Applied, UpdateError>)
        requires
            old(self).wf(),
        ensures
            final(self).wf(),
            final(self).objects() == old(self).objects(),
            match r {
                Ok(applied) => decide_all(old(self)@, old(self).objects(), updates@) matches BatchV::Go {
                    rejected,
                    edits,
                } && applied.rejected@ == rejected && applied.updated@.len() == edits.len() && (
                forall|i: int|
                    0 <= i < edits.len() ==> updated_matches_edit(
                        #[trigger] applied.updated@[i],
                        edits[i].0,
                        edits[i].1,
                    )) && final(self)@ == apply_edits(old(self)@, edits),
                Err(e) => final(self)@ == old(self)@ && decide_all(
                    old(self)@,
                    old(self).objects(),
                    updates@,
                ) == BatchV::Fail(e@),
            },
    {
        let ghost m0 = self@;
        let ghost objs = self.objects();
        let ghost all = updates@;
        let mut pending = updates;
        let mut rejected: Vec<Update> = Vec::new();
        let mut edits: ByteMap<Edit> = ByteMap::new();
        let mut failure: Option<UpdateError> = None;
        let ghost idx: int = 0;
        proof {
            assert(all.skip(0) =~= all);
            assert(rejected@ =~= Seq::<Update>::empty());
            assert(pairs_of(edits) =~= Seq::<(Seq<u8>, EditV)>::empty());
        }
        while failure.is_none() && pending.len() > 0
            invariant
                self.wf(),
                *self == *old(self),
                m0 == self@,
                objs == self.objects(),
                edits.wf(),
                edits.val_seq().len() == edits.key_seq().len(),
                0 <= idx <= all.len(),
                pending@ == all.skip(idx),
                match failure {
                    Some(e) => decide_all(m0, objs, all) == BatchV::Fail(e@),
                    None => decide_from(m0, objs, all.skip(idx), rejected@, pairs_of(edits))
                        == decide_all(m0, objs, all),
                },
            decreases pending@.len(),
        {
            let ghost remaining = all.skip(idx);
            let u = pending.remove(0);
            proof {
                assert(u == remaining[0]);
                assert(remaining.drop_first() =~= all.skip(idx + 1));
                assert(pending@ =~= all.skip(idx + 1));
            }
            let ghost pre_edits = pairs_of(edits);
            let ghost pre_rejected = rejected@;
            match &u {
                Update::Direct { name, target, no_ff } => {
                    if !self.has_ref(name) {
                        let nk = name.clone();
                        let e = Edit::Write { target: Target::Direct(target.clone()), prev: Oid::zero() };
                        let ghost ev = e@;
                        proof {
                            assert(nk@ =~= name@);
                        }
                        let ghost eb = edits;
                        edits.insert(nk, e);
                        proof {
                            lemma_pairs_insert(eb, edits, name@, ev);
                            lemma_put_edits_one(pre_edits, name@, ev);
                            assert(decide_one(m0, objs, u) == DecisionV::Edits(seq![(name@, ev)]));
                            lemma_decide_edits(
                                m0,
                                objs,
                                remaining,
                                pre_rejected,
                                pre_edits,
                                seq![(name@, ev)],
                            );
                        }
                    } else {
                        match self.refname_to_id(name) {
                            None => {
                                let err_name = name.clone();
                                proof {
                                    assert(err_name@ =~= name@);
                                    assert(decide_one(m0, objs, u) == DecisionV::Fail(
                                        UpdateErrorV::Missing(name@),
                                    ));
                                    lemma_decide_fail(
                                        m0,
                                        objs,
                                        remaining,
                                        pre_rejected,
                                        pre_edits,
                                        UpdateErrorV::Missing(name@),
                                    );
                                }
                                failure = Some(UpdateError::Missing(err_name));
                            },
                            Some(prev) => {
                                if bytes_eq(prev.bytes(), target.bytes()) {
                                    proof {
                                        assert(decide_one(m0, objs, u) == DecisionV::Skip);
                                        lemma_decide_skip(
                                            m0,
                                            objs,
                                            remaining,
                                            pre_rejected,
                                            pre_edits,
                                        );
                                    }
                                } else {
                                    match self.is_in_ancestry_path(target, &prev) {
                                        Err(_) => {
                                            proof {
                                                assert(decide_one(m0, objs, u) == DecisionV::Fail(
                                                    UpdateErrorV::Revwalk(target@),
                                                ));
                                                lemma_decide_fail(
                                                    m0,
                                                    objs,
                                                    remaining,
                                                    pre_rejected,
                                                    pre_edits,
                                                    UpdateErrorV::Revwalk(target@),
                                                );
                                            }
                                            failure = Some(UpdateError::Revwalk(target.clone()));
                                        },
                                        Ok(is_ff) => {
                                            if !is_ff && matches!(no_ff, Policy::Abort) {
                                                let err_name = name.clone();
                                                proof {
                                                    assert(err_name@ =~= name@);
                                                    assert(decide_one(m0, objs, u)
                                                        == DecisionV::Fail(
                                                        UpdateErrorV::NonFF {
                                                            name: name@,
                                                            new: target@,
                                                            cur: prev@,
                                                        },
                                                    ));
                                                    lemma_decide_fail(
                                                        m0,
                                                        objs,
                                                        remaining,
                                                        pre_rejected,
                                                        pre_edits,
                                                        UpdateErrorV::NonFF {
                                                            name: name@,
                                                            new: target@,
                                                            cur: prev@,
                                                        },
                                                    );
                                                }
                                                failure = Some(
                                                    UpdateError::NonFF {
                                                        name: err_name,
                                                        new: target.clone(),
                                                        cur: prev,
                                                    },
                                                );
                                            } else if !is_ff && matches!(no_ff, Policy::Reject) {
                                                proof {
                                                    assert(decide_one(m0, objs, u)
                                                        == DecisionV::Reject);
                                                    lemma_decide_reject(
                                                        m0,
                                                        objs,
                                                        remaining,
                                                        pre_rejected,
                                                        pre_edits,
                                                    );
                                                }
                                                rejected.push(u);
                                            } else {
                                                let nk = name.clone();
                                                let e = Edit::Write {
                                                    target: Target::Direct(target.clone()),
                                                    prev,
                                                };
                                                let ghost ev = e@;
                                                proof {
                                                    assert(nk@ =~= name@);
                                                }
                                                let ghost eb = edits;
                                                edits.insert(nk, e);
                                                proof {
                                                    lemma_pairs_insert(eb, edits, name@, ev);
                                                    lemma_put_edits_one(pre_edits, name@, ev);
                                                    assert(decide_one(m0, objs, u)
                                                        == DecisionV::Edits(seq![(name@, ev)]));
                                                    lemma_decide_edits(
                                                        m0,
                                                        objs,
                                                        remaining,
                                                        pre_rejected,
                                                        pre_edits,
                                                        seq![(name@, ev)],
                                                    );
                                                }
                                            }
                                        },
                                    }
                                }
                            },
                        }
                    }
                },
                Update::Symbolic { name, target, type_change } => {
                    let mut src_is_direct = false;
                    match self.refs.get(name) {
                        Some(Target::Direct(_)) => {
                            src_is_direct = true;
                        },
                        _ => {},
                    }
                    proof {
                        assert(src_is_direct == (m0.contains_key(name@) && m0[name@] is Direct));
                    }
                    if src_is_direct && matches!(type_change, Policy::Abort) {
                        let err_name = name.clone();
                        proof {
                            assert(err_name@ =~= name@);
                            assert(decide_one(m0, objs, u) == DecisionV::Fail(
                                UpdateErrorV::TypeChange(name@),
                            ));
                            lemma_decide_fail(
                                m0,
                                objs,
                                remaining,
                                pre_rejected,
                                pre_edits,
                                UpdateErrorV::TypeChange(name@),
                            );
                        }
                        failure = Some(UpdateError::TypeChange(err_name));
                    } else if src_is_direct && matches!(type_change, Policy::Reject) {
                        proof {
                            assert(decide_one(m0, objs, u) == DecisionV::Reject);
                            lemma_decide_reject(m0, objs, remaining, pre_rejected, pre_edits);
                        }
                        rejected.push(u);
                    } else {
                        let dst = &target.name;
                        let dst_oid = &target.target;
                        let mut dst_cur: Option<Oid> = None;
                        let mut dst_sym = false;
                        match self.refs.get(dst) {
                            Some(Target::Direct(o)) => {
                                dst_cur = Some(o.clone());
                            },
                            Some(Target::Symbolic(_)) => {
                                dst_sym = true;
                            },
                            None => {},
                        }
                        if dst_sym {
                            let err_name = dst.clone();
                            proof {
                                assert(err_name@ =~= dst@);
                                assert(decide_one(m0, objs, u) == DecisionV::Fail(
                                    UpdateErrorV::TargetSymbolic(dst@),
                                ));
                                lemma_decide_fail(
                                    m0,
                                    objs,
                                    remaining,
                                    pre_rejected,
                                    pre_edits,
                                    UpdateErrorV::TargetSymbolic(dst@),
                                );
                            }
                            failure = Some(UpdateError::TargetSymbolic(err_name));
                        } else {
                            match dst_cur {
                                None => {
                                    let dk = dst.clone();
                                    let e1 = Edit::Write {
                                        target: Target::Direct(dst_oid.clone()),
                                        prev: Oid::zero(),
                                    };
                                    let nk = name.clone();
                                    let e2 = Edit::Write {
                                        target: Target::Symbolic(dst.clone()),
                                        prev: Oid::zero(),
                                    };
                                    let ghost ev1 = e1@;
                                    let ghost ev2 = e2@;
                                    proof {
                                        assert(dk@ =~= dst@);
                                        assert(nk@ =~= name@);
                                    }
                                    let ghost eb1 = edits;
                                    edits.insert(dk, e1);
                                    proof {
                                        lemma_pairs_insert(eb1, edits, dst@, ev1);
                                    }
                                    let ghost eb2 = edits;
                                    edits.insert(nk, e2);
                                    proof {
                                        lemma_pairs_insert(eb2, edits, name@, ev2);
                                        lemma_put_edits_two(pre_edits, dst@, ev1, name@, ev2);
                                        assert(decide_one(m0, objs, u) == DecisionV::Edits(
                                            seq![(dst@, ev1), (name@, ev2)],
                                        ));
                                        lemma_decide_edits(
                                            m0,
                                            objs,
                                            remaining,
                                            pre_rejected,
                                            pre_edits,
                                            seq![(dst@, ev1), (name@, ev2)],
                                        );
                                    }
                                },
                                Some(cur) => {
                                    let mut is_ff = false;
                                    let mut walk_failed = false;
                                    if !bytes_eq(dst_oid.bytes(), cur.bytes()) {
                                        match self.is_in_ancestry_path(dst_oid, &cur) {
                                            Err(_) => {
                                                proof {
                                                    assert(decide_one(m0, objs, u)
                                                        == DecisionV::Fail(
                                                        UpdateErrorV::Revwalk(dst_oid@),
                                                    ));
                                                    lemma_decide_fail(
                                                        m0,
                                                        objs,
                                                        remaining,
                                                        pre_rejected,
                                                        pre_edits,
                                                        UpdateErrorV::Revwalk(dst_oid@),
                                                    );
                                                }
                                                failure = Some(
                                                    UpdateError::Revwalk(dst_oid.clone()),
                                                );
                                                walk_failed = true;
                                            },
                                            Ok(ff) => {
                                                is_ff = ff;
                                            },
                                        }
                                    }
                                    if walk_failed {
                                    } else if is_ff {
                                        let dk = dst.clone();
                                        let e1 = Edit::Write {
                                            target: Target::Direct(dst_oid.clone()),
                                            prev: cur.clone(),
                                        };
                                        let nk = name.clone();
                                        let e2 = Edit::Write {
                                            target: Target::Symbolic(dst.clone()),
                                            prev: cur.clone(),
                                        };
                                        let ghost ev1 = e1@;
                                        let ghost ev2 = e2@;
                                        proof {
                                            assert(dk@ =~= dst@);
                                            assert(nk@ =~= name@);
                                        }
                                        let ghost eb1 = edits;
                                        edits.insert(dk, e1);
                                        proof {
                                            lemma_pairs_insert(eb1, edits, dst@, ev1);
                                        }
                                        let ghost eb2 = edits;
                                        edits.insert(nk, e2);
                                        proof {
                                            lemma_pairs_insert(eb2, edits, name@, ev2);
                                            lemma_put_edits_two(pre_edits, dst@, ev1, name@, ev2);
                                            assert(decide_one(m0, objs, u) == DecisionV::Edits(
                                                seq![(dst@, ev1), (name@, ev2)],
                                            ));
                                            lemma_decide_edits(
                                                m0,
                                                objs,
                                                remaining,
                                                pre_rejected,
                                                pre_edits,
                                                seq![(dst@, ev1), (name@, ev2)],
                                            );
                                        }
                                    } else {
                                        let nk = name.clone();
                                        let e2 = Edit::Write {
                                            target: Target::Symbolic(dst.clone()),
                                            prev: cur.clone(),
                                        };
                                        let ghost ev2 = e2@;
                                        proof {
                                            assert(nk@ =~= name@);
                                        }
                                        let ghost eb2 = edits;
                                        edits.insert(nk, e2);
                                        proof {
                                            lemma_pairs_insert(eb2, edits, name@, ev2);
                                            lemma_put_edits_one(pre_edits, name@, ev2);
                                            assert(decide_one(m0, objs, u) == DecisionV::Edits(
                                                seq![(name@, ev2)],
                                            ));
                                            lemma_decide_edits(
                                                m0,
                                                objs,
                                                remaining,
                                                pre_rejected,
                                                pre_edits,
                                                seq![(name@, ev2)],
                                            );
                                        }
                                    }
                                },
                            }
                        }
                    }
                },
                Update::Prune { name, prev } => {
                    let resolved: Option<Oid> = match prev {
                        PrevValue::Oid(o) => Some(o.clone()),
                        PrevValue::Name(n) => self.refname_to_id(n),
                    };
                    if resolved.is_none() {
                        let missing_name = match prev {
                            PrevValue::Oid(o) => o.bytes().clone(),
                            PrevValue::Name(n) => n.clone(),
                        };
                        proof {
                            assert(decide_one(m0, objs, u) == DecisionV::Fail(
                                UpdateErrorV::Missing(missing_name@),
                            ));
                            lemma_decide_fail(
                                m0,
                                objs,
                                remaining,
                                pre_rejected,
                                pre_edits,
                                UpdateErrorV::Missing(missing_name@),
                            );
                        }
                        failure = Some(UpdateError::Missing(missing_name));
                    } else if !self.has_ref(name) {
                        proof {
                            assert(decide_one(m0, objs, u) == DecisionV::Reject);
                            lemma_decide_reject(m0, objs, remaining, pre_rejected, pre_edits);
                        }
                        rejected.push(u);
                    } else {
                        let cur = match self.refname_to_id(name) {
                            Some(o) => o,
                            None => Oid::zero(),
                        };
                        let nk = name.clone();
                        let e = Edit::Delete { prev: cur };
                        let ghost ev = e@;
                        proof {
                            assert(nk@ =~= name@);
                        }
                        let ghost eb = edits;
                        edits.insert(nk, e);
                        proof {
                            lemma_pairs_insert(eb, edits, name@, ev);
                            lemma_put_edits_one(pre_edits, name@, ev);
                            assert(decide_one(m0, objs, u) == DecisionV::Edits(seq![(name@, ev)]));
                            lemma_decide_edits(
                                m0,
                                objs,
                                remaining,
                                pre_rejected,
                                pre_edits,
                                seq![(name@, ev)],
                            );
                        }
                    }
                },
            }
            proof {
                idx = idx + 1;
            }
        }
        match failure {
            Some(e) => {
                return Err(e);
            },
            None => {},
        }
        proof {
            assert(all.skip(idx) =~= Seq::<Update>::empty());
            assert(decide_from(m0, objs, all.skip(idx), rejected@, pairs_of(edits)) == BatchV::Go {
                rejected: rejected@,
                edits: pairs_of(edits),
            });
        }
        // all decisions made; apply the edits
        let ghost final_edits = pairs_of(edits);
        let mut updated: Vec<Updated> = Vec::new();
        let n = edits.len();
        let mut i: usize = 0;
        proof {
            assert(final_edits.take(0) =~= Seq::<(Seq<u8>, EditV)>::empty());
        }
        while i < n
            invariant
                self.wf(),
                edits.wf(),
                edits.val_seq().len() == edits.key_seq().len(),
                objs == self.objects(),
                m0 == old(self)@,
                objs == old(self).objects(),
                n == edits.spec_len(),
                i <= n,
                final_edits == pairs_of(edits),
                self@ == apply_edits(m0, final_edits.take(i as int)),
                updated@.len() == i,
                forall|j: int|
                    0 <= j < i ==> updated_matches_edit(
                        #[trigger] updated@[j],
                        final_edits[j].0,
                        final_edits[j].1,
                    ),
            decreases n - i,
        {
            let (name, e) = edits.entry_at(i);
            let name2 = name.clone();
            let rec_name = name.clone();
            proof {
                assert(name2@ =~= name@);
                assert(rec_name@ =~= name@);
                edits.lemma_lens();
                assert(final_edits[i as int] == (name@, e@));
                assert(final_edits.take(i as int + 1) =~= final_edits.take(i as int).push(
                    final_edits[i as int],
                ));
                lemma_apply_edits_push(m0, final_edits.take(i as int), final_edits[i as int]);
            }
            let ghost view_before = self@;
            match e {
                Edit::Write { target, prev } => {
                    let t2 = target.clone();
                    let rec = match target {
                        Target::Direct(o) => Updated::Direct {
                            name: rec_name,
                            prev: prev.clone(),
                            target: o.clone(),
                        },
                        Target::Symbolic(sname) => {
                            let s2 = sname.clone();
                            proof {
                                assert(s2@ =~= sname@);
                            }
                            Updated::Symbolic { name: rec_name, prev: prev.clone(), target: s2 }
                        },
                    };
                    self.refs.insert(name2, t2);
                    updated.push(rec);
                    proof {
                        assert(self@ =~= view_before.insert(name@, target@));
                    }
                },
                Edit::Delete { prev } => {
                    self.refs.remove(&name2);
                    updated.push(Updated::Prune { name: rec_name, prev: prev.clone() });
                    proof {
                        assert(self@ =~= view_before.remove(name@));
                    }
                },
            }
            i = i + 1;
        }
        proof {
            assert(final_edits.take(n as int) =~= final_edits);
        }
        Ok(Applied { rejected, updated })
    }
}

/// Unchanged references decide to nothing, whatever came before.
proof fn lemma_replay_from(
    m: Map<Seq<u8>, TargetV>,
    objs: Map<Seq<u8>, Vec<Oid>>,
    updates: Seq<Update>,
    rejected: Seq<Update>,
    edits: Seq<(Seq<u8>, EditV)>,
)
    requires
        forall|i: int|
            0 <= i < updates.len() ==> ((#[trigger] updates[i]) matches Update::Direct {
                name,
                target,
                ..
            } && lookup(m, name@) == Some(target@)),
    ensures
        decide_from(m, objs, updates, rejected, edits) == (BatchV::Go { rejected, edits }),
    decreases updates.len(),
{
    if updates.len() > 0 {
        assert(updates[0] matches Update::Direct { name, target, .. } && lookup(m, name@)
            == Some(target@));
        assert(decide_one(m, objs, updates[0]) == DecisionV::Skip);
        assert forall|i: int|
            0 <= i < updates.drop_first().len() implies ((#[trigger] updates.drop_first()[i]) matches Update::Direct {
            name,
            target,
            ..
        } && lookup(m, name@) == Some(target@)) by {
            assert(updates.drop_first()[i] == updates[i + 1]);
        }
        lemma_replay_from(m, objs, updates.drop_first(), rejected, edits);
    }
}

/// Idempotent replay: a batch of direct updates that set every reference
/// to the object id it already peels to decides to an empty outcome — no
/// edit, no rejection — so applying it reports nothing and leaves the
/// store exactly as it was.
pub proof fn lemma_replay_noop(
    m: Map<Seq<u8>, TargetV>,
    objs: Map<Seq<u8>, Vec<Oid>>,
    updates: Seq<Update>,
)
    requires
        forall|i: int|
            0 <= i < updates.len() ==> ((#[trigger] updates[i]) matches Update::Direct {
                name,
                target,
                ..
            } && lookup(m, name@) == Some(target@)),
    ensures
        decide_all(m, objs, updates) == (BatchV::Go {
            rejected: Seq::<Update>::empty(),
            edits: Seq::<(Seq<u8>, EditV)>::empty(),
        }),
        apply_edits(m, Seq::<(Seq<u8>, EditV)>::empty()) == m,
{
    lemma_replay_from(m, objs, updates, Seq::empty(), Seq::empty());
}

/// The local peer's committer information: an alias and its key. The
/// committer email is `<alias>@<key text>`.
#[derive(Debug)]
pub struct UserInfo {
    /// Alias of the local peer.
    pub alias: Vec<u8>,
    /// Key of the local peer.
    pub key: PublicKey,
}

impl UserInfo {
    /// The committer name: the alias.
    pub fn name(&self) -> (r: Vec<u8>)
        ensures
            r@ == self.alias@,
    {
        let r = self.alias.clone();
        proof {
            assert(r@ =~= self.alias@);
        }
        r
    }

    /// The committer email: `<alias>@<hex of the key>`.
    pub fn email(&self) -> (r: Vec<u8>)
        requires
            self.key.wf(),
        ensures
            r@ == self.alias@ + seq![64u8] + crate::bytes::hex_of(self.key@),
    {
        let mut r = self.alias.clone();
        proof {
            assert(r@ =~= self.alias@);
        }
        r.push(64u8);
        let text = crate::bytes::to_hex(self.key.bytes());
        let out = crate::bytes::join(&r, &text);
        proof {
            assert(out@ =~= self.alias@ + seq![64u8] + crate::bytes::hex_of(self.key@));
        }
        out
    }
}

} // verus!
