//! The in-memory staging refdb.
//!
//! During an exchange, pending updates accumulate here so that later rounds
//! see them, while the real reference store stays untouched until the
//! updates are committed. The staging store collapses symbolic updates to
//! the target's object id and never rejects anything.

use crate::bytemap::ByteMap;
use crate::bytes::has_prefix;
use crate::oid::{zero_oid, Oid};
use crate::update::{Applied, Update, Updated};
use vstd::prelude::*;

verus! {

/// One update applied to a staging map.
pub open spec fn stage_one(m: Map<Seq<u8>, Seq<u8>>, u: Update) -> Map<Seq<u8>, Seq<u8>> {
    match u {
        Update::Direct { name, target, .. } => m.insert(name@, target@),
        Update::Symbolic { name, target, .. } => m.insert(name@, target.target@),
        Update::Prune { name, .. } => m.remove(name@),
    }
}

/// The first `i` updates applied to a staging map, in order.
pub open spec fn stage_upto(m: Map<Seq<u8>, Seq<u8>>, us: Seq<Update>, i: int) -> Map<
    Seq<u8>,
    Seq<u8>,
>
    decreases i,
{
    if i <= 0 {
        m
    } else {
        stage_one(stage_upto(m, us, i - 1), us[i - 1])
    }
}

/// A whole batch applied to a staging map.
pub open spec fn stage_all(m: Map<Seq<u8>, Seq<u8>>, us: Seq<Update>) -> Map<Seq<u8>, Seq<u8>> {
    stage_upto(m, us, us.len() as int)
}

/// The change records of staging a batch on `m`, in order: a direct or
/// symbolic update yields one record whose previous id is the staged value
/// it replaced — the zero id on creation — and a prune yields a record of
/// the removed value exactly when the name was present.
pub open spec fn records_match(
    m: Map<Seq<u8>, Seq<u8>>,
    us: Seq<Update>,
    out: Seq<Updated>,
) -> bool
    decreases us.len(),
{
    if us.len() == 0 {
        out.len() == 0
    } else {
        let m2 = stage_one(m, us[0]);
        match us[0] {
            Update::Direct { name, target, .. } => out.len() >= 1 && (
            out[0] matches Updated::Direct { name: n, prev, target: t } && n@ == name@ && t@
                == target@ && prev@ == (if m.contains_key(name@) {
                m[name@]
            } else {
                zero_oid()
            })) && records_match(m2, us.drop_first(), out.drop_first()),
            Update::Symbolic { name, target, .. } => out.len() >= 1 && (
            out[0] matches Updated::Symbolic { name: n, prev, target: t } && n@ == name@ && t@
                == target.name@ && prev@ == (if m.contains_key(name@) {
                m[name@]
            } else {
                zero_oid()
            })) && records_match(m2, us.drop_first(), out.drop_first()),
            Update::Prune { name, .. } => if m.contains_key(name@) {
                out.len() >= 1 && (out[0] matches Updated::Prune { name: n, prev } && n@ == name@
                    && prev@ == m[name@]) && records_match(m2, us.drop_first(), out.drop_first())
            } else {
                records_match(m2, us.drop_first(), out)
            },
        }
    }
}

/// What a staging scan returns: exactly the names under the prefix, each
/// with its object id, without repetition.
pub open spec fn mem_scan_post(
    m: Map<Seq<u8>, Seq<u8>>,
    pfx: Option<Seq<u8>>,
    r: Seq<(Vec<u8>, Oid)>,
) -> bool {
    &&& forall|i: int|
        0 <= i < r.len() ==> m.contains_key(#[trigger] r[i].0@) && crate::refdb::prefix_matches(
            pfx,
            r[i].0@,
        ) && m[r[i].0@] == r[i].1@
    &&& forall|k: Seq<u8>|
        #[trigger] m.contains_key(k) && crate::refdb::prefix_matches(pfx, k) ==> exists|i: int|
            0 <= i < r.len() && r[i].0@ == k
    &&& forall|i: int, j: int| 0 <= i < j < r.len() ==> r[i].0@ != r[j].0@
}

/// An in-memory reference store: a map from names to object ids.
pub struct InMemory {
    refs: ByteMap<Oid>,
}

impl View for InMemory {
    type V = Map<Seq<u8>, Seq<u8>>;

    closed spec fn view(&self) -> Map<Seq<u8>, Seq<u8>> {
        self.refs@.map_values(|o: Oid| o@)
    }
}

impl InMemory {
    pub closed spec fn wf(&self) -> bool {
        self.refs.wf()
    }

    /// An empty staging store.
    pub fn new() -> (r: InMemory)
        ensures
            r.wf(),
            r@ == Map::<Seq<u8>, Seq<u8>>::empty(),
    {
        let r = InMemory { refs: ByteMap::new() };
        proof {
            assert(r@ =~= Map::<Seq<u8>, Seq<u8>>::empty());
        }
        r
    }

    /// Resolve a name.
    pub fn refname_to_id(&self, name: &Vec<u8>) -> (r: Option<Oid>)
        requires
            self.wf(),
        ensures
            match r {
                Some(o) => self@.contains_key(name@) && self@[name@] == o@,
                None => !self@.contains_key(name@),
            },
    {
        match self.refs.get(name) {
            Some(o) => Some(o.clone()),
            None => None,
        }
    }

    /// Apply updates. A direct or symbolic update sets the name to the
    /// target's object id, recording the previous id (the zero id on
    /// creation); a prune takes the name out, recording what it held, and
    /// does nothing when the name is absent. Nothing is ever rejected.
    pub fn update(&mut self, updates: &Vec<Update>) -> (r: Applied)
        requires
            old(self).wf(),
        ensures
            final(self).wf(),
            final(self)@ == stage_all(old(self)@, updates@),
            r.rejected@.len() == 0,
            records_match(old(self)@, updates@, r.updated@),
    {
        let ghost m0 = self@;
        let ghost all = updates@;
        let mut applied = Applied::new();
        proof {
            assert forall|rest: Seq<Updated>|
                records_match(self@, all.skip(0), rest) implies records_match(
                m0,
                all,
                #[trigger] (applied.updated@ + rest),
            ) by {
                assert(all.skip(0) =~= all);
                assert(applied.updated@ + rest =~= rest);
            }
        }
        let mut i: usize = 0;
        while i < updates.len()
            invariant
                self.wf(),
                all == updates@,
                i <= all.len(),
                self@ == stage_upto(m0, all, i as int),
                applied.rejected@.len() == 0,
                forall|rest: Seq<Updated>|
                    records_match(self@, all.skip(i as int), rest) ==> records_match(
                        m0,
                        all,
                        #[trigger] (applied.updated@ + rest),
                    ),
            decreases all.len() - i,
        {
            let u = &updates[i];
            let ghost before = self@;
            let ghost au_before = applied.updated@;
            match u {
                Update::Direct { name, target, .. } => {
                    let prev = match self.refs.get(name) {
                        Some(o) => o.clone(),
                        None => Oid::zero(),
                    };
                    proof {
                        if before.contains_key(name@) {
                            assert(prev@ == before[name@]);
                        } else {
                            assert(prev@ == zero_oid());
                        }
                    }
                    let nk = name.clone();
                    let rn = name.clone();
                    proof {
                        assert(nk@ =~= name@);
                        assert(rn@ =~= name@);
                    }
                    self.refs.insert(nk, target.clone());
                    applied.updated.push(
                        Updated::Direct { name: rn, prev, target: target.clone() },
                    );
                    proof {
                        assert(self@ =~= before.insert(name@, target@));
                    }
                },
                Update::Symbolic { name, target, .. } => {
                    let prev = match self.refs.get(name) {
                        Some(o) => o.clone(),
                        None => Oid::zero(),
                    };
                    proof {
                        if before.contains_key(name@) {
                            assert(prev@ == before[name@]);
                        } else {
                            assert(prev@ == zero_oid());
                        }
                    }
                    let nk = name.clone();
                    let rn = name.clone();
                    let tname = target.name.clone();
                    proof {
                        assert(nk@ =~= name@);
                        assert(rn@ =~= name@);
                        assert(tname@ =~= target.name@);
                    }
                    self.refs.insert(nk, target.target.clone());
                    applied.updated.push(
                        Updated::Symbolic { name: rn, prev, target: tname },
                    );
                    proof {
                        assert(self@ =~= before.insert(name@, target.target@));
                    }
                },
                Update::Prune { name, .. } => {
                    match self.refs.remove(name) {
                        Some(prev) => {
                            proof {
                                assert(before.contains_key(name@));
                                assert(prev@ == before[name@]);
                            }
                            let rn = name.clone();
                            proof {
                                assert(rn@ =~= name@);
                            }
                            applied.updated.push(Updated::Prune { name: rn, prev });
                        },
                        None => {
                            proof {
                                assert(!before.contains_key(name@));
                            }
                        },
                    }
                    proof {
                        assert(self@ =~= before.remove(name@));
                    }
                },
            }
            proof {
                assert(self@ == stage_one(before, all[i as int]));
                assert(all.skip(i as int).len() > 0);
                assert(all.skip(i as int)[0] == all[i as int]);
                assert(all.skip(i as int).drop_first() =~= all.skip(i as int + 1));
                assert forall|rest: Seq<Updated>|
                    records_match(self@, all.skip(i as int + 1), rest) implies records_match(
                    m0,
                    all,
                    #[trigger] (applied.updated@ + rest),
                ) by {
                    if applied.updated@.len() > au_before.len() {
                        let rec = applied.updated@[au_before.len() as int];
                        let r2 = seq![rec] + rest;
                        assert(r2.len() >= 1);
                        assert(r2[0] == rec);
                        assert(r2.drop_first() =~= rest);
                        assert(records_match(before, all.skip(i as int), r2));
                        assert(applied.updated@ + rest =~= au_before + r2);
                        assert(records_match(m0, all, au_before + r2));
                    } else {
                        assert(records_match(before, all.skip(i as int), rest));
                        assert(applied.updated@ + rest =~= au_before + rest);
                        assert(records_match(m0, all, au_before + rest));
                    }
                }
            }
            i = i + 1;
        }
        proof {
            assert(all.skip(all.len() as int) =~= Seq::<Update>::empty());
            assert(records_match(self@, all.skip(all.len() as int), Seq::<Updated>::empty()));
            assert(applied.updated@ + Seq::<Updated>::empty() =~= applied.updated@);
            assert(records_match(m0, all, applied.updated@));
        }
        applied
    }

    /// The names under the prefix, with their object ids.
    pub fn scan(&self, prefix: Option<&Vec<u8>>) -> (r: Vec<(Vec<u8>, Oid)>)
        requires
            self.wf(),
        ensures
            mem_scan_post(self@, crate::refdb::prefix_view(prefix), r@),
    {
        let ghost m = self@;
        let mut r: Vec<(Vec<u8>, Oid)> = Vec::new();
        let n = self.refs.len();
        let mut i: usize = 0;
        while i < n
            invariant
                self.wf(),
                m == self@,
                n == self.refs.spec_len(),
                i <= n,
                forall|j: int|
                    0 <= j < r@.len() ==> m.contains_key(#[trigger] r@[j].0@)
                        && crate::refdb::prefix_matches(crate::refdb::prefix_view(prefix), r@[j].0@)
                        && m[r@[j].0@] == r@[j].1@,
                forall|ki: int|
                    0 <= ki < i && crate::refdb::prefix_matches(
                        crate::refdb::prefix_view(prefix),
                        #[trigger] self.refs.key_seq()[ki],
                    ) ==> exists|j: int| 0 <= j < r@.len() && r@[j].0@ == self.refs.key_seq()[ki],
                forall|j: int|
                    0 <= j < r@.len() ==> exists|ki: int|
                        0 <= ki < i && self.refs.key_seq()[ki] == #[trigger] r@[j].0@,
                forall|j1: int, j2: int| 0 <= j1 < j2 < r@.len() ==> r@[j1].0@ != r@[j2].0@,
            decreases n - i,
        {
            let (name, oid) = self.refs.entry_at(i);
            let keep = match prefix {
                Some(p) => crate::bytes::starts_with(name, p),
                None => true,
            };
            if keep {
                let name2 = name.clone();
                let o2 = oid.clone();
                proof {
                    assert(name2@ =~= name@);
                    self.refs.lemma_entry(i as int);
                }
                let ghost r_before = r@;
                r.push((name2, o2));
                proof {
                    assert(r@[r@.len() - 1].0@ == self.refs.key_seq()[i as int]);
                    assert forall|j1: int, j2: int|
                        0 <= j1 < j2 < r@.len() implies r@[j1].0@ != r@[j2].0@ by {
                        if j2 == r@.len() - 1 {
                            let ki = choose|ki: int|
                                0 <= ki < i && self.refs.key_seq()[ki] == r_before[j1].0@;
                            self.refs.lemma_keys_distinct(ki, i as int);
                        }
                    }
                    assert forall|ki: int|
                        0 <= ki < i + 1 && crate::refdb::prefix_matches(
                            crate::refdb::prefix_view(prefix),
                            #[trigger] self.refs.key_seq()[ki],
                        ) implies exists|j: int|
                        0 <= j < r@.len() && r@[j].0@ == self.refs.key_seq()[ki] by {
                        if ki < i {
                            let j = choose|j: int|
                                0 <= j < r_before.len() && r_before[j].0@
                                    == self.refs.key_seq()[ki];
                            assert(r@[j].0@ == self.refs.key_seq()[ki]);
                        } else {
                            assert(r@[r@.len() - 1].0@ == self.refs.key_seq()[ki]);
                        }
                    }
                    assert forall|j: int| 0 <= j < r@.len() implies exists|ki: int|
                        0 <= ki < i + 1 && self.refs.key_seq()[ki] == #[trigger] r@[j].0@ by {
                        if j < r_before.len() {
                            let ki = choose|ki: int|
                                0 <= ki < i && self.refs.key_seq()[ki] == r_before[j].0@;
                            assert(self.refs.key_seq()[ki] == r@[j].0@);
                        } else {
                            assert(self.refs.key_seq()[i as int] == r@[j].0@);
                        }
                    }
                }
            } else {
                proof {
                    assert(!crate::refdb::prefix_matches(
                        crate::refdb::prefix_view(prefix),
                        self.refs.key_seq()[i as int],
                    ));
                }
            }
            i = i + 1;
        }
        proof {
            assert forall|k: Seq<u8>|
                #[trigger] m.contains_key(k) && crate::refdb::prefix_matches(
                    crate::refdb::prefix_view(prefix),
                    k,
                ) implies exists|j: int| 0 <= j < r@.len() && r@[j].0@ == k by {
                self.refs.lemma_dom(k);
                let ki = choose|ki: int|
                    0 <= ki < self.refs.key_seq().len() && self.refs.key_seq()[ki] == k;
            }
        }
        r
    }

    /// Take out every entry. Used when the identity round's tips have been
    /// committed and the data round starts fresh.
    pub fn clear(&mut self)
        ensures
            final(self).wf(),
            final(self)@ == Map::<Seq<u8>, Seq<u8>>::empty(),
    {
        self.refs = ByteMap::new();
        proof {
            assert(self@ =~= Map::<Seq<u8>, Seq<u8>>::empty());
        }
    }
}

} // verus!
