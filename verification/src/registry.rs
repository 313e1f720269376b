//! The target registry: symmetry-aware deduplication of signatures.
//!
//! Every displacement signature the point builder needs is funneled through
//! [`Registry::lookup_or_insert`].  The registry canonicalizes the signature
//! under the point group and either finds the existing target with that
//! canonical representative or allocates a fresh one with the next dense id.
//! The full signature-to-id map is retained so the assembler can later reuse
//! one sampled energy for every signature of an orbit.

use vstd::prelude::*;

use crate::sig::sig_copy;
use crate::sig::sig_eq;
use crate::sig::sig_wf;
use crate::symmetry::canon;
use crate::symmetry::group_wf;
use crate::symmetry::PointGroup;
use crate::MAX_COORDS;

verus! {

/// One deduplicated stencil sample: the canonical orbit key and the
/// untransformed signature whose geometry is submitted for this orbit.
pub struct Target {
    pub rep: Vec<i32>,
    pub disp: Vec<i32>,
}

/// One entry of the signature-to-id map.
pub struct SigEntry {
    pub sig: Vec<i32>,
    pub id: usize,
}

/// The registry of targets for one point-building pass.
pub struct Registry {
    /// Number of coordinates every signature must have.
    pub n: usize,
    /// The point group signatures are canonicalized under.
    pub pg: PointGroup,
    /// Deduplicated targets; a target's id is its position.
    pub targets: Vec<Target>,
    /// Every signature ever looked up, with the id it resolved to.
    pub sig_map: Vec<SigEntry>,
}

/// There is a target whose canonical key is `key`.
pub open spec fn has_rep(ts: Seq<Target>, key: Seq<i32>) -> bool {
    exists|t: int| 0 <= t < ts.len() && (#[trigger] ts[t]).rep@ == key
}

/// Some mapped signature has the canonical form `key`.
pub open spec fn canon_seen(pg: PointGroup, sm: Seq<SigEntry>, key: Seq<i32>) -> bool {
    exists|e: int| 0 <= e < sm.len() && canon(pg, (#[trigger] sm[e]).sig@) == key
}

/// How many mapped signatures repeated an earlier signature's canonical
/// form.  Each such repetition reused a target instead of allocating one.
pub open spec fn canon_dups(pg: PointGroup, sm: Seq<SigEntry>) -> int
    decreases sm.len(),
{
    if sm.len() == 0 {
        0
    } else {
        canon_dups(pg, sm.drop_last()) + if canon_seen(
            pg,
            sm.drop_last(),
            canon(pg, sm.last().sig@),
        ) {
            1int
        } else {
            0int
        }
    }
}

/// Target `t` is the resolution of some mapped signature.
pub open spec fn target_mapped(r: Registry, t: int) -> bool {
    exists|e: int| 0 <= e < r.sig_map@.len() && (#[trigger] r.sig_map@[e]).id == t
}

/// Registry well-formedness: a valid group, well-formed signatures, every
/// target keyed by the canonical representative of its own displacement,
/// pairwise-distinct keys, and a sound signature-to-id map.
pub open spec fn reg_wf(r: Registry) -> bool {
    &&& r.n <= MAX_COORDS
    &&& group_wf(r.pg, r.n as nat)
    &&& forall|t: int|
        0 <= t < r.targets@.len() ==> sig_wf((#[trigger] r.targets@[t]).disp@, r.n as nat)
    &&& forall|t: int|
        0 <= t < r.targets@.len() ==> (#[trigger] r.targets@[t]).rep@ == canon(
            r.pg,
            r.targets@[t].disp@,
        )
    &&& forall|t1: int, t2: int|
        0 <= t1 < r.targets@.len() && 0 <= t2 < r.targets@.len() && t1 != t2
            ==> (#[trigger] r.targets@[t1]).rep@ != (#[trigger] r.targets@[t2]).rep@
    &&& forall|e: int|
        0 <= e < r.sig_map@.len() ==> (#[trigger] r.sig_map@[e]).id < r.targets@.len()
    &&& forall|e: int|
        0 <= e < r.sig_map@.len() ==> sig_wf((#[trigger] r.sig_map@[e]).sig@, r.n as nat)
    &&& forall|e: int|
        0 <= e < r.sig_map@.len() ==> r.targets@[(#[trigger] r.sig_map@[e]).id as int].rep@
            == canon(r.pg, r.sig_map@[e].sig@)
    &&& forall|t: int| 0 <= t < r.targets@.len() ==> #[trigger] target_mapped(r, t)
    &&& r.targets@.len() + canon_dups(r.pg, r.sig_map@) == r.sig_map@.len()
    &&& r.targets@.len() <= r.sig_map@.len()
}

/// Registry determinism: two mapped signatures related by a group
/// operation resolved to the same target id.  Whatever orbit member the
/// point builder samples, the assembler reuses one energy for all of them.
pub proof fn lemma_registry_determinism(r: Registry, e1: int, e2: int, g: int)
    requires
        reg_wf(r),
        0 <= e1 < r.sig_map@.len(),
        0 <= e2 < r.sig_map@.len(),
        0 <= g < r.pg.ops@.len(),
        r.sig_map@[e1].sig@.len() == r.n,
        r.sig_map@[e2].sig@ == crate::symmetry::act(r.pg.ops@[g], r.sig_map@[e1].sig@),
    ensures
        r.sig_map@[e2].id == r.sig_map@[e1].id,
{
    let s1 = r.sig_map@[e1].sig@;
    let s2 = r.sig_map@[e2].sig@;
    crate::symmetry::lemma_canon_same_orbit(r.pg, s1, g);
    let t1 = r.sig_map@[e1].id as int;
    let t2 = r.sig_map@[e2].id as int;
    assert(r.targets@[t1].rep@ == canon(r.pg, s1));
    assert(r.targets@[t2].rep@ == canon(r.pg, s2));
    if t1 != t2 {
        assert(r.targets@[t1].rep@ != r.targets@[t2].rep@);
        assert(false);
    }
}

impl Registry {
    /// An empty registry over `n` coordinates and the given group.
    pub fn new(n: usize, pg: PointGroup) -> (r: Registry)
        requires
            n <= MAX_COORDS,
            group_wf(pg, n as nat),
        ensures
            reg_wf(r),
            r.n == n,
            r.pg == pg,
            r.targets@.len() == 0,
            r.sig_map@.len() == 0,
    {
        Registry { n, pg, targets: Vec::new(), sig_map: Vec::new() }
    }

    /// Finds the target holding the given canonical key, if any.
    fn find_rep(&self, key: &Vec<i32>) -> (r: Option<usize>)
        ensures
            match r {
                Some(t) => t < self.targets@.len() && self.targets@[t as int].rep@ == key@,
                None => !has_rep(self.targets@, key@),
            },
    {
        let ntargets = self.targets.len();
        let mut t: usize = 0;
        while t < ntargets
            invariant
                t <= ntargets,
                ntargets == self.targets@.len(),
                forall|t2: int| 0 <= t2 < t ==> (#[trigger] self.targets@[t2]).rep@ != key@,
            decreases ntargets - t,
        {
            if sig_eq(&self.targets[t].rep, key) {
                return Some(t);
            }
            t = t + 1;
        }
        None
    }

    /// Resolves a signature to its target id, allocating a fresh target with
    /// the next dense id when its orbit has not been seen yet.  The
    /// signature is always appended to the signature-to-id map.
    pub fn lookup_or_insert(&mut self, s: &Vec<i32>) -> (id: usize)
        requires
            reg_wf(*old(self)),
            s@.len() == old(self).n,
            sig_wf(s@, old(self).n as nat),
        ensures
            reg_wf(*final(self)),
            final(self).n == old(self).n,
            final(self).pg == old(self).pg,
            id < final(self).targets@.len(),
            final(self).targets@[id as int].rep@ == canon(old(self).pg, s@),
            final(self).sig_map@.len() == old(self).sig_map@.len() + 1,
            forall|e: int|
                0 <= e < old(self).sig_map@.len() ==> final(self).sig_map@[e] == old(
                    self,
                ).sig_map@[e],
            final(self).sig_map@.last().sig@ == s@,
            final(self).sig_map@.last().id == id,
            has_rep(old(self).targets@, canon(old(self).pg, s@)) ==> final(self).targets@ == old(
                self,
            ).targets@,
            !has_rep(old(self).targets@, canon(old(self).pg, s@)) ==> {
                &&& id == old(self).targets@.len()
                &&& final(self).targets@.len() == old(self).targets@.len() + 1
                &&& forall|t: int|
                    0 <= t < old(self).targets@.len() ==> final(self).targets@[t] == old(
                        self,
                    ).targets@[t]
                &&& final(self).targets@[id as int].disp@ == s@
            },
            forall|t: int|
                0 <= t < final(self).targets@.len() && (#[trigger] final(self).targets@[t]).rep@
                    == canon(old(self).pg, s@) ==> t == id,
            old(self).targets@.len() <= final(self).targets@.len() <= old(self).targets@.len() + 1,
    {
        let ghost key_spec = canon(old(self).pg, s@);
        let key = crate::symmetry::canonical_sig(&self.pg, s);
        let found = self.find_rep(&key);
        match found {
            Some(t) => {
                let ghost sm0 = self.sig_map@;
                self.sig_map.push(SigEntry { sig: sig_copy(s), id: t });
                proof {
                    let sm1 = self.sig_map@;
                    assert(sm1.drop_last() =~= sm0);
                    assert(canon_seen(self.pg, sm0, key_spec)) by {
                        assert(target_mapped(*old(self), t as int));
                        let e = choose|e: int|
                            0 <= e < old(self).sig_map@.len() && (#[trigger] old(
                                self,
                            ).sig_map@[e]).id == t as int;
                        assert(old(self).targets@[t as int].rep@ == canon(self.pg, sm0[e].sig@));
                        assert(canon(self.pg, sm0[e].sig@) == key_spec);
                    }
                    assert(canon_dups(self.pg, sm1) == canon_dups(self.pg, sm0) + 1);
                    assert forall|t2: int|
                        0 <= t2 < final(self).targets@.len() implies #[trigger] target_mapped(
                        *final(self),
                        t2,
                    ) by {
                        assert(target_mapped(*old(self), t2));
                        let e = choose|e: int|
                            0 <= e < old(self).sig_map@.len() && (#[trigger] old(
                                self,
                            ).sig_map@[e]).id == t2;
                        assert((final(self).sig_map@[e]).id == t2);
                    }
                }
                t
            }
            None => {
                let id = self.targets.len();
                let ghost sm0 = self.sig_map@;
                self.targets.push(Target { rep: key, disp: sig_copy(s) });
                self.sig_map.push(SigEntry { sig: sig_copy(s), id });
                proof {
                    let sm1 = self.sig_map@;
                    assert(sm1.drop_last() =~= sm0);
                    assert(!canon_seen(self.pg, sm0, key_spec)) by {
                        if canon_seen(self.pg, sm0, key_spec) {
                            let e = choose|e: int|
                                0 <= e < sm0.len() && canon(
                                    self.pg,
                                    (#[trigger] sm0[e]).sig@,
                                ) == key_spec;
                            assert(old(self).targets@[sm0[e].id as int].rep@ == key_spec);
                            assert(has_rep(old(self).targets@, key_spec));
                            assert(false);
                        }
                    }
                    assert(canon_dups(self.pg, sm1) == canon_dups(self.pg, sm0));
                    assert forall|t2: int|
                        0 <= t2 < final(self).targets@.len() implies #[trigger] target_mapped(
                        *final(self),
                        t2,
                    ) by {
                        if t2 < old(self).targets@.len() {
                            assert(target_mapped(*old(self), t2));
                            let e = choose|e: int|
                                0 <= e < old(self).sig_map@.len() && (#[trigger] old(
                                    self,
                                ).sig_map@[e]).id == t2;
                            assert((final(self).sig_map@[e]).id == t2);
                        } else {
                            assert((final(self).sig_map@[sm1.len() - 1]).id == t2);
                        }
                    }
                }
                id
            }
        }
    }
}

/// The duplicate count is never negative.
pub proof fn lemma_canon_dups_nonneg(pg: PointGroup, sm: Seq<SigEntry>)
    ensures
        canon_dups(pg, sm) >= 0,
    decreases sm.len(),
{
    if sm.len() > 0 {
        lemma_canon_dups_nonneg(pg, sm.drop_last());
    }
}

/// No duplicates means pairwise-distinct canonical forms, and conversely.
pub proof fn lemma_canon_dups_zero(pg: PointGroup, sm: Seq<SigEntry>)
    ensures
        (canon_dups(pg, sm) == 0) <==> (forall|e1: int, e2: int|
            0 <= e1 < e2 < sm.len() ==> canon(pg, (#[trigger] sm[e1]).sig@) != canon(
                pg,
                (#[trigger] sm[e2]).sig@,
            )),
    decreases sm.len(),
{
    lemma_canon_dups_nonneg(pg, sm);
    if sm.len() > 0 {
        let pre = sm.drop_last();
        lemma_canon_dups_zero(pg, pre);
        lemma_canon_dups_nonneg(pg, pre);
        if canon_dups(pg, sm) == 0 {
            assert(canon_dups(pg, pre) == 0);
            assert(!canon_seen(pg, pre, canon(pg, sm.last().sig@)));
            assert forall|e1: int, e2: int| 0 <= e1 < e2 < sm.len() implies canon(
                pg,
                (#[trigger] sm[e1]).sig@,
            ) != canon(pg, (#[trigger] sm[e2]).sig@) by {
                if e2 == sm.len() - 1 {
                    if canon(pg, sm[e1].sig@) == canon(pg, sm[e2].sig@) {
                        assert(canon(pg, pre[e1].sig@) == canon(pg, sm.last().sig@));
                        assert(canon_seen(pg, pre, canon(pg, sm.last().sig@)));
                        assert(false);
                    }
                } else {
                    assert(pre[e1] == sm[e1]);
                    assert(pre[e2] == sm[e2]);
                }
            }
        }
        if forall|e1: int, e2: int|
            0 <= e1 < e2 < sm.len() ==> canon(pg, (#[trigger] sm[e1]).sig@) != canon(
                pg,
                (#[trigger] sm[e2]).sig@,
            ) {
            assert forall|e1: int, e2: int| 0 <= e1 < e2 < pre.len() implies canon(
                pg,
                (#[trigger] pre[e1]).sig@,
            ) != canon(pg, (#[trigger] pre[e2]).sig@) by {
                assert(sm[e1] == pre[e1]);
                assert(sm[e2] == pre[e2]);
            }
            assert(canon_dups(pg, pre) == 0);
            assert(!canon_seen(pg, pre, canon(pg, sm.last().sig@))) by {
                if canon_seen(pg, pre, canon(pg, sm.last().sig@)) {
                    let e = choose|e: int|
                        0 <= e < pre.len() && canon(pg, (#[trigger] pre[e]).sig@) == canon(
                            pg,
                            sm.last().sig@,
                        );
                    assert(canon(pg, sm[e].sig@) == canon(pg, sm[sm.len() - 1].sig@));
                    assert(false);
                }
            }
        }
    }
}

/// One target per orbit: the registry holds as many targets as mapped
/// signatures exactly when no two mapped signatures share a canonical
/// form, and strictly fewer as soon as any orbit is sampled twice.
pub proof fn lemma_target_count(r: Registry)
    requires
        reg_wf(r),
    ensures
        r.targets@.len() <= r.sig_map@.len(),
        (r.targets@.len() == r.sig_map@.len()) <==> (forall|e1: int, e2: int|
            0 <= e1 < e2 < r.sig_map@.len() ==> canon(r.pg, (#[trigger] r.sig_map@[e1]).sig@)
                != canon(r.pg, (#[trigger] r.sig_map@[e2]).sig@)),
{
    lemma_canon_dups_nonneg(r.pg, r.sig_map@);
    lemma_canon_dups_zero(r.pg, r.sig_map@);
}

/// With the trivial point group nothing collapses: the target count equals
/// the signature count exactly when the mapped signatures are pairwise
/// distinct (as the second-derivative samples are).
pub proof fn lemma_trivial_group_counts(r: Registry)
    requires
        reg_wf(r),
        r.pg.ops@.len() == 1,
        crate::symmetry::op_is_identity(r.pg.ops@[0], r.n as nat),
    ensures
        (r.targets@.len() == r.sig_map@.len()) <==> (forall|e1: int, e2: int|
            0 <= e1 < e2 < r.sig_map@.len() ==> (#[trigger] r.sig_map@[e1]).sig@ != (
            #[trigger] r.sig_map@[e2]).sig@),
{
    lemma_target_count(r);
    assert forall|e: int| 0 <= e < r.sig_map@.len() implies canon(
        r.pg,
        (#[trigger] r.sig_map@[e]).sig@,
    ) == r.sig_map@[e].sig@ by {
        crate::symmetry::lemma_canon_trivial(r.pg, r.sig_map@[e].sig@);
    }
}

} // verus!
