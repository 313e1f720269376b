//! A decision procedure for point-group well-formedness.
//!
//! Point groups are derived from floating-point geometry outside the verified
//! library, so nothing guarantees a caller hands over a genuine group.
//! [`check_group`] decides [`group_wf`] at run time: callers test a candidate
//! group once and refuse it before any registry or point-builder call.

use vstd::prelude::*;

use crate::symmetry::covers;
use crate::symmetry::group_wf;
use crate::symmetry::has_comp;
use crate::symmetry::has_inverse;
use crate::symmetry::lemma_preimage;
use crate::symmetry::op_is_comp;
use crate::symmetry::op_is_identity;
use crate::symmetry::op_is_inverse;
use crate::symmetry::op_wf;
use crate::symmetry::PointGroup;
use crate::symmetry::SymOp;

verus! {

/// Decides whether one operation is a well-formed signed permutation.
pub fn check_op(op: &SymOp, n: usize) -> (r: bool)
    ensures
        r == op_wf(*op, n as nat),
{
    if op.perm.len() != n || op.neg.len() != n {
        return false;
    }
    let mut seen: Vec<bool> = Vec::new();
    let mut d: usize = 0;
    while d < n
        invariant
            d <= n,
            seen@.len() == d,
            forall|d2: int| 0 <= d2 < d ==> !(#[trigger] seen@[d2]),
        decreases n - d,
    {
        seen.push(false);
        d = d + 1;
    }
    let mut c: usize = 0;
    while c < n
        invariant
            c <= n,
            op.perm@.len() == n,
            op.neg@.len() == n,
            seen@.len() == n,
            forall|c2: int| 0 <= c2 < c ==> #[trigger] op.perm@[c2] < n,
            forall|c1: int, c2: int|
                0 <= c1 < c && 0 <= c2 < c && c1 != c2 ==> #[trigger] op.perm@[c1]
                    != #[trigger] op.perm@[c2],
            forall|d2: int|
                0 <= d2 < n ==> (#[trigger] seen@[d2] <==> exists|c2: int|
                    0 <= c2 < c && #[trigger] op.perm@[c2] == d2),
        decreases n - c,
    {
        let dest = op.perm[c];
        if dest >= n {
            return false;
        }
        if seen[dest] {
            proof {
                if op_wf(*op, n as nat) {
                    let c2 = choose|c2: int| 0 <= c2 < c && #[trigger] op.perm@[c2] == dest;
                    assert(op.perm@[c2] == op.perm@[c as int]);
                    assert(false);
                }
            }
            return false;
        }
        seen.set(dest, true);
        c = c + 1;
    }
    let mut d: usize = 0;
    while d < n
        invariant
            d <= n,
            op.perm@.len() == n,
            op.neg@.len() == n,
            seen@.len() == n,
            forall|c2: int| 0 <= c2 < n ==> #[trigger] op.perm@[c2] < n,
            forall|c1: int, c2: int|
                0 <= c1 < n && 0 <= c2 < n && c1 != c2 ==> #[trigger] op.perm@[c1]
                    != #[trigger] op.perm@[c2],
            forall|d2: int|
                0 <= d2 < n ==> (#[trigger] seen@[d2] <==> exists|c2: int|
                    0 <= c2 < n && #[trigger] op.perm@[c2] == d2),
            forall|d2: int| 0 <= d2 < d ==> #[trigger] seen@[d2],
        decreases n - d,
    {
        if !seen[d] {
            proof {
                if op_wf(*op, n as nat) {
                    lemma_preimage(*op, n as nat, d as int);
                    let c2 = choose|c2: int| 0 <= c2 < n && #[trigger] op.perm@[c2] == d as int;
                    assert(seen@[d as int]);
                }
            }
            return false;
        }
        d = d + 1;
    }
    proof {
        assert forall|d2: int| 0 <= d2 < n implies #[trigger] covers(*op, d2, n as nat) by {
            assert(seen@[d2]);
            let c2 = choose|c2: int| 0 <= c2 < n && #[trigger] op.perm@[c2] == d2;
            assert(0 <= c2 < n as nat && op.perm@[c2] == d2);
        }
    }
    true
}

/// Decides whether an operation is the identity on `n` coordinates.
pub fn check_identity(op: &SymOp, n: usize) -> (r: bool)
    ensures
        r == op_is_identity(*op, n as nat),
{
    if op.perm.len() != n || op.neg.len() != n {
        return false;
    }
    let mut c: usize = 0;
    while c < n
        invariant
            c <= n,
            op.perm@.len() == n,
            op.neg@.len() == n,
            forall|c2: int| 0 <= c2 < c ==> #[trigger] op.perm@[c2] == c2,
            forall|c2: int| 0 <= c2 < c ==> !(#[trigger] op.neg@[c2]),
        decreases n - c,
    {
        if op.perm[c] != c || op.neg[c] {
            return false;
        }
        c = c + 1;
    }
    true
}

/// Looks for an operation whose tables equal the given ones.
fn find_matching(pg: &PointGroup, perm: &Vec<usize>, neg: &Vec<bool>) -> (r: bool)
    ensures
        r == exists|k: int|
            0 <= k < pg.ops@.len() && (#[trigger] pg.ops@[k]).perm@ == perm@ && pg.ops@[k].neg@
                == neg@,
{
    let nops = pg.ops.len();
    let mut k: usize = 0;
    while k < nops
        invariant
            k <= nops,
            nops == pg.ops@.len(),
            forall|k2: int|
                0 <= k2 < k ==> !((#[trigger] pg.ops@[k2]).perm@ == perm@ && pg.ops@[k2].neg@
                    == neg@),
        decreases nops - k,
    {
        if vec_usize_eq(&pg.ops[k].perm, perm) && vec_bool_eq(&pg.ops[k].neg, neg) {
            return true;
        }
        k = k + 1;
    }
    false
}

/// Decides equality of two index tables.
fn vec_usize_eq(a: &Vec<usize>, b: &Vec<usize>) -> (r: bool)
    ensures
        r == (a@ == b@),
{
    if a.len() != b.len() {
        assert(a@ != b@);
        return false;
    }
    let n = a.len();
    let mut i: usize = 0;
    while i < n
        invariant
            n == a@.len(),
            a@.len() == b@.len(),
            i <= n,
            forall|c: int| 0 <= c < i ==> a@[c] == #[trigger] b@[c],
        decreases n - i,
    {
        if a[i] != b[i] {
            return false;
        }
        i = i + 1;
    }
    proof {
        assert(a@ =~= b@);
    }
    true
}

/// Decides equality of two sign tables.
fn vec_bool_eq(a: &Vec<bool>, b: &Vec<bool>) -> (r: bool)
    ensures
        r == (a@ == b@),
{
    if a.len() != b.len() {
        assert(a@ != b@);
        return false;
    }
    let n = a.len();
    let mut i: usize = 0;
    while i < n
        invariant
            n == a@.len(),
            a@.len() == b@.len(),
            i <= n,
            forall|c: int| 0 <= c < i ==> a@[c] == #[trigger] b@[c],
        decreases n - i,
    {
        if a[i] != b[i] {
            return false;
        }
        i = i + 1;
    }
    proof {
        assert(a@ =~= b@);
    }
    true
}

/// Builds the tables of "first `h`, then `g`".
fn comp_tables(g: &SymOp, h: &SymOp, n: usize) -> (r: (Vec<usize>, Vec<bool>))
    requires
        op_wf(*g, n as nat),
        op_wf(*h, n as nat),
    ensures
        r.0@.len() == n,
        r.1@.len() == n,
        forall|c: int| 0 <= c < n ==> #[trigger] r.0@[c] == g.perm@[h.perm@[c] as int],
        forall|c: int| 0 <= c < n ==> #[trigger] r.1@[c] == (h.neg@[c] != g.neg@[h.perm@[c] as int]),
{
    let mut perm: Vec<usize> = Vec::new();
    let mut neg: Vec<bool> = Vec::new();
    let mut c: usize = 0;
    while c < n
        invariant
            c <= n,
            op_wf(*g, n as nat),
            op_wf(*h, n as nat),
            perm@.len() == c,
            neg@.len() == c,
            forall|c2: int| 0 <= c2 < c ==> #[trigger] perm@[c2] == g.perm@[h.perm@[c2] as int],
            forall|c2: int|
                0 <= c2 < c ==> #[trigger] neg@[c2] == (h.neg@[c2] != g.neg@[h.perm@[c2] as int]),
        decreases n - c,
    {
        let m = h.perm[c];
        perm.push(g.perm[m]);
        neg.push(h.neg[c] != g.neg[m]);
        c = c + 1;
    }
    (perm, neg)
}

/// Builds the tables of the operation undoing `g`.
fn inverse_tables(g: &SymOp, n: usize) -> (r: (Vec<usize>, Vec<bool>))
    requires
        op_wf(*g, n as nat),
    ensures
        r.0@.len() == n,
        r.1@.len() == n,
        forall|c: int| 0 <= c < n ==> #[trigger] r.0@[g.perm@[c] as int] == c,
        forall|c: int| 0 <= c < n ==> #[trigger] r.1@[g.perm@[c] as int] == g.neg@[c],
{
    let mut perm: Vec<usize> = Vec::new();
    let mut neg: Vec<bool> = Vec::new();
    let mut d: usize = 0;
    while d < n
        invariant
            d <= n,
            perm@.len() == d,
            neg@.len() == d,
        decreases n - d,
    {
        perm.push(0);
        neg.push(false);
        d = d + 1;
    }
    let mut c: usize = 0;
    while c < n
        invariant
            c <= n,
            op_wf(*g, n as nat),
            perm@.len() == n,
            neg@.len() == n,
            forall|c2: int| 0 <= c2 < c ==> #[trigger] perm@[g.perm@[c2] as int] == c2,
            forall|c2: int| 0 <= c2 < c ==> #[trigger] neg@[g.perm@[c2] as int] == g.neg@[c2],
        decreases n - c,
    {
        let dest = g.perm[c];
        perm.set(dest, c);
        neg.set(dest, g.neg[c]);
        c = c + 1;
    }
    (perm, neg)
}

/// Decides whether `pg` is a well-formed point group on `n` coordinates:
/// every operation a signed permutation, the identity present, and the set
/// closed under composition and inversion.
pub fn check_group(pg: &PointGroup, n: usize) -> (r: bool)
    ensures
        r == group_wf(*pg, n as nat),
{
    let nops = pg.ops.len();
    if nops == 0 {
        return false;
    }
    let mut k: usize = 0;
    while k < nops
        invariant
            k <= nops,
            nops == pg.ops@.len(),
            forall|k2: int| 0 <= k2 < k ==> op_wf(#[trigger] pg.ops@[k2], n as nat),
        decreases nops - k,
    {
        if !check_op(&pg.ops[k], n) {
            return false;
        }
        k = k + 1;
    }
    let mut found_id = false;
    let mut k: usize = 0;
    while k < nops
        invariant
            k <= nops,
            nops == pg.ops@.len(),
            found_id ==> exists|k2: int|
                0 <= k2 < nops && op_is_identity(#[trigger] pg.ops@[k2], n as nat),
            !found_id ==> forall|k2: int|
                0 <= k2 < k ==> !op_is_identity(#[trigger] pg.ops@[k2], n as nat),
        decreases nops - k,
    {
        if !found_id && check_identity(&pg.ops[k], n) {
            found_id = true;
        }
        k = k + 1;
    }
    if !found_id {
        return false;
    }
    let mut i: usize = 0;
    while i < nops
        invariant
            i <= nops,
            nops == pg.ops@.len(),
            forall|k2: int| 0 <= k2 < nops ==> op_wf(#[trigger] pg.ops@[k2], n as nat),
            forall|i2: int, j2: int|
                0 <= i2 < i && 0 <= j2 < nops ==> #[trigger] has_comp(*pg, i2, j2, n as nat),
        decreases nops - i,
    {
        let mut j: usize = 0;
        while j < nops
            invariant
                i < nops,
                j <= nops,
                nops == pg.ops@.len(),
                forall|k2: int| 0 <= k2 < nops ==> op_wf(#[trigger] pg.ops@[k2], n as nat),
                forall|j2: int| 0 <= j2 < j ==> #[trigger] has_comp(*pg, i as int, j2, n as nat),
            decreases nops - j,
        {
            let (cperm, cneg) = comp_tables(&pg.ops[i], &pg.ops[j], n);
            if !find_matching(pg, &cperm, &cneg) {
                proof {
                    if has_comp(*pg, i as int, j as int, n as nat) {
                        let kk = choose|kk: int|
                            0 <= kk < pg.ops@.len() && op_is_comp(
                                #[trigger] pg.ops@[kk],
                                pg.ops@[i as int],
                                pg.ops@[j as int],
                                n as nat,
                            );
                        assert(pg.ops@[kk].perm@ =~= cperm@);
                        assert(pg.ops@[kk].neg@ =~= cneg@);
                        assert(false);
                    }
                }
                return false;
            }
            proof {
                let kk = choose|kk: int|
                    0 <= kk < pg.ops@.len() && (#[trigger] pg.ops@[kk]).perm@ == cperm@
                        && pg.ops@[kk].neg@ == cneg@;
                assert(op_is_comp(pg.ops@[kk], pg.ops@[i as int], pg.ops@[j as int], n as nat));
            }
            j = j + 1;
        }
        i = i + 1;
    }
    let mut i: usize = 0;
    while i < nops
        invariant
            i <= nops,
            nops == pg.ops@.len(),
            forall|k2: int| 0 <= k2 < nops ==> op_wf(#[trigger] pg.ops@[k2], n as nat),
            forall|i2: int| 0 <= i2 < i ==> #[trigger] has_inverse(*pg, i2, n as nat),
        decreases nops - i,
    {
        let (iperm, ineg) = inverse_tables(&pg.ops[i], n);
        if !find_matching(pg, &iperm, &ineg) {
            proof {
                if has_inverse(*pg, i as int, n as nat) {
                    let kk = choose|kk: int|
                        0 <= kk < pg.ops@.len() && op_is_inverse(
                            #[trigger] pg.ops@[kk],
                            pg.ops@[i as int],
                            n as nat,
                        );
                    let g = pg.ops@[i as int];
                    assert forall|d: int| 0 <= d < n implies pg.ops@[kk].perm@[d] == iperm@[d]
                        && pg.ops@[kk].neg@[d] == ineg@[d] by {
                        lemma_preimage(g, n as nat, d);
                        let c = choose|c: int| 0 <= c < n && #[trigger] g.perm@[c] == d;
                        assert(pg.ops@[kk].perm@[g.perm@[c] as int] == c);
                        assert(iperm@[g.perm@[c] as int] == c);
                        assert(ineg@[g.perm@[c] as int] == g.neg@[c]);
                    }
                    assert(pg.ops@[kk].perm@ =~= iperm@);
                    assert(pg.ops@[kk].neg@ =~= ineg@);
                    assert(false);
                }
            }
            return false;
        }
        proof {
            let kk = choose|kk: int|
                0 <= kk < pg.ops@.len() && (#[trigger] pg.ops@[kk]).perm@ == iperm@
                    && pg.ops@[kk].neg@ == ineg@;
            let g = pg.ops@[i as int];
            assert forall|c: int| 0 <= c < n implies pg.ops@[kk].perm@[g.perm@[c] as int] == c
                && g.neg@[c] == pg.ops@[kk].neg@[g.perm@[c] as int] by {
                assert(iperm@[g.perm@[c] as int] == c);
                assert(ineg@[g.perm@[c] as int] == g.neg@[c]);
            }
            assert(op_is_inverse(pg.ops@[kk], g, n as nat));
        }
        i = i + 1;
    }
    true
}

} // verus!
