//! Point-group operations as signed permutations of the coordinates.
//!
//! Every symmetry operation this crate works with permutes the `n` Cartesian
//! coordinates and possibly flips the sign of some of them.  An operation
//! maps the step placed on coordinate `c` to coordinate `perm[c]`, negated
//! when `neg[c]` is set.  A point group is a non-empty set of such operations
//! containing the identity and closed under composition and inversion; the
//! well-formedness predicate [`group_wf`] states exactly that, and
//! [`check_group`] decides it at run time so unverified callers can validate
//! a group they derived from floating-point geometry.

use vstd::prelude::*;

use crate::sig::lex_le;
use crate::sig::lex_le_exec;
use crate::sig::lemma_lex_le_eq;
use crate::sig::lemma_lex_le_refl;
use crate::sig::lemma_lex_le_total;
use crate::sig::lemma_lex_le_trans;
use crate::sig::sig_wf;
use crate::sig::MAX_STEP;

verus! {

/// One symmetry operation: coordinate `c` is sent to `perm[c]`, with its step
/// negated when `neg[c]` holds.
pub struct SymOp {
    pub perm: Vec<usize>,
    pub neg: Vec<bool>,
}

/// A set of symmetry operations acting on `n` coordinates.
pub struct PointGroup {
    pub ops: Vec<SymOp>,
}

/// Coordinate `d` has a preimage under `op`'s permutation.
pub open spec fn covers(op: SymOp, d: int, n: nat) -> bool {
    exists|c: int| 0 <= c < n && #[trigger] op.perm@[c] == d
}

/// A single operation is well-formed on `n` coordinates: both tables have
/// length `n` and `perm` is a bijection of `0..n`.
pub open spec fn op_wf(op: SymOp, n: nat) -> bool {
    &&& op.perm@.len() == n
    &&& op.neg@.len() == n
    &&& forall|c: int| 0 <= c < n ==> #[trigger] op.perm@[c] < n
    &&& forall|c1: int, c2: int|
        0 <= c1 < n && 0 <= c2 < n && #[trigger] op.perm@[c1] == #[trigger] op.perm@[c2]
            ==> c1 == c2
    &&& forall|d: int| 0 <= d < n ==> #[trigger] covers(op, d, n)
}

/// Bijectivity gives every coordinate a preimage with the expected bounds.
pub proof fn lemma_preimage(op: SymOp, n: nat, d: int)
    requires
        op_wf(op, n),
        0 <= d < n,
    ensures
        exists|c: int| 0 <= c < n && #[trigger] op.perm@[c] == d,
{
    assert(covers(op, d, n));
}

/// The identity operation: every coordinate stays put with its sign.
pub open spec fn op_is_identity(op: SymOp, n: nat) -> bool {
    &&& op.perm@.len() == n
    &&& op.neg@.len() == n
    &&& forall|c: int| 0 <= c < n ==> #[trigger] op.perm@[c] == c
    &&& forall|c: int| 0 <= c < n ==> !(#[trigger] op.neg@[c])
}

/// `f` acts as the composition "first `h`, then `g`".
pub open spec fn op_is_comp(f: SymOp, g: SymOp, h: SymOp, n: nat) -> bool {
    &&& f.perm@.len() == n
    &&& f.neg@.len() == n
    &&& forall|c: int| 0 <= c < n ==> #[trigger] f.perm@[c] == g.perm@[h.perm@[c] as int]
    &&& forall|c: int|
        0 <= c < n ==> #[trigger] f.neg@[c] == (h.neg@[c] != g.neg@[h.perm@[c] as int])
}

/// `gi` undoes `g`: applying `g` and then `gi` moves nothing and flips no
/// sign.
pub open spec fn op_is_inverse(gi: SymOp, g: SymOp, n: nat) -> bool {
    &&& gi.perm@.len() == n
    &&& gi.neg@.len() == n
    &&& forall|c: int| 0 <= c < n ==> #[trigger] gi.perm@[g.perm@[c] as int] == c
    &&& forall|c: int| 0 <= c < n ==> (#[trigger] g.neg@[c]) == gi.neg@[g.perm@[c] as int]
}

/// The group holds an operation acting as `ops[i]` after `ops[j]`.
pub open spec fn has_comp(pg: PointGroup, i: int, j: int, n: nat) -> bool {
    exists|k: int|
        0 <= k < pg.ops@.len() && op_is_comp(#[trigger] pg.ops@[k], pg.ops@[i], pg.ops@[j], n)
}

/// The group holds an operation undoing `ops[i]`.
pub open spec fn has_inverse(pg: PointGroup, i: int, n: nat) -> bool {
    exists|k: int| 0 <= k < pg.ops@.len() && op_is_inverse(#[trigger] pg.ops@[k], pg.ops@[i], n)
}

/// A well-formed point group on `n` coordinates.
pub open spec fn group_wf(pg: PointGroup, n: nat) -> bool {
    &&& pg.ops@.len() >= 1
    &&& forall|k: int| 0 <= k < pg.ops@.len() ==> op_wf(#[trigger] pg.ops@[k], n)
    &&& exists|k: int| 0 <= k < pg.ops@.len() && op_is_identity(#[trigger] pg.ops@[k], n)
    &&& forall|i: int, j: int|
        0 <= i < pg.ops@.len() && 0 <= j < pg.ops@.len() ==> #[trigger] has_comp(pg, i, j, n)
    &&& forall|i: int| 0 <= i < pg.ops@.len() ==> #[trigger] has_inverse(pg, i, n)
}

/// A step with the operation's sign applied.
pub open spec fn signed_step(negate: bool, x: i32) -> i32 {
    if negate {
        (0 - x) as i32
    } else {
        x
    }
}

/// The step that lands on coordinate `d` when `op` acts on `s`: the signed
/// step of the unique preimage of `d`.
pub open spec fn act_val(op: SymOp, s: Seq<i32>, d: int) -> i32 {
    let c = choose|c: int| 0 <= c < s.len() && op.perm@[c] == d;
    signed_step(op.neg@[c], s[c])
}

/// The action of `op` on a whole signature.
pub open spec fn act(op: SymOp, s: Seq<i32>) -> Seq<i32> {
    Seq::new(s.len(), |d: int| act_val(op, s, d))
}

/// Where each coordinate's step goes: acting with `op` puts the signed step
/// of coordinate `c` at coordinate `perm[c]`.
pub proof fn lemma_act_at(op: SymOp, s: Seq<i32>, c: int)
    requires
        op_wf(op, s.len() as nat),
        0 <= c < s.len(),
    ensures
        act(op, s)[op.perm@[c] as int] == signed_step(op.neg@[c], s[c]),
{
    let d = op.perm@[c] as int;
    let c2 = choose|c2: int| 0 <= c2 < s.len() && op.perm@[c2] == d;
    assert(0 <= c < s.len() && op.perm@[c] == d);
    assert(c2 == c);
}

/// The action preserves well-formedness of signatures.
pub proof fn lemma_act_wf(op: SymOp, s: Seq<i32>)
    requires
        op_wf(op, s.len() as nat),
        sig_wf(s, s.len() as nat),
    ensures
        sig_wf(act(op, s), s.len() as nat),
{
    let t = act(op, s);
    assert forall|d: int| 0 <= d < t.len() implies -MAX_STEP <= #[trigger] t[d] <= MAX_STEP by {
        lemma_preimage(op, s.len() as nat, d);
        let c = choose|c: int| 0 <= c < s.len() && op.perm@[c] == d;
        assert(0 <= c < s.len());
    }
}

/// The identity operation leaves every signature unchanged.
pub proof fn lemma_act_identity(op: SymOp, s: Seq<i32>)
    requires
        op_is_identity(op, s.len() as nat),
    ensures
        act(op, s) == s,
{
    let t = act(op, s);
    assert forall|d: int| 0 <= d < s.len() implies t[d] == s[d] by {
        assert(op.perm@[d] == d);
        let c = choose|c: int| 0 <= c < s.len() && op.perm@[c] == d;
        assert(0 <= d < s.len() && op.perm@[d] == d);
        assert(op.perm@[c] == c);
        assert(c == d);
    }
    assert(t =~= s);
}

/// Under the trivial group every signature is its own canonical
/// representative.
pub proof fn lemma_canon_trivial(pg: PointGroup, s: Seq<i32>)
    requires
        pg.ops@.len() == 1,
        op_is_identity(pg.ops@[0], s.len() as nat),
    ensures
        canon(pg, s) == s,
{
    lemma_act_identity(pg.ops@[0], s);
    assert(canon(pg, s) == act(pg.ops@[0], s));
}

/// Acting with `h` and then `g` is acting with their composition.
pub proof fn lemma_act_comp(f: SymOp, g: SymOp, h: SymOp, s: Seq<i32>)
    requires
        op_wf(g, s.len() as nat),
        op_wf(h, s.len() as nat),
        op_is_comp(f, g, h, s.len() as nat),
        sig_wf(s, s.len() as nat),
    ensures
        act(g, act(h, s)) == act(f, s),
{
    let n = s.len() as nat;
    let t = act(h, s);
    let u = act(g, t);
    let v = act(f, s);
    assert(t.len() == s.len());
    assert forall|c: int| 0 <= c < s.len() implies u[f.perm@[c] as int] == signed_step(
        f.neg@[c],
        s[c],
    ) by {
        lemma_act_at(h, s, c);
        let m = h.perm@[c] as int;
        assert(t[m] == signed_step(h.neg@[c], s[c]));
        lemma_act_at(g, t, m);
        assert(u[g.perm@[m] as int] == signed_step(g.neg@[m], t[m]));
        assert(f.perm@[c] == g.perm@[m]);
        assert(f.neg@[c] == (h.neg@[c] != g.neg@[m]));
        assert(-MAX_STEP <= s[c] <= MAX_STEP);
        assert(signed_step(g.neg@[m], signed_step(h.neg@[c], s[c])) == signed_step(
            (h.neg@[c] != g.neg@[m]),
            s[c],
        ));
    }
    assert forall|d: int| 0 <= d < s.len() implies u[d] == v[d] by {
        // f inherits bijectivity from g after h, so d has a preimage under f.
        lemma_preimage(g, s.len() as nat, d);
        let cg = choose|cg: int| 0 <= cg < s.len() && g.perm@[cg] == d;
        assert(0 <= cg < s.len() && g.perm@[cg] == d);
        lemma_preimage(h, s.len() as nat, cg);
        let ch = choose|ch: int| 0 <= ch < s.len() && h.perm@[ch] == cg;
        assert(0 <= ch < s.len() && h.perm@[ch] == cg);
        assert(f.perm@[ch] == d);
        assert(u[d] == signed_step(f.neg@[ch], s[ch]));
        let cf = choose|cf: int| 0 <= cf < s.len() && f.perm@[cf] == d;
        assert(0 <= cf < s.len() && f.perm@[cf] == d);
        assert(g.perm@[h.perm@[cf] as int] == d);
        assert(h.perm@[cf] as int == cg);
        assert(cf == ch);
        assert(v[d] == signed_step(f.neg@[cf], s[cf]));
    }
    assert(u =~= v);
}

/// An inverse operation undoes the action.
pub proof fn lemma_act_inverse(gi: SymOp, g: SymOp, s: Seq<i32>)
    requires
        op_wf(g, s.len() as nat),
        op_wf(gi, s.len() as nat),
        op_is_inverse(gi, g, s.len() as nat),
        sig_wf(s, s.len() as nat),
    ensures
        act(gi, act(g, s)) == s,
{
    let t = act(g, s);
    let u = act(gi, t);
    assert(t.len() == s.len());
    assert forall|c: int| 0 <= c < s.len() implies u[c] == s[c] by {
        lemma_act_at(g, s, c);
        let d = g.perm@[c] as int;
        assert(t[d] == signed_step(g.neg@[c], s[c]));
        lemma_act_at(gi, t, d);
        assert(gi.perm@[d] == c);
        assert(u[gi.perm@[d] as int] == signed_step(gi.neg@[d], t[d]));
        assert(gi.neg@[d] == g.neg@[c]);
        assert(-MAX_STEP <= s[c] <= MAX_STEP);
        assert(signed_step(g.neg@[c], signed_step(g.neg@[c], s[c])) == s[c]);
    }
    assert(u =~= s);
}

/// Applies one operation to a signature.
pub fn apply_op(op: &SymOp, s: &Vec<i32>) -> (r: Vec<i32>)
    requires
        op_wf(*op, s@.len() as nat),
        sig_wf(s@, s@.len() as nat),
    ensures
        r@ == act(*op, s@),
{
    let n = s.len();
    let mut r: Vec<i32> = Vec::new();
    let mut d: usize = 0;
    while d < n
        invariant
            n == s@.len(),
            d <= n,
            r@.len() == d,
        decreases n - d,
    {
        r.push(0);
        d = d + 1;
    }
    let mut c: usize = 0;
    while c < n
        invariant
            n == s@.len(),
            op_wf(*op, n as nat),
            sig_wf(s@, n as nat),
            c <= n,
            r@.len() == n,
            forall|c2: int|
                0 <= c2 < c ==> r@[op.perm@[c2] as int] == signed_step(
                    op.neg@[c2],
                    #[trigger] s@[c2],
                ),
        decreases n - c,
    {
        let dest = op.perm[c];
        let v = if op.neg[c] {
            -s[c]
        } else {
            s[c]
        };
        r.set(dest, v);
        c = c + 1;
    }
    proof {
        assert forall|d2: int| 0 <= d2 < n implies r@[d2] == act(*op, s@)[d2] by {
            lemma_preimage(*op, n as nat, d2);
            let cpre = choose|cpre: int| 0 <= cpre < s@.len() && op.perm@[cpre] == d2;
            assert(0 <= cpre < s@.len());
            assert(r@[op.perm@[cpre] as int] == signed_step(op.neg@[cpre], s@[cpre]));
        }
        assert(r@ =~= act(*op, s@));
    }
    r
}

/// The smaller of two signatures, preferring the first on a tie.
pub open spec fn min2(a: Seq<i32>, b: Seq<i32>) -> Seq<i32> {
    if lex_le(a, b) {
        a
    } else {
        b
    }
}

/// The least image of `s` under the first `k` operations.
pub open spec fn orbit_min_upto(ops: Seq<SymOp>, s: Seq<i32>, k: int) -> Seq<i32>
    decreases k,
{
    if k <= 1 {
        act(ops[0], s)
    } else {
        min2(orbit_min_upto(ops, s, k - 1), act(ops[k - 1], s))
    }
}

/// The canonical representative of `s`'s orbit: the lexicographically least
/// image of `s` under the group.
pub open spec fn canon(pg: PointGroup, s: Seq<i32>) -> Seq<i32> {
    orbit_min_upto(pg.ops@, s, pg.ops@.len() as int)
}

/// The orbit minimum keeps the signature's length.
pub proof fn lemma_orbit_min_len(ops: Seq<SymOp>, s: Seq<i32>, k: int)
    ensures
        orbit_min_upto(ops, s, k).len() == s.len(),
    decreases k,
{
    if k > 1 {
        lemma_orbit_min_len(ops, s, k - 1);
    }
}

/// The orbit minimum is itself an image of `s` under one of the first `k`
/// operations.
pub proof fn lemma_orbit_min_in(ops: Seq<SymOp>, s: Seq<i32>, k: int)
    requires
        1 <= k,
    ensures
        exists|j: int| 0 <= j < k && orbit_min_upto(ops, s, k) == act(#[trigger] ops[j], s),
    decreases k,
{
    if k == 1 {
        assert(orbit_min_upto(ops, s, 1) == act(ops[0], s));
    } else {
        lemma_orbit_min_in(ops, s, k - 1);
        if lex_le(orbit_min_upto(ops, s, k - 1), act(ops[k - 1], s)) {
            assert(orbit_min_upto(ops, s, k) == orbit_min_upto(ops, s, k - 1));
        } else {
            assert(orbit_min_upto(ops, s, k) == act(ops[k - 1], s));
        }
    }
}

/// The orbit minimum is no greater than any image of `s` under the first `k`
/// operations.
pub proof fn lemma_orbit_min_le(ops: Seq<SymOp>, s: Seq<i32>, k: int, j: int)
    requires
        0 <= j < k,
    ensures
        lex_le(orbit_min_upto(ops, s, k), act(ops[j], s)),
    decreases k,
{
    let m = orbit_min_upto(ops, s, k);
    let b = act(ops[k - 1], s);
    lemma_orbit_min_len(ops, s, k);
    if k == 1 {
        lemma_lex_le_refl(m, 0);
    } else {
        let prev = orbit_min_upto(ops, s, k - 1);
        lemma_orbit_min_len(ops, s, k - 1);
        if j == k - 1 {
            if lex_le(prev, b) {
                assert(m == prev);
                assert(lex_le(m, b));
            } else {
                lemma_lex_le_refl(b, 0);
            }
        } else {
            lemma_orbit_min_le(ops, s, k - 1, j);
            if lex_le(prev, b) {
                assert(m == prev);
            } else {
                lemma_lex_le_total(prev, b, 0);
                lemma_lex_le_trans(b, prev, act(ops[j], s), 0);
            }
        }
    }
}

/// Registry determinism: two signatures related by a group operation have
/// the same canonical representative.  This is what makes the registry map
/// every symmetry-equivalent signature to one target.
pub proof fn lemma_canon_same_orbit(pg: PointGroup, s: Seq<i32>, g: int)
    requires
        group_wf(pg, s.len() as nat),
        sig_wf(s, s.len() as nat),
        0 <= g < pg.ops@.len(),
    ensures
        canon(pg, act(pg.ops@[g], s)) == canon(pg, s),
{
    let n = s.len() as nat;
    let ops = pg.ops@;
    let len = ops.len() as int;
    let s2 = act(ops[g], s);
    assert(s2.len() == s.len());
    lemma_act_wf(ops[g], s);
    let m1 = canon(pg, s);
    let m2 = canon(pg, s2);
    lemma_orbit_min_len(ops, s, len);
    lemma_orbit_min_len(ops, s2, len);

    // Every image of s2 is an image of s, so m1 <= m2.
    lemma_orbit_min_in(ops, s2, len);
    let j = choose|j: int| 0 <= j < len && m2 == act(#[trigger] ops[j], s2);
    assert(has_comp(pg, j, g, n));
    let k = choose|k: int| 0 <= k < len && op_is_comp(#[trigger] ops[k], ops[j], ops[g], n);
    lemma_act_comp(ops[k], ops[j], ops[g], s);
    assert(m2 == act(ops[k], s));
    lemma_orbit_min_le(ops, s, len, k);
    assert(lex_le(m1, m2));

    // Every image of s is an image of s2 through g's inverse, so m2 <= m1.
    lemma_orbit_min_in(ops, s, len);
    let i = choose|i: int| 0 <= i < len && m1 == act(#[trigger] ops[i], s);
    assert(has_inverse(pg, g, n));
    let gi = choose|gi: int| 0 <= gi < len && op_is_inverse(#[trigger] ops[gi], ops[g], n);
    lemma_act_inverse(ops[gi], ops[g], s);
    assert(act(ops[gi], s2) == s);
    assert(has_comp(pg, i, gi, n));
    let k2 = choose|k2: int| 0 <= k2 < len && op_is_comp(#[trigger] ops[k2], ops[i], ops[gi], n);
    lemma_act_wf(ops[g], s);
    lemma_act_comp(ops[k2], ops[i], ops[gi], s2);
    assert(m1 == act(ops[k2], s2));
    lemma_orbit_min_le(ops, s2, len, k2);
    assert(lex_le(m2, m1));

    lemma_lex_le_eq(m1, m2);
}

/// The canonical representative is well-formed and keeps the length.
pub proof fn lemma_canon_wf(pg: PointGroup, s: Seq<i32>)
    requires
        group_wf(pg, s.len() as nat),
        sig_wf(s, s.len() as nat),
    ensures
        sig_wf(canon(pg, s), s.len() as nat),
        canon(pg, s).len() == s.len(),
{
    let ops = pg.ops@;
    let len = ops.len() as int;
    lemma_orbit_min_len(ops, s, len);
    lemma_orbit_min_in(ops, s, len);
    let j = choose|j: int| 0 <= j < len && canon(pg, s) == act(#[trigger] ops[j], s);
    lemma_act_wf(ops[j], s);
}

/// Computes the canonical representative of `s`'s orbit.
pub fn canonical_sig(pg: &PointGroup, s: &Vec<i32>) -> (r: Vec<i32>)
    requires
        group_wf(*pg, s@.len() as nat),
        sig_wf(s@, s@.len() as nat),
    ensures
        r@ == canon(*pg, s@),
        sig_wf(r@, s@.len() as nat),
{
    let nops = pg.ops.len();
    let mut best = apply_op(&pg.ops[0], s);
    let mut i: usize = 1;
    while i < nops
        invariant
            nops == pg.ops@.len(),
            1 <= i <= nops,
            group_wf(*pg, s@.len() as nat),
            sig_wf(s@, s@.len() as nat),
            best@ == orbit_min_upto(pg.ops@, s@, i as int),
        decreases nops - i,
    {
        let cur = apply_op(&pg.ops[i], s);
        proof {
            lemma_orbit_min_len(pg.ops@, s@, i as int);
        }
        if !lex_le_exec(&best, &cur) {
            best = cur;
        }
        i = i + 1;
    }
    proof {
        lemma_canon_wf(*pg, s@);
    }
    best
}

} // verus!
