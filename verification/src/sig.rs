//! Displacement signatures as step-count vectors.
//!
//! A signature records, for each of the `n` Cartesian coordinates, how many
//! (signed) elementary steps the coordinate is displaced by.  The stencils
//! used here never step a coordinate by more than two units in either
//! direction, so a well-formed signature keeps every entry in `-2 ..= 2`.
//! The all-zero signature is the reference geometry.
//!
//! Signatures are ordered lexicographically; the canonical representative of
//! a symmetry orbit is the least signature in the orbit under this order.

use vstd::prelude::*;

verus! {

/// Largest step magnitude any stencil uses.
pub const MAX_STEP: i32 = 2;

/// A well-formed signature over `n` coordinates: one bounded step count per
/// coordinate.
pub open spec fn sig_wf(s: Seq<i32>, n: nat) -> bool {
    &&& s.len() == n
    &&& forall|c: int| 0 <= c < s.len() ==> -MAX_STEP <= #[trigger] s[c] <= MAX_STEP
}

/// Lexicographic "less than or equal" on the suffixes starting at `i`.
pub open spec fn lex_le_from(a: Seq<i32>, b: Seq<i32>, i: int) -> bool
    decreases a.len() - i,
{
    if i < 0 || i >= a.len() || i >= b.len() {
        true
    } else if a[i] != b[i] {
        a[i] < b[i]
    } else {
        lex_le_from(a, b, i + 1)
    }
}

/// Lexicographic order on equal-length step vectors.
pub open spec fn lex_le(a: Seq<i32>, b: Seq<i32>) -> bool {
    lex_le_from(a, b, 0)
}

/// The order is reflexive.
pub proof fn lemma_lex_le_refl(a: Seq<i32>, i: int)
    ensures
        lex_le_from(a, a, i),
    decreases a.len() - i,
{
    if 0 <= i < a.len() {
        lemma_lex_le_refl(a, i + 1);
    }
}

/// On equal-length vectors the order is antisymmetric: mutual `lex_le` means
/// the vectors agree from `i` on.
pub proof fn lemma_lex_le_antisym(a: Seq<i32>, b: Seq<i32>, i: int, j: int)
    requires
        a.len() == b.len(),
        lex_le_from(a, b, i),
        lex_le_from(b, a, i),
        i <= j < a.len(),
        0 <= i,
    ensures
        a[j] == b[j],
    decreases a.len() - i,
{
    if a[i] == b[i] {
        if i < j {
            lemma_lex_le_antisym(a, b, i + 1, j);
        }
    }
}

/// Mutual `lex_le` on equal-length vectors forces equality.
pub proof fn lemma_lex_le_eq(a: Seq<i32>, b: Seq<i32>)
    requires
        a.len() == b.len(),
        lex_le(a, b),
        lex_le(b, a),
    ensures
        a == b,
{
    assert forall|j: int| 0 <= j < a.len() implies a[j] == b[j] by {
        lemma_lex_le_antisym(a, b, 0, j);
    }
    assert(a =~= b);
}

/// The order is total on equal-length vectors.
pub proof fn lemma_lex_le_total(a: Seq<i32>, b: Seq<i32>, i: int)
    requires
        a.len() == b.len(),
    ensures
        lex_le_from(a, b, i) || lex_le_from(b, a, i),
    decreases a.len() - i,
{
    if 0 <= i < a.len() && a[i] == b[i] {
        lemma_lex_le_total(a, b, i + 1);
    }
}

/// The order is transitive.
pub proof fn lemma_lex_le_trans(a: Seq<i32>, b: Seq<i32>, c: Seq<i32>, i: int)
    requires
        a.len() == b.len(),
        b.len() == c.len(),
        lex_le_from(a, b, i),
        lex_le_from(b, c, i),
    ensures
        lex_le_from(a, c, i),
    decreases a.len() - i,
{
    if 0 <= i < a.len() {
        if a[i] == b[i] && b[i] == c[i] {
            lemma_lex_le_trans(a, b, c, i + 1);
        }
    }
}

/// Compares the suffixes of `a` and `b` starting at `i` in lexicographic
/// order.
fn lex_le_exec_from(a: &Vec<i32>, b: &Vec<i32>, i: usize) -> (r: bool)
    requires
        a@.len() == b@.len(),
        i <= a@.len(),
    ensures
        r == lex_le_from(a@, b@, i as int),
    decreases a@.len() - i,
{
    if i == a.len() {
        true
    } else if a[i] != b[i] {
        a[i] < b[i]
    } else {
        lex_le_exec_from(a, b, i + 1)
    }
}

/// Decides `lex_le` on two equal-length step vectors.
pub fn lex_le_exec(a: &Vec<i32>, b: &Vec<i32>) -> (r: bool)
    requires
        a@.len() == b@.len(),
    ensures
        r == lex_le(a@, b@),
{
    lex_le_exec_from(a, b, 0)
}

/// Decides equality of two step vectors.
pub fn sig_eq(a: &Vec<i32>, b: &Vec<i32>) -> (r: bool)
    ensures
        r == (a@ == b@),
{
    if a.len() != b.len() {
        assert(a@ != b@);
        return false;
    }
    let n = a.len();
    let mut i: usize = 0;
    while i < n
        invariant
            n == a@.len(),
            a@.len() == b@.len(),
            i <= n,
            forall|c: int| 0 <= c < i ==> a@[c] == #[trigger] b@[c],
        decreases n - i,
    {
        if a[i] != b[i] {
            return false;
        }
        i = i + 1;
    }
    proof {
        assert(a@ =~= b@);
    }
    true
}

/// Copies a step vector.
pub fn sig_copy(a: &Vec<i32>) -> (r: Vec<i32>)
    ensures
        r@ == a@,
{
    let mut r: Vec<i32> = Vec::new();
    let n = a.len();
    let mut i: usize = 0;
    while i < n
        invariant
            n == a@.len(),
            i <= n,
            r@ == a@.subrange(0, i as int),
        decreases n - i,
    {
        r.push(a[i]);
        proof {
            assert(r@ =~= a@.subrange(0, i + 1));
        }
        i = i + 1;
    }
    proof {
        assert(r@ =~= a@);
    }
    r
}

} // verus!
