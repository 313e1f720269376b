//! Tensor shapes and finite-difference stencil bookkeeping.
//!
//! Force constants are kept in one flat buffer: the dense `n * n` second
//! derivatives first, then the third and fourth derivatives in triangular
//! storage, one slot per non-decreasing index tuple.  This module fixes the
//! sizes of those regions, the flat position of every entry, and proves the
//! positions stay inside their regions.

use vstd::prelude::*;

use crate::MAX_COORDS;

verus! {

/// The highest derivative order requested of a run.
pub enum Derivative {
    /// Second derivatives only.
    Harmonic,
    /// Second and third derivatives.
    Cubic,
    /// Second, third and fourth derivatives.
    Quartic,
}

/// Number of index pairs `i <= j < n`.
pub open spec fn t2(j: int) -> int
    decreases j,
{
    if j <= 0 {
        0
    } else {
        t2(j - 1) + j
    }
}

/// Number of index triples `i <= j <= k < n`.
pub open spec fn c3(k: int) -> int
    decreases k,
{
    if k <= 0 {
        0
    } else {
        c3(k - 1) + t2(k)
    }
}

/// Number of index quadruples `i <= j <= k <= l < n`.
pub open spec fn c4(l: int) -> int
    decreases l,
{
    if l <= 0 {
        0
    } else {
        c4(l - 1) + c3(l)
    }
}

/// `t2` in closed form: `t2(j) == j * (j + 1) / 2`.
pub proof fn lemma_t2_closed(j: int)
    requires
        0 <= j,
    ensures
        2 * t2(j) == j * (j + 1),
    decreases j,
{
    if j > 0 {
        lemma_t2_closed(j - 1);
        assert(t2(j) == t2(j - 1) + j);
        assert(2 * t2(j) == (j - 1) * j + 2 * j);
        assert((j - 1) * j + 2 * j == j * (j + 1)) by (nonlinear_arith);
        assert(2 * t2(j) == j * (j + 1));
    } else {
        assert(j == 0);
        assert(t2(0) == 0);
        assert(2 * t2(j) == j * (j + 1));
    }
}

/// `c3` in closed form: `c3(k) == k * (k + 1) * (k + 2) / 6`.
pub proof fn lemma_c3_closed(k: int)
    requires
        0 <= k,
    ensures
        6 * c3(k) == k * (k + 1) * (k + 2),
    decreases k,
{
    if k > 0 {
        lemma_c3_closed(k - 1);
        lemma_t2_closed(k);
        assert(c3(k) == c3(k - 1) + t2(k));
        assert(6 * t2(k) == 3 * (k * (k + 1)));
        assert(6 * c3(k) == (k - 1) * k * (k + 1) + 3 * (k * (k + 1)));
        assert((k - 1) * k * (k + 1) + 3 * (k * (k + 1)) == k * (k + 1) * (k + 2))
            by (nonlinear_arith);
        assert(6 * c3(k) == k * (k + 1) * (k + 2));
    } else {
        assert(k == 0);
        assert(c3(0) == 0);
        assert(6 * c3(k) == k * (k + 1) * (k + 2));
    }
}

/// `c4` in closed form: `c4(l) == l * (l + 1) * (l + 2) * (l + 3) / 24`.
pub proof fn lemma_c4_closed(l: int)
    requires
        0 <= l,
    ensures
        24 * c4(l) == l * (l + 1) * (l + 2) * (l + 3),
    decreases l,
{
    if l > 0 {
        lemma_c4_closed(l - 1);
        lemma_c3_closed(l);
        assert(c4(l) == c4(l - 1) + c3(l));
        assert(24 * c3(l) == 4 * (l * (l + 1) * (l + 2)));
        assert(24 * c4(l) == (l - 1) * l * (l + 1) * (l + 2) + 4 * (l * (l + 1) * (l + 2)));
        assert((l - 1) * l * (l + 1) * (l + 2) + 4 * (l * (l + 1) * (l + 2)) == l * (l + 1) * (l
            + 2) * (l + 3)) by (nonlinear_arith);
        assert(24 * c4(l) == l * (l + 1) * (l + 2) * (l + 3));
    } else {
        assert(l == 0);
        assert(c4(0) == 0);
        assert(24 * c4(l) == l * (l + 1) * (l + 2) * (l + 3));
    }
}

/// `t2` grows with its argument.
pub proof fn lemma_t2_mono(a: int, b: int)
    requires
        a <= b,
    ensures
        t2(a) <= t2(b),
    decreases b - a,
{
    if a < b {
        lemma_t2_mono(a, b - 1);
        if b > 0 {
            assert(t2(b) == t2(b - 1) + b);
        }
    }
}

/// `c3` grows with its argument.
pub proof fn lemma_c3_mono(a: int, b: int)
    requires
        a <= b,
    ensures
        c3(a) <= c3(b),
    decreases b - a,
{
    if a < b {
        lemma_c3_mono(a, b - 1);
        if b > 0 {
            lemma_t2_mono(0, b);
        }
    }
}

/// `c4` grows with its argument.
pub proof fn lemma_c4_mono(a: int, b: int)
    requires
        a <= b,
    ensures
        c4(a) <= c4(b),
    decreases b - a,
{
    if a < b {
        lemma_c4_mono(a, b - 1);
        if b > 0 {
            lemma_c3_mono(0, b);
        }
    }
}

/// `t2`, `c3` and `c4` are never negative.
pub proof fn lemma_counts_nonneg(n: int)
    ensures
        t2(n) >= 0,
        c3(n) >= 0,
        c4(n) >= 0,
{
    lemma_t2_mono(0, if n >= 0 { n } else { 0 });
    lemma_c3_mono(0, if n >= 0 { n } else { 0 });
    lemma_c4_mono(0, if n >= 0 { n } else { 0 });
}

/// Flat position of second-derivative entry `(i, j)` in the dense block.
pub open spec fn idx2(n: int, i: int, j: int) -> int {
    i * n + j
}

/// Flat position of third-derivative entry `i <= j <= k` inside its
/// triangular block.
pub open spec fn idx3(i: int, j: int, k: int) -> int {
    i + t2(j) + c3(k)
}

/// Flat position of fourth-derivative entry `i <= j <= k <= l` inside its
/// triangular block.
pub open spec fn idx4(i: int, j: int, k: int, l: int) -> int {
    i + t2(j) + c3(k) + c4(l)
}

/// Dense second-derivative positions stay inside the `n * n` block.
pub proof fn lemma_idx2_bound(n: int, i: int, j: int)
    requires
        0 <= i < n,
        0 <= j < n,
    ensures
        0 <= idx2(n, i, j) < n * n,
{
    assert(i * n + j < n * n) by (nonlinear_arith)
        requires
            0 <= i < n,
            0 <= j < n,
    ;
    assert(i * n >= 0) by (nonlinear_arith)
        requires
            0 <= i,
            0 <= n,
    ;
}

/// Triangular third-derivative positions stay inside their block.
pub proof fn lemma_idx3_bound(n: int, i: int, j: int, k: int)
    requires
        0 <= i <= j <= k < n,
    ensures
        0 <= idx3(i, j, k) < c3(n),
{
    lemma_counts_nonneg(j);
    lemma_counts_nonneg(k);
    assert(t2(j + 1) == t2(j) + j + 1);
    assert(i + t2(j) < t2(j + 1));
    lemma_t2_mono(j + 1, k + 1);
    assert(c3(k + 1) == c3(k) + t2(k + 1));
    assert(idx3(i, j, k) < c3(k + 1));
    lemma_c3_mono(k + 1, n);
}

/// Triangular fourth-derivative positions stay inside their block.
pub proof fn lemma_idx4_bound(n: int, i: int, j: int, k: int, l: int)
    requires
        0 <= i <= j <= k <= l < n,
    ensures
        0 <= idx4(i, j, k, l) < c4(n),
{
    lemma_idx3_bound(l + 1, i, j, k);
    lemma_counts_nonneg(l);
    assert(c4(l + 1) == c4(l) + c3(l + 1));
    assert(idx4(i, j, k, l) < c4(l + 1));
    lemma_c4_mono(l + 1, n);
}

/// The three force-constant block sizes for `n` coordinates at the given
/// derivative order; blocks beyond the requested order are empty.
pub fn tensor_sizes(n: usize, deriv: &Derivative) -> (r: (usize, usize, usize))
    requires
        n <= MAX_COORDS,
    ensures
        r.0 == n * n,
        matches!(deriv, Derivative::Harmonic) ==> r.1 == 0 && r.2 == 0,
        matches!(deriv, Derivative::Cubic) ==> r.1 == c3(n as int) && r.2 == 0,
        matches!(deriv, Derivative::Quartic) ==> r.1 == c3(n as int) && r.2 == c4(n as int),
        r.1 <= c3(n as int),
        r.2 <= c4(n as int),
        6 * c3(n as int) == n * (n + 1) * (n + 2),
        24 * c4(n as int) == n * (n + 1) * (n + 2) * (n + 3),
{
    proof {
        lemma_c3_closed(n as int);
        lemma_c4_closed(n as int);
        lemma_counts_nonneg(n as int);
        assert(n * n <= MAX_COORDS * MAX_COORDS) by (nonlinear_arith)
            requires
                n <= MAX_COORDS,
        ;
        assert(n * (n + 1) <= MAX_COORDS * (MAX_COORDS + 1)) by (nonlinear_arith)
            requires
                n <= MAX_COORDS,
        ;
        assert(n * (n + 1) * (n + 2) <= MAX_COORDS * (MAX_COORDS + 1) * (MAX_COORDS + 2))
            by (nonlinear_arith)
            requires
                n <= MAX_COORDS,
        ;
        assert(n * (n + 1) * (n + 2) * (n + 3) <= MAX_COORDS * (MAX_COORDS + 1) * (MAX_COORDS + 2)
            * (MAX_COORDS + 3)) by (nonlinear_arith)
            requires
                n <= MAX_COORDS,
        ;
    }
    let nfc2 = n * n;
    let p3 = n * (n + 1) * (n + 2);
    let nfc3_full = p3 / 6;
    let p4 = p3 * (n + 3);
    let nfc4_full = p4 / 24;
    proof {
        let c3v = c3(n as int);
        let c4v = c4(n as int);
        vstd::arithmetic::div_mod::lemma_div_multiples_vanish(c3v, 6);
        assert(p3 == 6 * c3v);
        assert(nfc3_full == c3v);
        vstd::arithmetic::div_mod::lemma_div_multiples_vanish(c4v, 24);
        assert(p4 == 24 * c4v) by {
            assert(p3 * (n + 3) == n * (n + 1) * (n + 2) * (n + 3));
        }
        assert(nfc4_full == c4v);
    }
    match deriv {
        Derivative::Harmonic => (nfc2, 0, 0),
        Derivative::Cubic => (nfc2, nfc3_full, 0),
        Derivative::Quartic => (nfc2, nfc3_full, nfc4_full),
    }
}

/// Denominator scale of second-derivative entry `(i, j)`: the tensor value
/// is the evaluated stencil sum divided by `den2 * h^2` for step size `h`.
pub open spec fn den2(i: int, j: int) -> int {
    4
}

/// Denominator scale of third-derivative entry `i <= j <= k` (divide the
/// stencil sum by `den3 * h^3`).
pub open spec fn den3(i: int, j: int, k: int) -> int {
    if i == j || j == k {
        2
    } else {
        8
    }
}

/// Denominator scale of fourth-derivative entry `i <= j <= k <= l` (divide
/// the stencil sum by `den4 * h^4`).
pub open spec fn den4(i: int, j: int, k: int, l: int) -> int {
    if i == j && j == k && k == l {
        1
    } else if i == j && k == l {
        1
    } else if i == j || j == k || k == l {
        4
    } else {
        16
    }
}

/// Computes [`den2`].
pub fn den2_exec(i: usize, j: usize) -> (r: u64)
    ensures
        r == den2(i as int, j as int),
{
    4
}

/// Computes [`den3`].
pub fn den3_exec(i: usize, j: usize, k: usize) -> (r: u64)
    ensures
        r == den3(i as int, j as int, k as int),
{
    if i == j || j == k {
        2
    } else {
        8
    }
}

/// Computes [`den4`].
pub fn den4_exec(i: usize, j: usize, k: usize, l: usize) -> (r: u64)
    ensures
        r == den4(i as int, j as int, k as int, l as int),
{
    if i == j && j == k && k == l {
        1
    } else if i == j && k == l {
        1
    } else if i == j || j == k || k == l {
        4
    } else {
        16
    }
}

/// The signature stepping coordinate `i` by `s` units.
pub open spec fn sig1(n: int, i: int, s: int) -> Seq<i32> {
    Seq::new(n as nat, |c: int| if c == i { s as i32 } else { 0i32 })
}

/// The signature stepping coordinate `i` by `si` and coordinate `j` by `sj`
/// units (for `i != j`).
pub open spec fn sig2(n: int, i: int, si: int, j: int, sj: int) -> Seq<i32> {
    Seq::new(
        n as nat,
        |c: int|
            if c == i {
                si as i32
            } else if c == j {
                sj as i32
            } else {
                0i32
            },
    )
}

/// One stencil sample: the signature to evaluate, the flat force-constant
/// position it contributes to, and its integer stencil coefficient.
pub open spec fn plan_item(s: Seq<i32>, index: int, coeff: int) -> (Seq<i32>, int, int) {
    (s, index, coeff)
}

/// The sampled stencil of second-derivative entry `(i, j)`, `i <= j`.
///
/// The diagonal uses the wide two-sample pattern
/// `(f(+2h) - 2 f(0) + f(-2h)) / (4 h^2)`, whose reference coefficient is
/// kept separately in [`refs2_at`]; an off-diagonal entry uses the four-point
/// cross pattern `(f(++) - f(+-) - f(-+) + f(--)) / (4 h^2)`.
pub open spec fn items2(n: int, i: int, j: int) -> Seq<(Seq<i32>, int, int)> {
    if i == j {
        seq![
            plan_item(sig1(n, i, 2), idx2(n, i, j), 1),
            plan_item(sig1(n, i, -2), idx2(n, i, j), 1),
        ]
    } else {
        seq![
            plan_item(sig2(n, i, 1, j, 1), idx2(n, i, j), 1),
            plan_item(sig2(n, i, 1, j, -1), idx2(n, i, j), -1),
            plan_item(sig2(n, i, -1, j, 1), idx2(n, i, j), -1),
            plan_item(sig2(n, i, -1, j, -1), idx2(n, i, j), 1),
        ]
    }
}

/// Reference-energy coefficients of second-derivative entry `(i, j)`: the
/// diagonal pattern weighs the unperturbed energy by `-2`.
pub open spec fn refs2_at(n: int, i: int, j: int) -> Seq<(int, int)> {
    if i == j {
        seq![(idx2(n, i, j), -2)]
    } else {
        Seq::empty()
    }
}

/// All sampled stencil items of the second-derivative entries from `(i, j)`
/// on, in enumeration order (row by row over `i <= j < n`).
pub open spec fn plan2_from(n: int, i: int, j: int) -> Seq<(Seq<i32>, int, int)>
    decreases n - i, n - j,
{
    if i < 0 || j < 0 || i >= n {
        Seq::empty()
    } else if j >= n {
        plan2_from(n, i + 1, i + 1)
    } else {
        items2(n, i, j) + plan2_from(n, i, j + 1)
    }
}

/// All reference-energy coefficients of the second-derivative entries from
/// `(i, j)` on, in enumeration order.
pub open spec fn refs2_from(n: int, i: int, j: int) -> Seq<(int, int)>
    decreases n - i, n - j,
{
    if i < 0 || j < 0 || i >= n {
        Seq::empty()
    } else if j >= n {
        refs2_from(n, i + 1, i + 1)
    } else {
        refs2_at(n, i, j) + refs2_from(n, i, j + 1)
    }
}

/// One partial row of second-derivative samples, then all later rows.
proof fn lemma_plan2_row_len(n: int, i: int, j: int)
    requires
        0 <= i < n,
        i <= j <= n,
    ensures
        plan2_from(n, i, j).len() == (if j == i {
            2 + 4 * (n - i - 1)
        } else {
            4 * (n - j)
        }) + plan2_from(n, i + 1, i + 1).len(),
    decreases n - j,
{
    if j == n {
        assert(plan2_from(n, i, j) == plan2_from(n, i + 1, i + 1));
    } else {
        lemma_plan2_row_len(n, i, j + 1);
        assert(plan2_from(n, i, j) == items2(n, i, j) + plan2_from(n, i, j + 1));
    }
}

/// The second-derivative rows from `i` on hold `2 * (n - i)^2` samples.
proof fn lemma_plan2_rows_len(n: int, i: int)
    requires
        0 <= i <= n,
    ensures
        plan2_from(n, i, i).len() == 2 * (n - i) * (n - i),
    decreases n - i,
{
    if i == n {
        assert(plan2_from(n, n, n).len() == 0);
    } else {
        lemma_plan2_rows_len(n, i + 1);
        lemma_plan2_row_len(n, i, i);
        let m = n - i;
        assert(2 + 4 * (m - 1) + 2 * (m - 1) * (m - 1) == 2 * m * m) by (nonlinear_arith);
    }
}

/// A harmonic run samples exactly `2 * n * n` signatures: two per diagonal
/// entry and four per off-diagonal pair.  Together with the registry
/// invariant this bounds the number of unique targets by the number of
/// required samples.
pub proof fn lemma_harmonic_sample_count(n: int)
    requires
        0 <= n,
    ensures
        plan2_from(n, 0, 0).len() == 2 * n * n,
{
    lemma_plan2_rows_len(n, 0);
}

/// `s` is one of the sampled signatures of second-derivative entry
/// `(a, b)`.
pub open spec fn entry2_sig(n: int, a: int, b: int, s: Seq<i32>) -> bool {
    exists|p: int| 0 <= p < items2(n, a, b).len() && (#[trigger] items2(n, a, b)[p]).0 == s
}

/// Entry `(a, b)` does not precede entry `(i, j)` in enumeration order.
pub open spec fn entry2_ge(i: int, j: int, a: int, b: int) -> bool {
    a > i || (a == i && b >= j)
}

/// Every sample from `(i, j)` on belongs to an entry from `(i, j)` on.
proof fn lemma_plan2_shapes(n: int, i: int, j: int, e: int)
    requires
        0 <= i <= j,
        0 <= e < plan2_from(n, i, j).len(),
    ensures
        exists|a: int, b: int|
            i <= a <= b < n && entry2_ge(i, j, a, b) && #[trigger] entry2_sig(
                n,
                a,
                b,
                plan2_from(n, i, j)[e].0,
            ),
    decreases n - i, n - j,
{
    if i >= n {
        assert(false);
    } else if j >= n {
        lemma_plan2_shapes(n, i + 1, i + 1, e);
        let (a, b) = choose|a: int, b: int|
            i + 1 <= a <= b < n && entry2_ge(i + 1, i + 1, a, b) && #[trigger] entry2_sig(
                n,
                a,
                b,
                plan2_from(n, i + 1, i + 1)[e].0,
            );
        assert(entry2_ge(i, j, a, b));
        assert(entry2_sig(n, a, b, plan2_from(n, i, j)[e].0));
    } else {
        let head = items2(n, i, j);
        if e < head.len() {
            assert(plan2_from(n, i, j)[e] == head[e]);
            assert(entry2_sig(n, i, j, head[e].0));
            assert(entry2_ge(i, j, i, j));
        } else {
            let e2 = e - head.len();
            assert(plan2_from(n, i, j)[e] == plan2_from(n, i, j + 1)[e2]);
            lemma_plan2_shapes(n, i, j + 1, e2);
            let (a, b) = choose|a: int, b: int|
                i <= a <= b < n && entry2_ge(i, j + 1, a, b) && #[trigger] entry2_sig(
                    n,
                    a,
                    b,
                    plan2_from(n, i, j + 1)[e2].0,
                );
            assert(entry2_ge(i, j, a, b));
            assert(entry2_sig(n, a, b, plan2_from(n, i, j)[e].0));
        }
    }
}

/// Samples of distinct entries are distinct signatures: each signature
/// pins its entry down through its support.
proof fn lemma_entry2_sigs_differ(n: int, i: int, j: int, a: int, b: int, s1: Seq<i32>, s2: Seq<i32>)
    requires
        0 <= i <= j < n,
        0 <= a <= b < n,
        (i, j) != (a, b),
        entry2_sig(n, i, j, s1),
        entry2_sig(n, a, b, s2),
    ensures
        s1 != s2,
{
    let p1 = choose|p: int| 0 <= p < items2(n, i, j).len() && (#[trigger] items2(n, i, j)[p]).0 == s1;
    let p2 = choose|p: int| 0 <= p < items2(n, a, b).len() && (#[trigger] items2(n, a, b)[p]).0 == s2;
    if i == j {
        assert(s1[i] == 2 || s1[i] == -2);
        if a == b {
            assert(a != i);
            assert(s2[i] == 0);
        } else {
            assert(s2[i] == 0 || s2[i] == 1 || s2[i] == -1);
        }
        assert(s1[i] != s2[i]);
    } else {
        assert(s1[i] == 1 || s1[i] == -1);
        assert(s1[j] == 1 || s1[j] == -1);
        if a == b {
            assert(s2[a] == 2 || s2[a] == -2);
            if a == i {
                assert(s1[a] == 1 || s1[a] == -1);
                assert(s1[a] != s2[a]);
            } else if a == j {
                assert(s1[a] == 1 || s1[a] == -1);
                assert(s1[a] != s2[a]);
            } else {
                assert(s1[a] == 0);
                assert(s1[a] != s2[a]);
            }
        } else {
            // Two distinct off-diagonal entries: some coordinate is in one
            // support but not the other.
            if a == i {
                assert(b != j);
                if b == i {
                    assert(false);
                } else {
                    assert(s1[b] == (if b == j { s1[b] } else { 0 }));
                    assert(b != j ==> s1[b] == 0);
                    assert(s2[b] == 1 || s2[b] == -1);
                    assert(s1[b] != s2[b]);
                }
            } else {
                // a differs from i; a is in s2's support.
                assert(s2[a] == 1 || s2[a] == -1);
                if a == j {
                    // then i is in s1's support but not s2's: i < j = a <= b
                    // and i != a, i != b.
                    assert(i != b);
                    assert(s2[i] == 0);
                    assert(s1[i] == 1 || s1[i] == -1);
                    assert(s1[i] != s2[i]);
                } else {
                    assert(s1[a] == 0);
                    assert(s1[a] != s2[a]);
                }
            }
        }
    }
}

/// Samples within one entry are pairwise distinct.
proof fn lemma_items2_distinct(n: int, i: int, j: int, p1: int, p2: int)
    requires
        0 <= i <= j < n,
        0 <= p1 < p2 < items2(n, i, j).len(),
    ensures
        items2(n, i, j)[p1].0 != items2(n, i, j)[p2].0,
{
    if i == j {
        assert(items2(n, i, j)[p1].0[i] != items2(n, i, j)[p2].0[i]);
    } else {
        let s1 = items2(n, i, j)[p1].0;
        let s2 = items2(n, i, j)[p2].0;
        assert(s1[i] != s2[i] || s1[j] != s2[j]);
    }
}

/// The harmonic samples are pairwise distinct: no second-derivative
/// stencil signature is ever required twice.
pub proof fn lemma_plan2_distinct(n: int, i: int, j: int, e1: int, e2: int)
    requires
        0 <= i <= j,
        0 <= e1 < e2 < plan2_from(n, i, j).len(),
    ensures
        plan2_from(n, i, j)[e1].0 != plan2_from(n, i, j)[e2].0,
    decreases n - i, n - j,
{
    if i >= n {
        assert(false);
    } else if j >= n {
        lemma_plan2_distinct(n, i + 1, i + 1, e1, e2);
    } else {
        let head = items2(n, i, j);
        let tail = plan2_from(n, i, j + 1);
        if e2 < head.len() {
            assert(plan2_from(n, i, j)[e1] == head[e1]);
            assert(plan2_from(n, i, j)[e2] == head[e2]);
            lemma_items2_distinct(n, i, j, e1, e2);
        } else if e1 < head.len() {
            assert(plan2_from(n, i, j)[e1] == head[e1]);
            let t2e = e2 - head.len();
            assert(plan2_from(n, i, j)[e2] == tail[t2e]);
            lemma_plan2_shapes(n, i, j + 1, t2e);
            let (a, b) = choose|a: int, b: int|
                i <= a <= b < n && entry2_ge(i, j + 1, a, b) && #[trigger] entry2_sig(
                    n,
                    a,
                    b,
                    plan2_from(n, i, j + 1)[t2e].0,
                );
            assert((i, j) != (a, b));
            assert(entry2_sig(n, i, j, head[e1].0)) by {
                assert(items2(n, i, j)[e1].0 == head[e1].0);
            }
            lemma_entry2_sigs_differ(n, i, j, a, b, head[e1].0, tail[t2e].0);
        } else {
            lemma_plan2_distinct(n, i, j + 1, e1 - head.len(), e2 - head.len());
        }
    }
}

/// Every sample of every entry from `(i, j)` on appears in the plan.
pub proof fn lemma_plan2_contains(n: int, i: int, j: int, a: int, b: int, p: int)
    requires
        0 <= i <= j,
        i <= a <= b < n,
        entry2_ge(i, j, a, b),
        0 <= p < items2(n, a, b).len(),
    ensures
        exists|e: int|
            0 <= e < plan2_from(n, i, j).len() && #[trigger] plan2_from(n, i, j)[e] == items2(
                n,
                a,
                b,
            )[p],
    decreases n - i, n - j,
{
    if j >= n {
        assert(a > i);
        lemma_plan2_contains(n, i + 1, i + 1, a, b, p);
        let e = choose|e: int|
            0 <= e < plan2_from(n, i + 1, i + 1).len() && #[trigger] plan2_from(n, i + 1, i + 1)[e]
                == items2(n, a, b)[p];
        assert(plan2_from(n, i, j)[e] == items2(n, a, b)[p]);
    } else if a == i && b == j {
        assert(plan2_from(n, i, j)[p] == items2(n, a, b)[p]);
    } else {
        assert(entry2_ge(i, j + 1, a, b));
        lemma_plan2_contains(n, i, j + 1, a, b, p);
        let e = choose|e: int|
            0 <= e < plan2_from(n, i, j + 1).len() && #[trigger] plan2_from(n, i, j + 1)[e]
                == items2(n, a, b)[p];
        let head = items2(n, i, j);
        assert(plan2_from(n, i, j)[head.len() + e] == items2(n, a, b)[p]);
    }
}

/// Spec view of an executable stencil-item list.
pub open spec fn items_of(v: Seq<(Vec<i32>, usize, i64)>) -> Seq<(Seq<i32>, int, int)> {
    Seq::new(v.len(), |p: int| (v[p].0@, v[p].1 as int, v[p].2 as int))
}

/// Builds the signature stepping coordinate `i` by `s` units.
pub fn mk_sig1(n: usize, i: usize, s: i32) -> (r: Vec<i32>)
    requires
        i < n,
        -2 <= s <= 2,
    ensures
        r@ == sig1(n as int, i as int, s as int),
{
    let mut r: Vec<i32> = Vec::new();
    let mut c: usize = 0;
    while c < n
        invariant
            c <= n,
            r@.len() == c,
            forall|c2: int| 0 <= c2 < c ==> #[trigger] r@[c2] == 0i32,
        decreases n - c,
    {
        r.push(0);
        c = c + 1;
    }
    r.set(i, s);
    proof {
        assert(r@ =~= sig1(n as int, i as int, s as int));
    }
    r
}

/// Builds the signature stepping coordinate `i` by `si` and `j` by `sj`.
pub fn mk_sig2(n: usize, i: usize, si: i32, j: usize, sj: i32) -> (r: Vec<i32>)
    requires
        i < n,
        j < n,
        i != j,
        -2 <= si <= 2,
        -2 <= sj <= 2,
    ensures
        r@ == sig2(n as int, i as int, si as int, j as int, sj as int),
{
    let mut r = mk_sig1(n, i, si);
    r.set(j, sj);
    proof {
        assert(r@ =~= sig2(n as int, i as int, si as int, j as int, sj as int));
    }
    r
}

/// The signature stepping three distinct coordinates.
pub open spec fn sig3(n: int, i: int, si: int, j: int, sj: int, k: int, sk: int) -> Seq<i32> {
    Seq::new(
        n as nat,
        |c: int|
            if c == i {
                si as i32
            } else if c == j {
                sj as i32
            } else if c == k {
                sk as i32
            } else {
                0i32
            },
    )
}

/// The signature stepping four distinct coordinates.
pub open spec fn sig4(
    n: int,
    i: int,
    si: int,
    j: int,
    sj: int,
    k: int,
    sk: int,
    l: int,
    sl: int,
) -> Seq<i32> {
    Seq::new(
        n as nat,
        |c: int|
            if c == i {
                si as i32
            } else if c == j {
                sj as i32
            } else if c == k {
                sk as i32
            } else if c == l {
                sl as i32
            } else {
                0i32
            },
    )
}

/// Builds the signature stepping three distinct coordinates.
pub fn mk_sig3(n: usize, i: usize, si: i32, j: usize, sj: i32, k: usize, sk: i32) -> (r: Vec<i32>)
    requires
        i < n,
        j < n,
        k < n,
        i != j,
        i != k,
        j != k,
        -2 <= si <= 2,
        -2 <= sj <= 2,
        -2 <= sk <= 2,
    ensures
        r@ == sig3(n as int, i as int, si as int, j as int, sj as int, k as int, sk as int),
{
    let mut r = mk_sig2(n, i, si, j, sj);
    r.set(k, sk);
    proof {
        assert(r@ =~= sig3(n as int, i as int, si as int, j as int, sj as int, k as int, sk as int));
    }
    r
}

/// Builds the signature stepping four distinct coordinates.
pub fn mk_sig4(
    n: usize,
    i: usize,
    si: i32,
    j: usize,
    sj: i32,
    k: usize,
    sk: i32,
    l: usize,
    sl: i32,
) -> (r: Vec<i32>)
    requires
        i < n,
        j < n,
        k < n,
        l < n,
        i != j,
        i != k,
        i != l,
        j != k,
        j != l,
        k != l,
        -2 <= si <= 2,
        -2 <= sj <= 2,
        -2 <= sk <= 2,
        -2 <= sl <= 2,
    ensures
        r@ == sig4(
            n as int,
            i as int,
            si as int,
            j as int,
            sj as int,
            k as int,
            sk as int,
            l as int,
            sl as int,
        ),
{
    let mut r = mk_sig3(n, i, si, j, sj, k, sk);
    r.set(l, sl);
    proof {
        assert(r@ =~= sig4(
            n as int,
            i as int,
            si as int,
            j as int,
            sj as int,
            k as int,
            sk as int,
            l as int,
            sl as int,
        ));
    }
    r
}

/// Computes `t2` by its closed form.
pub fn t2_exec(j: usize) -> (r: usize)
    requires
        j <= MAX_COORDS,
    ensures
        r == t2(j as int),
{
    proof {
        lemma_t2_closed(j as int);
        assert(j * (j + 1) <= MAX_COORDS * (MAX_COORDS + 1)) by (nonlinear_arith)
            requires
                j <= MAX_COORDS,
        ;
        vstd::arithmetic::div_mod::lemma_div_multiples_vanish(t2(j as int), 2);
        lemma_counts_nonneg(j as int);
    }
    (j * (j + 1)) / 2
}

/// Computes `c3` by its closed form.
pub fn c3_exec(k: usize) -> (r: usize)
    requires
        k <= MAX_COORDS,
    ensures
        r == c3(k as int),
{
    proof {
        lemma_c3_closed(k as int);
        assert(k * (k + 1) <= MAX_COORDS * (MAX_COORDS + 1)) by (nonlinear_arith)
            requires
                k <= MAX_COORDS,
        ;
        assert(k * (k + 1) * (k + 2) <= MAX_COORDS * (MAX_COORDS + 1) * (MAX_COORDS + 2))
            by (nonlinear_arith)
            requires
                k <= MAX_COORDS,
        ;
        vstd::arithmetic::div_mod::lemma_div_multiples_vanish(c3(k as int), 6);
        lemma_counts_nonneg(k as int);
    }
    (k * (k + 1) * (k + 2)) / 6
}

/// Computes `c4` by its closed form.
pub fn c4_exec(l: usize) -> (r: usize)
    requires
        l <= MAX_COORDS,
    ensures
        r == c4(l as int),
{
    proof {
        lemma_c4_closed(l as int);
        assert(l * (l + 1) <= MAX_COORDS * (MAX_COORDS + 1)) by (nonlinear_arith)
            requires
                l <= MAX_COORDS,
        ;
        assert(l * (l + 1) * (l + 2) <= MAX_COORDS * (MAX_COORDS + 1) * (MAX_COORDS + 2))
            by (nonlinear_arith)
            requires
                l <= MAX_COORDS,
        ;
        assert(l * (l + 1) * (l + 2) * (l + 3) <= MAX_COORDS * (MAX_COORDS + 1) * (MAX_COORDS + 2)
            * (MAX_COORDS + 3)) by (nonlinear_arith)
            requires
                l <= MAX_COORDS,
        ;
        vstd::arithmetic::div_mod::lemma_div_multiples_vanish(c4(l as int), 24);
        lemma_counts_nonneg(l as int);
    }
    (l * (l + 1) * (l + 2) * (l + 3)) / 24
}

/// Computes the flat position of third-derivative entry `i <= j <= k`
/// inside its triangular block.
pub fn idx3_exec(n: usize, i: usize, j: usize, k: usize) -> (r: usize)
    requires
        i <= j,
        j <= k,
        k < n,
        n <= MAX_COORDS,
    ensures
        r == idx3(i as int, j as int, k as int),
        r < c3(n as int),
{
    proof {
        lemma_idx3_bound(n as int, i as int, j as int, k as int);
        lemma_counts_nonneg(j as int);
        lemma_counts_nonneg(k as int);
        lemma_c3_mono(n as int, MAX_COORDS as int);
        lemma_c3_closed(MAX_COORDS as int);
    }
    let r = i + t2_exec(j) + c3_exec(k);
    r
}

/// Computes the flat position of fourth-derivative entry `i <= j <= k <= l`
/// inside its triangular block.
pub fn idx4_exec(n: usize, i: usize, j: usize, k: usize, l: usize) -> (r: usize)
    requires
        i <= j,
        j <= k,
        k <= l,
        l < n,
        n <= MAX_COORDS,
    ensures
        r == idx4(i as int, j as int, k as int, l as int),
        r < c4(n as int),
{
    proof {
        lemma_idx4_bound(n as int, i as int, j as int, k as int, l as int);
        lemma_counts_nonneg(j as int);
        lemma_counts_nonneg(k as int);
        lemma_counts_nonneg(l as int);
        lemma_c4_mono(n as int, MAX_COORDS as int);
        lemma_c4_closed(MAX_COORDS as int);
    }
    let r = i + t2_exec(j) + c3_exec(k) + c4_exec(l);
    r
}

/// The sampled stencil of third-derivative entry `i <= j <= k`, placed at
/// flat position `n*n + idx3(i, j, k)`.
///
/// The pure entry uses `(f(2h) - 2 f(h) + 2 f(-h) - f(-2h)) / (2 h^3)`;
/// an entry with one coordinate doubled composes the compact three-sample
/// second difference with a central first difference (denominator
/// `2 h^3`); three distinct coordinates use the eight-point cross pattern
/// (denominator `8 h^3`).  No third-derivative stencil touches the
/// reference energy.
pub open spec fn items3(n: int, i: int, j: int, k: int) -> Seq<(Seq<i32>, int, int)> {
    let x = n * n + idx3(i, j, k);
    if i == j && j == k {
        seq![
            plan_item(sig1(n, i, 2), x, 1),
            plan_item(sig1(n, i, 1), x, -2),
            plan_item(sig1(n, i, -1), x, 2),
            plan_item(sig1(n, i, -2), x, -1),
        ]
    } else if i == j {
        seq![
            plan_item(sig2(n, i, 1, k, 1), x, 1),
            plan_item(sig1(n, k, 1), x, -2),
            plan_item(sig2(n, i, -1, k, 1), x, 1),
            plan_item(sig2(n, i, 1, k, -1), x, -1),
            plan_item(sig1(n, k, -1), x, 2),
            plan_item(sig2(n, i, -1, k, -1), x, -1),
        ]
    } else if j == k {
        seq![
            plan_item(sig2(n, i, 1, j, 1), x, 1),
            plan_item(sig1(n, i, 1), x, -2),
            plan_item(sig2(n, i, 1, j, -1), x, 1),
            plan_item(sig2(n, i, -1, j, 1), x, -1),
            plan_item(sig1(n, i, -1), x, 2),
            plan_item(sig2(n, i, -1, j, -1), x, -1),
        ]
    } else {
        seq![
            plan_item(sig3(n, i, 1, j, 1, k, 1), x, 1),
            plan_item(sig3(n, i, 1, j, 1, k, -1), x, -1),
            plan_item(sig3(n, i, 1, j, -1, k, 1), x, -1),
            plan_item(sig3(n, i, 1, j, -1, k, -1), x, 1),
            plan_item(sig3(n, i, -1, j, 1, k, 1), x, -1),
            plan_item(sig3(n, i, -1, j, 1, k, -1), x, 1),
            plan_item(sig3(n, i, -1, j, -1, k, 1), x, 1),
            plan_item(sig3(n, i, -1, j, -1, k, -1), x, -1),
        ]
    }
}

/// All sampled third-derivative stencil items from entry `(i, j, k)` on, in
/// enumeration order over `i <= j <= k < n`.
pub open spec fn plan3_from(n: int, i: int, j: int, k: int) -> Seq<(Seq<i32>, int, int)>
    decreases n - i, n - j, n - k,
{
    if i < 0 || j < 0 || k < 0 || i >= n {
        Seq::empty()
    } else if j >= n {
        plan3_from(n, i + 1, i + 1, i + 1)
    } else if k >= n {
        plan3_from(n, i, j + 1, j + 1)
    } else {
        items3(n, i, j, k) + plan3_from(n, i, j, k + 1)
    }
}

/// The sampled stencil of third-derivative entry `(i, j, k)` as executable
/// data, exactly as [`items3`] states it.
pub fn stencil3(n: usize, i: usize, j: usize, k: usize) -> (r: Vec<(Vec<i32>, usize, i64)>)
    requires
        i <= j,
        j <= k,
        k < n,
        n <= MAX_COORDS,
    ensures
        items_of(r@) == items3(n as int, i as int, j as int, k as int),
        forall|p: int|
            0 <= p < r@.len() ==> n * n <= (#[trigger] r@[p]).1 < n * n + c3(n as int),
        forall|p: int| 0 <= p < r@.len() ==> (#[trigger] r@[p]).0@.len() == n,
        forall|p: int|
            0 <= p < r@.len() ==> crate::sig::sig_wf((#[trigger] r@[p]).0@, n as nat),
{
    proof {
        assert(n * n <= MAX_COORDS * MAX_COORDS) by (nonlinear_arith)
            requires
                n <= MAX_COORDS,
        ;
        lemma_c3_closed(MAX_COORDS as int);
        lemma_c3_mono(n as int, MAX_COORDS as int);
    }
    let x = n * n + idx3_exec(n, i, j, k);
    let mut r: Vec<(Vec<i32>, usize, i64)> = Vec::new();
    if i == j && j == k {
        r.push((mk_sig1(n, i, 2), x, 1));
        r.push((mk_sig1(n, i, 1), x, -2));
        r.push((mk_sig1(n, i, -1), x, 2));
        r.push((mk_sig1(n, i, -2), x, -1));
    } else if i == j {
        r.push((mk_sig2(n, i, 1, k, 1), x, 1));
        r.push((mk_sig1(n, k, 1), x, -2));
        r.push((mk_sig2(n, i, -1, k, 1), x, 1));
        r.push((mk_sig2(n, i, 1, k, -1), x, -1));
        r.push((mk_sig1(n, k, -1), x, 2));
        r.push((mk_sig2(n, i, -1, k, -1), x, -1));
    } else if j == k {
        r.push((mk_sig2(n, i, 1, j, 1), x, 1));
        r.push((mk_sig1(n, i, 1), x, -2));
        r.push((mk_sig2(n, i, 1, j, -1), x, 1));
        r.push((mk_sig2(n, i, -1, j, 1), x, -1));
        r.push((mk_sig1(n, i, -1), x, 2));
        r.push((mk_sig2(n, i, -1, j, -1), x, -1));
    } else {
        r.push((mk_sig3(n, i, 1, j, 1, k, 1), x, 1));
        r.push((mk_sig3(n, i, 1, j, 1, k, -1), x, -1));
        r.push((mk_sig3(n, i, 1, j, -1, k, 1), x, -1));
        r.push((mk_sig3(n, i, 1, j, -1, k, -1), x, 1));
        r.push((mk_sig3(n, i, -1, j, 1, k, 1), x, -1));
        r.push((mk_sig3(n, i, -1, j, 1, k, -1), x, 1));
        r.push((mk_sig3(n, i, -1, j, -1, k, 1), x, 1));
        r.push((mk_sig3(n, i, -1, j, -1, k, -1), x, -1));
    }
    proof {
        assert(items_of(r@) =~= items3(n as int, i as int, j as int, k as int));
        assert forall|p: int| 0 <= p < r@.len() implies crate::sig::sig_wf(
            (#[trigger] r@[p]).0@,
            n as nat,
        ) && r@[p].0@.len() == n by {
            assert(r@[p].0@ == items_of(r@)[p].0);
        }
    }
    r
}

/// The sampled stencil of fourth-derivative entry `i <= j <= k <= l`,
/// placed at flat position `n*n + c3(n) + idx4(i, j, k, l)`.
///
/// Each shape composes the one-dimensional central-difference patterns of
/// its coordinate multiplicities: the wide four-sample third difference
/// and five-sample fourth difference for triple and quadruple
/// coordinates, the compact three-sample second difference for doubled
/// ones, and the two-sample first difference for single ones.  The two
/// even shapes (one coordinate four times; two coordinates twice) also
/// weigh the reference energy, by `6` and `4`: see [`refs4_at`].
pub open spec fn items4(n: int, i: int, j: int, k: int, l: int) -> Seq<(Seq<i32>, int, int)> {
    let x = n * n + c3(n) + idx4(i, j, k, l);
    if i == j && j == k && k == l {
        seq![
            plan_item(sig1(n, i, 2), x, 1),
            plan_item(sig1(n, i, 1), x, -4),
            plan_item(sig1(n, i, -1), x, -4),
            plan_item(sig1(n, i, -2), x, 1),
        ]
    } else if i == j && j == k {
        seq![
            plan_item(sig2(n, i, 2, l, 1), x, 1),
            plan_item(sig2(n, i, 1, l, 1), x, -2),
            plan_item(sig2(n, i, -1, l, 1), x, 2),
            plan_item(sig2(n, i, -2, l, 1), x, -1),
            plan_item(sig2(n, i, 2, l, -1), x, -1),
            plan_item(sig2(n, i, 1, l, -1), x, 2),
            plan_item(sig2(n, i, -1, l, -1), x, -2),
            plan_item(sig2(n, i, -2, l, -1), x, 1),
        ]
    } else if j == k && k == l {
        seq![
            plan_item(sig2(n, i, 1, j, 2), x, 1),
            plan_item(sig2(n, i, 1, j, 1), x, -2),
            plan_item(sig2(n, i, 1, j, -1), x, 2),
            plan_item(sig2(n, i, 1, j, -2), x, -1),
            plan_item(sig2(n, i, -1, j, 2), x, -1),
            plan_item(sig2(n, i, -1, j, 1), x, 2),
            plan_item(sig2(n, i, -1, j, -1), x, -2),
            plan_item(sig2(n, i, -1, j, -2), x, 1),
        ]
    } else if i == j && k == l {
        seq![
            plan_item(sig2(n, i, 1, k, 1), x, 1),
            plan_item(sig1(n, i, 1), x, -2),
            plan_item(sig2(n, i, 1, k, -1), x, 1),
            plan_item(sig1(n, k, 1), x, -2),
            plan_item(sig1(n, k, -1), x, -2),
            plan_item(sig2(n, i, -1, k, 1), x, 1),
            plan_item(sig1(n, i, -1), x, -2),
            plan_item(sig2(n, i, -1, k, -1), x, 1),
        ]
    } else if i == j {
        seq![
            plan_item(sig3(n, i, 1, k, 1, l, 1), x, 1),
            plan_item(sig2(n, k, 1, l, 1), x, -2),
            plan_item(sig3(n, i, -1, k, 1, l, 1), x, 1),
            plan_item(sig3(n, i, 1, k, 1, l, -1), x, -1),
            plan_item(sig2(n, k, 1, l, -1), x, 2),
            plan_item(sig3(n, i, -1, k, 1, l, -1), x, -1),
            plan_item(sig3(n, i, 1, k, -1, l, 1), x, -1),
            plan_item(sig2(n, k, -1, l, 1), x, 2),
            plan_item(sig3(n, i, -1, k, -1, l, 1), x, -1),
            plan_item(sig3(n, i, 1, k, -1, l, -1), x, 1),
            plan_item(sig2(n, k, -1, l, -1), x, -2),
            plan_item(sig3(n, i, -1, k, -1, l, -1), x, 1),
        ]
    } else if j == k {
        seq![
            plan_item(sig3(n, i, 1, j, 1, l, 1), x, 1),
            plan_item(sig2(n, i, 1, l, 1), x, -2),
            plan_item(sig3(n, i, 1, j, -1, l, 1), x, 1),
            plan_item(sig3(n, i, 1, j, 1, l, -1), x, -1),
            plan_item(sig2(n, i, 1, l, -1), x, 2),
            plan_item(sig3(n, i, 1, j, -1, l, -1), x, -1),
            plan_item(sig3(n, i, -1, j, 1, l, 1), x, -1),
            plan_item(sig2(n, i, -1, l, 1), x, 2),
            plan_item(sig3(n, i, -1, j, -1, l, 1), x, -1),
            plan_item(sig3(n, i, -1, j, 1, l, -1), x, 1),
            plan_item(sig2(n, i, -1, l, -1), x, -2),
            plan_item(sig3(n, i, -1, j, -1, l, -1), x, 1),
        ]
    } else if k == l {
        seq![
            plan_item(sig3(n, i, 1, j, 1, k, 1), x, 1),
            plan_item(sig2(n, i, 1, j, 1), x, -2),
            plan_item(sig3(n, i, 1, j, 1, k, -1), x, 1),
            plan_item(sig3(n, i, 1, j, -1, k, 1), x, -1),
            plan_item(sig2(n, i, 1, j, -1), x, 2),
            plan_item(sig3(n, i, 1, j, -1, k, -1), x, -1),
            plan_item(sig3(n, i, -1, j, 1, k, 1), x, -1),
            plan_item(sig2(n, i, -1, j, 1), x, 2),
            plan_item(sig3(n, i, -1, j, 1, k, -1), x, -1),
            plan_item(sig3(n, i, -1, j, -1, k, 1), x, 1),
            plan_item(sig2(n, i, -1, j, -1), x, -2),
            plan_item(sig3(n, i, -1, j, -1, k, -1), x, 1),
        ]
    } else {
        seq![
            plan_item(sig4(n, i, 1, j, 1, k, 1, l, 1), x, 1),
            plan_item(sig4(n, i, 1, j, 1, k, 1, l, -1), x, -1),
            plan_item(sig4(n, i, 1, j, 1, k, -1, l, 1), x, -1),
            plan_item(sig4(n, i, 1, j, 1, k, -1, l, -1), x, 1),
            plan_item(sig4(n, i, 1, j, -1, k, 1, l, 1), x, -1),
            plan_item(sig4(n, i, 1, j, -1, k, 1, l, -1), x, 1),
            plan_item(sig4(n, i, 1, j, -1, k, -1, l, 1), x, 1),
            plan_item(sig4(n, i, 1, j, -1, k, -1, l, -1), x, -1),
            plan_item(sig4(n, i, -1, j, 1, k, 1, l, 1), x, -1),
            plan_item(sig4(n, i, -1, j, 1, k, 1, l, -1), x, 1),
            plan_item(sig4(n, i, -1, j, 1, k, -1, l, 1), x, 1),
            plan_item(sig4(n, i, -1, j, 1, k, -1, l, -1), x, -1),
            plan_item(sig4(n, i, -1, j, -1, k, 1, l, 1), x, 1),
            plan_item(sig4(n, i, -1, j, -1, k, 1, l, -1), x, -1),
            plan_item(sig4(n, i, -1, j, -1, k, -1, l, 1), x, -1),
            plan_item(sig4(n, i, -1, j, -1, k, -1, l, -1), x, 1),
        ]
    }
}

/// Reference-energy coefficients of fourth-derivative entry
/// `i <= j <= k <= l`: `6` for a coordinate taken four times, `4` for two
/// coordinates taken twice.
pub open spec fn refs4_at(n: int, i: int, j: int, k: int, l: int) -> Seq<(int, int)> {
    let x = n * n + c3(n) + idx4(i, j, k, l);
    if i == j && j == k && k == l {
        seq![(x, 6)]
    } else if i == j && k == l && j != k {
        seq![(x, 4)]
    } else {
        Seq::empty()
    }
}

/// All sampled fourth-derivative stencil items from entry `(i, j, k, l)`
/// on, in enumeration order over `i <= j <= k <= l < n`.
pub open spec fn plan4_from(n: int, i: int, j: int, k: int, l: int) -> Seq<(Seq<i32>, int, int)>
    decreases n - i, n - j, n - k, n - l,
{
    if i < 0 || j < 0 || k < 0 || l < 0 || i >= n {
        Seq::empty()
    } else if j >= n {
        plan4_from(n, i + 1, i + 1, i + 1, i + 1)
    } else if k >= n {
        plan4_from(n, i, j + 1, j + 1, j + 1)
    } else if l >= n {
        plan4_from(n, i, j, k + 1, k + 1)
    } else {
        items4(n, i, j, k, l) + plan4_from(n, i, j, k, l + 1)
    }
}

/// All fourth-derivative reference coefficients from entry `(i, j, k, l)`
/// on, in enumeration order.
pub open spec fn refs4_from(n: int, i: int, j: int, k: int, l: int) -> Seq<(int, int)>
    decreases n - i, n - j, n - k, n - l,
{
    if i < 0 || j < 0 || k < 0 || l < 0 || i >= n {
        Seq::empty()
    } else if j >= n {
        refs4_from(n, i + 1, i + 1, i + 1, i + 1)
    } else if k >= n {
        refs4_from(n, i, j + 1, j + 1, j + 1)
    } else if l >= n {
        refs4_from(n, i, j, k + 1, k + 1)
    } else {
        refs4_at(n, i, j, k, l) + refs4_from(n, i, j, k, l + 1)
    }
}

/// The sampled stencil of fourth-derivative entry `(i, j, k, l)` as
/// executable data, exactly as [`items4`] states it.
pub fn stencil4(n: usize, i: usize, j: usize, k: usize, l: usize) -> (r: Vec<
    (Vec<i32>, usize, i64),
>)
    requires
        i <= j,
        j <= k,
        k <= l,
        l < n,
        n <= MAX_COORDS,
    ensures
        items_of(r@) == items4(n as int, i as int, j as int, k as int, l as int),
        forall|p: int|
            0 <= p < r@.len() ==> n * n + c3(n as int) <= (#[trigger] r@[p]).1 < n * n + c3(
                n as int,
            ) + c4(n as int),
        forall|p: int| 0 <= p < r@.len() ==> (#[trigger] r@[p]).0@.len() == n,
        forall|p: int|
            0 <= p < r@.len() ==> crate::sig::sig_wf((#[trigger] r@[p]).0@, n as nat),
{
    proof {
        assert(n * n <= MAX_COORDS * MAX_COORDS) by (nonlinear_arith)
            requires
                n <= MAX_COORDS,
        ;
        lemma_c3_closed(MAX_COORDS as int);
        lemma_c3_mono(n as int, MAX_COORDS as int);
        lemma_c4_closed(MAX_COORDS as int);
        lemma_c4_mono(n as int, MAX_COORDS as int);
        lemma_counts_nonneg(n as int);
    }
    let x = n * n + c3_exec(n) + idx4_exec(n, i, j, k, l);
    let mut r: Vec<(Vec<i32>, usize, i64)> = Vec::new();
    if i == j && j == k && k == l {
        r.push((mk_sig1(n, i, 2), x, 1));
        r.push((mk_sig1(n, i, 1), x, -4));
        r.push((mk_sig1(n, i, -1), x, -4));
        r.push((mk_sig1(n, i, -2), x, 1));
    } else if i == j && j == k {
        r.push((mk_sig2(n, i, 2, l, 1), x, 1));
        r.push((mk_sig2(n, i, 1, l, 1), x, -2));
        r.push((mk_sig2(n, i, -1, l, 1), x, 2));
        r.push((mk_sig2(n, i, -2, l, 1), x, -1));
        r.push((mk_sig2(n, i, 2, l, -1), x, -1));
        r.push((mk_sig2(n, i, 1, l, -1), x, 2));
        r.push((mk_sig2(n, i, -1, l, -1), x, -2));
        r.push((mk_sig2(n, i, -2, l, -1), x, 1));
    } else if j == k && k == l {
        r.push((mk_sig2(n, i, 1, j, 2), x, 1));
        r.push((mk_sig2(n, i, 1, j, 1), x, -2));
        r.push((mk_sig2(n, i, 1, j, -1), x, 2));
        r.push((mk_sig2(n, i, 1, j, -2), x, -1));
        r.push((mk_sig2(n, i, -1, j, 2), x, -1));
        r.push((mk_sig2(n, i, -1, j, 1), x, 2));
        r.push((mk_sig2(n, i, -1, j, -1), x, -2));
        r.push((mk_sig2(n, i, -1, j, -2), x, 1));
    } else if i == j && k == l {
        r.push((mk_sig2(n, i, 1, k, 1), x, 1));
        r.push((mk_sig1(n, i, 1), x, -2));
        r.push((mk_sig2(n, i, 1, k, -1), x, 1));
        r.push((mk_sig1(n, k, 1), x, -2));
        r.push((mk_sig1(n, k, -1), x, -2));
        r.push((mk_sig2(n, i, -1, k, 1), x, 1));
        r.push((mk_sig1(n, i, -1), x, -2));
        r.push((mk_sig2(n, i, -1, k, -1), x, 1));
    } else if i == j {
        r.push((mk_sig3(n, i, 1, k, 1, l, 1), x, 1));
        r.push((mk_sig2(n, k, 1, l, 1), x, -2));
        r.push((mk_sig3(n, i, -1, k, 1, l, 1), x, 1));
        r.push((mk_sig3(n, i, 1, k, 1, l, -1), x, -1));
        r.push((mk_sig2(n, k, 1, l, -1), x, 2));
        r.push((mk_sig3(n, i, -1, k, 1, l, -1), x, -1));
        r.push((mk_sig3(n, i, 1, k, -1, l, 1), x, -1));
        r.push((mk_sig2(n, k, -1, l, 1), x, 2));
        r.push((mk_sig3(n, i, -1, k, -1, l, 1), x, -1));
        r.push((mk_sig3(n, i, 1, k, -1, l, -1), x, 1));
        r.push((mk_sig2(n, k, -1, l, -1), x, -2));
        r.push((mk_sig3(n, i, -1, k, -1, l, -1), x, 1));
    } else if j == k {
        r.push((mk_sig3(n, i, 1, j, 1, l, 1), x, 1));
        r.push((mk_sig2(n, i, 1, l, 1), x, -2));
        r.push((mk_sig3(n, i, 1, j, -1, l, 1), x, 1));
        r.push((mk_sig3(n, i, 1, j, 1, l, -1), x, -1));
        r.push((mk_sig2(n, i, 1, l, -1), x, 2));
        r.push((mk_sig3(n, i, 1, j, -1, l, -1), x, -1));
        r.push((mk_sig3(n, i, -1, j, 1, l, 1), x, -1));
        r.push((mk_sig2(n, i, -1, l, 1), x, 2));
        r.push((mk_sig3(n, i, -1, j, -1, l, 1), x, -1));
        r.push((mk_sig3(n, i, -1, j, 1, l, -1), x, 1));
        r.push((mk_sig2(n, i, -1, l, -1), x, -2));
        r.push((mk_sig3(n, i, -1, j, -1, l, -1), x, 1));
    } else if k == l {
        r.push((mk_sig3(n, i, 1, j, 1, k, 1), x, 1));
        r.push((mk_sig2(n, i, 1, j, 1), x, -2));
        r.push((mk_sig3(n, i, 1, j, 1, k, -1), x, 1));
        r.push((mk_sig3(n, i, 1, j, -1, k, 1), x, -1));
        r.push((mk_sig2(n, i, 1, j, -1), x, 2));
        r.push((mk_sig3(n, i, 1, j, -1, k, -1), x, -1));
        r.push((mk_sig3(n, i, -1, j, 1, k, 1), x, -1));
        r.push((mk_sig2(n, i, -1, j, 1), x, 2));
        r.push((mk_sig3(n, i, -1, j, 1, k, -1), x, -1));
        r.push((mk_sig3(n, i, -1, j, -1, k, 1), x, 1));
        r.push((mk_sig2(n, i, -1, j, -1), x, -2));
        r.push((mk_sig3(n, i, -1, j, -1, k, -1), x, 1));
    } else {
        r.push((mk_sig4(n, i, 1, j, 1, k, 1, l, 1), x, 1));
        r.push((mk_sig4(n, i, 1, j, 1, k, 1, l, -1), x, -1));
        r.push((mk_sig4(n, i, 1, j, 1, k, -1, l, 1), x, -1));
        r.push((mk_sig4(n, i, 1, j, 1, k, -1, l, -1), x, 1));
        r.push((mk_sig4(n, i, 1, j, -1, k, 1, l, 1), x, -1));
        r.push((mk_sig4(n, i, 1, j, -1, k, 1, l, -1), x, 1));
        r.push((mk_sig4(n, i, 1, j, -1, k, -1, l, 1), x, 1));
        r.push((mk_sig4(n, i, 1, j, -1, k, -1, l, -1), x, -1));
        r.push((mk_sig4(n, i, -1, j, 1, k, 1, l, 1), x, -1));
        r.push((mk_sig4(n, i, -1, j, 1, k, 1, l, -1), x, 1));
        r.push((mk_sig4(n, i, -1, j, 1, k, -1, l, 1), x, 1));
        r.push((mk_sig4(n, i, -1, j, 1, k, -1, l, -1), x, -1));
        r.push((mk_sig4(n, i, -1, j, -1, k, 1, l, 1), x, 1));
        r.push((mk_sig4(n, i, -1, j, -1, k, 1, l, -1), x, -1));
        r.push((mk_sig4(n, i, -1, j, -1, k, -1, l, 1), x, -1));
        r.push((mk_sig4(n, i, -1, j, -1, k, -1, l, -1), x, 1));
    }
    proof {
        assert(items_of(r@) =~= items4(n as int, i as int, j as int, k as int, l as int));
        assert forall|p: int| 0 <= p < r@.len() implies crate::sig::sig_wf(
            (#[trigger] r@[p]).0@,
            n as nat,
        ) && r@[p].0@.len() == n by {
            assert(r@[p].0@ == items_of(r@)[p].0);
        }
    }
    r
}

/// The sampled stencil of second-derivative entry `(i, j)` as executable
/// data, exactly as [`items2`] states it.
pub fn stencil2(n: usize, i: usize, j: usize) -> (r: Vec<(Vec<i32>, usize, i64)>)
    requires
        i <= j < n,
        n <= MAX_COORDS,
    ensures
        items_of(r@) == items2(n as int, i as int, j as int),
        forall|p: int| 0 <= p < r@.len() ==> (#[trigger] r@[p]).1 < n * n,
        forall|p: int| 0 <= p < r@.len() ==> (#[trigger] r@[p]).0@.len() == n,
        forall|p: int|
            0 <= p < r@.len() ==> crate::sig::sig_wf((#[trigger] r@[p]).0@, n as nat),
{
    proof {
        lemma_idx2_bound(n as int, i as int, j as int);
        assert(n * n <= MAX_COORDS * MAX_COORDS) by (nonlinear_arith)
            requires
                n <= MAX_COORDS,
        ;
    }
    let index = i * n + j;
    let mut r: Vec<(Vec<i32>, usize, i64)> = Vec::new();
    if i == j {
        r.push((mk_sig1(n, i, 2), index, 1));
        r.push((mk_sig1(n, i, -2), index, 1));
    } else {
        r.push((mk_sig2(n, i, 1, j, 1), index, 1));
        r.push((mk_sig2(n, i, 1, j, -1), index, -1));
        r.push((mk_sig2(n, i, -1, j, 1), index, -1));
        r.push((mk_sig2(n, i, -1, j, -1), index, 1));
    }
    proof {
        assert(items_of(r@) =~= items2(n as int, i as int, j as int));
        assert forall|p: int| 0 <= p < r@.len() implies crate::sig::sig_wf(
            (#[trigger] r@[p]).0@,
            n as nat,
        ) by {
            assert(r@[p].0@ == items_of(r@)[p].0);
        }
    }
    r
}

} // verus!
