//! Force-constant assembly: symmetry completion and block splitting.
//!
//! After the caller has evaluated every stencil combination (a sum of
//! energies weighted by the integer coefficients the point builder
//! recorded, divided by the entry's step denominator), the flat buffer
//! holds each *canonical* entry: second derivatives at `(i, j)` with
//! `i <= j`, third and fourth derivatives in triangular storage.  Values
//! travel as opaque 64-bit payloads (the caller's floating-point bit
//! patterns); completing the tensors is pure data movement, so nothing is
//! lost by the opaque view.  [`make_fcs`] mirrors every computed second
//! derivative to its transposed position — index-permutation symmetry —
//! and returns the three blocks; the triangular blocks are symmetric by
//! their storage alone.

use vstd::prelude::*;

use crate::stencil::idx2;
use crate::MAX_COORDS;

verus! {

/// Positions in the dense second-derivative block grow with the entry pair.
proof fn lemma_idx2_lt(n: int, a: int, b: int, i: int, j: int)
    requires
        0 <= a < n,
        0 <= b < n,
        0 <= i < n,
        0 <= j <= n,
        a < i || (a == i && b < j),
    ensures
        idx2(n, a, b) < idx2(n, i, j),
{
    if a < i {
        assert(a * n + b < i * n + j) by (nonlinear_arith)
            requires
                0 <= a,
                a < i,
                0 <= b < n,
                0 <= j,
        ;
    }
}

/// The dense second-derivative tensor with full index-permutation symmetry:
/// entry `(i, j)` is the canonical computed value of `(min(i,j), max(i,j))`.
pub open spec fn fc2_complete(fcs: Seq<u64>, n: int, i: int, j: int) -> u64 {
    if i <= j {
        fcs[idx2(n, i, j)]
    } else {
        fcs[idx2(n, j, i)]
    }
}

/// Mirrors every canonical second derivative to its transposed position.
///
/// The result has exactly `n * n` entries and is symmetric:
/// `r[i*n + j] == r[j*n + i]` for all `i, j` — with the canonical entries
/// `i <= j` taken unchanged from the evaluated buffer.
pub fn symmetrize_fc2(fcs: &Vec<u64>, n: usize) -> (r: Vec<u64>)
    requires
        n <= MAX_COORDS,
        fcs@.len() >= n * n,
    ensures
        r@.len() == n * n,
        forall|i: int, j: int|
            0 <= i < n && 0 <= j < n ==> #[trigger] r@[idx2(n as int, i, j)] == fc2_complete(
                fcs@,
                n as int,
                i,
                j,
            ),
        forall|i: int, j: int|
            0 <= i < n && 0 <= j < n ==> #[trigger] r@[idx2(n as int, i, j)] == r@[idx2(
                n as int,
                j,
                i,
            )],
{
    proof {
        assert(n * n <= MAX_COORDS * MAX_COORDS) by (nonlinear_arith)
            requires
                n <= MAX_COORDS,
        ;
    }
    let mut r: Vec<u64> = Vec::new();
    let mut i: usize = 0;
    while i < n
        invariant
            i <= n,
            n <= MAX_COORDS,
            fcs@.len() >= n * n,
            r@.len() == idx2(n as int, i as int, 0),
            forall|a: int, b: int|
                0 <= a < i && 0 <= b < n ==> #[trigger] r@[idx2(n as int, a, b)] == fc2_complete(
                    fcs@,
                    n as int,
                    a,
                    b,
                ),
        decreases n - i,
    {
        let mut j: usize = 0;
        while j < n
            invariant
                i < n,
                j <= n,
                n <= MAX_COORDS,
                fcs@.len() >= n * n,
                r@.len() == idx2(n as int, i as int, j as int),
                forall|a: int, b: int|
                    0 <= a < i && 0 <= b < n ==> #[trigger] r@[idx2(n as int, a, b)]
                        == fc2_complete(fcs@, n as int, a, b),
                forall|b: int|
                    0 <= b < j ==> #[trigger] r@[idx2(n as int, i as int, b)] == fc2_complete(
                        fcs@,
                        n as int,
                        i as int,
                        b,
                    ),
            decreases n - j,
        {
            proof {
                crate::stencil::lemma_idx2_bound(n as int, i as int, j as int);
                crate::stencil::lemma_idx2_bound(n as int, j as int, i as int);
                assert(n * n <= MAX_COORDS * MAX_COORDS) by (nonlinear_arith)
                    requires
                        n <= MAX_COORDS,
                ;
            }
            let v = if i <= j {
                fcs[i * n + j]
            } else {
                fcs[j * n + i]
            };
            let ghost r0 = r@;
            r.push(v);
            proof {
                assert forall|a: int, b: int|
                    (0 <= a < i && 0 <= b < n) || (a == i && 0 <= b < j + 1) implies #[trigger] r@[
                    idx2(n as int, a, b)
                ] == fc2_complete(fcs@, n as int, a, b) by {
                    if a < i || b < j {
                        lemma_idx2_lt(n as int, a, b, i as int, j as int);
                        assert(r@[idx2(n as int, a, b)] == r0[idx2(n as int, a, b)]);
                    } else {
                        assert(a == i && b == j);
                        assert(r@[idx2(n as int, a, b)] == v);
                    }
                }
            }
            j = j + 1;
        }
        proof {
            assert(idx2(n as int, i as int, n as int) == idx2(n as int, i as int + 1, 0)) by {
                assert(i * n + n == (i + 1) * n) by (nonlinear_arith);
            }
        }
        i = i + 1;
    }
    proof {
        assert forall|i2: int, j2: int| 0 <= i2 < n && 0 <= j2 < n implies #[trigger] r@[idx2(
            n as int,
            i2,
            j2,
        )] == r@[idx2(n as int, j2, i2)] by {
            assert(r@[idx2(n as int, i2, j2)] == fc2_complete(fcs@, n as int, i2, j2));
            assert(r@[idx2(n as int, j2, i2)] == fc2_complete(fcs@, n as int, j2, i2));
        }
    }
    r
}

/// Copies `count` entries of `fcs` starting at `start`.
fn copy_block(fcs: &Vec<u64>, start: usize, count: usize) -> (r: Vec<u64>)
    requires
        start + count <= fcs@.len(),
    ensures
        r@ == fcs@.subrange(start as int, start as int + count as int),
{
    let total = fcs.len();
    let mut r: Vec<u64> = Vec::new();
    let mut p: usize = 0;
    while p < count
        invariant
            p <= count,
            start + count <= total,
            total == fcs@.len(),
            r@ == fcs@.subrange(start as int, start as int + p as int),
        decreases count - p,
    {
        r.push(fcs[start + p]);
        proof {
            assert(r@ =~= fcs@.subrange(start as int, start as int + p as int + 1));
        }
        p = p + 1;
    }
    r
}

/// Assembles the three force-constant tensors from the evaluated flat
/// buffer: the dense second-derivative block is completed to a symmetric
/// `n * n` tensor, the triangular third- and fourth-derivative blocks are
/// returned as stored.
pub fn make_fcs(fcs: &Vec<u64>, n: usize, nfc3: usize, nfc4: usize) -> (r: (
    Vec<u64>,
    Vec<u64>,
    Vec<u64>,
))
    requires
        n <= MAX_COORDS,
        fcs@.len() == n * n + nfc3 + nfc4,
    ensures
        r.0@.len() == n * n,
        forall|i: int, j: int|
            0 <= i < n && 0 <= j < n ==> #[trigger] r.0@[idx2(n as int, i, j)] == fc2_complete(
                fcs@,
                n as int,
                i,
                j,
            ),
        forall|i: int, j: int|
            0 <= i < n && 0 <= j < n ==> #[trigger] r.0@[idx2(n as int, i, j)] == r.0@[idx2(
                n as int,
                j,
                i,
            )],
        r.1@ == fcs@.subrange((n * n) as int, (n * n + nfc3) as int),
        r.2@ == fcs@.subrange((n * n + nfc3) as int, (n * n + nfc3 + nfc4) as int),
{
    let total = fcs.len();
    proof {
        assert(n * n <= MAX_COORDS * MAX_COORDS) by (nonlinear_arith)
            requires
                n <= MAX_COORDS,
        ;
        assert(n * n + nfc3 <= total);
    }
    let fc2 = symmetrize_fc2(fcs, n);
    let fc3 = copy_block(fcs, n * n, nfc3);
    let fc4 = copy_block(fcs, n * n + nfc3, nfc4);
    proof {
        assert forall|i: int, j: int| 0 <= i < n && 0 <= j < n implies #[trigger] fc2@[idx2(
            n as int,
            i,
            j,
        )] == fc2_complete(fcs@, n as int, i, j) && fc2@[idx2(n as int, i, j)] == fc2@[idx2(
            n as int,
            j,
            i,
        )] by {
            crate::stencil::lemma_idx2_bound(n as int, i, j);
            crate::stencil::lemma_idx2_bound(n as int, j, i);
        }
    }
    (fc2, fc3, fc4)
}

} // verus!
