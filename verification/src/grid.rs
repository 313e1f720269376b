//! The outer parameter grid and the geometry template checks.
//!
//! A multi-stage run sweeps a probe atom over a rectangular grid of
//! positions.  Grid coordinates are kept as integers in tenths of the
//! length unit, so the enumeration, the pairing of grid points with their
//! optimization results, and the checkpoint records are all plain data;
//! the caller formats a coordinate as a decimal only when it writes the
//! geometry text.  The geometry template must carry both probe-position
//! placeholders; a template without them is rejected before any job is
//! built.

use vstd::prelude::*;

verus! {

/// Greatest grid coordinate magnitude accepted, in tenths.
pub const MAX_GRID: i64 = 1000000;

/// One outer grid point, in tenths of the length unit.
#[derive(Clone, Copy, PartialEq, Eq, Structural, Debug)]
pub struct GridPoint {
    pub ydeci: i64,
    pub zdeci: i64,
}

/// One grid point's optimization outcome: the reference energy (64-bit
/// payload) of the converged geometry.
#[derive(Clone, Copy, PartialEq, Eq, Structural, Debug)]
pub struct OptRecord {
    pub point: GridPoint,
    pub ref_energy: u64,
}

/// One grid row: every `y` step paired with a fixed `z`.
pub open spec fn row_of(ylo: int, yhi: int, z: int) -> Seq<(int, int)>
    decreases yhi + 2 - ylo,
{
    if ylo > yhi {
        Seq::empty()
    } else {
        seq![(ylo, z)] + row_of(ylo + 2, yhi, z)
    }
}

/// The whole grid, row by row over the `z` steps.
pub open spec fn grid_of(ylo: int, yhi: int, zlo: int, zhi: int) -> Seq<(int, int)>
    decreases zhi + 2 - zlo,
{
    if zlo > zhi {
        Seq::empty()
    } else {
        row_of(ylo, yhi, zlo) + grid_of(ylo, yhi, zlo + 2, zhi)
    }
}

/// Spec view of a grid-point list.
pub open spec fn grid_view(g: Seq<GridPoint>) -> Seq<(int, int)> {
    Seq::new(g.len(), |p: int| (g[p].ydeci as int, g[p].zdeci as int))
}

/// Enumerates the outer grid: every second `y` value inside the inclusive
/// `y` range, for every second `z` value inside the inclusive `z` range,
/// `z` varying slowest, exactly as [`grid_of`] lists them.
pub fn build_opt_grid(ylo: i64, yhi: i64, zlo: i64, zhi: i64) -> (r: Vec<GridPoint>)
    requires
        -MAX_GRID <= ylo <= MAX_GRID,
        -MAX_GRID <= yhi <= MAX_GRID,
        -MAX_GRID <= zlo <= MAX_GRID,
        -MAX_GRID <= zhi <= MAX_GRID,
    ensures
        grid_view(r@) == grid_of(ylo as int, yhi as int, zlo as int, zhi as int),
{
    let ghost full = grid_of(ylo as int, yhi as int, zlo as int, zhi as int);
    let mut r: Vec<GridPoint> = Vec::new();
    proof {
        assert(grid_view(r@) =~= Seq::<(int, int)>::empty());
    }
    let mut z = zlo;
    while z <= zhi
        invariant
            zlo <= z,
            z <= zhi + 2 || z == zlo,
            -MAX_GRID <= ylo <= MAX_GRID,
            -MAX_GRID <= yhi <= MAX_GRID,
            -MAX_GRID <= zlo <= MAX_GRID,
            -MAX_GRID <= zhi <= MAX_GRID,
            grid_view(r@) + grid_of(ylo as int, yhi as int, z as int, zhi as int) == full,
        decreases zhi - z + 2,
    {
        let mut y = ylo;
        proof {
            assert(grid_of(ylo as int, yhi as int, z as int, zhi as int) == row_of(
                ylo as int,
                yhi as int,
                z as int,
            ) + grid_of(ylo as int, yhi as int, z as int + 2, zhi as int));
        }
        while y <= yhi
            invariant
                ylo <= y,
                y <= yhi + 2 || y == ylo,
                zlo <= z <= zhi,
                -MAX_GRID <= ylo <= MAX_GRID,
                -MAX_GRID <= yhi <= MAX_GRID,
                -MAX_GRID <= zlo <= MAX_GRID,
                -MAX_GRID <= zhi <= MAX_GRID,
                grid_view(r@) + row_of(y as int, yhi as int, z as int) + grid_of(
                    ylo as int,
                    yhi as int,
                    z as int + 2,
                    zhi as int,
                ) == full,
            decreases yhi - y + 2,
        {
            let ghost r0 = r@;
            r.push(GridPoint { ydeci: y, zdeci: z });
            proof {
                let x = (y as int, z as int);
                assert(grid_view(r@) =~= grid_view(r0).push(x));
                assert(row_of(y as int, yhi as int, z as int) == seq![x] + row_of(
                    y as int + 2,
                    yhi as int,
                    z as int,
                ));
                assert(grid_view(r0).push(x) + row_of(y as int + 2, yhi as int, z as int)
                    + grid_of(ylo as int, yhi as int, z as int + 2, zhi as int) =~= grid_view(r0)
                    + row_of(y as int, yhi as int, z as int) + grid_of(
                    ylo as int,
                    yhi as int,
                    z as int + 2,
                    zhi as int,
                ));
            }
            y = y + 2;
        }
        proof {
            assert(row_of(y as int, yhi as int, z as int) =~= Seq::<(int, int)>::empty());
            assert(grid_view(r@) + grid_of(ylo as int, yhi as int, z as int + 2, zhi as int)
                =~= grid_view(r@) + row_of(y as int, yhi as int, z as int) + grid_of(
                ylo as int,
                yhi as int,
                z as int + 2,
                zhi as int,
            ));
        }
        z = z + 2;
    }
    proof {
        assert(grid_of(ylo as int, yhi as int, z as int, zhi as int) =~= Seq::<
            (int, int),
        >::empty());
        assert(grid_view(r@) =~= grid_view(r@) + grid_of(
            ylo as int,
            yhi as int,
            z as int,
            zhi as int,
        ));
    }
    r
}

/// The template bytes contain `pat` at position `pos`.
pub open spec fn matches_at(s: Seq<u8>, pat: Seq<u8>, pos: int) -> bool {
    &&& 0 <= pos
    &&& pos + pat.len() <= s.len()
    &&& forall|q: int| 0 <= q < pat.len() ==> s[pos + q] == #[trigger] pat[q]
}

/// The template bytes contain `pat` somewhere.
pub open spec fn has_pattern(s: Seq<u8>, pat: Seq<u8>) -> bool {
    exists|pos: int| #[trigger] matches_at(s, pat, pos)
}

/// The probe-position placeholder for the `y` coordinate.
pub open spec fn y_placeholder() -> Seq<u8> {
    seq![123u8, 123u8, 121u8, 125u8, 125u8]
}

/// The probe-position placeholder for the `z` coordinate.
pub open spec fn z_placeholder() -> Seq<u8> {
    seq![123u8, 123u8, 122u8, 125u8, 125u8]
}

/// Looks for `pat` in `s`.
fn find_pattern(s: &[u8], pat: &[u8]) -> (r: bool)
    requires
        pat@.len() >= 1,
    ensures
        r == has_pattern(s@, pat@),
{
    let slen = s.len();
    let plen = pat.len();
    if plen > slen {
        proof {
            if has_pattern(s@, pat@) {
                let pos = choose|pos: int| matches_at(s@, pat@, pos);
                assert(pos + pat@.len() <= s@.len());
                assert(false);
            }
        }
        return false;
    }
    let mut pos: usize = 0;
    while pos <= slen - plen
        invariant
            plen >= 1,
            plen <= slen,
            slen == s@.len(),
            plen == pat@.len(),
            pos <= slen - plen + 1,
            forall|p2: int| 0 <= p2 < pos ==> !matches_at(s@, pat@, p2),
        decreases slen - plen - pos + 1,
    {
        let mut q: usize = 0;
        let mut all = true;
        while q < plen
            invariant
                q <= plen,
                plen <= slen,
                slen == s@.len(),
                plen == pat@.len(),
                pos <= slen - plen,
                all ==> forall|q2: int| 0 <= q2 < q ==> s@[pos + q2] == #[trigger] pat@[q2],
                !all ==> !matches_at(s@, pat@, pos as int),
            decreases plen - q,
        {
            if s[pos + q] != pat[q] {
                all = false;
                proof {
                    assert(!matches_at(s@, pat@, pos as int));
                }
            }
            q = q + 1;
        }
        if all {
            proof {
                assert(matches_at(s@, pat@, pos as int));
            }
            return true;
        }
        pos = pos + 1;
    }
    proof {
        if has_pattern(s@, pat@) {
            let p2 = choose|p2: int| matches_at(s@, pat@, p2);
            assert(p2 + pat@.len() <= s@.len());
            assert(p2 < pos);
            assert(false);
        }
    }
    false
}

/// Checks a geometry template: it must hold both probe-position
/// placeholders (`{{y}}` and `{{z}}` in its text), else the run is
/// rejected before any optimization job is built.
pub fn validate_template(template: &[u8]) -> (r: bool)
    ensures
        r == (has_pattern(template@, y_placeholder()) && has_pattern(template@, z_placeholder())),
{
    let ypat: Vec<u8> = make_placeholder(121);
    let zpat: Vec<u8> = make_placeholder(122);
    let ry = find_pattern(template, ypat.as_slice());
    let rz = find_pattern(template, zpat.as_slice());
    proof {
        assert(ypat@ =~= y_placeholder());
        assert(zpat@ =~= z_placeholder());
    }
    ry && rz
}

/// Builds the five placeholder bytes around one coordinate letter.
fn make_placeholder(letter: u8) -> (r: Vec<u8>)
    ensures
        r@ =~= seq![123u8, 123u8, letter, 125u8, 125u8],
{
    let mut r: Vec<u8> = Vec::new();
    r.push(123);
    r.push(123);
    r.push(letter);
    r.push(125);
    r.push(125);
    r
}

/// Pairs every grid point with its strict-run reference energy.  Used
/// after a strict drain, whose result covers every grid point.
pub fn pair_grid_energies(grid: &Vec<GridPoint>, energies: &Vec<u64>) -> (r: Vec<OptRecord>)
    requires
        grid@.len() == energies@.len(),
    ensures
        r@.len() == grid@.len(),
        forall|p: int|
            0 <= p < r@.len() ==> #[trigger] r@[p] == (OptRecord {
                point: grid@[p],
                ref_energy: energies@[p],
            }),
{
    let npoints = grid.len();
    let mut r: Vec<OptRecord> = Vec::new();
    let mut p: usize = 0;
    while p < npoints
        invariant
            p <= npoints,
            npoints == grid@.len(),
            grid@.len() == energies@.len(),
            r@.len() == p,
            forall|p2: int|
                0 <= p2 < p ==> #[trigger] r@[p2] == (OptRecord {
                    point: grid@[p2],
                    ref_energy: energies@[p2],
                }),
        decreases npoints - p,
    {
        r.push(OptRecord { point: grid[p], ref_energy: energies[p] });
        p = p + 1;
    }
    r
}

} // verus!
