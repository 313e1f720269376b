//! End-to-end force-constant assembly on exactly representable potentials.
//!
//! Every value used here is an exact binary fraction, so the floating-point
//! evaluation of the stencil sums is exact and the assembled tensors can be
//! compared with the analytic derivatives by equality.

use griddy::assemble::make_fcs;
use griddy::points::build_points;
use griddy::points::PointPlan;
use griddy::stencil::den2_exec;
use griddy::stencil::den3_exec;
use griddy::stencil::den4_exec;
use griddy::stencil::idx3_exec;
use griddy::stencil::idx4_exec;
use griddy::stencil::tensor_sizes;
use griddy::stencil::Derivative;
use griddy::symmetry::PointGroup;
use griddy::symmetry::SymOp;

fn trivial_group(n: usize) -> PointGroup {
    let op = SymOp { perm: (0..n).collect(), neg: vec![false; n] };
    PointGroup { ops: vec![op] }
}

/// Evaluates the plan on a potential: sums every recorded use, divides by
/// the entry denominators, and hands the buffer to the verified assembler.
fn evaluate(
    plan: &PointPlan,
    n: usize,
    deriv: &Derivative,
    h: f64,
    energy: impl Fn(&[i32]) -> f64,
) -> (Vec<f64>, Vec<f64>, Vec<f64>) {
    let (nfc2, nfc3, nfc4) = tensor_sizes(n, deriv);
    let ref_energy = energy(&vec![0; n]);
    let energies: Vec<f64> =
        plan.registry.targets.iter().map(|t| energy(&t.disp)).collect();
    let mut fcs = vec![0.0f64; nfc2 + nfc3 + nfc4];
    for u in &plan.uses {
        fcs[u.index] += u.coeff as f64 * energies[u.target];
    }
    for r in &plan.ref_uses {
        fcs[r.index] += r.coeff as f64 * ref_energy;
    }
    let h2 = h * h;
    let h3 = h2 * h;
    let h4 = h2 * h2;
    for i in 0..n {
        for j in i..n {
            fcs[i * n + j] /= den2_exec(i, j) as f64 * h2;
        }
    }
    if nfc3 > 0 {
        for i in 0..n {
            for j in i..n {
                for k in j..n {
                    let idx = nfc2 + idx3_exec(n, i, j, k);
                    fcs[idx] /= den3_exec(i, j, k) as f64 * h3;
                }
            }
        }
    }
    if nfc4 > 0 {
        for i in 0..n {
            for j in i..n {
                for k in j..n {
                    for l in k..n {
                        let idx = nfc2 + nfc3 + idx4_exec(n, i, j, k, l);
                        fcs[idx] /= den4_exec(i, j, k, l) as f64 * h4;
                    }
                }
            }
        }
    }
    let bits: Vec<u64> = fcs.iter().map(|x| x.to_bits()).collect();
    let (fc2b, fc3b, fc4b) = make_fcs(&bits, n, nfc3, nfc4);
    let back = |v: Vec<u64>| v.into_iter().map(f64::from_bits).collect::<Vec<f64>>();
    (back(fc2b), back(fc3b), back(fc4b))
}

#[test]
fn fc2_has_n_squared_entries_and_is_symmetric() {
    // An arbitrary canonical buffer: the assembled dense tensor mirrors it.
    let n = 3;
    let mut fcs = vec![0u64; n * n];
    let mut v = 1u64;
    for i in 0..n {
        for j in i..n {
            fcs[i * n + j] = v;
            v += 1;
        }
    }
    let (fc2, fc3, fc4) = make_fcs(&fcs, n, 0, 0);
    assert_eq!(fc2.len(), n * n);
    assert!(fc3.is_empty());
    assert!(fc4.is_empty());
    for i in 0..n {
        for j in 0..n {
            assert_eq!(fc2[i * n + j], fc2[j * n + i]);
        }
    }
    assert_eq!(fc2[1 * n + 0], fc2[0 * n + 1]);
    assert_eq!(fc2[0 * n + 1], 2);
}

#[test]
fn harmonic_run_recovers_the_quadratic_coefficients() {
    // E(x) = x^T H x / 2 with an exactly representable symmetric H: the
    // harmonic pipeline returns H itself, fully populated and symmetric.
    let n = 3;
    let hmat = [[2.0, 0.5, 0.25], [0.5, 1.0, 0.75], [0.25, 0.75, 3.0]];
    let h = 0.5;
    let plan = build_points(n, trivial_group(n), &Derivative::Harmonic);
    let energy = |s: &[i32]| {
        let x: Vec<f64> = s.iter().map(|v| *v as f64 * h).collect();
        let mut e = 0.0;
        for a in 0..n {
            for b in 0..n {
                e += 0.5 * hmat[a][b] * x[a] * x[b];
            }
        }
        e
    };
    let (fc2, _, _) = evaluate(&plan, n, &Derivative::Harmonic, h, energy);
    for i in 0..n {
        for j in 0..n {
            assert_eq!(fc2[i * n + j], hmat[i][j]);
        }
    }
}

#[test]
fn cubic_run_recovers_third_derivatives() {
    // E(x) = x0^3 + x0^2 x1: the analytic third derivatives are 6 for
    // (0,0,0), 2 for (0,0,1) and zero elsewhere; the quadratic part
    // vanishes at the origin.
    let n = 2;
    let h = 0.5;
    let plan = build_points(n, trivial_group(n), &Derivative::Cubic);
    let energy = |s: &[i32]| {
        let x0 = s[0] as f64 * h;
        let x1 = s[1] as f64 * h;
        x0 * x0 * x0 + x0 * x0 * x1
    };
    let (fc2, fc3, _) = evaluate(&plan, n, &Derivative::Cubic, h, energy);
    for v in &fc2 {
        assert_eq!(*v, 0.0);
    }
    assert_eq!(fc3.len(), 4);
    assert_eq!(fc3[idx3_exec(n, 0, 0, 0)], 6.0);
    assert_eq!(fc3[idx3_exec(n, 0, 0, 1)], 2.0);
    assert_eq!(fc3[idx3_exec(n, 0, 1, 1)], 0.0);
    assert_eq!(fc3[idx3_exec(n, 1, 1, 1)], 0.0);
}

#[test]
fn quartic_run_recovers_fourth_derivatives() {
    // E(x) = x0^4 + x0^2 x1^2: fourth derivatives 24 at (0,0,0,0) and 4 at
    // (0,0,1,1); second derivatives vanish at the origin, and so do all
    // third derivatives.
    let n = 2;
    let h = 0.5;
    let plan = build_points(n, trivial_group(n), &Derivative::Quartic);
    let energy = |s: &[i32]| {
        let x0 = s[0] as f64 * h;
        let x1 = s[1] as f64 * h;
        x0 * x0 * x0 * x0 + x0 * x0 * x1 * x1
    };
    let (fc2, fc3, fc4) = evaluate(&plan, n, &Derivative::Quartic, h, energy);
    // The wide diagonal second difference applied to x0^4 picks up its
    // exact finite-step residue, 8 h^2; every other entry vanishes.
    assert_eq!(fc2, vec![8.0 * h * h, 0.0, 0.0, 0.0]);
    for v in &fc3 {
        assert_eq!(*v, 0.0);
    }
    assert_eq!(fc4.len(), 5);
    assert_eq!(fc4[idx4_exec(n, 0, 0, 0, 0)], 24.0);
    assert_eq!(fc4[idx4_exec(n, 0, 0, 0, 1)], 0.0);
    assert_eq!(fc4[idx4_exec(n, 0, 0, 1, 1)], 4.0);
    assert_eq!(fc4[idx4_exec(n, 0, 1, 1, 1)], 0.0);
    assert_eq!(fc4[idx4_exec(n, 1, 1, 1, 1)], 0.0);
}

#[test]
fn symmetry_reduction_reproduces_the_unreduced_tensor() {
    // A symmetric potential on two coordinates related by a sign flip and
    // swap: running with the symmetry group samples fewer unique targets
    // but must reproduce exactly the tensor of the symmetry-free run.
    let n = 2;
    let h = 0.25;
    let energy = |s: &[i32]| {
        let x0 = s[0] as f64 * h;
        let x1 = s[1] as f64 * h;
        // Symmetric under swapping the two coordinates.
        x0 * x0 + x1 * x1 + 0.5 * x0 * x1
    };
    let swap = SymOp { perm: vec![1, 0], neg: vec![false, false] };
    let e = SymOp { perm: vec![0, 1], neg: vec![false, false] };
    let pg = PointGroup { ops: vec![e, swap] };
    assert!(griddy::groupcheck::check_group(&pg, n));

    let plan_free = build_points(n, trivial_group(n), &Derivative::Harmonic);
    let plan_sym = build_points(n, pg, &Derivative::Harmonic);
    assert!(plan_sym.registry.targets.len() < plan_free.registry.targets.len());

    let (fc2_free, _, _) = evaluate(&plan_free, n, &Derivative::Harmonic, h, energy);
    let (fc2_sym, _, _) = evaluate(&plan_sym, n, &Derivative::Harmonic, h, energy);
    assert_eq!(fc2_free, fc2_sym);
    assert_eq!(fc2_sym[0], 2.0);
    assert_eq!(fc2_sym[1], 0.5);
}
