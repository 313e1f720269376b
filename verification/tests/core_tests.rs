//! Registry, symmetry and point-builder behavior on concrete molecules.

use griddy::groupcheck::check_group;
use griddy::points::build_points;
use griddy::sig::lex_le_exec;
use griddy::sig::sig_eq;
use griddy::stencil::tensor_sizes;
use griddy::stencil::Derivative;
use griddy::symmetry::apply_op;
use griddy::symmetry::canonical_sig;
use griddy::symmetry::PointGroup;
use griddy::symmetry::SymOp;

fn identity_op(n: usize) -> SymOp {
    SymOp { perm: (0..n).collect(), neg: vec![false; n] }
}

fn trivial_group(n: usize) -> PointGroup {
    PointGroup { ops: vec![identity_op(n)] }
}

/// The C2v-like group of a symmetric triatomic (atoms O, H, H on 9
/// Cartesian coordinates): identity, the twofold rotation swapping the two
/// H atoms and negating x and y, and the two mirror planes.
fn c2v_triatomic() -> PointGroup {
    let n = 9;
    // Coordinate layout: atom 0 = O (0..3), atom 1 = H (3..6), atom 2 = H (6..9).
    let swap_h: Vec<usize> = vec![0, 1, 2, 6, 7, 8, 3, 4, 5];
    let keep: Vec<usize> = (0..n).collect();
    let neg_xy = |_a: usize| vec![true, true, false, true, true, false, true, true, false];
    let neg_y = vec![false, true, false, false, true, false, false, true, false];
    let neg_x = vec![true, false, false, true, false, false, true, false, false];
    let e = identity_op(n);
    let c2 = SymOp { perm: swap_h.clone(), neg: neg_xy(0) };
    let sigma_xz = SymOp { perm: swap_h, neg: neg_y };
    let sigma_yz = SymOp { perm: keep, neg: neg_x };
    PointGroup { ops: vec![e, c2, sigma_xz, sigma_yz] }
}

#[test]
fn check_group_accepts_real_groups() {
    assert!(check_group(&trivial_group(3), 3));
    assert!(check_group(&c2v_triatomic(), 9));
}

#[test]
fn check_group_rejects_non_groups() {
    // Missing the composition of its two non-identity operations.
    let n = 3;
    let e = identity_op(n);
    let flip0 = SymOp { perm: vec![0, 1, 2], neg: vec![true, false, false] };
    let flip1 = SymOp { perm: vec![0, 1, 2], neg: vec![false, true, false] };
    let not_closed = PointGroup { ops: vec![e, flip0, flip1] };
    assert!(!check_group(&not_closed, n));

    // Not a permutation at all.
    let bad = PointGroup { ops: vec![SymOp { perm: vec![0, 0, 2], neg: vec![false; 3] }] };
    assert!(!check_group(&bad, n));

    // No identity.
    let only_flip = PointGroup { ops: vec![SymOp { perm: vec![0, 1, 2], neg: vec![true, true, false] }] };
    assert!(!check_group(&only_flip, n));
}

#[test]
fn lex_order_and_equality() {
    let a = vec![0, 1, -1];
    let b = vec![0, 2, -2];
    assert!(lex_le_exec(&a, &b));
    assert!(!lex_le_exec(&b, &a));
    assert!(lex_le_exec(&a, &a));
    assert!(sig_eq(&a, &a));
    assert!(!sig_eq(&a, &b));
}

#[test]
fn canonical_sig_picks_least_orbit_member() {
    // One coordinate flipped in sign: the canonical form of +1 and -1 on
    // that coordinate must coincide.
    let n = 3;
    let e = identity_op(n);
    let flip0 = SymOp { perm: vec![0, 1, 2], neg: vec![true, false, false] };
    let pg = PointGroup { ops: vec![e, flip0] };
    assert!(check_group(&pg, n));
    let plus = vec![1, 0, 0];
    let minus = vec![-1, 0, 0];
    let c1 = canonical_sig(&pg, &plus);
    let c2 = canonical_sig(&pg, &minus);
    assert!(sig_eq(&c1, &c2));
    // The least of the two orbit members is the negative step.
    assert_eq!(c1, vec![-1, 0, 0]);
}

#[test]
fn registry_resolves_equivalent_signatures_to_one_id() {
    // P1 on concrete data: every pair of mapped signatures related by a
    // group operation carries the same target id.
    let pg = c2v_triatomic();
    let plan = build_points(9, pg, &Derivative::Harmonic);
    let pg2 = &plan.registry.pg;
    let entries = &plan.registry.sig_map;
    for a in 0..entries.len() {
        for op in &pg2.ops {
            let moved = apply_op(op, &entries[a].sig);
            for b in 0..entries.len() {
                if sig_eq(&entries[b].sig, &moved) {
                    assert_eq!(entries[a].id, entries[b].id);
                }
            }
        }
    }
}

#[test]
fn scenario_no_symmetry_harmonic() {
    // A three-coordinate system with no symmetry: every sampled signature
    // is its own target, none is the reference, and the count matches the
    // second-derivative stencils exactly (two samples per diagonal entry,
    // four per off-diagonal pair).
    let n = 3;
    let plan = build_points(n, trivial_group(n), &Derivative::Harmonic);
    let expected = 2 * n + 4 * (n * (n - 1) / 2);
    assert_eq!(expected, 18);
    assert_eq!(plan.registry.sig_map.len(), expected);
    assert_eq!(plan.registry.targets.len(), expected);
    let (nfc2, nfc3, nfc4) = tensor_sizes(n, &Derivative::Harmonic);
    assert_eq!((nfc2, nfc3, nfc4), (9, 0, 0));
    for t in &plan.registry.targets {
        assert!(t.disp.iter().any(|s| *s != 0));
    }
}

#[test]
fn scenario_symmetric_triatomic_orbit_reduction() {
    // P2 and P7: under a nontrivial group the harmonic signatures collapse
    // to exactly the number of symmetry-distinct orbits, strictly fewer
    // than the signature count; the expected number comes from explicit
    // orbit enumeration over the same signatures.
    let n = 9;
    let pg = c2v_triatomic();
    assert!(check_group(&pg, n));
    let plan = build_points(n, pg, &Derivative::Harmonic);
    let total = plan.registry.sig_map.len();
    assert_eq!(total, 2 * n * n);

    // Explicit orbit enumeration: count distinct canonical forms.
    let pg2 = &plan.registry.pg;
    let mut canons: Vec<Vec<i32>> = Vec::new();
    for e in &plan.registry.sig_map {
        let c = canonical_sig(pg2, &e.sig);
        if !canons.iter().any(|x| sig_eq(x, &c)) {
            canons.push(c);
        }
    }
    assert_eq!(plan.registry.targets.len(), canons.len());
    assert!(plan.registry.targets.len() < total);
}

#[test]
fn higher_orders_share_samples_across_entries() {
    // Even with no symmetry at all, third-derivative stencils reuse
    // samples: the single-step displacements appear in several entries, so
    // the deduplicated target count drops below the sample count.  Only
    // the harmonic enumeration samples each signature exactly once.
    let n = 2;
    let plan = build_points(n, trivial_group(n), &Derivative::Cubic);
    assert!(plan.registry.targets.len() < plan.registry.sig_map.len());
}

#[test]
fn quartic_plan_counts() {
    // Tensor sizes follow the closed formulas, and every derivative order
    // samples more signatures than the one below it.
    let n = 6;
    let (nfc2, nfc3, nfc4) = tensor_sizes(n, &Derivative::Quartic);
    assert_eq!(nfc2, 36);
    assert_eq!(nfc3, 6 * 7 * 8 / 6);
    assert_eq!(nfc4, 6 * 7 * 8 * 9 / 24);
    let g = trivial_group(n);
    let harmonic = build_points(n, PointGroup { ops: g.ops.iter().map(|o| SymOp { perm: o.perm.clone(), neg: o.neg.clone() }).collect() }, &Derivative::Harmonic);
    let quartic = build_points(n, g, &Derivative::Quartic);
    assert!(quartic.registry.sig_map.len() > harmonic.registry.sig_map.len());
    assert_eq!(quartic.uses.len(), quartic.registry.sig_map.len());
    // Every use lands inside the flat buffer.
    for u in &quartic.uses {
        assert!(u.index < nfc2 + nfc3 + nfc4);
        assert!(u.target < quartic.registry.targets.len());
    }
    for r in &quartic.ref_uses {
        assert!(r.index < nfc2 + nfc3 + nfc4);
    }
}
