//! The outer grid, template validation, and result pairing.

use griddy::grid::build_opt_grid;
use griddy::grid::pair_grid_energies;
use griddy::grid::validate_template;
use griddy::grid::GridPoint;

#[test]
fn grid_enumerates_every_second_step_z_slowest() {
    // The inclusive ranges 1..=2 and -3..=3 in tenths: one y value, four z
    // values, z varying slowest.
    let g = build_opt_grid(1, 2, -3, 3);
    let pairs: Vec<(i64, i64)> = g.iter().map(|p| (p.ydeci, p.zdeci)).collect();
    assert_eq!(pairs, vec![(1, -3), (1, -1), (1, 1), (1, 3)]);
}

#[test]
fn grid_orders_rows_y_fastest() {
    let g = build_opt_grid(0, 2, 0, 2);
    let pairs: Vec<(i64, i64)> = g.iter().map(|p| (p.ydeci, p.zdeci)).collect();
    assert_eq!(pairs, vec![(0, 0), (2, 0), (0, 2), (2, 2)]);
}

#[test]
fn empty_ranges_give_an_empty_grid() {
    let g = build_opt_grid(3, 1, 0, 4);
    assert!(g.is_empty());
    let g2 = build_opt_grid(0, 4, 3, 1);
    assert!(g2.is_empty());
}

#[test]
fn template_must_hold_both_placeholders() {
    let good = b"He\nO 1 r\nH 1 r 2 a\nX {{y}} 0 {{z}}\n";
    assert!(validate_template(good));
    let missing_z = b"X {{y}} 0 0\n";
    assert!(!validate_template(missing_z));
    let missing_y = b"X 0 0 {{z}}\n";
    assert!(!validate_template(missing_y));
    let empty = b"";
    assert!(!validate_template(empty));
    let braces_only = b"{{x}} {{w}}";
    assert!(!validate_template(braces_only));
}

#[test]
fn grid_points_pair_with_their_energies() {
    let grid = vec![
        GridPoint { ydeci: 1, zdeci: -3 },
        GridPoint { ydeci: 1, zdeci: -1 },
    ];
    let energies = vec![42u64, 43u64];
    let recs = pair_grid_energies(&grid, &energies);
    assert_eq!(recs.len(), 2);
    assert_eq!(recs[0].point.ydeci, 1);
    assert_eq!(recs[0].point.zdeci, -3);
    assert_eq!(recs[0].ref_energy, 42);
    assert_eq!(recs[1].ref_energy, 43);
}
