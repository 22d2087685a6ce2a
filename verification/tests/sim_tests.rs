use charge_sim::arith::SCALE;
use charge_sim::sim::{initialize, initialize_with_positions, Config, ConfigError, Loc};

fn base_config(n: usize) -> Config {
    Config {
        num_charges: n,
        width: 20 * SCALE,
        height: 20 * SCALE,
        x_res: 4,
        y_res: 4,
        step_nanos: 16_666_666,
        steps_per_sample: 10,
        jump: 5 * SCALE,
        num_nets: 3,
        net_size: 5,
    }
}

fn mags(n: usize, q: i64) -> Vec<i64> {
    let mut v = Vec::new();
    for _ in 0..n {
        v.push(q);
    }
    v
}

#[test]
fn two_charges_exact_matrix() {
    // Two charges of magnitude 3.0 at (0,0) and (10,0): after one builder
    // pass the x matrix holds -0.3 and +0.3, every y cell and the diagonal
    // are zero.
    let cfg = base_config(2);
    let positions = vec![Loc { x: 0, y: 0 }, Loc { x: 10 * SCALE, y: 0 }];
    let mut s = initialize_with_positions(cfg, positions, mags(2, 3 * SCALE)).unwrap();
    s.advance(cfg.step_nanos + 1);
    assert_eq!(s.force_x(0, 1), -300_000);
    assert_eq!(s.force_x(1, 0), 300_000);
    assert_eq!(s.force_y(0, 1), 0);
    assert_eq!(s.force_y(1, 0), 0);
    assert_eq!(s.force_x(0, 0), 0);
    assert_eq!(s.force_x(1, 1), 0);
    assert_eq!(s.force_y(0, 0), 0);
    assert_eq!(s.force_y(1, 1), 0);
}

#[test]
fn antiparallel_unequal_magnitudes() {
    // With magnitudes 3.0 and 6.0 the two cells are scaled independently
    // but point opposite ways.
    let cfg = base_config(2);
    let positions = vec![Loc { x: 0, y: 0 }, Loc { x: 10 * SCALE, y: 0 }];
    let mut qs = Vec::new();
    qs.push(3 * SCALE);
    qs.push(6 * SCALE);
    let mut s = initialize_with_positions(cfg, positions, qs).unwrap();
    s.advance(cfg.step_nanos + 1);
    let a = s.force_x(0, 1);
    let b = s.force_x(1, 0);
    assert_eq!(a, -300_000);
    assert_eq!(b, 600_000);
    assert!((a as i128) * (b as i128) <= 0);
}

#[test]
fn diagonal_zero_after_build() {
    let cfg = base_config(3);
    let positions = vec![
        Loc { x: SCALE, y: SCALE },
        Loc { x: 7 * SCALE, y: 2 * SCALE },
        Loc { x: 3 * SCALE, y: 11 * SCALE },
    ];
    let mut s = initialize_with_positions(cfg, positions, mags(3, 3 * SCALE)).unwrap();
    s.advance(cfg.step_nanos + 1);
    for i in 0..3 {
        assert_eq!(s.force_x(i, i), 0);
        assert_eq!(s.force_y(i, i), 0);
    }
}

#[test]
fn coincident_charges_no_force() {
    // Two charges at exactly the same point: squared distance is zero and
    // the policy says the contribution is zero, not an error.
    let cfg = base_config(2);
    let positions = vec![Loc { x: 5 * SCALE, y: 5 * SCALE }, Loc { x: 5 * SCALE, y: 5 * SCALE }];
    let mut s = initialize_with_positions(cfg, positions, mags(2, 3 * SCALE)).unwrap();
    s.advance(cfg.step_nanos + 1);
    assert_eq!(s.force_x(0, 1), 0);
    assert_eq!(s.force_x(1, 0), 0);
    assert_eq!(s.force_y(0, 1), 0);
    assert_eq!(s.force_y(1, 0), 0);
    // And the charges stayed put.
    let ps = s.read_positions();
    assert_eq!(ps[0].x, 5 * SCALE);
    assert_eq!(ps[1].y, 5 * SCALE);
}

#[test]
fn positions_stay_in_bounds() {
    // Charges crowded into a corner push each other hard; clamping keeps
    // every coordinate inside [0, width] x [0, height].
    let mut cfg = base_config(4);
    cfg.jump = 1000 * SCALE;
    let positions = vec![
        Loc { x: 0, y: 0 },
        Loc { x: 1, y: 0 },
        Loc { x: 0, y: 1 },
        Loc { x: 1, y: 1 },
    ];
    let mut s = initialize_with_positions(cfg, positions, mags(4, 10 * SCALE)).unwrap();
    for _ in 0..5 {
        s.advance(cfg.step_nanos + 1);
        for c in s.read_positions() {
            assert!(0 <= c.x && c.x <= cfg.width);
            assert!(0 <= c.y && c.y <= cfg.height);
        }
    }
}

#[test]
fn split_advance_matches_whole() {
    // advance(a); advance(b) lands exactly where advance(a + b) does.
    let cfg = base_config(3);
    let positions = vec![
        Loc { x: 2 * SCALE, y: 3 * SCALE },
        Loc { x: 9 * SCALE, y: 4 * SCALE },
        Loc { x: 5 * SCALE, y: 15 * SCALE },
    ];
    let mut one = initialize_with_positions(cfg, positions.clone(), mags(3, 3 * SCALE)).unwrap();
    let mut two = initialize_with_positions(cfg, positions, mags(3, 3 * SCALE)).unwrap();
    let a: u64 = 25_000_000;
    let b: u64 = 10_000_000;
    one.advance(a + b);
    two.advance(a);
    two.advance(b);
    assert_eq!(one.read_positions(), two.read_positions());
    assert_eq!(one.read_potential_grid(), two.read_potential_grid());
    assert_eq!(one.step_count(), two.step_count());
    assert_eq!(one.accumulated_nanos(), two.accumulated_nanos());
}

#[test]
fn split_at_exact_step_multiple() {
    // The halves sum to an exact multiple of the step threshold.
    let mut cfg = base_config(2);
    cfg.step_nanos = 10_000_000;
    let positions = vec![Loc { x: 2 * SCALE, y: 2 * SCALE }, Loc { x: 9 * SCALE, y: 6 * SCALE }];
    let mut one = initialize_with_positions(cfg, positions.clone(), mags(2, 3 * SCALE)).unwrap();
    let mut two = initialize_with_positions(cfg, positions, mags(2, 3 * SCALE)).unwrap();
    one.advance(40_000_000);
    two.advance(15_000_000);
    two.advance(25_000_000);
    assert_eq!(one.read_positions(), two.read_positions());
    assert_eq!(one.step_count(), two.step_count());
    assert_eq!(one.accumulated_nanos(), two.accumulated_nanos());
}

#[test]
fn no_step_below_threshold() {
    // Elapsed time at or below the threshold runs no step at all.
    let cfg = base_config(2);
    let positions = vec![Loc { x: 2 * SCALE, y: 2 * SCALE }, Loc { x: 9 * SCALE, y: 6 * SCALE }];
    let mut s = initialize_with_positions(cfg, positions, mags(2, 3 * SCALE)).unwrap();
    let before = s.read_positions();
    s.advance(cfg.step_nanos);
    assert_eq!(s.step_count(), 0);
    assert_eq!(s.read_positions(), before);
    assert_eq!(s.accumulated_nanos(), cfg.step_nanos);
}

#[test]
fn multiple_steps_in_one_advance() {
    let cfg = base_config(2);
    let positions = vec![Loc { x: 2 * SCALE, y: 2 * SCALE }, Loc { x: 9 * SCALE, y: 6 * SCALE }];
    let mut s = initialize_with_positions(cfg, positions, mags(2, 3 * SCALE)).unwrap();
    s.advance(3 * cfg.step_nanos + 1);
    assert_eq!(s.step_count(), 3);
}

#[test]
fn zero_charges_rejected() {
    let cfg = base_config(0);
    match initialize(cfg, Vec::new()) {
        Err(ConfigError::NoCharges) => {}
        _ => panic!("a zero-charge configuration must be rejected"),
    }
}

#[test]
fn reset_rebuilds_fresh_state() {
    // After several advances, reset keeps the configured charge count and
    // magnitudes but re-draws the positions and zeroes the clock and grid.
    let mut cfg = base_config(40);
    cfg.width = 1_000_000_000;
    cfg.height = 1_000_000_000;
    let mut s = initialize(cfg, mags(40, 3 * SCALE)).unwrap();
    for _ in 0..3 {
        s.advance(cfg.step_nanos + 1);
    }
    let before = s.read_positions();
    s.reset();
    assert_eq!(s.charge_count(), 40);
    assert_eq!(s.step_count(), 0);
    assert_eq!(s.accumulated_nanos(), 0);
    let after = s.read_positions();
    assert_eq!(after.len(), 40);
    for c in &after {
        assert_eq!(c.q, 3 * SCALE);
        assert!(0 <= c.x && c.x <= cfg.width);
        assert!(0 <= c.y && c.y <= cfg.height);
    }
    // Freshly drawn positions: astronomically unlikely to all coincide
    // with the pre-reset ones.
    assert_ne!(before, after);
    // The grid and matrices are zeroed again.
    for v in s.read_potential_grid() {
        assert_eq!(v, 0);
    }
    assert_eq!(s.force_x(0, 1), 0);
}

#[test]
fn random_positions_within_area() {
    let cfg = base_config(50);
    let s = initialize(cfg, mags(50, 3 * SCALE)).unwrap();
    let ps = s.read_positions();
    assert_eq!(ps.len(), 50);
    for c in ps {
        assert!(0 <= c.x && c.x <= cfg.width);
        assert!(0 <= c.y && c.y <= cfg.height);
        assert_eq!(c.q, 3 * SCALE);
    }
}

#[test]
fn nets_shape_and_bounds() {
    let cfg = base_config(20);
    let s = initialize(cfg, mags(20, 3 * SCALE)).unwrap();
    let nets = s.nets();
    assert!(nets.len() <= cfg.num_nets);
    for net in nets {
        assert!(net.len() <= cfg.net_size);
        for &i in net {
            assert!(i < 20);
        }
    }
}

#[test]
fn nets_are_disjoint() {
    let cfg = base_config(20);
    let s = initialize(cfg, mags(20, 3 * SCALE)).unwrap();
    let mut seen: Vec<usize> = Vec::new();
    for net in s.nets() {
        for &i in net {
            assert!(!seen.contains(&i), "index {} appears in two net slots", i);
            seen.push(i);
        }
    }
}

#[test]
fn loc_zero_and_is_zero() {
    let z = Loc::zero();
    assert!(z.is_zero());
    let p = Loc { x: 1, y: 0 };
    assert!(!p.is_zero());
}
