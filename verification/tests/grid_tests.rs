use charge_sim::arith::SCALE;
use charge_sim::sim::{initialize, initialize_with_positions, Config, Loc};

fn grid_config(n: usize, x_res: usize, y_res: usize, cadence: u64) -> Config {
    Config {
        num_charges: n,
        width: 20 * SCALE,
        height: 20 * SCALE,
        x_res,
        y_res,
        step_nanos: 16_666_666,
        steps_per_sample: cadence,
        jump: 5 * SCALE,
        num_nets: 0,
        net_size: 0,
    }
}

fn mags(n: usize, q: i64) -> Vec<i64> {
    let mut v = Vec::new();
    for _ in 0..n {
        v.push(q);
    }
    v
}

#[test]
fn grid_has_configured_shape() {
    let cfg = grid_config(5, 3, 4, 1);
    let mut s = initialize(cfg, mags(5, 3 * SCALE)).unwrap();
    assert_eq!(s.read_potential_grid().len(), 12);
    s.advance(cfg.step_nanos + 1);
    assert_eq!(s.read_potential_grid().len(), 12);
}

#[test]
fn single_charge_exact_potential() {
    // One charge of magnitude 3.0 at (3,4): the sample point (0,0) sits at
    // distance 5.0, so the raw sum is 3/5 = 0.6 and the normalized cell is
    // 0.6 * SCALE * SCALE / (140_000 * 1), truncated.
    let cfg = grid_config(1, 1, 1, 1);
    let positions = vec![Loc { x: 3 * SCALE, y: 4 * SCALE }];
    let mut s = initialize_with_positions(cfg, positions, mags(1, 3 * SCALE)).unwrap();
    s.advance(cfg.step_nanos + 1);
    // 600_000 * 1_000_000 / 140_000 = 4_285_714 (truncated)
    assert_eq!(s.potential_at(0, 0), 4_285_714);
}

#[test]
fn sampling_follows_cadence() {
    // With a cadence of 2, the grid is untouched after the first step and
    // sampled after the second.
    let cfg = grid_config(1, 1, 1, 2);
    let positions = vec![Loc { x: 3 * SCALE, y: 4 * SCALE }];
    let mut s = initialize_with_positions(cfg, positions, mags(1, 3 * SCALE)).unwrap();
    s.advance(cfg.step_nanos + 1);
    assert_eq!(s.potential_at(0, 0), 0);
    s.advance(cfg.step_nanos + 1);
    assert_eq!(s.potential_at(0, 0), 4_285_714);
}

#[test]
fn coincident_sample_point_floored() {
    // A charge exactly on the sample point: the distance is floored at one
    // raw tick instead of dividing by zero, giving a huge finite cell.
    let cfg = grid_config(1, 1, 1, 1);
    let positions = vec![Loc { x: 0, y: 0 }];
    let mut s = initialize_with_positions(cfg, positions, mags(1, 3 * SCALE)).unwrap();
    s.advance(cfg.step_nanos + 1);
    // 3 * SCALE * SCALE / 1, normalized: 3_000_000_000_000 * 1_000_000 / 140_000
    assert_eq!(s.potential_at(0, 0), 21_428_571_428_571);
}

#[test]
fn sample_points_evenly_spaced() {
    let cfg = grid_config(2, 4, 5, 1);
    let positions = vec![Loc { x: SCALE, y: SCALE }, Loc { x: 9 * SCALE, y: 6 * SCALE }];
    let s = initialize_with_positions(cfg, positions, mags(2, 3 * SCALE)).unwrap();
    let p = s.sample_point(0, 0);
    assert_eq!((p.x, p.y), (0, 0));
    let p = s.sample_point(3, 4);
    assert_eq!(p.x, 3 * (cfg.width / 4));
    assert_eq!(p.y, 4 * (cfg.height / 5));
}

#[test]
fn grid_entries_match_flat_accessor() {
    let cfg = grid_config(3, 2, 3, 1);
    let positions = vec![
        Loc { x: SCALE, y: SCALE },
        Loc { x: 9 * SCALE, y: 6 * SCALE },
        Loc { x: 14 * SCALE, y: 17 * SCALE },
    ];
    let mut s = initialize_with_positions(cfg, positions, mags(3, 3 * SCALE)).unwrap();
    s.advance(cfg.step_nanos + 1);
    let flat = s.read_potential_grid();
    for ix in 0..2 {
        for iy in 0..3 {
            assert_eq!(flat[ix * 3 + iy], s.potential_at(ix, iy));
        }
    }
}
