use charge_sim::arith::{isqrt, div_fx, DIM_CAP, JUMP_CAP, MAX_CHARGES, Q_CAP, SCALE};
use charge_sim::sim::{initialize, initialize_with_positions, Config, ConfigError, Loc};

fn good_config(n: usize) -> Config {
    Config {
        num_charges: n,
        width: 10 * SCALE,
        height: 10 * SCALE,
        x_res: 2,
        y_res: 2,
        step_nanos: 16_666_666,
        steps_per_sample: 10,
        jump: 5 * SCALE,
        num_nets: 2,
        net_size: 3,
    }
}

fn mags(n: usize, q: i64) -> Vec<i64> {
    let mut v = Vec::new();
    for _ in 0..n {
        v.push(q);
    }
    v
}

fn expect_err(r: Result<charge_sim::sim::SimState, ConfigError>, e: ConfigError) {
    match r {
        Err(got) => assert_eq!(got, e),
        Ok(_) => panic!("configuration should have been rejected"),
    }
}

#[test]
fn too_many_charges_rejected() {
    let cfg = good_config(MAX_CHARGES + 1);
    expect_err(initialize(cfg, mags(MAX_CHARGES + 1, SCALE)), ConfigError::TooManyCharges);
}

#[test]
fn bad_dimensions_rejected() {
    let mut cfg = good_config(2);
    cfg.width = 0;
    expect_err(initialize(cfg, mags(2, SCALE)), ConfigError::BadDimensions);
    let mut cfg = good_config(2);
    cfg.height = DIM_CAP + 1;
    expect_err(initialize(cfg, mags(2, SCALE)), ConfigError::BadDimensions);
}

#[test]
fn bad_resolution_rejected() {
    let mut cfg = good_config(2);
    cfg.x_res = 0;
    expect_err(initialize(cfg, mags(2, SCALE)), ConfigError::BadResolution);
}

#[test]
fn bad_step_duration_rejected() {
    let mut cfg = good_config(2);
    cfg.step_nanos = 0;
    expect_err(initialize(cfg, mags(2, SCALE)), ConfigError::BadStepDuration);
}

#[test]
fn bad_sample_cadence_rejected() {
    let mut cfg = good_config(2);
    cfg.steps_per_sample = 0;
    expect_err(initialize(cfg, mags(2, SCALE)), ConfigError::BadSampleCadence);
}

#[test]
fn bad_jump_rejected() {
    let mut cfg = good_config(2);
    cfg.jump = 0;
    expect_err(initialize(cfg, mags(2, SCALE)), ConfigError::BadJump);
    let mut cfg = good_config(2);
    cfg.jump = JUMP_CAP + 1;
    expect_err(initialize(cfg, mags(2, SCALE)), ConfigError::BadJump);
}

#[test]
fn magnitude_count_mismatch_rejected() {
    let cfg = good_config(3);
    expect_err(initialize(cfg, mags(2, SCALE)), ConfigError::MagnitudeCountMismatch);
}

#[test]
fn bad_magnitude_rejected() {
    let cfg = good_config(2);
    let mut qs = mags(2, SCALE);
    qs[1] = 0;
    expect_err(initialize(cfg, qs), ConfigError::BadMagnitude);
    let cfg = good_config(2);
    let mut qs = mags(2, SCALE);
    qs[0] = Q_CAP + 1;
    expect_err(initialize(cfg, qs), ConfigError::BadMagnitude);
}

#[test]
fn position_count_mismatch_rejected() {
    let cfg = good_config(2);
    let positions = vec![Loc { x: 0, y: 0 }];
    expect_err(
        initialize_with_positions(cfg, positions, mags(2, SCALE)),
        ConfigError::PositionCountMismatch,
    );
}

#[test]
fn position_out_of_bounds_rejected() {
    let cfg = good_config(2);
    let positions = vec![Loc { x: 0, y: 0 }, Loc { x: cfg.width + 1, y: 0 }];
    expect_err(
        initialize_with_positions(cfg, positions, mags(2, SCALE)),
        ConfigError::PositionOutOfBounds,
    );
    let cfg = good_config(2);
    let positions = vec![Loc { x: 0, y: -1 }, Loc { x: 0, y: 0 }];
    expect_err(
        initialize_with_positions(cfg, positions, mags(2, SCALE)),
        ConfigError::PositionOutOfBounds,
    );
}

#[test]
fn first_failure_wins() {
    // Several things wrong at once: the charge count is checked first.
    let mut cfg = good_config(0);
    cfg.width = 0;
    cfg.step_nanos = 0;
    expect_err(initialize(cfg, Vec::new()), ConfigError::NoCharges);
}

#[test]
fn isqrt_exact_values() {
    assert_eq!(isqrt(0), 0);
    assert_eq!(isqrt(1), 1);
    assert_eq!(isqrt(24), 4);
    assert_eq!(isqrt(25), 5);
    assert_eq!(isqrt(26), 5);
    assert_eq!(isqrt(u64::MAX), 4_294_967_295);
}

#[test]
fn div_fx_truncates_toward_zero() {
    assert_eq!(div_fx(7, 2), 3);
    assert_eq!(div_fx(-7, 2), -3);
    assert_eq!(div_fx(6, 3), 2);
    assert_eq!(div_fx(-6, 3), -2);
    assert_eq!(div_fx(0, 5), 0);
}
