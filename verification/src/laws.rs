use vstd::prelude::*;
use crate::arith::{lemma_tdiv_bounds, lemma_tdiv_neg, tdiv, DIM_CAP, RES_CAP};
use crate::forces::{built_x, built_y, charges_ok, entry_x, entry_y, repulsion, sq_of};
use crate::potential::{grid_built, lemma_pot_value_bounds, pot_value};
use crate::sim::{advance_spec, consume, lemma_consume_wf, lemma_step_wf, model_wf, step_once, Model};
use vstd::arithmetic::div_mod::lemma_fundamental_div_mod_converse;

verus! {

/// For any two charges `i != j`, the force-matrix cells `[i, j]` and
/// `[j, i]` are built over exactly opposite deltas and the same squared
/// distance, each scaled by its own row's magnitude alone; so along each
/// axis the two contributions never share a strict sign (anti-parallel in
/// geometry, independent in magnitude).
pub proof fn lemma_force_antisymmetry(xs: Seq<i64>, ys: Seq<i64>, qs: Seq<i64>, i: int, j: int)
    requires
        charges_ok(xs, ys, qs),
        0 <= i < xs.len(),
        0 <= j < xs.len(),
        i != j,
    ensures
        sq_of(xs[j] - xs[i], ys[j] - ys[i]) == sq_of(xs[i] - xs[j], ys[i] - ys[j]),
        entry_x(xs, ys, qs, i, j) == repulsion(
            qs[i] as int,
            xs[i] - xs[j],
            sq_of(xs[i] - xs[j], ys[i] - ys[j]),
        ),
        entry_x(xs, ys, qs, j, i) == -repulsion(
            qs[j] as int,
            xs[i] - xs[j],
            sq_of(xs[i] - xs[j], ys[i] - ys[j]),
        ),
        entry_y(xs, ys, qs, i, j) == repulsion(
            qs[i] as int,
            ys[i] - ys[j],
            sq_of(xs[i] - xs[j], ys[i] - ys[j]),
        ),
        entry_y(xs, ys, qs, j, i) == -repulsion(
            qs[j] as int,
            ys[i] - ys[j],
            sq_of(xs[i] - xs[j], ys[i] - ys[j]),
        ),
        entry_x(xs, ys, qs, i, j) * entry_x(xs, ys, qs, j, i) <= 0,
        entry_y(xs, ys, qs, i, j) * entry_y(xs, ys, qs, j, i) <= 0,
        built_x(xs, ys, qs)[i * xs.len() + j] as int == entry_x(xs, ys, qs, i, j),
        built_x(xs, ys, qs)[j * xs.len() + i] as int == entry_x(xs, ys, qs, j, i),
        built_y(xs, ys, qs)[i * xs.len() + j] as int == entry_y(xs, ys, qs, i, j),
        built_y(xs, ys, qs)[j * xs.len() + i] as int == entry_y(xs, ys, qs, j, i),
{
    let dx = xs[i] - xs[j];
    let dy = ys[i] - ys[j];
    assert((-dx) * (-dx) == dx * dx && (-dy) * (-dy) == dy * dy) by (nonlinear_arith);
    let sq = sq_of(dx, dy);
    crate::forces::lemma_entry_bounds(xs, ys, qs, i, j);
    crate::forces::lemma_entry_bounds(xs, ys, qs, j, i);
    let qi = qs[i] as int;
    let qj = qs[j] as int;
    lemma_opposite_scaled(qi, qj, dx, sq);
    lemma_opposite_scaled(qi, qj, dy, sq);
    let n = xs.len() as int;
    assert(i * n + n <= n * n && j * n + n <= n * n) by (nonlinear_arith)
        requires
            0 <= i < n,
            0 <= j < n,
    ;
    lemma_fundamental_div_mod_converse(i * n + j, n, i, j);
    lemma_fundamental_div_mod_converse(j * n + i, n, j, i);
}

/// Two positive magnitudes scaled onto opposite copies of one delta give
/// repulsions that never share a strict sign.
proof fn lemma_opposite_scaled(qi: int, qj: int, d: int, sq: int)
    requires
        qi > 0,
        qj > 0,
        sq >= 0,
    ensures
        repulsion(qj, -d, sq) == -repulsion(qj, d, sq),
        repulsion(qi, d, sq) * repulsion(qj, -d, sq) <= 0,
{
    if sq != 0 {
        assert(qj * -d == -(qj * d)) by (nonlinear_arith);
        lemma_tdiv_neg(qj * d, sq);
        let a = repulsion(qi, d, sq);
        let b = repulsion(qj, -d, sq);
        if d >= 0 {
            assert(qi * d >= 0 && qj * d >= 0) by (nonlinear_arith)
                requires
                    qi > 0,
                    qj > 0,
                    d >= 0,
            ;
            lemma_tdiv_bounds(qi * d, sq);
            lemma_tdiv_bounds(qj * d, sq);
            assert(a * b <= 0) by (nonlinear_arith)
                requires
                    a >= 0,
                    b <= 0,
            ;
        } else {
            assert(qi * d <= 0 && qj * d <= 0) by (nonlinear_arith)
                requires
                    qi > 0,
                    qj > 0,
                    d < 0,
            ;
            lemma_tdiv_bounds(qi * d, sq);
            lemma_tdiv_bounds(qj * d, sq);
            assert(a * b <= 0) by (nonlinear_arith)
                requires
                    a <= 0,
                    b >= 0,
            ;
        }
    }
}

/// Diagonal cells of both freshly built force matrices are exactly zero,
/// for any charge count.
pub proof fn lemma_diagonal_zero(xs: Seq<i64>, ys: Seq<i64>, qs: Seq<i64>, i: int)
    requires
        charges_ok(xs, ys, qs),
        0 <= i < xs.len(),
    ensures
        built_x(xs, ys, qs)[i * xs.len() + i] == 0i64,
        built_y(xs, ys, qs)[i * xs.len() + i] == 0i64,
{
    let n = xs.len() as int;
    assert(i * n + n <= n * n) by (nonlinear_arith)
        requires
            0 <= i < n,
    ;
    lemma_fundamental_div_mod_converse(i * n + i, n, i, i);
}

/// `consume` never touches the configuration, the magnitudes or the nets.
pub proof fn lemma_consume_keeps(m: Model)
    ensures
        consume(m).cfg == m.cfg,
        consume(m).qs == m.qs,
        consume(m).nets == m.nets,
    decreases m.acc,
{
    if m.cfg.step_nanos > 0 && m.acc > m.cfg.step_nanos {
        lemma_consume_keeps(step_once(m));
    }
}

/// After any `advance` from a well-formed state, the state is still well
/// formed and every coordinate lies inside `[0, width] x [0, height]`,
/// whatever the elapsed duration.
pub proof fn lemma_advance_in_bounds(m: Model, elapsed: u64)
    requires
        model_wf(m),
        m.acc + elapsed <= u64::MAX,
    ensures
        model_wf(advance_spec(m, elapsed)),
        advance_spec(m, elapsed).cfg == m.cfg,
        forall|i: int|
            0 <= i < advance_spec(m, elapsed).xs.len() ==> 0 <= #[trigger] advance_spec(
                m,
                elapsed,
            ).xs[i] <= m.cfg.width,
        forall|i: int|
            0 <= i < advance_spec(m, elapsed).ys.len() ==> 0 <= #[trigger] advance_spec(
                m,
                elapsed,
            ).ys[i] <= m.cfg.height,
{
    let ma = Model { acc: (m.acc + elapsed) as u64, ..m };
    assert(model_wf(ma));
    lemma_consume_wf(ma);
    lemma_consume_keeps(ma);
}

/// After an advance the clock sits in its accumulating state: no more
/// than one full step threshold of simulated time is left unconsumed.
pub proof fn lemma_advance_drains(m: Model, elapsed: u64)
    requires
        m.cfg.step_nanos > 0,
        m.acc + elapsed <= u64::MAX,
    ensures
        advance_spec(m, elapsed).acc <= m.cfg.step_nanos || advance_spec(m, elapsed).acc == m.acc
            + elapsed,
{
    lemma_consume_keeps(Model { acc: (m.acc + elapsed) as u64, ..m });
    lemma_consume_drains(Model { acc: (m.acc + elapsed) as u64, ..m });
}

/// `consume` either had nothing to do or stops with the accumulator at
/// or below the step threshold.
proof fn lemma_consume_drains(m: Model)
    requires
        m.cfg.step_nanos > 0,
    ensures
        m.acc > m.cfg.step_nanos ==> consume(m).acc <= m.cfg.step_nanos,
        m.acc <= m.cfg.step_nanos ==> consume(m) == m,
    decreases m.acc,
{
    if m.acc > m.cfg.step_nanos {
        lemma_consume_drains(step_once(m));
    }
}

/// Consuming a state, then granting it `b` more nanoseconds and consuming
/// again, ends exactly where granting `b` up front would.
proof fn lemma_consume_absorb(m: Model, b: u64)
    requires
        m.acc + b <= u64::MAX,
    ensures
        consume(Model { acc: (consume(m).acc + b) as u64, ..consume(m) }) == consume(
            Model { acc: (m.acc + b) as u64, ..m },
        ),
    decreases m.acc,
{
    if m.cfg.step_nanos > 0 && m.acc > m.cfg.step_nanos {
        let s = step_once(m);
        lemma_consume_absorb(s, b);
        let mb = Model { acc: (m.acc + b) as u64, ..m };
        assert(step_once(mb) =~= Model { acc: (s.acc + b) as u64, ..s });
    }
}

/// Determinism of step accounting: advancing by `a` then by `b` produces
/// exactly the state one advance by `a + b` produces, for any split.
pub proof fn lemma_advance_additive(m: Model, a: u64, b: u64)
    requires
        m.acc + a + b <= u64::MAX,
    ensures
        advance_spec(advance_spec(m, a), b) == advance_spec(m, (a + b) as u64),
{
    let ma = Model { acc: (m.acc + a) as u64, ..m };
    lemma_consume_absorb(ma, b);
    assert(Model { acc: (ma.acc + b) as u64, ..ma } =~= Model {
        acc: (m.acc + (a + b) as u64) as u64,
        ..m
    });
}

/// The sampled grid always has exactly `x_res * y_res` cells, and each
/// cell holds the (nonnegative) normalized intensity at its sample point.
pub proof fn lemma_grid_shape(
    xs: Seq<i64>,
    ys: Seq<i64>,
    qs: Seq<i64>,
    w: int,
    h: int,
    xr: int,
    yr: int,
)
    requires
        charges_ok(xs, ys, qs),
        0 < w <= DIM_CAP,
        0 < h <= DIM_CAP,
        1 <= xr <= RES_CAP,
        1 <= yr <= RES_CAP,
    ensures
        grid_built(xs, ys, qs, w, h, xr, yr).len() == xr * yr,
        forall|e: int|
            0 <= e < xr * yr ==> #[trigger] grid_built(xs, ys, qs, w, h, xr, yr)[e] as int
                == pot_value(xs, ys, qs, (e / yr) * (w / xr), (e % yr) * (h / yr)),
        forall|e: int|
            0 <= e < xr * yr ==> #[trigger] grid_built(xs, ys, qs, w, h, xr, yr)[e] as int >= 0,
{
    let g = grid_built(xs, ys, qs, w, h, xr, yr);
    assert forall|e: int|
        0 <= e < xr * yr implies #[trigger] g[e] as int == pot_value(
        xs,
        ys,
        qs,
        (e / yr) * (w / xr),
        (e % yr) * (h / yr),
    ) && g[e] as int >= 0 by {
        lemma_pot_value_bounds(xs, ys, qs, (e / yr) * (w / xr), (e % yr) * (h / yr));
    }
}

} // verus!
