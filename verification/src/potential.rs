use vstd::prelude::*;
use crate::arith::{
    isqrt, lemma_sqrt_floor_bounds, lemma_tdiv_bounds, sqrt_floor, tdiv,
    DIM_CAP, MAX_CHARGES, Q_CAP, RES_CAP, SCALE,
};
use crate::forces::charges_ok;
use vstd::arithmetic::div_mod::{
    lemma_div_is_ordered_by_denominator, lemma_div_multiples_vanish, lemma_div_nonincreasing,
    lemma_div_pos_is_pos, lemma_fundamental_div_mod, lemma_fundamental_div_mod_converse,
    lemma_mod_division_less_than_divisor,
};

verus! {

/// Magnitude cap on one potential summand: `Q_CAP * SCALE`.
pub const POT_TERM_CAP: i64 = 10_000_000_000_000;

/// The distance from a charge at delta `(dx, dy)`, floored at one raw
/// tick: a sample point nearer than that (coincidence included) is treated
/// as exactly one tick away, which resolves the division singularity.
pub open spec fn dist_floored(dx: int, dy: int) -> int {
    let d = sqrt_floor((dx * dx + dy * dy) as nat) as int;
    if d == 0 {
        1
    } else {
        d
    }
}

/// One charge's share of the potential at a sample point: its magnitude
/// over the floored distance, in fixed point.
pub open spec fn pot_term(q: int, dx: int, dy: int) -> int {
    tdiv(q * (SCALE as int), dist_floored(dx, dy))
}

/// The potential contributed by the first `cnt` charges at `(gx, gy)`.
pub open spec fn pot_sum(
    xs: Seq<i64>,
    ys: Seq<i64>,
    qs: Seq<i64>,
    gx: int,
    gy: int,
    cnt: int,
) -> int
    decreases cnt,
{
    if cnt <= 0 {
        0
    } else {
        pot_sum(xs, ys, qs, gx, gy, cnt - 1) + pot_term(
            qs[cnt - 1] as int,
            xs[cnt - 1] - gx,
            ys[cnt - 1] - gy,
        )
    }
}

/// The normalization constant: 14 units per hundred charges, in fixed
/// point.
pub open spec fn max_pot(n: int) -> int {
    (14 * (SCALE as int) * n) / 100
}

/// The normalized intensity at a sample point.
pub open spec fn pot_value(xs: Seq<i64>, ys: Seq<i64>, qs: Seq<i64>, gx: int, gy: int) -> int {
    tdiv(
        pot_sum(xs, ys, qs, gx, gy, xs.len() as int) * (SCALE as int),
        max_pot(xs.len() as int),
    )
}

/// The whole potential grid, flattened row-major: the cell for sample
/// point `(ix, iy)` sits at `ix*y_res + iy`, and the sample points are
/// spaced by `width/x_res` and `height/y_res`.
pub open spec fn grid_built(
    xs: Seq<i64>,
    ys: Seq<i64>,
    qs: Seq<i64>,
    w: int,
    h: int,
    xr: int,
    yr: int,
) -> Seq<u64> {
    Seq::new(
        (xr * yr) as nat,
        |e: int| pot_value(xs, ys, qs, (e / yr) * (w / xr), (e % yr) * (h / yr)) as u64,
    )
}

/// The normalization constant is exactly `140_000 * n` raw ticks.
pub proof fn lemma_max_pot_exact(n: int)
    requires
        n >= 1,
    ensures
        max_pot(n) == 140_000 * n,
        max_pot(n) >= 140_000,
{
    assert(14 * (SCALE as int) * n == 100 * (140_000 * n)) by (nonlinear_arith);
    lemma_div_multiples_vanish(140_000 * n, 100);
    assert(140_000 * n >= 140_000) by (nonlinear_arith)
        requires
            n >= 1,
    ;
}

/// Every potential summand lies in `[0, POT_TERM_CAP]`.
pub proof fn lemma_pot_term_bounds(q: int, dx: int, dy: int)
    requires
        0 < q <= Q_CAP,
    ensures
        0 <= pot_term(q, dx, dy) <= POT_TERM_CAP,
{
    lemma_sqrt_floor_bounds((dx * dx + dy * dy) as nat);
    let d = dist_floored(dx, dy);
    assert(d >= 1);
    assert(0 < q * (SCALE as int) <= POT_TERM_CAP as int) by (nonlinear_arith)
        requires
            0 < q <= Q_CAP,
    ;
    lemma_tdiv_bounds(q * (SCALE as int), d);
}

/// A potential sum over `cnt` charges lies in `[0, cnt * POT_TERM_CAP]`.
pub proof fn lemma_pot_sum_bounds(
    xs: Seq<i64>,
    ys: Seq<i64>,
    qs: Seq<i64>,
    gx: int,
    gy: int,
    cnt: int,
)
    requires
        charges_ok(xs, ys, qs),
        0 <= cnt <= xs.len(),
    ensures
        0 <= pot_sum(xs, ys, qs, gx, gy, cnt) <= cnt * (POT_TERM_CAP as int),
    decreases cnt,
{
    if cnt > 0 {
        lemma_pot_sum_bounds(xs, ys, qs, gx, gy, cnt - 1);
        lemma_pot_term_bounds(qs[cnt - 1] as int, xs[cnt - 1] - gx, ys[cnt - 1] - gy);
        assert((cnt - 1) * (POT_TERM_CAP as int) + POT_TERM_CAP as int == cnt * (POT_TERM_CAP
            as int)) by (nonlinear_arith);
    }
}

/// Every normalized intensity is nonnegative and fits far below `u64`
/// range.
pub proof fn lemma_pot_value_bounds(xs: Seq<i64>, ys: Seq<i64>, qs: Seq<i64>, gx: int, gy: int)
    requires
        charges_ok(xs, ys, qs),
    ensures
        0 <= pot_value(xs, ys, qs, gx, gy) < 0x8000_0000_0000_0000,
{
    let n = xs.len() as int;
    let s = pot_sum(xs, ys, qs, gx, gy, n);
    lemma_pot_sum_bounds(xs, ys, qs, gx, gy, n);
    lemma_max_pot_exact(n);
    let mp = max_pot(n);
    let num = s * (SCALE as int);
    assert(0 <= num <= MAX_CHARGES * (POT_TERM_CAP as int) * (SCALE as int)) by (nonlinear_arith)
        requires
            0 <= s <= n * (POT_TERM_CAP as int),
            1 <= n <= MAX_CHARGES,
            num == s * (SCALE as int),
    ;
    lemma_tdiv_bounds(num, mp);
    lemma_div_is_ordered_by_denominator(num, 140_000, mp);
    vstd::arithmetic::div_mod::lemma_div_is_ordered(
        num,
        MAX_CHARGES * (POT_TERM_CAP as int) * (SCALE as int),
        140_000,
    );
    lemma_fundamental_div_mod_converse(
        MAX_CHARGES * (POT_TERM_CAP as int) * (SCALE as int),
        140_000,
        714_285_714_285_714_285,
        100_000,
    );
}

/// Sample points never leave the simulation area.
pub proof fn lemma_sample_in_area(w: int, r: int, k: int)
    requires
        0 < w,
        1 <= r,
        0 <= k < r,
    ensures
        0 <= k * (w / r) <= w,
{
    let step = w / r;
    lemma_div_pos_is_pos(w, r);
    lemma_fundamental_div_mod(w, r);
    lemma_mod_division_less_than_divisor(w, r);
    assert(0 <= k * step <= w) by (nonlinear_arith)
        requires
            0 <= k < r,
            step >= 0,
            w == r * step + w % r,
            w % r >= 0,
    ;
}

/// Samples the full potential grid: at each of the `x_res * y_res` evenly
/// spaced points, the sum over all charges of magnitude over floored
/// distance, normalized by `max_pot`.
pub fn sample_grid(
    xs: &Vec<i64>,
    ys: &Vec<i64>,
    qs: &Vec<i64>,
    width: i64,
    height: i64,
    x_res: usize,
    y_res: usize,
) -> (r: Vec<u64>)
    requires
        charges_ok(xs@, ys@, qs@),
        0 < width <= DIM_CAP,
        0 < height <= DIM_CAP,
        1 <= x_res <= RES_CAP,
        1 <= y_res <= RES_CAP,
    ensures
        r@ == grid_built(
            xs@,
            ys@,
            qs@,
            width as int,
            height as int,
            x_res as int,
            y_res as int,
        ),
        r@.len() == x_res * y_res,
{
    let n = xs.len();
    let xstep = ((width as u64) / (x_res as u64)) as i64;
    let ystep = ((height as u64) / (y_res as u64)) as i64;
    proof {
        lemma_div_pos_is_pos(width as int, x_res as int);
        lemma_div_nonincreasing(width as int, x_res as int);
        lemma_div_pos_is_pos(height as int, y_res as int);
        lemma_div_nonincreasing(height as int, y_res as int);
    }
    let mut grid: Vec<u64> = Vec::new();
    let mut ix: usize = 0;
    while ix < x_res
        invariant
            charges_ok(xs@, ys@, qs@),
            n == xs@.len(),
            0 < width <= DIM_CAP,
            0 < height <= DIM_CAP,
            1 <= x_res <= RES_CAP,
            1 <= y_res <= RES_CAP,
            xstep == width as int / x_res as int,
            ystep == height as int / y_res as int,
            0 <= xstep <= DIM_CAP,
            0 <= ystep <= DIM_CAP,
            ix <= x_res,
            grid@.len() == ix * y_res,
            forall|e: int|
                0 <= e < ix * y_res ==> #[trigger] grid@[e] == grid_built(
                    xs@,
                    ys@,
                    qs@,
                    width as int,
                    height as int,
                    x_res as int,
                    y_res as int,
                )[e],
        decreases x_res - ix,
    {
        proof {
            assert(ix * y_res + y_res <= x_res * y_res) by (nonlinear_arith)
                requires
                    0 <= ix < x_res,
                    y_res >= 1,
            ;
            lemma_sample_in_area(width as int, x_res as int, ix as int);
        }
        let gx = (ix as i64) * xstep;
        let mut iy: usize = 0;
        while iy < y_res
            invariant
                charges_ok(xs@, ys@, qs@),
                n == xs@.len(),
                0 < width <= DIM_CAP,
                0 < height <= DIM_CAP,
                1 <= x_res <= RES_CAP,
                1 <= y_res <= RES_CAP,
                xstep == width as int / x_res as int,
                ystep == height as int / y_res as int,
                0 <= xstep <= DIM_CAP,
                0 <= ystep <= DIM_CAP,
                ix < x_res,
                iy <= y_res,
                ix * y_res + y_res <= x_res * y_res,
                gx == ix as int * xstep,
                0 <= gx <= width,
                grid@.len() == ix * y_res + iy,
                forall|e: int|
                    0 <= e < ix * y_res + iy ==> #[trigger] grid@[e] == grid_built(
                        xs@,
                        ys@,
                        qs@,
                        width as int,
                        height as int,
                        x_res as int,
                        y_res as int,
                    )[e],
            decreases y_res - iy,
        {
            proof {
                lemma_sample_in_area(height as int, y_res as int, iy as int);
            }
            let gy = (iy as i64) * ystep;
            let mut sum: i64 = 0;
            let mut k: usize = 0;
            while k < n
                invariant
                    charges_ok(xs@, ys@, qs@),
                    n == xs@.len(),
                    0 <= gx <= DIM_CAP,
                    0 <= gy <= DIM_CAP,
                    k <= n,
                    sum == pot_sum(xs@, ys@, qs@, gx as int, gy as int, k as int),
                    0 <= sum <= (k as int) * (POT_TERM_CAP as int),
                decreases n - k,
            {
                proof {
                    assert((k as int) * (POT_TERM_CAP as int) + POT_TERM_CAP as int == (k + 1)
                        * (POT_TERM_CAP as int)) by (nonlinear_arith);
                    assert((k + 1) * (POT_TERM_CAP as int) <= MAX_CHARGES * (POT_TERM_CAP as int))
                        by (nonlinear_arith)
                        requires
                            k + 1 <= MAX_CHARGES,
                    ;
                    let dxs = xs@[k as int] - gx;
                    let dys = ys@[k as int] - gy;
                    assert(0 <= dxs * dxs <= (DIM_CAP as int) * (DIM_CAP as int) && 0 <= dys * dys
                        <= (DIM_CAP as int) * (DIM_CAP as int)) by (nonlinear_arith)
                        requires
                            -DIM_CAP <= dxs <= DIM_CAP,
                            -DIM_CAP <= dys <= DIM_CAP,
                    ;
                    lemma_pot_term_bounds(qs@[k as int] as int, dxs, dys);
                }
                let dx = xs[k] - gx;
                let dy = ys[k] - gy;
                let d2 = (dx * dx + dy * dy) as u64;
                let dist = isqrt(d2);
                let den: u64 = if dist == 0 {
                    1
                } else {
                    dist
                };
                let num = qs[k] * SCALE;
                let term = ((num as u64) / den) as i64;
                proof {
                    assert(term == pot_term(
                        qs@[k as int] as int,
                        xs@[k as int] - gx,
                        ys@[k as int] - gy,
                    ));
                }
                sum = sum + term;
                k += 1;
            }
            let mp: u64 = 140_000 * (n as u64);
            proof {
                lemma_max_pot_exact(n as int);
                lemma_pot_value_bounds(xs@, ys@, qs@, gx as int, gy as int);
            }
            let cell_wide: u128 = ((sum as u128) * (SCALE as u128)) / (mp as u128);
            proof {
                assert(cell_wide as int == pot_value(xs@, ys@, qs@, gx as int, gy as int));
            }
            let cell: u64 = cell_wide as u64;
            grid.push(cell);
            proof {
                lemma_fundamental_div_mod_converse(
                    (ix * y_res + iy) as int,
                    y_res as int,
                    ix as int,
                    iy as int,
                );
            }
            iy += 1;
        }
        proof {
            assert((ix + 1) * y_res == ix * y_res + y_res) by (nonlinear_arith);
        }
        ix += 1;
    }
    proof {
        assert(grid@ =~= grid_built(
            xs@,
            ys@,
            qs@,
            width as int,
            height as int,
            x_res as int,
            y_res as int,
        ));
    }
    grid
}

} // verus!
