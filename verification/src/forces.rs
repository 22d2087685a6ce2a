use vstd::prelude::*;
use crate::arith::{
    lemma_tdiv_bounds, tdiv, div_fx, DIM_CAP, FORCE_CAP, MAX_CHARGES, Q_CAP, SCALE,
};
use vstd::arithmetic::div_mod::{
    lemma_div_pos_is_pos, lemma_div_nonincreasing, lemma_fundamental_div_mod_converse,
};

verus! {

/// Parallel charge arrays: positions and magnitudes of equal length, every
/// value inside the library's caps.
pub open spec fn charges_ok(xs: Seq<i64>, ys: Seq<i64>, qs: Seq<i64>) -> bool {
    &&& xs.len() == ys.len()
    &&& ys.len() == qs.len()
    &&& 1 <= xs.len() <= MAX_CHARGES
    &&& forall|i: int| 0 <= i < xs.len() ==> 0 <= #[trigger] xs[i] <= DIM_CAP
    &&& forall|i: int| 0 <= i < ys.len() ==> 0 <= #[trigger] ys[i] <= DIM_CAP
    &&& forall|i: int| 0 <= i < qs.len() ==> 0 < #[trigger] qs[i] <= Q_CAP
}

/// Fixed-point squared distance of a coordinate delta `(dx, dy)`.
pub open spec fn sq_of(dx: int, dy: int) -> int {
    (dx * dx + dy * dy) / (SCALE as int)
}

/// One directional repulsion component: delta `d` scaled by the pushed
/// charge's magnitude `q` over the squared distance `sq`. Coincident
/// charges (`sq == 0`) contribute nothing, by policy.
pub open spec fn repulsion(q: int, d: int, sq: int) -> int {
    if sq == 0 {
        0
    } else {
        tdiv(q * d, sq)
    }
}

/// The x component of the force-matrix cell `[i, j]`.
pub open spec fn entry_x(xs: Seq<i64>, ys: Seq<i64>, qs: Seq<i64>, i: int, j: int) -> int {
    if i == j {
        0
    } else {
        repulsion(qs[i] as int, xs[i] - xs[j], sq_of(xs[i] - xs[j], ys[i] - ys[j]))
    }
}

/// The y component of the force-matrix cell `[i, j]`.
pub open spec fn entry_y(xs: Seq<i64>, ys: Seq<i64>, qs: Seq<i64>, i: int, j: int) -> int {
    if i == j {
        0
    } else {
        repulsion(qs[i] as int, ys[i] - ys[j], sq_of(xs[i] - xs[j], ys[i] - ys[j]))
    }
}

/// The x force matrix, flattened row-major: cell `[i, j]` sits at `i*n + j`.
pub open spec fn built_x(xs: Seq<i64>, ys: Seq<i64>, qs: Seq<i64>) -> Seq<i64> {
    Seq::new(
        xs.len() * xs.len(),
        |e: int| entry_x(xs, ys, qs, e / xs.len() as int, e % xs.len() as int) as i64,
    )
}

/// The y force matrix, flattened row-major: cell `[i, j]` sits at `i*n + j`.
pub open spec fn built_y(xs: Seq<i64>, ys: Seq<i64>, qs: Seq<i64>) -> Seq<i64> {
    Seq::new(
        xs.len() * xs.len(),
        |e: int| entry_y(xs, ys, qs, e / xs.len() as int, e % xs.len() as int) as i64,
    )
}

/// A flat n-by-n matrix whose entries all stay within `FORCE_CAP`.
pub open spec fn matrix_ok(m: Seq<i64>, n: int) -> bool {
    &&& m.len() == n * n
    &&& forall|e: int| 0 <= e < m.len() ==> -FORCE_CAP <= #[trigger] m[e] <= FORCE_CAP
}

/// Every force-matrix entry stays within `FORCE_CAP`.
pub proof fn lemma_entry_bounds(xs: Seq<i64>, ys: Seq<i64>, qs: Seq<i64>, i: int, j: int)
    requires
        charges_ok(xs, ys, qs),
        0 <= i < xs.len(),
        0 <= j < xs.len(),
    ensures
        -FORCE_CAP <= entry_x(xs, ys, qs, i, j) <= FORCE_CAP,
        -FORCE_CAP <= entry_y(xs, ys, qs, i, j) <= FORCE_CAP,
        sq_of(xs[i] - xs[j], ys[i] - ys[j]) >= 0,
{
    let dx = xs[i] - xs[j];
    let dy = ys[i] - ys[j];
    let q = qs[i] as int;
    assert(dx * dx >= 0 && dy * dy >= 0) by (nonlinear_arith);
    lemma_div_pos_is_pos(dx * dx + dy * dy, SCALE as int);
    let sq = sq_of(dx, dy);
    if i != j && sq != 0 {
        assert(-FORCE_CAP <= q * dx <= FORCE_CAP && -FORCE_CAP <= q * dy <= FORCE_CAP)
            by (nonlinear_arith)
            requires
                0 < q <= Q_CAP,
                -DIM_CAP <= dx <= DIM_CAP,
                -DIM_CAP <= dy <= DIM_CAP,
        ;
        lemma_tdiv_bounds(q * dx, sq);
        lemma_tdiv_bounds(q * dy, sq);
    }
}

/// A cell of either freshly built matrix stays within `FORCE_CAP`.
proof fn lemma_cell_bounds(xs: Seq<i64>, ys: Seq<i64>, qs: Seq<i64>, e: int)
    requires
        charges_ok(xs, ys, qs),
        0 <= e < xs.len() * xs.len(),
    ensures
        -FORCE_CAP <= built_x(xs, ys, qs)[e] <= FORCE_CAP,
        -FORCE_CAP <= built_y(xs, ys, qs)[e] <= FORCE_CAP,
{
    let n = xs.len() as int;
    lemma_div_pos_is_pos(e, n);
    lemma_div_nonincreasing(e, n);
    vstd::arithmetic::div_mod::lemma_fundamental_div_mod(e, n);
    vstd::arithmetic::div_mod::lemma_mod_division_less_than_divisor(e, n);
    assert(e / n < n) by (nonlinear_arith)
        requires
            0 <= e < n * n,
            n >= 1,
            e == n * (e / n) + e % n,
            0 <= e % n < n,
    ;
    lemma_entry_bounds(xs, ys, qs, e / n, e % n);
}

/// A freshly built pair of force matrices is well formed.
pub proof fn lemma_built_ok(xs: Seq<i64>, ys: Seq<i64>, qs: Seq<i64>)
    requires
        charges_ok(xs, ys, qs),
    ensures
        matrix_ok(built_x(xs, ys, qs), xs.len() as int),
        matrix_ok(built_y(xs, ys, qs), xs.len() as int),
{
    let n = xs.len() as int;
    let bx = built_x(xs, ys, qs);
    let by = built_y(xs, ys, qs);
    assert forall|e: int|
        0 <= e < n * n implies -FORCE_CAP <= #[trigger] bx[e] <= FORCE_CAP by {
        lemma_cell_bounds(xs, ys, qs, e);
    }
    assert forall|e: int|
        0 <= e < n * n implies -FORCE_CAP <= #[trigger] by[e] <= FORCE_CAP by {
        lemma_cell_bounds(xs, ys, qs, e);
    }
}

/// Computes the two directional contributions pushed onto the charge at
/// `(xi, yi)` with magnitude `qi` by a charge at `(xj, yj)`.
fn pair_repulsion(xi: i64, yi: i64, xj: i64, yj: i64, qi: i64) -> (r: (i64, i64))
    requires
        0 <= xi <= DIM_CAP,
        0 <= yi <= DIM_CAP,
        0 <= xj <= DIM_CAP,
        0 <= yj <= DIM_CAP,
        0 < qi <= Q_CAP,
    ensures
        r.0 == repulsion(qi as int, xi - xj, sq_of(xi - xj, yi - yj)),
        r.1 == repulsion(qi as int, yi - yj, sq_of(xi - xj, yi - yj)),
{
    let dx = xi - xj;
    let dy = yi - yj;
    proof {
        assert(0 <= dx * dx <= DIM_CAP * DIM_CAP && 0 <= dy * dy <= DIM_CAP * DIM_CAP)
            by (nonlinear_arith)
            requires
                -DIM_CAP <= dx <= DIM_CAP,
                -DIM_CAP <= dy <= DIM_CAP,
        ;
    }
    let sq_raw = dx * dx + dy * dy;
    let sq = ((sq_raw as u64) / (SCALE as u64)) as i64;
    proof {
        lemma_div_pos_is_pos(sq_raw as int, SCALE as int);
        lemma_div_nonincreasing(sq_raw as int, SCALE as int);
    }
    if sq == 0 {
        (0, 0)
    } else {
        proof {
            assert(-FORCE_CAP <= qi * dx <= FORCE_CAP && -FORCE_CAP <= qi * dy <= FORCE_CAP)
                by (nonlinear_arith)
                requires
                    0 < qi <= Q_CAP,
                    -DIM_CAP <= dx <= DIM_CAP,
                    -DIM_CAP <= dy <= DIM_CAP,
            ;
        }
        let nx = qi * dx;
        let ny = qi * dy;
        (div_fx(nx, sq), div_fx(ny, sq))
    }
}

/// Rebuilds both force matrices from the current charge state: for every
/// ordered pair `i != j`, cell `[i, j]` holds the delta from charge `j`
/// to charge `i`, scaled by charge `i`'s magnitude over their squared
/// distance; the diagonal reads zero.
pub fn build_force_matrices(xs: &Vec<i64>, ys: &Vec<i64>, qs: &Vec<i64>) -> (r: (Vec<i64>, Vec<i64>))
    requires
        charges_ok(xs@, ys@, qs@),
    ensures
        r.0@ == built_x(xs@, ys@, qs@),
        r.1@ == built_y(xs@, ys@, qs@),
        forall|i: int| 0 <= i < xs@.len() ==> #[trigger] r.0@[i * xs@.len() + i] == 0i64,
        forall|i: int| 0 <= i < xs@.len() ==> #[trigger] r.1@[i * xs@.len() + i] == 0i64,
{
    let n = xs.len();
    let mut mx: Vec<i64> = Vec::new();
    let mut my: Vec<i64> = Vec::new();
    let mut i: usize = 0;
    while i < n
        invariant
            charges_ok(xs@, ys@, qs@),
            n == xs@.len(),
            i <= n,
            mx@.len() == i * n,
            my@.len() == i * n,
            forall|e: int| 0 <= e < i * n ==> #[trigger] mx@[e] == built_x(xs@, ys@, qs@)[e],
            forall|e: int| 0 <= e < i * n ==> #[trigger] my@[e] == built_y(xs@, ys@, qs@)[e],
        decreases n - i,
    {
        let mut j: usize = 0;
        proof {
            assert(i * n + n <= n * n) by (nonlinear_arith)
                requires
                    0 <= i < n,
            ;
        }
        while j < n
            invariant
                charges_ok(xs@, ys@, qs@),
                n == xs@.len(),
                i < n,
                j <= n,
                i * n + n <= n * n,
                mx@.len() == i * n + j,
                my@.len() == i * n + j,
                forall|e: int| 0 <= e < i * n + j ==> #[trigger] mx@[e] == built_x(xs@, ys@, qs@)[e],
                forall|e: int| 0 <= e < i * n + j ==> #[trigger] my@[e] == built_y(xs@, ys@, qs@)[e],
            decreases n - j,
        {
            let (cx, cy) = if i == j {
                (0i64, 0i64)
            } else {
                pair_repulsion(xs[i], ys[i], xs[j], ys[j], qs[i])
            };
            proof {
                lemma_fundamental_div_mod_converse(
                    (i * n + j) as int,
                    n as int,
                    i as int,
                    j as int,
                );
                lemma_entry_bounds(xs@, ys@, qs@, i as int, j as int);
            }
            mx.push(cx);
            my.push(cy);
            j += 1;
        }
        proof {
            assert((i + 1) * n == i * n + n) by (nonlinear_arith);
        }
        i += 1;
    }
    proof {
        assert(mx@ =~= built_x(xs@, ys@, qs@));
        assert(my@ =~= built_y(xs@, ys@, qs@));
        let nn = xs@.len() as int;
        assert forall|i2: int|
            0 <= i2 < nn implies #[trigger] mx@[i2 * nn + i2] == 0i64 by {
            assert(i2 * nn + nn <= nn * nn) by (nonlinear_arith)
                requires
                    0 <= i2 < nn,
            ;
            lemma_fundamental_div_mod_converse(i2 * nn + i2, nn, i2, i2);
        }
        assert forall|i2: int|
            0 <= i2 < nn implies #[trigger] my@[i2 * nn + i2] == 0i64 by {
            assert(i2 * nn + nn <= nn * nn) by (nonlinear_arith)
                requires
                    0 <= i2 < nn,
            ;
            lemma_fundamental_div_mod_converse(i2 * nn + i2, nn, i2, i2);
        }
    }
    (mx, my)
}

} // verus!
