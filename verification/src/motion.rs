use vstd::prelude::*;
use crate::arith::{clamp_s, div_fx128, lemma_tdiv_bounds, tdiv, JUMP_CAP, MAX_CHARGES, Q_CAP, SCALE};
use crate::forces::matrix_ok;

verus! {

/// Magnitude cap on one summand of a row dot product:
/// `FORCE_CAP * Q_CAP`.
pub const DOT_TERM_CAP: i128 = 100_000_000_000_000_000_000_000;

/// The first `cnt` summands of the dot product of matrix row `i` with the
/// magnitude vector: `sum over j < cnt of m[i*n + j] * qs[j]`.
pub open spec fn dot_prefix(m: Seq<i64>, qs: Seq<i64>, i: int, cnt: int) -> int
    decreases cnt,
{
    if cnt <= 0 {
        0
    } else {
        dot_prefix(m, qs, i, cnt - 1) + m[i * qs.len() + (cnt - 1)] * qs[cnt - 1]
    }
}

/// The raw displacement of charge `i`: its full matrix row against the
/// magnitude vector, brought back to fixed-point scale.
pub open spec fn displacement(m: Seq<i64>, qs: Seq<i64>, i: int) -> int {
    tdiv(dot_prefix(m, qs, i, qs.len() as int), SCALE as int)
}

/// Where one coordinate of charge `i` lands: the displacement scaled by
/// the jump factor, added, then clamped into `[0, hi]`.
pub open spec fn moved_coord(p: int, m: Seq<i64>, qs: Seq<i64>, i: int, jump: int, hi: int) -> int {
    clamp_s(p + tdiv(displacement(m, qs, i) * jump, SCALE as int), 0, hi)
}

/// All coordinates along one axis after an integration pass.
pub open spec fn moved(ps: Seq<i64>, m: Seq<i64>, qs: Seq<i64>, jump: int, hi: int) -> Seq<i64> {
    Seq::new(ps.len(), |i: int| moved_coord(ps[i] as int, m, qs, i, jump, hi) as i64)
}

/// A dot-product prefix grows by at most `DOT_TERM_CAP` per summand.
pub proof fn lemma_dot_prefix_bound(m: Seq<i64>, qs: Seq<i64>, i: int, cnt: int)
    requires
        matrix_ok(m, qs.len() as int),
        forall|k: int| 0 <= k < qs.len() ==> 0 < #[trigger] qs[k] <= Q_CAP,
        0 <= i < qs.len(),
        0 <= cnt <= qs.len(),
    ensures
        -cnt * (DOT_TERM_CAP as int) <= dot_prefix(m, qs, i, cnt) <= cnt * (DOT_TERM_CAP as int),
    decreases cnt,
{
    let n = qs.len() as int;
    if cnt > 0 {
        lemma_dot_prefix_bound(m, qs, i, cnt - 1);
        let idx = i * n + (cnt - 1);
        assert(0 <= idx < n * n) by (nonlinear_arith)
            requires
                0 <= i < n,
                0 < cnt <= n,
                idx == i * n + (cnt - 1),
        ;
        let t = m[idx] * qs[cnt - 1];
        assert(-(DOT_TERM_CAP as int) <= t <= DOT_TERM_CAP as int) by (nonlinear_arith)
            requires
                t == m[idx] * qs[cnt - 1],
                -crate::arith::FORCE_CAP <= m[idx] <= crate::arith::FORCE_CAP,
                0 < qs[cnt - 1] <= Q_CAP,
        ;
        assert((cnt - 1) * (DOT_TERM_CAP as int) + DOT_TERM_CAP as int == cnt * (DOT_TERM_CAP
            as int)) by (nonlinear_arith);
    }
}

/// One integration pass along one axis: every coordinate moves by its
/// matrix-row dot product against the magnitudes, scaled by `jump`, and
/// is clamped into `[0, hi]`.
pub fn integrate_axis(ps: &mut Vec<i64>, m: &Vec<i64>, qs: &Vec<i64>, jump: i64, hi: i64)
    requires
        old(ps)@.len() == qs@.len(),
        1 <= qs@.len() <= MAX_CHARGES,
        matrix_ok(m@, qs@.len() as int),
        forall|k: int| 0 <= k < qs@.len() ==> 0 < #[trigger] qs@[k] <= Q_CAP,
        0 < jump <= JUMP_CAP,
        0 < hi <= crate::arith::DIM_CAP,
    ensures
        final(ps)@ == moved(old(ps)@, m@, qs@, jump as int, hi as int),
        forall|k: int| 0 <= k < final(ps)@.len() ==> 0 <= #[trigger] final(ps)@[k] <= hi,
{
    let n = qs.len();
    let mut i: usize = 0;
    while i < n
        invariant
            ps@.len() == n,
            old(ps)@.len() == n,
            n == qs@.len(),
            1 <= n <= MAX_CHARGES,
            matrix_ok(m@, n as int),
            forall|k: int| 0 <= k < n ==> 0 < #[trigger] qs@[k] <= Q_CAP,
            0 < jump <= JUMP_CAP,
            0 < hi <= crate::arith::DIM_CAP,
            i <= n,
            forall|k: int|
                0 <= k < i ==> #[trigger] ps@[k] == moved(
                    old(ps)@,
                    m@,
                    qs@,
                    jump as int,
                    hi as int,
                )[k],
            forall|k: int| i <= k < n ==> #[trigger] ps@[k] == old(ps)@[k],
        decreases n - i,
    {
        let mut sum: i128 = 0;
        let mut j: usize = 0;
        while j < n
            invariant
                ps@.len() == n,
                n == qs@.len(),
                1 <= n <= MAX_CHARGES,
                matrix_ok(m@, n as int),
                forall|k: int| 0 <= k < n ==> 0 < #[trigger] qs@[k] <= Q_CAP,
                i < n,
                j <= n,
                sum == dot_prefix(m@, qs@, i as int, j as int),
                -(j as int) * (DOT_TERM_CAP as int) <= sum as int <= (j as int) * (DOT_TERM_CAP
                    as int),
            decreases n - j,
        {
            proof {
                assert(0 <= i * n + j < n * n) by (nonlinear_arith)
                    requires
                        0 <= i < n,
                        0 <= j < n,
                ;
                assert(i * n + j <= MAX_CHARGES * MAX_CHARGES) by (nonlinear_arith)
                    requires
                        0 <= i < n,
                        0 <= j < n,
                        n <= MAX_CHARGES,
                ;
                let t = m@[i as int * n as int + j as int] as int * (qs@[j as int] as int);
                assert(-(DOT_TERM_CAP as int) <= t <= DOT_TERM_CAP as int) by (nonlinear_arith)
                    requires
                        t == m@[i as int * n as int + j as int] as int * (qs@[j as int] as int),
                        -crate::arith::FORCE_CAP <= m@[i as int * n as int + j as int]
                            <= crate::arith::FORCE_CAP,
                        0 < qs@[j as int] <= Q_CAP,
                ;
                assert((j as int) * (DOT_TERM_CAP as int) + DOT_TERM_CAP as int == (j + 1)
                    * (DOT_TERM_CAP as int)) by (nonlinear_arith);
                assert((j + 1) * (DOT_TERM_CAP as int) <= MAX_CHARGES * (DOT_TERM_CAP as int))
                    by (nonlinear_arith)
                    requires
                        j + 1 <= MAX_CHARGES,
                ;
            }
            let idx = i * n + j;
            let term = (m[idx] as i128) * (qs[j] as i128);
            sum = sum + term;
            j += 1;
        }
        proof {
            assert((n as int) * (DOT_TERM_CAP as int) <= MAX_CHARGES * (DOT_TERM_CAP as int))
                by (nonlinear_arith)
                requires
                    n <= MAX_CHARGES,
            ;
            lemma_tdiv_bounds(sum as int, SCALE as int);
        }
        let disp = div_fx128(sum, SCALE as i128);
        proof {
            assert(-(MAX_CHARGES * (DOT_TERM_CAP as int)) * (JUMP_CAP as int) <= disp as int
                * (jump as int) <= (MAX_CHARGES * (DOT_TERM_CAP as int)) * (JUMP_CAP as int))
                by (nonlinear_arith)
                requires
                    -(MAX_CHARGES * (DOT_TERM_CAP as int)) <= disp as int <= MAX_CHARGES * (
                    DOT_TERM_CAP as int),
                    0 < jump <= JUMP_CAP,
            ;
        }
        let scaled = disp * (jump as i128);
        proof {
            lemma_tdiv_bounds(scaled as int, SCALE as int);
        }
        let mov = div_fx128(scaled, SCALE as i128);
        let cur = ps[i];
        let npos = (cur as i128) + mov;
        let clamped: i64 = if npos < 0 {
            0
        } else if npos > (hi as i128) {
            hi
        } else {
            npos as i64
        };
        proof {
            assert(clamped as int == moved_coord(
                old(ps)@[i as int] as int,
                m@,
                qs@,
                i as int,
                jump as int,
                hi as int,
            ));
        }
        ps.set(i, clamped);
        proof {
            let mv = moved(old(ps)@, m@, qs@, jump as int, hi as int);
            let c = moved_coord(
                old(ps)@[i as int] as int,
                m@,
                qs@,
                i as int,
                jump as int,
                hi as int,
            );
            assert(0 <= c <= hi as int);
            assert(mv[i as int] == c as i64);
            assert(ps@[i as int] == mv[i as int]);
        }
        i += 1;
    }
    proof {
        assert(ps@ =~= moved(old(ps)@, m@, qs@, jump as int, hi as int));
        assert forall|k: int|
            0 <= k < ps@.len() implies 0 <= #[trigger] ps@[k] <= hi by {
            assert(ps@[k] == moved_coord(
                old(ps)@[k] as int,
                m@,
                qs@,
                k,
                jump as int,
                hi as int,
            ) as i64);
        }
    }
}

} // verus!
