use vstd::prelude::*;
use crate::arith::{DIM_CAP, JUMP_CAP, MAX_CHARGES, Q_CAP, RES_CAP};
use crate::forces::{built_x, built_y, build_force_matrices, charges_ok, lemma_built_ok, matrix_ok};
use crate::motion::{integrate_axis, moved, moved_coord};
use crate::potential::{grid_built, sample_grid};
use crate::rng::{fresh_rng, lemma_perm_bounds, rand_range, shuffle_ids};

verus! {

/// A fixed-point 2D position inside the simulation area.
#[derive(Clone, Copy, Debug, PartialEq, Eq, Structural)]
pub struct Loc {
    pub x: i64,
    pub y: i64,
}

impl Loc {
    /// The origin.
    pub fn zero() -> (r: Loc)
        ensures
            r.x == 0 && r.y == 0,
    {
        Loc { x: 0, y: 0 }
    }

    /// Whether this position is the origin.
    pub fn is_zero(&self) -> (r: bool)
        ensures
            r <==> (self.x == 0 && self.y == 0),
    {
        self.x == 0 && self.y == 0
    }
}

/// A snapshot of one charge: its position and its magnitude.
#[derive(Clone, Copy, Debug, PartialEq, Eq, Structural)]
pub struct Charge {
    pub x: i64,
    pub y: i64,
    pub q: i64,
}

/// Everything that was a compile-time constant in spirit: the size of the
/// charge set and area, grid resolution, clock step, sampling cadence, the
/// jump factor of the integrator, and the optional net grouping shape.
/// All raw fixed-point units.
#[derive(Clone, Copy, Debug, PartialEq, Eq, Structural)]
pub struct Config {
    pub num_charges: usize,
    pub width: i64,
    pub height: i64,
    pub x_res: usize,
    pub y_res: usize,
    pub step_nanos: u64,
    pub steps_per_sample: u64,
    pub jump: i64,
    pub num_nets: usize,
    pub net_size: usize,
}

/// Why a configuration was rejected at initialization.
#[derive(Clone, Copy, Debug, PartialEq, Eq, Structural)]
pub enum ConfigError {
    NoCharges,
    TooManyCharges,
    BadDimensions,
    BadResolution,
    BadStepDuration,
    BadSampleCadence,
    BadJump,
    MagnitudeCountMismatch,
    BadMagnitude,
    PositionCountMismatch,
    PositionOutOfBounds,
}

/// A configuration the simulation can run with.
pub open spec fn config_ok(c: Config) -> bool {
    &&& 1 <= c.num_charges <= MAX_CHARGES
    &&& 0 < c.width <= DIM_CAP
    &&& 0 < c.height <= DIM_CAP
    &&& 1 <= c.x_res <= RES_CAP
    &&& 1 <= c.y_res <= RES_CAP
    &&& c.step_nanos >= 1
    &&& c.steps_per_sample >= 1
    &&& 0 < c.jump <= JUMP_CAP
}

/// Every magnitude is strictly positive and within the cap.
pub open spec fn mags_ok(qs: Seq<i64>) -> bool {
    forall|i: int| 0 <= i < qs.len() ==> 0 < #[trigger] qs[i] <= Q_CAP
}

/// The first reason, if any, to reject `initialize(cfg, qs)`.
pub open spec fn init_error(cfg: Config, qs: Seq<i64>) -> Option<ConfigError> {
    if cfg.num_charges == 0 {
        Some(ConfigError::NoCharges)
    } else if cfg.num_charges > MAX_CHARGES {
        Some(ConfigError::TooManyCharges)
    } else if !(0 < cfg.width <= DIM_CAP && 0 < cfg.height <= DIM_CAP) {
        Some(ConfigError::BadDimensions)
    } else if !(1 <= cfg.x_res <= RES_CAP && 1 <= cfg.y_res <= RES_CAP) {
        Some(ConfigError::BadResolution)
    } else if cfg.step_nanos == 0 {
        Some(ConfigError::BadStepDuration)
    } else if cfg.steps_per_sample == 0 {
        Some(ConfigError::BadSampleCadence)
    } else if !(0 < cfg.jump <= JUMP_CAP) {
        Some(ConfigError::BadJump)
    } else if qs.len() != cfg.num_charges {
        Some(ConfigError::MagnitudeCountMismatch)
    } else if !mags_ok(qs) {
        Some(ConfigError::BadMagnitude)
    } else {
        None
    }
}

/// The first reason, if any, to reject supplied positions on top of
/// `init_error`.
pub open spec fn init_pos_error(cfg: Config, ps: Seq<Loc>, qs: Seq<i64>) -> Option<ConfigError> {
    if init_error(cfg, qs) is Some {
        init_error(cfg, qs)
    } else if ps.len() != cfg.num_charges {
        Some(ConfigError::PositionCountMismatch)
    } else if !(forall|i: int|
        0 <= i < ps.len() ==> 0 <= #[trigger] ps[i].x <= cfg.width && 0 <= ps[i].y <= cfg.height) {
        Some(ConfigError::PositionOutOfBounds)
    } else {
        None
    }
}

/// A sequence of `len` zeros.
pub open spec fn zeros_i64(len: nat) -> Seq<i64> {
    Seq::new(len, |i: int| 0i64)
}

/// A sequence of `len` zeros.
pub open spec fn zeros_u64(len: nat) -> Seq<u64> {
    Seq::new(len, |i: int| 0u64)
}

/// The mathematical model of a running simulation: the charge arrays, the
/// two force matrices, the potential grid, the clock, and the opaque net
/// grouping, together with the configuration.
#[verifier::ext_equal]
pub ghost struct Model {
    pub cfg: Config,
    pub xs: Seq<i64>,
    pub ys: Seq<i64>,
    pub qs: Seq<i64>,
    pub mx: Seq<i64>,
    pub my: Seq<i64>,
    pub pot: Seq<u64>,
    pub acc: u64,
    pub steps: u64,
    pub nets: Seq<Seq<usize>>,
}

/// No charge index appears in two different net slots: the nets are
/// pairwise disjoint and each net holds distinct indices.
pub open spec fn nets_disjoint(nets: Seq<Seq<usize>>) -> bool {
    forall|a1: int, b1: int, a2: int, b2: int|
        #![trigger nets[a1][b1], nets[a2][b2]]
        0 <= a1 < nets.len() && 0 <= b1 < nets[a1].len() && 0 <= a2 < nets.len() && 0 <= b2
            < nets[a2].len() && (a1 != a2 || b1 != b2) ==> nets[a1][b1] != nets[a2][b2]
}

/// Whether `v` occurs among the first `pos` elements of `ids`.
pub open spec fn in_prefix(ids: Seq<usize>, pos: int, v: usize) -> bool {
    exists|k: int| 0 <= k < pos && v == ids[k]
}

/// The state invariant: a valid configuration, parallel charge arrays of
/// the configured length with positions inside the area, bounded force
/// matrices of the right shape, a grid of the right shape, and net indices
/// that point at real charges.
pub open spec fn model_wf(m: Model) -> bool {
    &&& config_ok(m.cfg)
    &&& m.xs.len() == m.cfg.num_charges
    &&& m.ys.len() == m.cfg.num_charges
    &&& m.qs.len() == m.cfg.num_charges
    &&& charges_ok(m.xs, m.ys, m.qs)
    &&& forall|i: int| 0 <= i < m.xs.len() ==> 0 <= #[trigger] m.xs[i] <= m.cfg.width
    &&& forall|i: int| 0 <= i < m.ys.len() ==> 0 <= #[trigger] m.ys[i] <= m.cfg.height
    &&& matrix_ok(m.mx, m.cfg.num_charges as int)
    &&& matrix_ok(m.my, m.cfg.num_charges as int)
    &&& m.pot.len() == m.cfg.x_res * m.cfg.y_res
    &&& forall|a: int, b: int|
        0 <= a < m.nets.len() && 0 <= b < m.nets[a].len() ==> #[trigger] m.nets[a][b]
            < m.cfg.num_charges
    &&& nets_disjoint(m.nets)
}

/// One simulation step: rebuild both force matrices from the current
/// positions, move every charge by its matrix row against the magnitudes
/// (clamped to the area), consume one step of accumulated time, advance
/// the step counter (saturating), and on every `steps_per_sample`-th step
/// resample the potential grid from the new positions.
pub open spec fn step_once(m: Model) -> Model {
    let bx = built_x(m.xs, m.ys, m.qs);
    let by = built_y(m.xs, m.ys, m.qs);
    let xs2 = moved(m.xs, bx, m.qs, m.cfg.jump as int, m.cfg.width as int);
    let ys2 = moved(m.ys, by, m.qs, m.cfg.jump as int, m.cfg.height as int);
    let steps2: u64 = if m.steps == u64::MAX {
        m.steps
    } else {
        (m.steps + 1) as u64
    };
    let pot2 = if steps2 as int % (m.cfg.steps_per_sample as int) == 0 {
        grid_built(
            xs2,
            ys2,
            m.qs,
            m.cfg.width as int,
            m.cfg.height as int,
            m.cfg.x_res as int,
            m.cfg.y_res as int,
        )
    } else {
        m.pot
    };
    Model {
        xs: xs2,
        ys: ys2,
        mx: bx,
        my: by,
        pot: pot2,
        acc: (m.acc - m.cfg.step_nanos) as u64,
        steps: steps2,
        ..m
    }
}

/// Runs simulation steps one at a time while the accumulated time exceeds
/// the step threshold, subtracting exactly one threshold per step.
pub open spec fn consume(m: Model) -> Model
    decreases m.acc,
{
    if m.cfg.step_nanos > 0 && m.acc > m.cfg.step_nanos {
        consume(step_once(m))
    } else {
        m
    }
}

/// The whole effect of `advance`: add the elapsed time to the accumulator,
/// then consume it step by step.
pub open spec fn advance_spec(m: Model, elapsed: u64) -> Model
    recommends
        m.acc + elapsed <= u64::MAX,
{
    consume(Model { acc: (m.acc + elapsed) as u64, ..m })
}

/// What a just-initialized (or just-reset) state looks like: the given
/// configuration and magnitudes, zeroed matrices and grid, a zeroed clock,
/// and a net grouping of at most `num_nets` nets of at most `net_size`
/// charges each.
pub open spec fn freshly_built(m: Model, cfg: Config, qs: Seq<i64>) -> bool {
    &&& m.cfg == cfg
    &&& m.qs == qs
    &&& m.acc == 0
    &&& m.steps == 0
    &&& m.mx == zeros_i64((cfg.num_charges * cfg.num_charges) as nat)
    &&& m.my == zeros_i64((cfg.num_charges * cfg.num_charges) as nat)
    &&& m.pot == zeros_u64((cfg.x_res * cfg.y_res) as nat)
    &&& m.nets.len() <= cfg.num_nets
    &&& forall|a: int| 0 <= a < m.nets.len() ==> #[trigger] m.nets[a].len() <= cfg.net_size
}

/// One step keeps the state invariant.
pub proof fn lemma_step_wf(m: Model)
    requires
        model_wf(m),
        m.acc > m.cfg.step_nanos,
    ensures
        model_wf(step_once(m)),
{
    let n = m.cfg.num_charges as int;
    lemma_built_ok(m.xs, m.ys, m.qs);
    let bx = built_x(m.xs, m.ys, m.qs);
    let by = built_y(m.xs, m.ys, m.qs);
    let xs2 = moved(m.xs, bx, m.qs, m.cfg.jump as int, m.cfg.width as int);
    let ys2 = moved(m.ys, by, m.qs, m.cfg.jump as int, m.cfg.height as int);
    assert forall|k: int| 0 <= k < xs2.len() implies 0 <= #[trigger] xs2[k] <= m.cfg.width by {
        let c = moved_coord(m.xs[k] as int, bx, m.qs, k, m.cfg.jump as int, m.cfg.width as int);
        assert(0 <= c <= m.cfg.width);
        assert(xs2[k] == c as i64);
    }
    assert forall|k: int| 0 <= k < ys2.len() implies 0 <= #[trigger] ys2[k] <= m.cfg.height by {
        let c = moved_coord(m.ys[k] as int, by, m.qs, k, m.cfg.jump as int, m.cfg.height as int);
        assert(0 <= c <= m.cfg.height);
        assert(ys2[k] == c as i64);
    }
}

/// The state invariant survives any amount of consumed time.
pub proof fn lemma_consume_wf(m: Model)
    requires
        model_wf(m),
    ensures
        model_wf(consume(m)),
    decreases m.acc,
{
    if m.cfg.step_nanos > 0 && m.acc > m.cfg.step_nanos {
        lemma_step_wf(m);
        lemma_consume_wf(step_once(m));
    }
}

/// A running simulation: parallel charge arrays, the two force matrices
/// (flattened row-major), the potential grid (flattened row-major), the
/// simulation clock, and the opaque net grouping.
pub struct SimState {
    cfg: Config,
    xs: Vec<i64>,
    ys: Vec<i64>,
    qs: Vec<i64>,
    mx: Vec<i64>,
    my: Vec<i64>,
    pot: Vec<u64>,
    acc: u64,
    steps: u64,
    nets: Vec<Vec<usize>>,
}

impl View for SimState {
    type V = Model;

    closed spec fn view(&self) -> Model {
        Model {
            cfg: self.cfg,
            xs: self.xs@,
            ys: self.ys@,
            qs: self.qs@,
            mx: self.mx@,
            my: self.my@,
            pot: self.pot@,
            acc: self.acc,
            steps: self.steps,
            nets: self.nets.deep_view(),
        }
    }
}

/// Builds a vector of `len` zeros.
fn make_zeros_i64(len: usize) -> (r: Vec<i64>)
    ensures
        r@ == zeros_i64(len as nat),
{
    let mut v: Vec<i64> = Vec::new();
    let mut k: usize = 0;
    while k < len
        invariant
            k <= len,
            v@.len() == k,
            forall|i: int| 0 <= i < k ==> #[trigger] v@[i] == 0i64,
        decreases len - k,
    {
        v.push(0);
        k += 1;
    }
    proof {
        assert(v@ =~= zeros_i64(len as nat));
    }
    v
}

/// Builds a vector of `len` zeros.
fn make_zeros_u64(len: usize) -> (r: Vec<u64>)
    ensures
        r@ == zeros_u64(len as nat),
{
    let mut v: Vec<u64> = Vec::new();
    let mut k: usize = 0;
    while k < len
        invariant
            k <= len,
            v@.len() == k,
            forall|i: int| 0 <= i < k ==> #[trigger] v@[i] == 0u64,
        decreases len - k,
    {
        v.push(0);
        k += 1;
    }
    proof {
        assert(v@ =~= zeros_u64(len as nat));
    }
    v
}

/// Copies a vector.
fn copy_i64_vec(src: &Vec<i64>) -> (r: Vec<i64>)
    ensures
        r@ == src@,
{
    let mut v: Vec<i64> = Vec::new();
    let mut k: usize = 0;
    while k < src.len()
        invariant
            k <= src@.len(),
            v@.len() == k,
            forall|i: int| 0 <= i < k ==> #[trigger] v@[i] == src@[i],
        decreases src@.len() - k,
    {
        v.push(src[k]);
        k += 1;
    }
    proof {
        assert(v@ =~= src@);
    }
    v
}

/// Appending a net cut from the untouched `[pos0, pos)` slice of a
/// duplicate-free index sequence keeps the grouping pairwise disjoint,
/// and every slot keeps pointing into the consumed prefix.
proof fn lemma_net_push_keeps_disjoint(
    dv: Seq<Seq<usize>>,
    net: Seq<usize>,
    ids: Seq<usize>,
    pos0: int,
    pos: int,
)
    requires
        ids.no_duplicates(),
        0 <= pos0 <= pos <= ids.len(),
        net.len() == pos - pos0,
        forall|b: int| 0 <= b < net.len() ==> #[trigger] net[b] == ids[pos0 + b],
        forall|a: int, b: int|
            0 <= a < dv.len() && 0 <= b < dv[a].len() ==> in_prefix(
                ids,
                pos0,
                #[trigger] dv[a][b],
            ),
        nets_disjoint(dv),
    ensures
        nets_disjoint(dv.push(net)),
        forall|a: int, b: int|
            0 <= a < dv.push(net).len() && 0 <= b < dv.push(net)[a].len() ==> in_prefix(
                ids,
                pos,
                #[trigger] dv.push(net)[a][b],
            ),
{
    let dv2 = dv.push(net);
    assert forall|a: int, b: int|
        0 <= a < dv2.len() && 0 <= b < dv2[a].len() implies in_prefix(
        ids,
        pos,
        #[trigger] dv2[a][b],
    ) by {
        if a < dv.len() {
            assert(in_prefix(ids, pos0, dv[a][b]));
            let k = choose|k: int| 0 <= k < pos0 && dv[a][b] == ids[k];
            assert(0 <= k < pos && dv2[a][b] == ids[k]);
        } else {
            assert(dv2[a][b] == ids[pos0 + b]);
        }
    }
    assert forall|a1: int, b1: int, a2: int, b2: int|
        #![trigger dv2[a1][b1], dv2[a2][b2]]
        0 <= a1 < dv2.len() && 0 <= b1 < dv2[a1].len() && 0 <= a2 < dv2.len() && 0 <= b2
            < dv2[a2].len() && (a1 != a2 || b1 != b2) implies dv2[a1][b1] != dv2[a2][b2] by {
        if a1 < dv.len() && a2 < dv.len() {
            assert(dv2[a1][b1] == dv[a1][b1] && dv2[a2][b2] == dv[a2][b2]);
        } else if a1 == dv.len() && a2 == dv.len() {
            assert(dv2[a1][b1] == ids[pos0 + b1] && dv2[a2][b2] == ids[pos0 + b2]);
        } else if a1 == dv.len() {
            assert(in_prefix(ids, pos0, dv[a2][b2]));
            let k = choose|k: int| 0 <= k < pos0 && dv[a2][b2] == ids[k];
            assert(dv2[a1][b1] == ids[pos0 + b1] && k != pos0 + b1);
        } else {
            assert(in_prefix(ids, pos0, dv[a1][b1]));
            let k = choose|k: int| 0 <= k < pos0 && dv[a1][b1] == ids[k];
            assert(dv2[a2][b2] == ids[pos0 + b2] && k != pos0 + b2);
        }
    }
}

/// Assembles a fresh state around validated charge arrays: zeroed
/// matrices, grid and clock, and a random net grouping.
fn assemble_state(cfg: Config, xs: Vec<i64>, ys: Vec<i64>, qs: Vec<i64>) -> (r: SimState)
    requires
        config_ok(cfg),
        xs@.len() == cfg.num_charges,
        ys@.len() == cfg.num_charges,
        qs@.len() == cfg.num_charges,
        mags_ok(qs@),
        forall|i: int| 0 <= i < xs@.len() ==> 0 <= #[trigger] xs@[i] <= cfg.width,
        forall|i: int| 0 <= i < ys@.len() ==> 0 <= #[trigger] ys@[i] <= cfg.height,
    ensures
        r.wf(),
        freshly_built(r@, cfg, qs@),
        r@.xs == xs@,
        r@.ys == ys@,
{
    let n = cfg.num_charges;
    let mut rng = fresh_rng();
    let mut ids: Vec<usize> = Vec::new();
    let mut k: usize = 0;
    while k < n
        invariant
            k <= n,
            ids@.len() == k,
            forall|i: int| 0 <= i < k ==> #[trigger] ids@[i] == i,
        decreases n - k,
    {
        ids.push(k);
        k += 1;
    }
    let ghost ids0 = ids@;
    shuffle_ids(&mut ids, &mut rng);
    proof {
        assert(forall|i: int| 0 <= i < ids0.len() ==> #[trigger] ids0[i] < n);
        lemma_perm_bounds(ids0, ids@, n as int);
        crate::rng::lemma_perm_no_duplicates(ids0, ids@);
    }
    let mut nets: Vec<Vec<usize>> = Vec::new();
    if cfg.net_size > 0 {
        let mut pos: usize = 0;
        while nets.len() < cfg.num_nets && pos < n
            invariant
                cfg.net_size > 0,
                pos <= n,
                n == ids@.len(),
                forall|i: int| 0 <= i < n ==> #[trigger] ids@[i] < n,
                nets@.len() <= cfg.num_nets,
                ids@.no_duplicates(),
                forall|a: int| 0 <= a < nets@.len() ==> #[trigger] nets@[a]@.len() <= cfg.net_size,
                forall|a: int, b: int|
                    0 <= a < nets@.len() && 0 <= b < nets@[a]@.len() ==> #[trigger] nets@[a]@[b]
                        < n,
                forall|a: int, b: int|
                    0 <= a < nets@.len() && 0 <= b < nets@[a]@.len() ==> in_prefix(
                        ids@,
                        pos as int,
                        #[trigger] nets@[a]@[b],
                    ),
                nets_disjoint(nets.deep_view()),
            decreases n - pos,
        {
            let ghost pos0 = pos as int;
            let mut net: Vec<usize> = Vec::new();
            while net.len() < cfg.net_size && pos < n
                invariant
                    pos <= n,
                    n == ids@.len(),
                    forall|i: int| 0 <= i < n ==> #[trigger] ids@[i] < n,
                    net@.len() <= cfg.net_size,
                    pos as int == pos0 + net@.len(),
                    pos0 >= 0,
                    forall|b: int| 0 <= b < net@.len() ==> #[trigger] net@[b] == ids@[pos0 + b],
                    forall|b: int| 0 <= b < net@.len() ==> #[trigger] net@[b] < n,
                decreases n - pos,
            {
                net.push(ids[pos]);
                pos += 1;
            }
            let ghost dv0 = nets.deep_view();
            let ghost netv = net@;
            proof {
                lemma_net_push_keeps_disjoint(dv0, netv, ids@, pos0, pos as int);
            }
            nets.push(net);
            proof {
                assert(nets.deep_view() =~~= dv0.push(netv));
            }
        }
    }
    proof {
        assert((n * n) as int == n as int * n as int && n * n <= MAX_CHARGES * MAX_CHARGES)
            by (nonlinear_arith)
            requires
                1 <= n <= MAX_CHARGES,
        ;
        assert(cfg.x_res * cfg.y_res <= RES_CAP * RES_CAP) by (nonlinear_arith)
            requires
                1 <= cfg.x_res <= RES_CAP,
                1 <= cfg.y_res <= RES_CAP,
        ;
    }
    let mx = make_zeros_i64(n * n);
    let my = make_zeros_i64(n * n);
    let pot = make_zeros_u64(cfg.x_res * cfg.y_res);
    let s = SimState { cfg, xs, ys, qs, mx, my, pot, acc: 0, steps: 0, nets };
    proof {
        assert(forall|a: int, b: int|
            0 <= a < s@.nets.len() && 0 <= b < s@.nets[a].len() ==> #[trigger] s@.nets[a][b]
                < cfg.num_charges);
        assert(forall|a: int|
            0 <= a < s@.nets.len() ==> #[trigger] s@.nets[a].len() <= cfg.net_size);
    }
    s
}

/// Builds N charges with uniformly random positions over the area and the
/// given magnitudes; fails fast, with the first applicable error, on any
/// out-of-range configuration. A fresh state has zeroed force matrices, a
/// zeroed potential grid and a zeroed clock.
pub fn initialize(cfg: Config, magnitudes: Vec<i64>) -> (r: Result<SimState, ConfigError>)
    ensures
        match r {
            Result::Ok(s) => init_error(cfg, magnitudes@) == Option::<ConfigError>::None && s.wf()
                && freshly_built(s@, cfg, magnitudes@),
            Result::Err(e) => init_error(cfg, magnitudes@) == Some(e),
        },
{
    if let Some(e) = check_config(&cfg, &magnitudes) {
        return Err(e);
    }
    let n = cfg.num_charges;
    let mut rng = fresh_rng();
    let mut xs: Vec<i64> = Vec::new();
    let mut ys: Vec<i64> = Vec::new();
    let mut k: usize = 0;
    while k < n
        invariant
            config_ok(cfg),
            k <= n,
            xs@.len() == k,
            ys@.len() == k,
            forall|i: int| 0 <= i < k ==> 0 <= #[trigger] xs@[i] <= cfg.width,
            forall|i: int| 0 <= i < k ==> 0 <= #[trigger] ys@[i] <= cfg.height,
        decreases n - k,
    {
        let x = rand_range(&mut rng, 0, cfg.width);
        let y = rand_range(&mut rng, 0, cfg.height);
        xs.push(x);
        ys.push(y);
        k += 1;
    }
    Ok(assemble_state(cfg, xs, ys, magnitudes))
}

/// Builds N charges at the supplied positions with the given magnitudes;
/// beyond `initialize`'s checks, the positions must match the charge count
/// and lie inside the area.
pub fn initialize_with_positions(cfg: Config, positions: Vec<Loc>, magnitudes: Vec<i64>) -> (r:
    Result<SimState, ConfigError>)
    ensures
        match r {
            Result::Ok(s) => init_pos_error(cfg, positions@, magnitudes@) == Option::<
                ConfigError,
            >::None && s.wf() && freshly_built(s@, cfg, magnitudes@) && s@.xs.len()
                == positions@.len() && forall|i: int|
                0 <= i < positions@.len() ==> #[trigger] s@.xs[i] == positions@[i].x && s@.ys[i]
                    == positions@[i].y,
            Result::Err(e) => init_pos_error(cfg, positions@, magnitudes@) == Some(e),
        },
{
    if let Some(e) = check_config(&cfg, &magnitudes) {
        return Err(e);
    }
    if positions.len() != cfg.num_charges {
        return Err(ConfigError::PositionCountMismatch);
    }
    let n = cfg.num_charges;
    let mut xs: Vec<i64> = Vec::new();
    let mut ys: Vec<i64> = Vec::new();
    let mut k: usize = 0;
    while k < n
        invariant
            config_ok(cfg),
            init_error(cfg, magnitudes@) == Option::<ConfigError>::None,
            k <= n,
            n == cfg.num_charges,
            n == positions@.len(),
            xs@.len() == k,
            ys@.len() == k,
            forall|i: int| 0 <= i < k ==> #[trigger] xs@[i] == positions@[i].x,
            forall|i: int| 0 <= i < k ==> #[trigger] ys@[i] == positions@[i].y,
            forall|i: int| 0 <= i < k ==> 0 <= #[trigger] xs@[i] <= cfg.width,
            forall|i: int| 0 <= i < k ==> 0 <= #[trigger] ys@[i] <= cfg.height,
            forall|i: int|
                0 <= i < k ==> 0 <= #[trigger] positions@[i].x <= cfg.width && 0
                    <= positions@[i].y <= cfg.height,
        decreases n - k,
    {
        let p = positions[k];
        if p.x < 0 || p.x > cfg.width || p.y < 0 || p.y > cfg.height {
            proof {
                assert(!(0 <= positions@[k as int].x <= cfg.width && 0 <= positions@[k as int].y
                    <= cfg.height));
            }
            return Err(ConfigError::PositionOutOfBounds);
        }
        xs.push(p.x);
        ys.push(p.y);
        k += 1;
    }
    Ok(assemble_state(cfg, xs, ys, magnitudes))
}

/// Checks the configuration and magnitudes, reporting the first failure
/// in `init_error`'s order.
fn check_config(cfg: &Config, magnitudes: &Vec<i64>) -> (r: Option<ConfigError>)
    ensures
        r == init_error(*cfg, magnitudes@),
{
    if cfg.num_charges == 0 {
        return Some(ConfigError::NoCharges);
    }
    if cfg.num_charges > MAX_CHARGES {
        return Some(ConfigError::TooManyCharges);
    }
    if !(0 < cfg.width && cfg.width <= DIM_CAP && 0 < cfg.height && cfg.height <= DIM_CAP) {
        return Some(ConfigError::BadDimensions);
    }
    if !(1 <= cfg.x_res && cfg.x_res <= RES_CAP && 1 <= cfg.y_res && cfg.y_res <= RES_CAP) {
        return Some(ConfigError::BadResolution);
    }
    if cfg.step_nanos == 0 {
        return Some(ConfigError::BadStepDuration);
    }
    if cfg.steps_per_sample == 0 {
        return Some(ConfigError::BadSampleCadence);
    }
    if !(0 < cfg.jump && cfg.jump <= JUMP_CAP) {
        return Some(ConfigError::BadJump);
    }
    if magnitudes.len() != cfg.num_charges {
        return Some(ConfigError::MagnitudeCountMismatch);
    }
    let mut k: usize = 0;
    while k < magnitudes.len()
        invariant
            config_ok(*cfg),
            magnitudes@.len() == cfg.num_charges,
            k <= magnitudes@.len(),
            forall|i: int| 0 <= i < k ==> 0 < #[trigger] magnitudes@[i] <= Q_CAP,
        decreases magnitudes@.len() - k,
    {
        if magnitudes[k] <= 0 || magnitudes[k] > Q_CAP {
            proof {
                assert(!(0 < magnitudes@[k as int] <= Q_CAP));
                assert(!mags_ok(magnitudes@));
            }
            return Some(ConfigError::BadMagnitude);
        }
        k += 1;
    }
    None
}

impl SimState {
    /// The state invariant, phrased over the model.
    pub open spec fn wf(&self) -> bool {
        model_wf(self@)
    }

    /// Advances the simulation clock by `elapsed_nanos` and runs every
    /// simulation step that became due, one at a time.
    pub fn advance(&mut self, elapsed_nanos: u64)
        requires
            old(self).wf(),
            old(self)@.acc + elapsed_nanos <= u64::MAX,
        ensures
            final(self).wf(),
            final(self)@ == advance_spec(old(self)@, elapsed_nanos),
    {
        let ghost m0 = Model { acc: (old(self)@.acc + elapsed_nanos) as u64, ..old(self)@ };
        self.acc = self.acc + elapsed_nanos;
        proof {
            assert(self@ =~= m0);
            assert(model_wf(m0));
        }
        while self.acc > self.cfg.step_nanos
            invariant
                self.wf(),
                consume(self@) == consume(m0),
            decreases self@.acc,
        {
            let ghost prev = self@;
            self.do_step();
            proof {
                assert(consume(prev) == consume(self@));
            }
        }
        proof {
            assert(consume(self@) == self@);
        }
    }

    /// One due step: rebuild the force matrices, integrate, step the
    /// counter and clock, and resample the grid when the cadence says so.
    fn do_step(&mut self)
        requires
            old(self).wf(),
            old(self)@.acc > old(self)@.cfg.step_nanos,
        ensures
            final(self).wf(),
            final(self)@ == step_once(old(self)@),
            final(self)@.acc < old(self)@.acc,
    {
        proof {
            lemma_step_wf(old(self)@);
        }
        let (nmx, nmy) = build_force_matrices(&self.xs, &self.ys, &self.qs);
        self.mx = nmx;
        self.my = nmy;
        proof {
            lemma_built_ok(self.xs@, self.ys@, self.qs@);
        }
        integrate_axis(&mut self.xs, &self.mx, &self.qs, self.cfg.jump, self.cfg.width);
        integrate_axis(&mut self.ys, &self.my, &self.qs, self.cfg.jump, self.cfg.height);
        self.acc = self.acc - self.cfg.step_nanos;
        if self.steps < u64::MAX {
            self.steps = self.steps + 1;
        }
        if self.steps % self.cfg.steps_per_sample == 0 {
            let g = sample_grid(
                &self.xs,
                &self.ys,
                &self.qs,
                self.cfg.width,
                self.cfg.height,
                self.cfg.x_res,
                self.cfg.y_res,
            );
            self.pot = g;
        }
        proof {
            assert(self@ =~= step_once(old(self)@));
        }
    }

    /// Discards the charge positions, matrices, grid and clock and
    /// rebuilds them as `initialize` would, keeping the configuration and
    /// the magnitudes.
    pub fn reset(&mut self)
        requires
            old(self).wf(),
        ensures
            final(self).wf(),
            freshly_built(final(self)@, old(self)@.cfg, old(self)@.qs),
            forall|i: int|
                0 <= i < final(self)@.xs.len() ==> 0 <= #[trigger] final(self)@.xs[i] <= old(
                    self,
                )@.cfg.width,
    {
        let cfg = self.cfg;
        let qs = copy_i64_vec(&self.qs);
        let n = cfg.num_charges;
        let mut rng = fresh_rng();
        let mut xs: Vec<i64> = Vec::new();
        let mut ys: Vec<i64> = Vec::new();
        let mut k: usize = 0;
        while k < n
            invariant
                config_ok(cfg),
                k <= n,
                xs@.len() == k,
                ys@.len() == k,
                forall|i: int| 0 <= i < k ==> 0 <= #[trigger] xs@[i] <= cfg.width,
                forall|i: int| 0 <= i < k ==> 0 <= #[trigger] ys@[i] <= cfg.height,
            decreases n - k,
        {
            let x = rand_range(&mut rng, 0, cfg.width);
            let y = rand_range(&mut rng, 0, cfg.height);
            xs.push(x);
            ys.push(y);
            k += 1;
        }
        let s = assemble_state(cfg, xs, ys, qs);
        *self = s;
    }

    /// A read-only snapshot of every charge: position and magnitude.
    pub fn read_positions(&self) -> (r: Vec<Charge>)
        requires
            self.wf(),
        ensures
            r@.len() == self@.xs.len(),
            forall|i: int|
                0 <= i < r@.len() ==> #[trigger] r@[i] == (Charge {
                    x: self@.xs[i],
                    y: self@.ys[i],
                    q: self@.qs[i],
                }),
    {
        let n = self.xs.len();
        let mut out: Vec<Charge> = Vec::new();
        let mut k: usize = 0;
        while k < n
            invariant
                self.wf(),
                n == self@.xs.len(),
                k <= n,
                out@.len() == k,
                forall|i: int|
                    0 <= i < k ==> #[trigger] out@[i] == (Charge {
                        x: self@.xs[i],
                        y: self@.ys[i],
                        q: self@.qs[i],
                    }),
            decreases n - k,
        {
            out.push(Charge { x: self.xs[k], y: self.ys[k], q: self.qs[k] });
            k += 1;
        }
        out
    }

    /// A read-only copy of the potential grid, flattened row-major: the
    /// cell for sample point `(ix, iy)` sits at `ix*y_res + iy`.
    pub fn read_potential_grid(&self) -> (r: Vec<u64>)
        requires
            self.wf(),
        ensures
            r@ == self@.pot,
    {
        let n = self.pot.len();
        let mut out: Vec<u64> = Vec::new();
        let mut k: usize = 0;
        while k < n
            invariant
                n == self@.pot.len(),
                k <= n,
                out@.len() == k,
                forall|i: int| 0 <= i < k ==> #[trigger] out@[i] == self@.pot[i],
            decreases n - k,
        {
            out.push(self.pot[k]);
            k += 1;
        }
        proof {
            assert(out@ =~= self@.pot);
        }
        out
    }

    /// The grid cell for sample point `(ix, iy)`.
    pub fn potential_at(&self, ix: usize, iy: usize) -> (r: u64)
        requires
            self.wf(),
            ix < self@.cfg.x_res,
            iy < self@.cfg.y_res,
        ensures
            r == self@.pot[ix as int * self@.cfg.y_res as int + iy as int],
    {
        proof {
            assert(ix as int * self@.cfg.y_res as int + iy < self@.cfg.x_res as int * self@.cfg.y_res
                as int) by (nonlinear_arith)
                requires
                    (ix as int) < (self@.cfg.x_res as int),
                    (iy as int) < (self@.cfg.y_res as int),
            ;
            assert(ix * self@.cfg.y_res + iy <= RES_CAP * RES_CAP) by (nonlinear_arith)
                requires
                    (ix as int) < (self@.cfg.x_res as int),
                    (self@.cfg.x_res as int) <= (RES_CAP as int),
                    (iy as int) < (self@.cfg.y_res as int),
                    (self@.cfg.y_res as int) <= (RES_CAP as int),
            ;
        }
        self.pot[ix * self.cfg.y_res + iy]
    }

    /// The coordinates of grid sample point `(ix, iy)`.
    pub fn sample_point(&self, ix: usize, iy: usize) -> (r: Loc)
        requires
            self.wf(),
            ix < self@.cfg.x_res,
            iy < self@.cfg.y_res,
        ensures
            r.x as int == ix as int * (self@.cfg.width as int / self@.cfg.x_res as int),
            r.y as int == iy as int * (self@.cfg.height as int / self@.cfg.y_res as int),
    {
        let xstep = ((self.cfg.width as u64) / (self.cfg.x_res as u64)) as i64;
        let ystep = ((self.cfg.height as u64) / (self.cfg.y_res as u64)) as i64;
        proof {
            crate::potential::lemma_sample_in_area(
                self@.cfg.width as int,
                self@.cfg.x_res as int,
                ix as int,
            );
            crate::potential::lemma_sample_in_area(
                self@.cfg.height as int,
                self@.cfg.y_res as int,
                iy as int,
            );
            vstd::arithmetic::div_mod::lemma_div_pos_is_pos(
                self@.cfg.width as int,
                self@.cfg.x_res as int,
            );
            vstd::arithmetic::div_mod::lemma_div_pos_is_pos(
                self@.cfg.height as int,
                self@.cfg.y_res as int,
            );
        }
        Loc { x: (ix as i64) * xstep, y: (iy as i64) * ystep }
    }

    /// The x force-matrix cell `[i, j]`.
    pub fn force_x(&self, i: usize, j: usize) -> (r: i64)
        requires
            self.wf(),
            i < self@.cfg.num_charges,
            j < self@.cfg.num_charges,
        ensures
            r == self@.mx[i as int * self@.cfg.num_charges as int + j as int],
    {
        proof {
            assert(i as int * self@.cfg.num_charges as int + j < self@.cfg.num_charges as int
                * self@.cfg.num_charges as int) by (nonlinear_arith)
                requires
                    (i as int) < (self@.cfg.num_charges as int),
                    (j as int) < (self@.cfg.num_charges as int),
            ;
            assert(i * self@.cfg.num_charges + j <= MAX_CHARGES * MAX_CHARGES)
                by (nonlinear_arith)
                requires
                    (i as int) < (self@.cfg.num_charges as int),
                    (self@.cfg.num_charges as int) <= (MAX_CHARGES as int),
                    (j as int) < (self@.cfg.num_charges as int),
            ;
        }
        self.mx[i * self.cfg.num_charges + j]
    }

    /// The y force-matrix cell `[i, j]`.
    pub fn force_y(&self, i: usize, j: usize) -> (r: i64)
        requires
            self.wf(),
            i < self@.cfg.num_charges,
            j < self@.cfg.num_charges,
        ensures
            r == self@.my[i as int * self@.cfg.num_charges as int + j as int],
    {
        proof {
            assert(i as int * self@.cfg.num_charges as int + j < self@.cfg.num_charges as int
                * self@.cfg.num_charges as int) by (nonlinear_arith)
                requires
                    (i as int) < (self@.cfg.num_charges as int),
                    (j as int) < (self@.cfg.num_charges as int),
            ;
            assert(i * self@.cfg.num_charges + j <= MAX_CHARGES * MAX_CHARGES)
                by (nonlinear_arith)
                requires
                    (i as int) < (self@.cfg.num_charges as int),
                    (self@.cfg.num_charges as int) <= (MAX_CHARGES as int),
                    (j as int) < (self@.cfg.num_charges as int),
            ;
        }
        self.my[i * self.cfg.num_charges + j]
    }

    /// The configuration this simulation runs with.
    pub fn config(&self) -> (r: Config)
        ensures
            r == self@.cfg,
    {
        self.cfg
    }

    /// How many charges the simulation holds.
    pub fn charge_count(&self) -> (r: usize)
        requires
            self.wf(),
        ensures
            r == self@.cfg.num_charges,
            r == self@.xs.len(),
    {
        self.xs.len()
    }

    /// How many simulation steps have run (saturating).
    pub fn step_count(&self) -> (r: u64)
        ensures
            r == self@.steps,
    {
        self.steps
    }

    /// The simulated time not yet consumed by steps, in nanoseconds.
    pub fn accumulated_nanos(&self) -> (r: u64)
        ensures
            r == self@.acc,
    {
        self.acc
    }

    /// The opaque net grouping: disjoint-by-construction index groups the
    /// simulation itself never reads.
    pub fn nets(&self) -> (r: &Vec<Vec<usize>>)
        ensures
            r.deep_view() == self@.nets,
    {
        &self.nets
    }
}

} // verus!
