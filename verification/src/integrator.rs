//! The integrator: a fourth-order Runge-Kutta step over the SIR model, the
//! derivation of a simulation configuration (step size and sampling
//! interval), and the simulation loop with time-based output sampling.

use vstd::prelude::*;
use crate::fixed::{
    clamp_window, clamped, div_trunc, lemma_scaled_mul_bound, lemma_scaled_mul_double,
    lemma_scaled_mul_half_contract, lemma_scaled_mul_nonneg, lemma_scaled_mul_nonpos,
    lemma_scaled_mul_zero, lemma_tdiv_below, lemma_tdiv_bound, lemma_tdiv_nonpos,
    lemma_tdiv_ordered, lemma_tdiv_sum3_near, lemma_tdiv_zero, mul_fixed, scaled_mul, tdiv, SCALE,
    STATE_LIMIT,
};
use crate::model::{
    deriv_m, differentiate, lemma_deriv_bound, Deriv, DerivM, Params, ParamsM, SimError, State,
    StateM, DERIV_LIMIT, PARAM_LIMIT,
};

verus! {

/// Largest step size a run accepts (1.0 in real terms).
pub const STEP_LIMIT: i64 = 1_000_000_000;

/// Largest simulated end time (1000000.0 in real terms).
pub const TIME_LIMIT: i64 = 1_000_000_000_000_000;

/// The factor 0.01 of the step-size rule, in fixed-point units.
pub const CENTI: i64 = 10_000_000;

/// The cap on emitted samples that the sampling interval is widened to meet.
pub const SAMPLE_CAP: i64 = 10_000;

/// One intermediate Runge-Kutta state: the base state shifted by half a
/// step along a derivative, clamped into the representable window.
pub open spec fn half_shift_m(x: StateM, h: int, k: DerivM) -> StateM {
    StateM {
        s: clamped(x.s + tdiv(scaled_mul(h, k.ds), 2)),
        i: clamped(x.i + tdiv(scaled_mul(h, k.di), 2)),
        r: clamped(x.r + tdiv(scaled_mul(h, k.dr), 2)),
    }
}

/// The base state shifted by a whole step along a derivative, clamped.
pub open spec fn full_shift_m(x: StateM, h: int, k: DerivM) -> StateM {
    StateM {
        s: clamped(x.s + scaled_mul(h, k.ds)),
        i: clamped(x.i + scaled_mul(h, k.di)),
        r: clamped(x.r + scaled_mul(h, k.dr)),
    }
}

/// The stage combination of one component: `k1/6 + k2/3 + k3/3 + k4/4`.
/// The fourth stage deliberately carries weight 1/4, not the textbook 1/6;
/// that weighting is this system's defined behaviour.
pub open spec fn stage_mix(k1: int, k2: int, k3: int, k4: int) -> int {
    tdiv(k1, 6) + tdiv(k2, 3) + tdiv(k3, 3) + tdiv(k4, 4)
}

/// One Runge-Kutta step: four derivative evaluations, then the weighted
/// combination applied identically to each component.
/// Opaque: proofs unfold it where they reason about a single step.
#[verifier::opaque]
pub open spec fn rk4_next_m(p: ParamsM, x: StateM, h: int) -> StateM {
    let k1 = deriv_m(p, x);
    let t1 = half_shift_m(x, h, k1);
    let k2 = deriv_m(p, t1);
    let t2 = half_shift_m(x, h, k2);
    let k3 = deriv_m(p, t2);
    let t3 = full_shift_m(x, h, k3);
    let k4 = deriv_m(p, t3);
    StateM {
        s: clamped(x.s + scaled_mul(h, stage_mix(k1.ds, k2.ds, k3.ds, k4.ds))),
        i: clamped(x.i + scaled_mul(h, stage_mix(k1.di, k2.di, k3.di, k4.di))),
        r: clamped(x.r + scaled_mul(h, stage_mix(k1.dr, k2.dr, k3.dr, k4.dr))),
    }
}

/// Ceiling of the window the base-10 logarithm search works in: `10^14`,
/// comfortably above any representable `(beta + gamma) * s0`.
pub const LOG_CAP: i64 = 100_000_000_000_000;

/// Powers of ten.
pub open spec fn pow10(n: nat) -> int
    decreases n,
{
    if n == 0 {
        1
    } else {
        10 * pow10((n - 1) as nat)
    }
}

/// How many times a positive value can be multiplied by ten before it
/// leaves the logarithm window. For `q` standing for the real number
/// `q / SCALE`, this count minus five is `floor(log10(SCALE / q))`, the
/// floored base-10 logarithm of `1 / (q / SCALE)`.
pub open spec fn decades_below_cap(acc: int) -> int
    decreases LOG_CAP - acc
        when 1 <= acc <= LOG_CAP
{
    if acc * 10 <= LOG_CAP {
        1 + decades_below_cap(acc * 10)
    } else {
        0
    }
}

/// The tenth power, written as the squarings the executable code performs.
pub open spec fn tenth_power(e: int) -> int {
    let e2 = e * e;
    let e4 = e2 * e2;
    let e8 = e4 * e4;
    e8 * e2
}

/// The sampling interval, widened by tens until at most `SAMPLE_CAP`
/// intervals fit below `max_time`.
pub open spec fn widen_every(max_time: int, every: int) -> int
    decreases max_time - every
        when 1 <= every
{
    if max_time > 10000 * every {
        widen_every(max_time, 10 * every)
    } else {
        every
    }
}

/// The quantity `(beta + gamma) * s0` that both derived values come from.
pub open spec fn q_of(p: ParamsM, x: StateM) -> int {
    scaled_mul(p.beta + p.gamma, x.s)
}

/// The fixed step size: `0.01 * (beta + gamma) * s0`.
pub open spec fn step_of(p: ParamsM, x: StateM) -> int {
    scaled_mul(CENTI as int, q_of(p, x))
}

/// `floor(log10(1 / q))` for the scaled `q`.
pub open spec fn log_exp_of(q: int) -> int {
    decades_below_cap(q) - 5
}

/// The sampling interval before widening: `floor(log10(1/q)) ^ 10`, as a
/// time value in fixed-point units.
pub open spec fn base_every_of(q: int) -> int {
    tenth_power(log_exp_of(q)) * (SCALE as int)
}

/// The sampling interval a run uses.
pub open spec fn every_of(p: ParamsM, x: StateM, max_time: int) -> int {
    widen_every(max_time, base_every_of(q_of(p, x)))
}

/// When the derived configuration is unusable: `(beta + gamma) * s0`
/// vanishes, the step size truncates to nothing or leaves the window, or
/// the floored logarithm is zero, which makes the sampling interval zero.
pub open spec fn degenerate_m(p: ParamsM, x: StateM) -> bool {
    ||| q_of(p, x) < 1
    ||| step_of(p, x) < 1
    ||| step_of(p, x) > STEP_LIMIT as int
    ||| log_exp_of(q_of(p, x)) == 0
}

/// A derived simulation configuration: fixed thereafter for a whole run.
#[derive(Clone, Copy, Debug, PartialEq, Eq, Structural)]
pub struct SimConfig {
    pub step: i64,
    pub every: i64,
    pub max_time: i64,
}

impl SimConfig {
    /// What a run relies on: a positive step within the window, a sampling
    /// interval no finer than the step, and an end time at most
    /// `SAMPLE_CAP` intervals away.
    pub open spec fn wf(self) -> bool {
        &&& 1 <= self.step <= STEP_LIMIT
        &&& self.step <= self.every
        &&& 0 <= self.max_time <= TIME_LIMIT
        &&& self.max_time <= SAMPLE_CAP * self.every
    }
}

proof fn lemma_pow10_14()
    ensures
        pow10(14) == 100_000_000_000_000,
{
    assert(pow10(0) == 1);
    assert(pow10(1) == 10);
    assert(pow10(2) == 100);
    assert(pow10(3) == 1000);
    assert(pow10(4) == 10000);
    assert(pow10(5) == 100_000);
    assert(pow10(6) == 1_000_000);
    assert(pow10(7) == 10_000_000);
    assert(pow10(8) == 100_000_000);
    assert(pow10(9) == 1_000_000_000);
    assert(pow10(10) == 10_000_000_000);
    assert(pow10(11) == 100_000_000_000);
    assert(pow10(12) == 1_000_000_000_000);
    assert(pow10(13) == 10_000_000_000_000);
    assert(pow10(14) == 100_000_000_000_000);
}

/// Widening only grows the interval, and stops exactly when `max_time`
/// fits in `SAMPLE_CAP` intervals (or stood there already).
proof fn lemma_widen_every(max_time: int, every: int)
    requires
        1 <= every,
        0 <= max_time,
    ensures
        every <= widen_every(max_time, every),
        max_time <= 10000 * widen_every(max_time, every),
    decreases max_time - every,
{
    if max_time > 10000 * every {
        lemma_widen_every(max_time, 10 * every);
    }
}

/// The tenth power of an integer exponent, by repeated squaring.
fn pow_tenth(e: i64) -> (r: i64)
    requires
        -5 <= e <= 9,
    ensures
        r == tenth_power(e as int),
        0 <= r <= 3_486_784_401,
        e != 0 ==> 1 <= r,
        e == 0 ==> r == 0,
{
    proof {
        assert(0 <= (e as int) * (e as int) <= 81) by (nonlinear_arith)
            requires
                -5 <= e as int <= 9,
        {
        }
        if e != 0 {
            assert(1 <= (e as int) * (e as int)) by (nonlinear_arith)
                requires
                    e as int <= -1 || 1 <= e as int,
            {
            }
        }
    }
    let e2 = e * e;
    proof {
        assert(0 <= (e2 as int) * (e2 as int) <= 6561) by (nonlinear_arith)
            requires
                0 <= e2 as int <= 81,
        {
        }
        assert(e2 as int >= 1 ==> (e2 as int) * (e2 as int) >= 1) by (nonlinear_arith);
    }
    let e4 = e2 * e2;
    proof {
        assert(0 <= (e4 as int) * (e4 as int) <= 43_046_721) by (nonlinear_arith)
            requires
                0 <= e4 as int <= 6561,
        {
        }
        assert(e4 as int >= 1 ==> (e4 as int) * (e4 as int) >= 1) by (nonlinear_arith);
    }
    let e8 = e4 * e4;
    proof {
        assert(0 <= (e8 as int) * (e2 as int) <= 3_486_784_401) by (nonlinear_arith)
            requires
                0 <= e8 as int <= 43_046_721,
                0 <= e2 as int <= 81,
        {
        }
        assert(e8 as int >= 1 && e2 as int >= 1 ==> (e8 as int) * (e2 as int) >= 1)
            by (nonlinear_arith);
        assert(e as int == 0 ==> tenth_power(e as int) == 0);
    }
    e8 * e2
}

/// Derives the step size and sampling interval from the parameters and the
/// initial state, rejecting configurations the loop could not run on.
/// Relies on parameters already validated by `Params::check`.
pub fn derive_config(p: &Params, x: &State, max_time: i64) -> (r: Result<SimConfig, SimError>)
    requires
        p.valid(),
        x.in_window(),
        0 <= max_time <= TIME_LIMIT,
    ensures
        r is Ok <==> !degenerate_m(p@, x@),
        r is Err ==> r == Err::<SimConfig, SimError>(SimError::DegenerateConfiguration),
        r matches Ok(cfg) ==> cfg.step as int == step_of(p@, x@) && cfg.every as int == every_of(
            p@,
            x@,
            max_time as int,
        ) && cfg.max_time == max_time && cfg.wf(),
{
    let bg = p.beta + p.gamma;
    proof {
        lemma_scaled_mul_bound(bg as int, x.s as int, 2 * PARAM_LIMIT as int, STATE_LIMIT as int);
    }
    let q = mul_fixed(bg, x.s);
    if q < 1 {
        return Err(SimError::DegenerateConfiguration);
    }
    proof {
        lemma_scaled_mul_bound(CENTI as int, q as int, CENTI as int, 20_000_000_000_000);
    }
    let step = mul_fixed(CENTI, q);
    if step < 1 || step > STEP_LIMIT {
        return Err(SimError::DegenerateConfiguration);
    }
    let mut acc = q;
    let mut n: i64 = 0;
    proof {
        assert(q as int * pow10(0) == q as int);
    }
    while acc * 10 <= LOG_CAP
        invariant
            1 <= q <= 20_000_000_000_000,
            1 <= acc <= LOG_CAP,
            0 <= n <= 14,
            acc as int == q as int * pow10(n as nat),
            decades_below_cap(q as int) == n + decades_below_cap(acc as int),
        decreases LOG_CAP - acc,
    {
        proof {
            if n == 14 {
                lemma_pow10_14();
                assert(q as int * pow10(14) >= pow10(14)) by (nonlinear_arith)
                    requires
                        1 <= q as int,
                        pow10(14) >= 1,
                {
                }
                assert(false);
            }
            assert(q as int * pow10((n + 1) as nat) == 10 * (q as int * pow10(n as nat)))
                by (nonlinear_arith)
                requires
                    pow10((n + 1) as nat) == 10 * pow10(n as nat),
            {
            }
        }
        acc = acc * 10;
        n = n + 1;
    }
    proof {
        assert(decades_below_cap(acc as int) == 0);
        assert(decades_below_cap(q as int) == n);
    }
    let e = n - 5;
    if e == 0 {
        return Err(SimError::DegenerateConfiguration);
    }
    let base = pow_tenth(e);
    let mut every = base * SCALE;
    proof {
        lemma_widen_every(max_time as int, every as int);
    }
    while (max_time as i128) > 10_000i128 * (every as i128)
        invariant
            1 <= every,
            0 <= max_time <= TIME_LIMIT,
            widen_every(max_time as int, base_every_of(q_of(p@, x@))) == widen_every(
                max_time as int,
                every as int,
            ),
        decreases TIME_LIMIT - every,
    {
        proof {
            lemma_widen_every(max_time as int, 10 * every as int);
        }
        every = every * 10;
    }
    proof {
        assert(widen_every(max_time as int, every as int) == every as int);
        lemma_widen_every(max_time as int, base_every_of(q_of(p@, x@)));
    }
    Ok(SimConfig { step, every, max_time })
}

/// One component of a shifted stage state: `x + (h * k) / 2` for the half
/// shifts, `x + h * k` for the whole one, clamped.
fn shift_component(x: i64, h: i64, k: i64, halve: bool) -> (r: i64)
    requires
        -STATE_LIMIT <= x <= STATE_LIMIT,
        0 <= h <= STEP_LIMIT,
        -DERIV_LIMIT <= k <= DERIV_LIMIT,
    ensures
        halve ==> r == clamped(x + tdiv(scaled_mul(h as int, k as int), 2)),
        !halve ==> r == clamped(x + scaled_mul(h as int, k as int)),
{
    proof {
        lemma_scaled_mul_bound(h as int, k as int, STEP_LIMIT as int, DERIV_LIMIT as int);
        lemma_tdiv_bound(scaled_mul(h as int, k as int), 2, DERIV_LIMIT as int);
    }
    let shift = mul_fixed(h, k);
    if halve {
        clamp_window(x + div_trunc(shift, 2))
    } else {
        clamp_window(x + shift)
    }
}

/// An intermediate stage state, all three components shifted alike.
fn shift_state(x: &State, h: i64, k: &Deriv, halve: bool) -> (t: State)
    requires
        x.in_window(),
        0 <= h <= STEP_LIMIT,
        k@.bounded(),
    ensures
        halve ==> t@ == half_shift_m(x@, h as int, k@),
        !halve ==> t@ == full_shift_m(x@, h as int, k@),
        t.in_window(),
{
    State {
        s: shift_component(x.s, h, k.ds, halve),
        i: shift_component(x.i, h, k.di, halve),
        r: shift_component(x.r, h, k.dr, halve),
    }
}

/// One component of the final combination: `x + h * stage_mix(..)`, clamped.
fn combine_component(x: i64, h: i64, k1: i64, k2: i64, k3: i64, k4: i64) -> (r: i64)
    requires
        -STATE_LIMIT <= x <= STATE_LIMIT,
        0 <= h <= STEP_LIMIT,
        -DERIV_LIMIT <= k1 <= DERIV_LIMIT,
        -DERIV_LIMIT <= k2 <= DERIV_LIMIT,
        -DERIV_LIMIT <= k3 <= DERIV_LIMIT,
        -DERIV_LIMIT <= k4 <= DERIV_LIMIT,
    ensures
        r == clamped(x + scaled_mul(h as int, stage_mix(k1 as int, k2 as int, k3 as int, k4 as int))),
{
    proof {
        lemma_tdiv_bound(k1 as int, 6, DERIV_LIMIT as int);
        lemma_tdiv_bound(k2 as int, 3, DERIV_LIMIT as int);
        lemma_tdiv_bound(k3 as int, 3, DERIV_LIMIT as int);
        lemma_tdiv_bound(k4 as int, 4, DERIV_LIMIT as int);
        lemma_scaled_mul_bound(
            h as int,
            stage_mix(k1 as int, k2 as int, k3 as int, k4 as int),
            STEP_LIMIT as int,
            4 * DERIV_LIMIT as int,
        );
    }
    let mix = div_trunc(k1, 6) + div_trunc(k2, 3) + div_trunc(k3, 3) + div_trunc(k4, 4);
    clamp_window(x + mul_fixed(h, mix))
}

/// One fixed-step Runge-Kutta advance of the whole state. The three
/// components are produced together: no partial update is observable.
pub fn rk4_step(p: &Params, x: &State, h: i64) -> (next: State)
    requires
        p.bounded(),
        x.in_window(),
        0 <= h <= STEP_LIMIT,
    ensures
        next@ == rk4_next_m(p@, x@, h as int),
        next.in_window(),
{
    proof {
        reveal(rk4_next_m);
    }
    let k1 = differentiate(p, x);
    let t1 = shift_state(x, h, &k1, true);
    let k2 = differentiate(p, &t1);
    let t2 = shift_state(x, h, &k2, true);
    let k3 = differentiate(p, &t2);
    let t3 = shift_state(x, h, &k3, false);
    let k4 = differentiate(p, &t3);
    State {
        s: combine_component(x.s, h, k1.ds, k2.ds, k3.ds, k4.ds),
        i: combine_component(x.i, h, k1.di, k2.di, k3.di, k4.di),
        r: combine_component(x.r, h, k1.dr, k2.dr, k3.dr, k4.dr),
    }
}

/// With `beta == 0` there is no transmission: across a whole Runge-Kutta
/// step the infectious compartment never grows — it can only decay through
/// recovery — and it never undershoots zero. Stated for non-negative `i`
/// up to 1.0, recovery rates up to 2.0, and steps up to 0.125, which keeps
/// every intermediate stage non-negative.
pub proof fn lemma_zero_beta_step_no_growth(p: ParamsM, x: StateM, h: int)
    requires
        p.beta == 0,
        0 <= p.gamma <= 2 * SCALE as int,
        0 <= x.i <= SCALE as int,
        0 <= h,
        8 * h <= SCALE as int,
    ensures
        0 <= rk4_next_m(p, x, h).i <= x.i,
{
    reveal(rk4_next_m);
    let k1 = deriv_m(p, x);
    let t1 = half_shift_m(x, h, k1);
    let k2 = deriv_m(p, t1);
    let t2 = half_shift_m(x, h, k2);
    let k3 = deriv_m(p, t2);
    let t3 = full_shift_m(x, h, k3);
    let k4 = deriv_m(p, t3);
    lemma_scaled_mul_zero(p.beta, scaled_mul(x.s, x.i));
    lemma_scaled_mul_nonneg(p.gamma, x.i);
    lemma_scaled_mul_double(p.gamma, x.i, x.i);
    assert(-2 * x.i <= k1.di <= 0);
    lemma_scaled_mul_nonpos(h, k1.di);
    lemma_scaled_mul_half_contract(h, k1.di, x.i);
    lemma_tdiv_nonpos(scaled_mul(h, k1.di), 2);
    lemma_tdiv_bound(scaled_mul(h, k1.di), 2, x.i);
    assert(0 <= t1.i <= x.i);
    lemma_scaled_mul_zero(p.beta, scaled_mul(t1.s, t1.i));
    lemma_scaled_mul_nonneg(p.gamma, t1.i);
    lemma_scaled_mul_double(p.gamma, t1.i, x.i);
    assert(-2 * x.i <= k2.di <= 0);
    lemma_scaled_mul_nonpos(h, k2.di);
    lemma_scaled_mul_half_contract(h, k2.di, x.i);
    lemma_tdiv_nonpos(scaled_mul(h, k2.di), 2);
    lemma_tdiv_bound(scaled_mul(h, k2.di), 2, x.i);
    assert(0 <= t2.i <= x.i);
    lemma_scaled_mul_zero(p.beta, scaled_mul(t2.s, t2.i));
    lemma_scaled_mul_nonneg(p.gamma, t2.i);
    lemma_scaled_mul_double(p.gamma, t2.i, x.i);
    assert(-2 * x.i <= k3.di <= 0);
    lemma_scaled_mul_nonpos(h, k3.di);
    lemma_scaled_mul_half_contract(h, k3.di, x.i);
    assert(0 <= t3.i <= x.i);
    lemma_scaled_mul_zero(p.beta, scaled_mul(t3.s, t3.i));
    lemma_scaled_mul_nonneg(p.gamma, t3.i);
    assert(k4.di <= 0);
    lemma_scaled_mul_double(p.gamma, t3.i, x.i);
    assert(-2 * x.i <= k4.di <= 0);
    lemma_tdiv_nonpos(k1.di, 6);
    lemma_tdiv_nonpos(k2.di, 3);
    lemma_tdiv_nonpos(k3.di, 3);
    lemma_tdiv_nonpos(k4.di, 4);
    lemma_tdiv_bound(k1.di, 6, 2 * x.i);
    lemma_tdiv_bound(k2.di, 3, 2 * x.i);
    lemma_tdiv_bound(k3.di, 3, 2 * x.i);
    lemma_tdiv_bound(k4.di, 4, 2 * x.i);
    let wi = stage_mix(k1.di, k2.di, k3.di, k4.di);
    assert(-8 * x.i <= wi <= 0);
    lemma_scaled_mul_nonpos(h, wi);
    assert(-((SCALE as int) * x.i) <= h * wi <= 0) by (nonlinear_arith)
        requires
            0 <= h,
            8 * h <= SCALE as int,
            -8 * x.i <= wi <= 0,
            0 <= x.i,
    {
    }
    assert(0 <= (SCALE as int) * x.i) by (nonlinear_arith)
        requires
            0 <= x.i,
    {
    }
    lemma_tdiv_bound(h * wi, SCALE as int, (SCALE as int) * x.i);
    vstd::arithmetic::div_mod::lemma_div_multiples_vanish(x.i, SCALE as int);
    assert(-x.i <= scaled_mul(h, wi) <= 0);
    assert(rk4_next_m(p, x, h).i == clamped(x.i + scaled_mul(h, wi)));
}

/// With `gamma == 0` nobody recovers: a Runge-Kutta step leaves the
/// recovered compartment exactly unchanged, whatever the other parameters
/// and compartments hold.
pub proof fn lemma_zero_gamma_freezes_r(p: ParamsM, x: StateM, h: int)
    requires
        p.gamma == 0,
        -(STATE_LIMIT as int) <= x.r <= STATE_LIMIT as int,
    ensures
        rk4_next_m(p, x, h).r == x.r,
{
    reveal(rk4_next_m);
    let k1 = deriv_m(p, x);
    let t1 = half_shift_m(x, h, k1);
    let k2 = deriv_m(p, t1);
    let t2 = half_shift_m(x, h, k2);
    let k3 = deriv_m(p, t2);
    let t3 = full_shift_m(x, h, k3);
    let k4 = deriv_m(p, t3);
    lemma_scaled_mul_zero(p.gamma, x.i);
    lemma_scaled_mul_zero(p.gamma, t1.i);
    lemma_scaled_mul_zero(p.gamma, t2.i);
    lemma_scaled_mul_zero(p.gamma, t3.i);
    assert(k1.dr == 0 && k2.dr == 0 && k3.dr == 0 && k4.dr == 0);
    lemma_tdiv_zero(6);
    lemma_tdiv_zero(3);
    lemma_tdiv_zero(4);
    assert(stage_mix(k1.dr, k2.dr, k3.dr, k4.dr) == 0);
    lemma_scaled_mul_zero(h, 0);
    assert(rk4_next_m(p, x, h).r == clamped(x.r + 0));
}

/// With no susceptibles there are no infections: a Runge-Kutta step never
/// moves the susceptible compartment away from zero; the epidemic can only
/// drain the infectious compartment through recovery.
pub proof fn lemma_empty_susceptibles_stay(p: ParamsM, x: StateM, h: int)
    requires
        x.s == 0,
    ensures
        rk4_next_m(p, x, h).s == 0,
{
    reveal(rk4_next_m);
    let k1 = deriv_m(p, x);
    let t1 = half_shift_m(x, h, k1);
    let k2 = deriv_m(p, t1);
    let t2 = half_shift_m(x, h, k2);
    let k3 = deriv_m(p, t2);
    let t3 = full_shift_m(x, h, k3);
    let k4 = deriv_m(p, t3);
    lemma_scaled_mul_zero(x.s, x.i);
    lemma_scaled_mul_zero(p.beta, 0);
    assert(k1.ds == 0);
    lemma_scaled_mul_zero(h, 0);
    lemma_tdiv_zero(2);
    assert(t1.s == clamped(0 + tdiv(scaled_mul(h, 0), 2)));
    assert(t1.s == 0);
    lemma_scaled_mul_zero(t1.s, t1.i);
    assert(k2.ds == 0);
    assert(t2.s == 0);
    lemma_scaled_mul_zero(t2.s, t2.i);
    assert(k3.ds == 0);
    assert(t3.s == clamped(0 + scaled_mul(h, 0)));
    assert(t3.s == 0);
    lemma_scaled_mul_zero(t3.s, t3.i);
    assert(k4.ds == 0);
    lemma_tdiv_zero(6);
    lemma_tdiv_zero(3);
    lemma_tdiv_zero(4);
    assert(stage_mix(k1.ds, k2.ds, k3.ds, k4.ds) == 0);
    assert(rk4_next_m(p, x, h).s == clamped(0 + scaled_mul(h, 0)));
}

/// Approximate conservation of mass. The derivative moves mass between
/// compartments exactly, so the only leaks in a whole Runge-Kutta step are
/// the truncations of the stage weights and of the final product: from a
/// state summing to exactly 1 (`SCALE` units), a step in the default
/// parameter regime (rates summing to at most 2, step size at most 0.02)
/// changes the sum by at most 3 units of 1e-9 — far inside the 1e-6 drift
/// the model tolerates.
#[verifier::rlimit(80)]
pub proof fn lemma_step_conserves(p: ParamsM, x: StateM, h: int)
    requires
        0 <= p.beta,
        0 <= p.gamma,
        p.beta + p.gamma <= 2 * SCALE as int,
        0 <= x.s <= SCALE as int,
        0 <= x.i <= SCALE as int,
        0 <= x.r <= SCALE as int,
        x.s + x.i + x.r == SCALE as int,
        1 <= h <= 20_000_000,
    ensures
        ({
            let nx = rk4_next_m(p, x, h);
            -3 <= nx.s + nx.i + nx.r - SCALE as int <= 3
        }),
{
    reveal(rk4_next_m);
    let k1 = deriv_m(p, x);
    let t1 = half_shift_m(x, h, k1);
    let k2 = deriv_m(p, t1);
    let t2 = half_shift_m(x, h, k2);
    let k3 = deriv_m(p, t2);
    let t3 = full_shift_m(x, h, k3);
    let k4 = deriv_m(p, t3);
    let mp = 2_000_000_000int;
    let mx = STATE_LIMIT as int;
    lemma_deriv_bound(p, x, mp, mx);
    lemma_deriv_bound(p, t1, mp, mx);
    lemma_deriv_bound(p, t2, mp, mx);
    lemma_deriv_bound(p, t3, mp, mx);
    let kb = 220_000_000_000int;
    assert(-kb <= k1.ds <= kb && -kb <= k1.di <= kb && -kb <= k1.dr <= kb);
    assert(-kb <= k2.ds <= kb && -kb <= k2.di <= kb && -kb <= k2.dr <= kb);
    assert(-kb <= k3.ds <= kb && -kb <= k3.di <= kb && -kb <= k3.dr <= kb);
    assert(-kb <= k4.ds <= kb && -kb <= k4.di <= kb && -kb <= k4.dr <= kb);
    let ws = stage_mix(k1.ds, k2.ds, k3.ds, k4.ds);
    let wi = stage_mix(k1.di, k2.di, k3.di, k4.di);
    let wr = stage_mix(k1.dr, k2.dr, k3.dr, k4.dr);
    lemma_tdiv_bound(k1.ds, 6, kb);
    lemma_tdiv_bound(k2.ds, 3, kb);
    lemma_tdiv_bound(k3.ds, 3, kb);
    lemma_tdiv_bound(k4.ds, 4, kb);
    lemma_tdiv_bound(k1.di, 6, kb);
    lemma_tdiv_bound(k2.di, 3, kb);
    lemma_tdiv_bound(k3.di, 3, kb);
    lemma_tdiv_bound(k4.di, 4, kb);
    lemma_tdiv_bound(k1.dr, 6, kb);
    lemma_tdiv_bound(k2.dr, 3, kb);
    lemma_tdiv_bound(k3.dr, 3, kb);
    lemma_tdiv_bound(k4.dr, 4, kb);
    let wb = 238_333_333_332int;
    assert(-wb <= ws <= wb && -wb <= wi <= wb && -wb <= wr <= wb);
    lemma_scaled_mul_bound(h, ws, 20_000_000, wb);
    lemma_scaled_mul_bound(h, wi, 20_000_000, wb);
    lemma_scaled_mul_bound(h, wr, 20_000_000, wb);
    let nx = rk4_next_m(p, x, h);
    assert(nx.s == x.s + scaled_mul(h, ws));
    assert(nx.i == x.i + scaled_mul(h, wi));
    assert(nx.r == x.r + scaled_mul(h, wr));
    lemma_tdiv_sum3_near(k1.ds, k1.di, k1.dr, 6, 0);
    lemma_tdiv_sum3_near(k2.ds, k2.di, k2.dr, 3, 0);
    lemma_tdiv_sum3_near(k3.ds, k3.di, k3.dr, 3, 0);
    lemma_tdiv_sum3_near(k4.ds, k4.di, k4.dr, 4, 0);
    let w = ws + wi + wr;
    assert(-12 <= w <= 12);
    assert(h * ws + h * wi + h * wr == h * w) by (nonlinear_arith)
        requires
            w == ws + wi + wr,
    {
    }
    assert(-240_000_000 <= h * w <= 240_000_000) by (nonlinear_arith)
        requires
            -12 <= w <= 12,
            1 <= h <= 20_000_000,
    {
    }
    lemma_tdiv_sum3_near(h * ws, h * wi, h * wr, SCALE as int, 240_000_000);
    assert(scaled_mul(h, ws) + scaled_mul(h, wi) + scaled_mul(h, wr) == tdiv(
        h * ws,
        SCALE as int,
    ) + tdiv(h * wi, SCALE as int) + tdiv(h * wr, SCALE as int));
}

/// One emitted row: the simulated time and the state just after the step
/// that crossed a sampling boundary.
#[derive(Clone, Copy, Debug, PartialEq, Eq, Structural)]
pub struct Sample {
    pub t: i64,
    pub s: i64,
    pub i: i64,
    pub r: i64,
}

/// Mathematical image of `Sample`.
pub struct SampleM {
    pub t: int,
    pub s: int,
    pub i: int,
    pub r: int,
}

impl View for Sample {
    type V = SampleM;

    open spec fn view(&self) -> SampleM {
        SampleM { t: self.t as int, s: self.s as int, i: self.i as int, r: self.r as int }
    }
}

/// The emitted rows, as mathematical values.
pub open spec fn views_of(rows: Seq<Sample>) -> Seq<SampleM> {
    rows.map_values(|smp: Sample| smp@)
}

/// Whether the step that moved time to `t` crossed an `every`-sized
/// boundary: `floor(t / every) > floor((t - step) / every)`.
pub open spec fn crosses(t: int, step: int, every: int) -> bool {
    tdiv(t, every) > tdiv(t - step, every)
}

/// Simulated time still to cover.
pub open spec fn time_left(max_time: int, t: int) -> nat {
    if t >= max_time {
        0
    } else {
        (max_time - t) as nat
    }
}

/// The rows a run emits from state `x` at time `t` onward: advance, step
/// the clock, and record whenever a sampling boundary was crossed.
/// Opaque: proofs unfold it step by step where they need it.
#[verifier::opaque]
pub open spec fn sim_from(
    p: ParamsM,
    x: StateM,
    t: int,
    step: int,
    every: int,
    max_time: int,
) -> Seq<SampleM>
    decreases time_left(max_time, t)
        when 1 <= step
{
    if t >= max_time {
        Seq::empty()
    } else {
        let x2 = rk4_next_m(p, x, step);
        let t2 = t + step;
        let rest = sim_from(p, x2, t2, step, every, max_time);
        if crosses(t2, step, every) {
            seq![SampleM { t: t2, s: x2.s, i: x2.i, r: x2.r }] + rest
        } else {
            rest
        }
    }
}

/// With `gamma == 0` the recovered compartment never changes over a whole
/// run: every emitted row carries exactly the initial `r`.
pub proof fn lemma_sim_freezes_r(
    p: ParamsM,
    x: StateM,
    t: int,
    step: int,
    every: int,
    max_time: int,
)
    requires
        p.gamma == 0,
        -(STATE_LIMIT as int) <= x.r <= STATE_LIMIT as int,
        1 <= step,
    ensures
        forall|j: int|
            0 <= j < sim_from(p, x, t, step, every, max_time).len() ==> #[trigger] sim_from(
                p,
                x,
                t,
                step,
                every,
                max_time,
            )[j].r == x.r,
    decreases time_left(max_time, t),
{
    reveal_with_fuel(sim_from, 1);
    if t < max_time {
        let x2 = rk4_next_m(p, x, step);
        lemma_zero_gamma_freezes_r(p, x, step);
        lemma_sim_freezes_r(p, x2, t + step, step, every, max_time);
        let rows = sim_from(p, x, t, step, every, max_time);
        let rest = sim_from(p, x2, t + step, step, every, max_time);
        if crosses(t + step, step, every) {
            let smp = SampleM { t: t + step, s: x2.s, i: x2.i, r: x2.r };
            assert(rows == seq![smp] + rest);
            assert forall|j: int| 0 <= j < rows.len() implies rows[j].r == x.r by {
                if j == 0 {
                    assert(rows[0] == smp);
                } else {
                    assert(rows[j] == rest[j - 1]);
                    assert(rest[j - 1].r == x2.r);
                }
            }
        } else {
            assert(rows == rest);
            assert forall|j: int| 0 <= j < rows.len() implies rows[j].r == x.r by {
                assert(rest[j].r == x2.r);
            }
        }
    }
}

/// With no susceptibles at the start there are never any infections over a
/// whole run: every emitted row carries `s == 0`.
pub proof fn lemma_sim_keeps_s_zero(
    p: ParamsM,
    x: StateM,
    t: int,
    step: int,
    every: int,
    max_time: int,
)
    requires
        x.s == 0,
        1 <= step,
    ensures
        forall|j: int|
            0 <= j < sim_from(p, x, t, step, every, max_time).len() ==> #[trigger] sim_from(
                p,
                x,
                t,
                step,
                every,
                max_time,
            )[j].s == 0,
    decreases time_left(max_time, t),
{
    reveal_with_fuel(sim_from, 1);
    if t < max_time {
        let x2 = rk4_next_m(p, x, step);
        lemma_empty_susceptibles_stay(p, x, step);
        lemma_sim_keeps_s_zero(p, x2, t + step, step, every, max_time);
        let rows = sim_from(p, x, t, step, every, max_time);
        let rest = sim_from(p, x2, t + step, step, every, max_time);
        if crosses(t + step, step, every) {
            let smp = SampleM { t: t + step, s: x2.s, i: x2.i, r: x2.r };
            assert(rows == seq![smp] + rest);
            assert forall|j: int| 0 <= j < rows.len() implies rows[j].s == 0 by {
                if j == 0 {
                    assert(rows[0] == smp);
                } else {
                    assert(rows[j] == rest[j - 1]);
                    assert(rest[j - 1].s == 0);
                }
            }
        } else {
            assert(rows == rest);
            assert forall|j: int| 0 <= j < rows.len() implies rows[j].s == 0 by {
                assert(rest[j].s == 0);
            }
        }
    }
}

/// With `beta == 0` the infectious compartment decays toward zero over a
/// whole run: every emitted row carries an `i` between zero and the
/// initial value, and later rows never carry more than earlier ones.
pub proof fn lemma_sim_decays_without_transmission(
    p: ParamsM,
    x: StateM,
    t: int,
    step: int,
    every: int,
    max_time: int,
)
    requires
        p.beta == 0,
        0 <= p.gamma <= 2 * SCALE as int,
        0 <= x.i <= SCALE as int,
        1 <= step,
        8 * step <= SCALE as int,
    ensures
        forall|j: int|
            0 <= j < sim_from(p, x, t, step, every, max_time).len() ==> 0 <= #[trigger] sim_from(
                p,
                x,
                t,
                step,
                every,
                max_time,
            )[j].i <= x.i,
        forall|a: int, b: int|
            0 <= a <= b < sim_from(p, x, t, step, every, max_time).len() ==> #[trigger] sim_from(
                p,
                x,
                t,
                step,
                every,
                max_time,
            )[b].i <= #[trigger] sim_from(p, x, t, step, every, max_time)[a].i,
    decreases time_left(max_time, t),
{
    reveal_with_fuel(sim_from, 1);
    if t < max_time {
        let x2 = rk4_next_m(p, x, step);
        lemma_zero_beta_step_no_growth(p, x, step);
        lemma_sim_decays_without_transmission(p, x2, t + step, step, every, max_time);
        let rows = sim_from(p, x, t, step, every, max_time);
        let rest = sim_from(p, x2, t + step, step, every, max_time);
        if crosses(t + step, step, every) {
            let smp = SampleM { t: t + step, s: x2.s, i: x2.i, r: x2.r };
            assert(rows == seq![smp] + rest);
            assert forall|j: int| 0 <= j < rows.len() implies 0 <= #[trigger] rows[j].i
                && rows[j].i <= x.i by {
                if j == 0 {
                    assert(rows[0] == smp);
                } else {
                    assert(rows[j] == rest[j - 1]);
                    assert(0 <= rest[j - 1].i <= x2.i);
                }
            }
            assert forall|a: int, b: int| 0 <= a <= b < rows.len() implies #[trigger] rows[b].i
                <= #[trigger] rows[a].i by {
                if a == 0 {
                    assert(rows[0] == smp);
                    if b > 0 {
                        assert(rows[b] == rest[b - 1]);
                        assert(0 <= rest[b - 1].i <= x2.i);
                    }
                } else {
                    assert(rows[a] == rest[a - 1]);
                    assert(rows[b] == rest[b - 1]);
                    assert(rest[b - 1].i <= rest[a - 1].i);
                }
            }
        } else {
            assert(rows == rest);
            assert forall|j: int| 0 <= j < rows.len() implies 0 <= #[trigger] rows[j].i
                && rows[j].i <= x.i by {
                assert(0 <= rest[j].i <= x2.i);
            }
            assert forall|a: int, b: int| 0 <= a <= b < rows.len() implies #[trigger] rows[b].i
                <= #[trigger] rows[a].i by {
                assert(rest[b].i <= rest[a].i);
            }
        }
    }
}

/// The simulation loop. Starting at time zero it repeatedly applies the
/// Runge-Kutta step and records a row whenever the running time crosses an
/// `every`-sized boundary. The rows are exactly `sim_from` of the inputs
/// (so two runs from equal inputs emit identical rows), their times are
/// strictly increasing, and there are never more than `SAMPLE_CAP` of them.
#[verifier::rlimit(80)]
pub fn run(p: &Params, x0: &State, cfg: &SimConfig) -> (rows: Vec<Sample>)
    requires
        p.bounded(),
        x0.in_window(),
        cfg.wf(),
    ensures
        views_of(rows@) == sim_from(
            p@,
            x0@,
            0,
            cfg.step as int,
            cfg.every as int,
            cfg.max_time as int,
        ),
        forall|a: int, b: int| 0 <= a < b < rows@.len() ==> rows@[a].t < rows@[b].t,
        rows@.len() <= SAMPLE_CAP,
{
    let mut rows: Vec<Sample> = Vec::new();
    let mut x: State = *x0;
    let mut t: i64 = 0;
    proof {
        lemma_tdiv_zero(cfg.every as int);
        assert(views_of(rows@) =~= Seq::<SampleM>::empty());
    }
    while t < cfg.max_time
        invariant
            p.bounded(),
            x.in_window(),
            cfg.wf(),
            0 <= t,
            t < cfg.max_time + cfg.step,
            sim_from(p@, x0@, 0, cfg.step as int, cfg.every as int, cfg.max_time as int)
                == views_of(rows@) + sim_from(
                p@,
                x@,
                t as int,
                cfg.step as int,
                cfg.every as int,
                cfg.max_time as int,
            ),
            forall|k: int| 0 <= k < rows@.len() ==> #[trigger] rows@[k].t <= t,
            forall|a: int, b: int| 0 <= a < b < rows@.len() ==> rows@[a].t < rows@[b].t,
            rows@.len() <= tdiv(t as int, cfg.every as int),
        decreases time_left(cfg.max_time as int, t as int),
    {
        let ghost x_pre = x@;
        let ghost rows_pre = rows@;
        let ghost tail_pre = sim_from(
            p@,
            x_pre,
            t as int,
            cfg.step as int,
            cfg.every as int,
            cfg.max_time as int,
        );
        x = rk4_step(p, &x, cfg.step);
        let t_prev = t;
        t = t + cfg.step;
        let ghost tail_now = sim_from(
            p@,
            x@,
            t as int,
            cfg.step as int,
            cfg.every as int,
            cfg.max_time as int,
        );
        let c_new = div_trunc(t, cfg.every);
        let c_old = div_trunc(t_prev, cfg.every);
        if c_new > c_old {
            let row = Sample { t, s: x.s, i: x.i, r: x.r };
            proof {
                reveal_with_fuel(sim_from, 1);
                assert(tail_pre == seq![row@] + tail_now);
            }
            rows.push(row);
            proof {
                assert(views_of(rows@) =~= views_of(rows_pre) + seq![row@]);
                assert((views_of(rows_pre) + seq![row@]) + tail_now =~= views_of(rows_pre) + (
                seq![row@] + tail_now));
            }
        } else {
            proof {
                reveal_with_fuel(sim_from, 1);
                assert(tail_pre == tail_now);
                lemma_tdiv_ordered(t_prev as int, t as int, cfg.every as int);
            }
        }
    }
    proof {
        reveal_with_fuel(sim_from, 1);
        assert(sim_from(
            p@,
            x@,
            t as int,
            cfg.step as int,
            cfg.every as int,
            cfg.max_time as int,
        ) == Seq::<SampleM>::empty());
        assert(views_of(rows@) + Seq::<SampleM>::empty() =~= views_of(rows@));
        lemma_tdiv_below(t as int, cfg.every as int, SAMPLE_CAP as int + 1);
    }
    rows
}

/// The whole pipeline: validate the parameters, derive the configuration,
/// and run the simulation. The emitted rows are a function of the inputs
/// alone, so two calls with equal arguments return equal rows.
pub fn simulate(p: &Params, x0: &State, max_time: i64) -> (r: Result<Vec<Sample>, SimError>)
    requires
        p.bounded(),
        x0.in_window(),
        0 <= max_time <= TIME_LIMIT,
    ensures
        r is Err <==> p.beta < 0 || p.gamma < 0 || degenerate_m(p@, x0@),
        p.beta < 0 || p.gamma < 0 ==> r == Err::<Vec<Sample>, SimError>(
            SimError::InvalidParameters,
        ),
        p.beta >= 0 && p.gamma >= 0 && degenerate_m(p@, x0@) ==> r == Err::<Vec<Sample>, SimError>(
            SimError::DegenerateConfiguration,
        ),
        r matches Ok(rows) ==> views_of(rows@) == sim_from(
            p@,
            x0@,
            0,
            step_of(p@, x0@),
            every_of(p@, x0@, max_time as int),
            max_time as int,
        ),
        r matches Ok(rows) ==> (forall|a: int, b: int|
            0 <= a < b < rows@.len() ==> rows@[a].t < rows@[b].t),
        r matches Ok(rows) ==> rows@.len() <= SAMPLE_CAP,
{
    match p.check() {
        Ok(()) => {}
        Err(e) => {
            return Err(e);
        }
    }
    let cfg = match derive_config(p, x0, max_time) {
        Ok(c) => c,
        Err(e) => {
            return Err(e);
        }
    };
    Ok(run(p, x0, &cfg))
}

} // verus!
