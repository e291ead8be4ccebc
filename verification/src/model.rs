//! The SIR model: epidemic parameters, compartment state, and the
//! differential equations that drive them.

use vstd::prelude::*;
use crate::fixed::{
    lemma_scaled_mul_bound, lemma_scaled_mul_nonneg, lemma_scaled_mul_zero, mul_fixed,
    scaled_mul, SCALE, STATE_LIMIT,
};

verus! {

/// Largest magnitude accepted for a rate parameter (1000.0 in real terms).
pub const PARAM_LIMIT: i64 = 1_000_000_000_000;

/// Largest magnitude a derivative component can reach when the parameters
/// and the state are within their windows.
pub const DERIV_LIMIT: i64 = 200_000_000_000_000;

/// Why a simulation refuses to start.
#[derive(Clone, Copy, Debug, PartialEq, Eq, Structural)]
pub enum SimError {
    /// A rate parameter is negative.
    InvalidParameters,
    /// The derived step size or sampling interval is zero, negative, or
    /// outside the representable window.
    DegenerateConfiguration,
}

/// Epidemic rates: transmission (`beta`) and recovery (`gamma`), in
/// fixed-point units.
#[derive(Clone, Copy, Debug, PartialEq, Eq, Structural)]
pub struct Params {
    pub beta: i64,
    pub gamma: i64,
}

/// Compartment proportions (susceptible, infectious, recovered), in
/// fixed-point units.
#[derive(Clone, Copy, Debug, PartialEq, Eq, Structural)]
pub struct State {
    pub s: i64,
    pub i: i64,
    pub r: i64,
}

/// Instantaneous rates of change of the three compartments.
#[derive(Clone, Copy, Debug, PartialEq, Eq, Structural)]
pub struct Deriv {
    pub ds: i64,
    pub di: i64,
    pub dr: i64,
}

/// Mathematical image of `Params`.
pub struct ParamsM {
    pub beta: int,
    pub gamma: int,
}

/// Mathematical image of `State`.
pub struct StateM {
    pub s: int,
    pub i: int,
    pub r: int,
}

/// Mathematical image of `Deriv`.
pub struct DerivM {
    pub ds: int,
    pub di: int,
    pub dr: int,
}

impl View for Params {
    type V = ParamsM;

    open spec fn view(&self) -> ParamsM {
        ParamsM { beta: self.beta as int, gamma: self.gamma as int }
    }
}

impl View for State {
    type V = StateM;

    open spec fn view(&self) -> StateM {
        StateM { s: self.s as int, i: self.i as int, r: self.r as int }
    }
}

impl View for Deriv {
    type V = DerivM;

    open spec fn view(&self) -> DerivM {
        DerivM { ds: self.ds as int, di: self.di as int, dr: self.dr as int }
    }
}

impl Params {
    /// Both rates lie in the representable window (they may still be
    /// negative; `check` decides validity).
    pub open spec fn bounded(self) -> bool {
        &&& -PARAM_LIMIT <= self.beta <= PARAM_LIMIT
        &&& -PARAM_LIMIT <= self.gamma <= PARAM_LIMIT
    }

    /// Both rates are non-negative and in the window: a simulation may run.
    pub open spec fn valid(self) -> bool {
        &&& 0 <= self.beta <= PARAM_LIMIT
        &&& 0 <= self.gamma <= PARAM_LIMIT
    }

    /// Parameter validation: a negative rate is rejected before any
    /// integration step runs.
    pub fn check(&self) -> (r: Result<(), SimError>)
        ensures
            r is Ok <==> self.beta >= 0 && self.gamma >= 0,
            r is Err ==> r == Err::<(), SimError>(SimError::InvalidParameters),
    {
        if self.beta < 0 || self.gamma < 0 {
            Err(SimError::InvalidParameters)
        } else {
            Ok(())
        }
    }
}

impl State {
    /// Every compartment lies in the representable window.
    pub open spec fn in_window(self) -> bool {
        &&& -STATE_LIMIT <= self.s <= STATE_LIMIT
        &&& -STATE_LIMIT <= self.i <= STATE_LIMIT
        &&& -STATE_LIMIT <= self.r <= STATE_LIMIT
    }
}

impl StateM {
    /// The window, on the mathematical image.
    pub open spec fn in_window(self) -> bool {
        &&& -(STATE_LIMIT as int) <= self.s <= STATE_LIMIT as int
        &&& -(STATE_LIMIT as int) <= self.i <= STATE_LIMIT as int
        &&& -(STATE_LIMIT as int) <= self.r <= STATE_LIMIT as int
    }
}

impl DerivM {
    /// Every component lies within the derivative bound.
    pub open spec fn bounded(self) -> bool {
        &&& -(DERIV_LIMIT as int) <= self.ds <= DERIV_LIMIT as int
        &&& -(DERIV_LIMIT as int) <= self.di <= DERIV_LIMIT as int
        &&& -(DERIV_LIMIT as int) <= self.dr <= DERIV_LIMIT as int
    }
}

/// The flow out of the susceptible compartment: `beta * s * i`.
pub open spec fn infection_flow(p: ParamsM, x: StateM) -> int {
    scaled_mul(p.beta, scaled_mul(x.s, x.i))
}

/// The flow out of the infectious compartment: `gamma * i`.
pub open spec fn recovery_flow(p: ParamsM, x: StateM) -> int {
    scaled_mul(p.gamma, x.i)
}

/// The SIR differential equations. The two flows are each computed once and
/// reused, so the three components sum to zero exactly.
pub open spec fn deriv_m(p: ParamsM, x: StateM) -> DerivM {
    DerivM {
        ds: -infection_flow(p, x),
        di: infection_flow(p, x) - recovery_flow(p, x),
        dr: recovery_flow(p, x),
    }
}

/// The derivative moves mass between compartments and never creates or
/// destroys any: its components sum to zero, at every state, clamped or not.
pub proof fn lemma_deriv_conserves(p: ParamsM, x: StateM)
    ensures
        deriv_m(p, x).ds + deriv_m(p, x).di + deriv_m(p, x).dr == 0,
{
}

/// Magnitude bounds for the derivative, from magnitude bounds on the
/// parameters and the state.
pub proof fn lemma_deriv_bound(p: ParamsM, x: StateM, mp: int, mx: int)
    requires
        0 <= mp,
        0 <= mx,
        -mp <= p.beta <= mp,
        -mp <= p.gamma <= mp,
        -mx <= x.s <= mx,
        -mx <= x.i <= mx,
        -mx <= x.r <= mx,
    ensures
        ({
            let f = (mp * ((mx * mx) / (SCALE as int))) / (SCALE as int);
            let g = (mp * mx) / (SCALE as int);
            &&& -f <= deriv_m(p, x).ds <= f
            &&& -(f + g) <= deriv_m(p, x).di <= f + g
            &&& -g <= deriv_m(p, x).dr <= g
        }),
{
    lemma_scaled_mul_bound(x.s, x.i, mx, mx);
    assert(0 <= mx * mx) by (nonlinear_arith)
        requires
            0 <= mx,
    {
    }
    vstd::arithmetic::div_mod::lemma_div_pos_is_pos(mx * mx, SCALE as int);
    lemma_scaled_mul_bound(p.beta, scaled_mul(x.s, x.i), mp, (mx * mx) / (SCALE as int));
    lemma_scaled_mul_bound(p.gamma, x.i, mp, mx);
}

/// `differentiate` evaluates the SIR equations at a state. Beyond the exact
/// value, the contract carries the conservation of mass, the behaviour of
/// the degenerate rates (`beta == 0` cannot infect, `gamma == 0` cannot
/// recover), and the empty-susceptible case.
pub fn differentiate(p: &Params, x: &State) -> (d: Deriv)
    requires
        p.bounded(),
        x.in_window(),
    ensures
        d@ == deriv_m(p@, x@),
        d.ds + d.di + d.dr == 0,
        d@.bounded(),
        p.beta == 0 && p.gamma >= 0 && x.i >= 0 ==> d.di <= 0,
        p.gamma == 0 ==> d.dr == 0,
        x.s == 0 ==> d.ds == 0,
{
    proof {
        lemma_deriv_bound(p@, x@, PARAM_LIMIT as int, STATE_LIMIT as int);
        lemma_scaled_mul_bound(x.s as int, x.i as int, STATE_LIMIT as int, STATE_LIMIT as int);
        if p.beta == 0 {
            lemma_scaled_mul_zero(p.beta as int, scaled_mul(x.s as int, x.i as int));
            if p.gamma >= 0 && x.i >= 0 {
                lemma_scaled_mul_nonneg(p.gamma as int, x.i as int);
            }
        }
        if p.gamma == 0 {
            lemma_scaled_mul_zero(p.gamma as int, x.i as int);
        }
        if x.s == 0 {
            lemma_scaled_mul_zero(x.s as int, x.i as int);
            lemma_scaled_mul_zero(p.beta as int, 0);
        }
    }
    let m = mul_fixed(x.s, x.i);
    let f = mul_fixed(p.beta, m);
    let g = mul_fixed(p.gamma, x.i);
    Deriv { ds: -f, di: f - g, dr: g }
}

} // verus!
