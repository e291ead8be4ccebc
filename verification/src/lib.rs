//! Fixed-step integration of the SIR compartmental epidemic model.
//!
//! Compartment proportions and rates are fixed-point numbers carrying nine
//! decimal places (see [`fixed::SCALE`]). The model's differential equations,
//! the fourth-order Runge-Kutta step, and the sampling policy that selects
//! which steps to record are all verified against exact contracts over the
//! scaled integer arithmetic.

pub mod fixed;
pub mod model;
pub mod integrator;

pub use fixed::SCALE;
pub use fixed::STATE_LIMIT;
pub use model::Deriv;
pub use model::Params;
pub use model::SimError;
pub use model::State;
pub use model::differentiate;
pub use integrator::Sample;
pub use integrator::SimConfig;
pub use integrator::SAMPLE_CAP;
pub use integrator::STEP_LIMIT;
pub use integrator::TIME_LIMIT;
pub use integrator::derive_config;
pub use integrator::rk4_step;
pub use integrator::run;
pub use integrator::simulate;
