use sir_rk4::differentiate;
use sir_rk4::derive_config;
use sir_rk4::rk4_step;
use sir_rk4::simulate;
use sir_rk4::Params;
use sir_rk4::SimConfig;
use sir_rk4::SimError;
use sir_rk4::State;
use sir_rk4::SCALE;
use sir_rk4::TIME_LIMIT;

// The default scenario: beta = 520/365, gamma = 1/7, s0 = 1 - 1e-6,
// i0 = 1e-6, r0 = 1e-6, all in units of 1e-9.
fn default_params() -> Params {
    Params { beta: 1_424_657_534, gamma: 142_857_142 }
}

fn default_state() -> State {
    State { s: 999_999_000, i: 1000, r: 1000 }
}

const DEFAULT_MAX_TIME: i64 = 70_000_000_000;

#[test]
fn check_rejects_negative_beta() {
    let p = Params { beta: -1, gamma: 0 };
    assert_eq!(p.check(), Err(SimError::InvalidParameters));
}

#[test]
fn check_rejects_negative_gamma() {
    let p = Params { beta: 1_000_000_000, gamma: -5 };
    assert_eq!(p.check(), Err(SimError::InvalidParameters));
}

#[test]
fn check_accepts_zero_rates() {
    let p = Params { beta: 0, gamma: 0 };
    assert_eq!(p.check(), Ok(()));
}

#[test]
fn simulate_rejects_negative_parameters() {
    let p = Params { beta: -1, gamma: 100 };
    let r = simulate(&p, &default_state(), DEFAULT_MAX_TIME);
    assert_eq!(r, Err(SimError::InvalidParameters));
}

#[test]
fn differentiate_exact_flows() {
    // beta = 2.0, gamma = 0.5, s = 0.5, i = 0.2:
    // ds = -0.2, di = 0.2 - 0.1 = 0.1, dr = 0.1.
    let p = Params { beta: 2_000_000_000, gamma: 500_000_000 };
    let x = State { s: 500_000_000, i: 200_000_000, r: 300_000_000 };
    let d = differentiate(&p, &x);
    assert_eq!(d.ds, -200_000_000);
    assert_eq!(d.di, 100_000_000);
    assert_eq!(d.dr, 100_000_000);
}

#[test]
fn zero_beta_never_infects() {
    // With beta = 0 the infectious compartment can only drain: di <= 0.
    let p = Params { beta: 0, gamma: 500_000_000 };
    let x = State { s: 700_000_000, i: 200_000_000, r: 100_000_000 };
    let d = differentiate(&p, &x);
    assert_eq!(d.ds, 0);
    assert_eq!(d.di, -100_000_000);
    assert!(d.di <= 0);
    // And across a whole step the infectious compartment shrinks.
    let next = rk4_step(&p, &x, 10_000_000);
    assert!(next.i < x.i);
}

#[test]
fn no_transmission_decays_across_whole_run() {
    // beta = 0, gamma = 1.5: the infectious share can only shrink from row
    // to row, the susceptibles never move, and after 20 time units the
    // epidemic has all but died out.
    let p = Params { beta: 0, gamma: 1_500_000_000 };
    let x = State { s: 900_000_000, i: 99_000_000, r: 1_000_000 };
    let rows = simulate(&p, &x, 20_000_000_000).unwrap();
    assert!(!rows.is_empty());
    assert!(rows[0].i <= 99_000_000);
    for w in rows.windows(2) {
        assert!(w[1].i <= w[0].i);
    }
    for row in &rows {
        assert_eq!(row.s, 900_000_000);
        assert!(row.i >= 0);
    }
    assert!(rows.last().unwrap().i < 1_000_000);
}

#[test]
fn zero_gamma_freezes_recovered() {
    // With gamma = 0 the recovered compartment never moves: dr == 0 at the
    // derivative, and r is exactly unchanged across a step.
    let p = Params { beta: 1_400_000_000, gamma: 0 };
    let x = State { s: 600_000_000, i: 300_000_000, r: 100_000_000 };
    let d = differentiate(&p, &x);
    assert_eq!(d.dr, 0);
    let next = rk4_step(&p, &x, 10_000_000);
    assert_eq!(next.r, 100_000_000);
}

#[test]
fn empty_susceptibles_stay_empty() {
    // With s0 = 0 there are no infections: ds == 0 always, s stays 0, and
    // i decays purely by recovery into r.
    let p = default_params();
    let x = State { s: 0, i: 500_000_000, r: 500_000_000 };
    let d = differentiate(&p, &x);
    assert_eq!(d.ds, 0);
    let next = rk4_step(&p, &x, 10_000_000);
    assert_eq!(next.s, 0);
    assert!(next.i < 500_000_000);
    assert!(next.r > 500_000_000);
}

#[test]
fn one_step_conserves_mass() {
    // From a state summing to exactly 1, one step in the default regime
    // moves the sum by at most 3e-9, far inside the 1e-6 tolerance.
    let p = default_params();
    let x = State { s: 999_999_000, i: 1000, r: 0 };
    assert_eq!(x.s + x.i + x.r, SCALE);
    let next = rk4_step(&p, &x, 15_675_131);
    let drift = next.s + next.i + next.r - SCALE;
    assert!(-3 <= drift && drift <= 3);
}

#[test]
fn derived_config_for_defaults() {
    // q = (beta + gamma) * s0 = 1.567513108..., so step = 0.015675131,
    // floor(log10(1/q)) = -1, and every = (-1)^10 = 1.0.
    let cfg = derive_config(&default_params(), &default_state(), DEFAULT_MAX_TIME).unwrap();
    assert_eq!(
        cfg,
        SimConfig { step: 15_675_131, every: 1_000_000_000, max_time: DEFAULT_MAX_TIME }
    );
}

#[test]
fn degenerate_when_rates_vanish() {
    // s0 = 0 drives (beta + gamma) * s0 to zero.
    let p = default_params();
    let x = State { s: 0, i: 1000, r: 0 };
    assert_eq!(simulate(&p, &x, DEFAULT_MAX_TIME), Err(SimError::DegenerateConfiguration));
}

#[test]
fn degenerate_when_log_is_zero() {
    // q = 0.5 lies in (0.1, 1): floor(log10(1/q)) == 0, so the sampling
    // interval would be 0^10 == 0.
    let p = Params { beta: 400_000_000, gamma: 100_000_000 };
    let x = State { s: 1_000_000_000, i: 0, r: 0 };
    assert_eq!(simulate(&p, &x, DEFAULT_MAX_TIME), Err(SimError::DegenerateConfiguration));
}

#[test]
fn first_emitted_row_crosses_first_boundary() {
    // The first row appears at the smallest step multiple past every = 1.0:
    // 64 * 0.015675131 = 1.003208384. By then the epidemic has grown i
    // well past its initial 1e-6.
    let rows = simulate(&default_params(), &default_state(), DEFAULT_MAX_TIME).unwrap();
    assert!(!rows.is_empty());
    assert_eq!(rows[0].t, 1_003_208_384);
    assert!(rows[0].i > 1000);
}

#[test]
fn emitted_times_strictly_increase() {
    let rows = simulate(&default_params(), &default_state(), DEFAULT_MAX_TIME).unwrap();
    assert!(rows.len() >= 2);
    for w in rows.windows(2) {
        assert!(w[0].t < w[1].t);
    }
}

#[test]
fn two_runs_emit_identical_rows() {
    let a = simulate(&default_params(), &default_state(), DEFAULT_MAX_TIME).unwrap();
    let b = simulate(&default_params(), &default_state(), DEFAULT_MAX_TIME).unwrap();
    assert_eq!(a, b);
}

#[test]
fn row_count_stays_under_cap() {
    let rows = simulate(&default_params(), &default_state(), DEFAULT_MAX_TIME).unwrap();
    assert!(rows.len() <= 10_000);
    assert_eq!(rows.len(), 70);
}

#[test]
fn widened_interval_caps_rows_at_long_times() {
    // At the largest accepted end time the sampling interval is widened
    // from 1.0 to 100.0, which lands exactly on the 10000-row cap.
    let rows = simulate(&default_params(), &default_state(), TIME_LIMIT).unwrap();
    assert_eq!(rows.len(), 10_000);
    for w in rows.windows(2) {
        assert!(w[0].t < w[1].t);
    }
}

#[test]
fn zero_max_time_emits_nothing() {
    let rows = simulate(&default_params(), &default_state(), 0).unwrap();
    assert!(rows.is_empty());
}

#[test]
fn short_run_below_first_boundary_emits_nothing() {
    // maxTime = 0.5 ends before the first every = 1.0 boundary.
    let rows = simulate(&default_params(), &default_state(), 500_000_000).unwrap();
    assert!(rows.is_empty());
}
