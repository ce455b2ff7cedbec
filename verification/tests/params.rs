//! The generation timer and its parameters.

use game_of_life::params::check_cell_params_changed;
use game_of_life::params::CellParams;
use game_of_life::params::NextGenTimer;

#[test]
fn cell_params_default_plays_at_one_second() {
    let p = CellParams::default();
    assert!(p.playing);
    assert_eq!(p.period_ms, 1000);
}

#[test]
fn timer_fires_once_a_full_period_has_passed() {
    let mut t = NextGenTimer::new(100);
    assert_eq!(t.elapsed_ms, 0);
    assert!(!t.tick(30));
    assert_eq!(t.elapsed_ms, 30);
    assert!(!t.tick(69));
    assert_eq!(t.elapsed_ms, 99);
    assert!(t.tick(1));
    assert_eq!(t.elapsed_ms, 0);
}

#[test]
fn timer_keeps_the_overshoot_as_phase() {
    let mut t = NextGenTimer::new(100);
    assert!(t.tick(250));
    assert_eq!(t.elapsed_ms, 50);
    assert!(!t.tick(49));
    assert_eq!(t.elapsed_ms, 99);
}

#[test]
fn set_period_restarts_the_phase() {
    let mut t = NextGenTimer::new(100);
    assert!(!t.tick(60));
    t.set_period(200);
    assert_eq!(t.period_ms, 200);
    assert_eq!(t.elapsed_ms, 0);
    assert!(!t.tick(199));
    assert!(t.tick(1));
}

#[test]
fn changed_params_rearm_the_timer_without_firing() {
    let mut t = NextGenTimer::new(1000);
    assert!(!t.tick(990));
    let changed = CellParams { playing: true, period_ms: 10 };
    check_cell_params_changed(&changed, &mut t);
    // a shorter period must not fire off the stale 990 ms
    assert_eq!(t.period_ms, 10);
    assert_eq!(t.elapsed_ms, 0);
    assert!(!t.tick(9));
}

#[test]
fn unchanged_params_leave_the_timer_alone() {
    let mut t = NextGenTimer::new(1000);
    assert!(!t.tick(990));
    let same = CellParams { playing: false, period_ms: 1000 };
    check_cell_params_changed(&same, &mut t);
    assert_eq!(t.period_ms, 1000);
    assert_eq!(t.elapsed_ms, 990);
}
