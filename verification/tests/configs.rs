use matchmaker::config::{env_bool, env_f64, env_u64, env_usize, Config, Environment};
use matchmaker::rating::OrdF64;

fn window(value: f64) -> OrdF64 {
    OrdF64 { bits: value.to_bits() }
}

fn bare() -> Environment {
    Environment {
        cpu_count: Some(8),
        fast_cross_region: None,
        fast: None,
        base_window: None,
        window_expand_per_sec: None,
        max_window: None,
        cross_region_wait_secs: None,
        worker_idle_ms: None,
        api_workers: None,
    }
}

fn text(value: &str) -> Option<String> {
    Some(value.to_string())
}

#[test]
fn the_defaults_hold_without_variables() {
    let config = Config::from_env(&bare());
    assert_eq!(config.base_window, window(150.0));
    assert_eq!(config.window_expand_per_sec, window(50.0));
    assert_eq!(config.max_window, window(600.0));
    assert_eq!(config.cross_region_wait_secs, 15);
    assert_eq!(config.worker_idle_ms, 5);
    assert_eq!(config.api_worker_count, 32);
}

#[test]
fn the_processor_count_sets_the_workers() {
    let config = Config::from_env(&Environment { cpu_count: None, ..bare() });
    assert_eq!(config.api_worker_count, 16);
    let config = Config::from_env(&Environment { cpu_count: Some(usize::MAX), ..bare() });
    assert_eq!(config.api_worker_count, usize::MAX);
    let config = Config::from_env(&Environment { api_workers: text("3"), ..bare() });
    assert_eq!(config.api_worker_count, 3);
    let config = Config::from_env(&Environment { api_workers: text("0"), ..bare() });
    assert_eq!(config.api_worker_count, 1);
}

#[test]
fn the_widest_window_is_no_narrower_than_the_first() {
    let config = Config::from_env(&Environment {
        base_window: Some(window(700.0)),
        ..bare()
    });
    assert_eq!(config.max_window, window(700.0));
    let config = Config::from_env(&Environment {
        base_window: Some(window(100.0)),
        max_window: Some(window(50.0)),
        ..bare()
    });
    assert_eq!(config.max_window, window(100.0));
}

#[test]
fn fast_modes_lift_the_wait_for_other_regions() {
    let fast = Environment { fast: text("1"), ..bare() };
    assert_eq!(Config::from_env(&fast).cross_region_wait_secs, 0);
    let set = Environment { fast: text("1"), cross_region_wait_secs: text("9"), ..bare() };
    assert_eq!(Config::from_env(&set).cross_region_wait_secs, 9);
    let forced = Environment { fast_cross_region: text("yes"), cross_region_wait_secs: text("9"), ..bare() };
    assert_eq!(Config::from_env(&forced).cross_region_wait_secs, 0);
}

#[test]
fn unreadable_variables_leave_the_default() {
    assert_eq!(env_u64(&text("12"), 5), 12);
    assert_eq!(env_u64(&text("-12"), 5), 5);
    assert_eq!(env_u64(&None, 5), 5);
    assert_eq!(env_usize(&text("12"), 5), 12);
    assert_eq!(env_usize(&text("many"), 5), 5);
    for on in ["1", "true", "TRUE", "yes", "YES"] {
        assert!(env_bool(&text(on)));
    }
    for off in ["", "0", "True", "on", "1 "] {
        assert!(!env_bool(&text(off)));
    }
    assert!(!env_bool(&None));
    assert_eq!(env_f64(Some(window(2.5)), window(1.0)), window(2.5));
    assert_eq!(env_f64(Some(window(-0.0)), window(1.0)), window(-0.0));
    assert_eq!(env_f64(Some(window(-2.5)), window(1.0)), window(1.0));
    assert_eq!(env_f64(Some(window(f64::NAN)), window(1.0)), window(1.0));
    assert_eq!(env_f64(Some(window(f64::INFINITY)), window(1.0)), window(1.0));
    assert_eq!(env_f64(None, window(1.0)), window(1.0));
}

#[test]
fn the_window_grows_by_fifty_each_second_up_to_six_hundred() {
    let config = Config::from_env(&bare());
    assert_eq!(config.expanded_window(window(0.0)), window(150.0));
    assert_eq!(config.expanded_window(window(2.0)), window(250.0));
    assert_eq!(config.expanded_window(window(2.5)), window(275.0));
    assert_eq!(config.expanded_window(window(9.0)), window(600.0));
    assert_eq!(config.expanded_window(window(1e9)), window(600.0));
    let mut last = window(0.0);
    for step in 0..200u32 {
        let wait = f64::from(step) * 0.073;
        let grown = config.expanded_window(window(wait));
        assert_eq!(grown.bits, (150.0 + 50.0 * wait).min(600.0).to_bits());
        assert!(!grown.is_below(last));
        last = grown;
    }
    let steep = Config { window_expand_per_sec: window(f64::MAX), ..config };
    assert_eq!(steep.expanded_window(window(3.0)), window(600.0));
}

#[test]
fn other_regions_open_after_the_wait() {
    let config = Config::from_env(&bare());
    assert!(!config.allows_cross_region(window(14.999999999)));
    assert!(config.allows_cross_region(window(15.0)));
    let fast = Config::from_env(&Environment { fast_cross_region: text("1"), ..bare() });
    assert!(fast.allows_cross_region(window(0.0)));
}
