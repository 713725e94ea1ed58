use bam_error_detector::clip_report::Ratio;
use bam_error_detector::config::{Config, ConfigError, DEFAULT_MIN_DIST_TO_END};

#[test]
fn unconfirmed_run_has_no_configuration() {
    let outcome = Config::new(false, 100, Ratio::one());
    assert_eq!(outcome.err(), Some(ConfigError::NotConfirmed));
}

#[test]
fn confirmed_run_keeps_its_thresholds() {
    let config = Config::new(true, 250, Ratio::new(3, 2).unwrap()).unwrap();
    assert_eq!(config.min_dist_to_end(), 250);
    assert_eq!(config.min_clipping_ratio().num(), 3);
    assert_eq!(config.min_clipping_ratio().den(), 2);
}

#[test]
fn default_distance_is_one_hundred() {
    assert_eq!(DEFAULT_MIN_DIST_TO_END, 100);
    let config = Config::new(true, DEFAULT_MIN_DIST_TO_END, Ratio::one()).unwrap();
    assert_eq!(config.min_dist_to_end(), 100);
    assert!(config.min_clipping_ratio().is_met(1, 1));
    assert!(!config.min_clipping_ratio().is_met(1, 2));
}
