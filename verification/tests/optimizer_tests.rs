use lionfs::optimizer::adaptive_cache::AdaptiveCacheManager;
use lionfs::optimizer::policy::{OptimizationProfile, PolicyEngine};
use lionfs::optimizer::predictor::PredictiveReadEngine;
use lionfs::optimizer::recommender::RecommendationEngine;
use lionfs::optimizer::scheduler::AutonomousScheduler;
use lionfs::telemetry::TelemetryMetrics;

#[test]
fn test_predictive_read_engine() {
    let mut engine = PredictiveReadEngine::new();

    // Sequence 1 -> 2
    engine.record_sequence(1, 2);
    engine.record_sequence(1, 2);
    engine.record_sequence(1, 2);

    assert_eq!(engine.predict_next(1), Some(2));
    assert_eq!(engine.predict_next(2), None);
}

#[test]
fn test_policy_engine() {
    let mut policy = PolicyEngine::default();
    assert_eq!(policy.current_profile, OptimizationProfile::Balanced);

    policy.set_profile(OptimizationProfile::PerformanceFirst);
    assert_eq!(policy.current_profile, OptimizationProfile::PerformanceFirst);
}

#[test]
fn test_adaptive_cache() {
    let mut cache = AdaptiveCacheManager::new();
    let mut metrics = TelemetryMetrics::new();

    // Simulate low hit ratio (0 hits, 100 misses)
    for _ in 0..100 {
        metrics.record_cache_miss();
    }

    cache.tune_cache_sizes(&metrics);
    assert!(cache.max_inodes > 10_000);
    assert!(cache.max_extents > 20_000);
}

#[test]
fn predictor_needs_three_confirmations() {
    let mut engine = PredictiveReadEngine::new();
    engine.record_sequence(7, 8);
    engine.record_sequence(7, 8);
    assert_eq!(engine.predict_next(7), None);
    engine.record_sequence(7, 8);
    assert_eq!(engine.predict_next(7), Some(8));
}

#[test]
fn predictor_switches_successor_once_confidence_is_spent() {
    let mut engine = PredictiveReadEngine::new();
    engine.record_sequence(1, 2);
    engine.record_sequence(1, 3);
    engine.record_sequence(1, 3);
    engine.record_sequence(1, 3);
    engine.record_sequence(1, 3);
    assert_eq!(engine.predict_next(1), Some(3));
}

#[test]
fn cache_shrinks_on_high_hit_ratio_but_not_below_floor() {
    let mut cache = AdaptiveCacheManager::new();
    let mut metrics = TelemetryMetrics::new();
    for _ in 0..100 {
        metrics.record_cache_hit();
    }
    cache.tune_cache_sizes(&metrics);
    assert_eq!(cache.max_inodes, 9_500);
    assert_eq!(cache.max_extents, 19_000);

    cache.max_inodes = 1_200;
    cache.max_extents = 2_100;
    cache.tune_cache_sizes(&metrics);
    assert_eq!(cache.max_inodes, 1_000);
    assert_eq!(cache.max_extents, 2_000);
}

#[test]
fn cache_unchanged_without_lookups_or_at_middling_ratio() {
    let mut cache = AdaptiveCacheManager::new();
    let mut metrics = TelemetryMetrics::new();
    cache.tune_cache_sizes(&metrics);
    assert_eq!((cache.max_inodes, cache.max_extents), (10_000, 20_000));
    for _ in 0..9 {
        metrics.record_cache_hit();
    }
    metrics.record_cache_miss();
    cache.tune_cache_sizes(&metrics);
    assert_eq!((cache.max_inodes, cache.max_extents), (10_000, 20_000));
}

#[test]
fn recommends_larger_cache_only_after_enough_lookups() {
    let engine = RecommendationEngine::new();
    let mut metrics = TelemetryMetrics::new();
    for _ in 0..600 {
        metrics.record_cache_miss();
    }
    assert!(engine.generate_recommendations(&metrics).is_empty());
    for _ in 0..500 {
        metrics.record_cache_miss();
    }
    let recs = engine.generate_recommendations(&metrics);
    assert_eq!(recs, vec!["Increase cache size: Cache hit ratio is below 50%.".to_string()]);
}

#[test]
fn scheduler_starts_active() {
    let scheduler = AutonomousScheduler::new();
    assert!(scheduler.is_active);
    scheduler.schedule_background_tasks(true);
    scheduler.schedule_background_tasks(false);
}

#[test]
fn recommendations_json_lists_the_advice() {
    let mut metrics = TelemetryMetrics::new();
    assert_eq!(lionfs::optimizer::api::DashboardApi::get_recommendations_json(&metrics), "[]");
    for _ in 0..1001 {
        metrics.record_cache_miss();
    }
    assert_eq!(
        lionfs::optimizer::api::DashboardApi::get_recommendations_json(&metrics),
        "[\"Increase cache size: Cache hit ratio is below 50%.\"]"
    );
}
