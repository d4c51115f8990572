use txpool::adaptive::{AdaptiveThreadController, PageFaultMonitor, PageFaultRate, PagingPressure};

#[test]
fn test_paging_pressure_thresholds() {
    let low = PageFaultRate { faults_per_sec: 1000, pressure: PagingPressure::Low };
    assert_eq!(low.recommended_threads(32), 32);

    let moderate = PageFaultRate { faults_per_sec: 20_000, pressure: PagingPressure::Moderate };
    assert_eq!(moderate.recommended_threads(32), 64);

    let heavy = PageFaultRate { faults_per_sec: 60_000, pressure: PagingPressure::Heavy };
    assert_eq!(heavy.recommended_threads(32), 96.min(128));
}

#[test]
fn test_adaptive_controller_hysteresis() {
    let mut controller = AdaptiveThreadController::new(5, 8);
    assert_eq!(controller.desired_threads(), controller.num_cores());

    // Small change (within hysteresis) should not update
    let cores = controller.num_cores();
    controller.set_desired_threads(cores + 1);
}

#[test]
fn test_paging_pressure_classification() {
    assert_eq!(PagingPressure::Low, PagingPressure::Low);
    assert_ne!(PagingPressure::Low, PagingPressure::Moderate);
    assert_ne!(PagingPressure::Moderate, PagingPressure::Heavy);
}

#[test]
fn classify_boundaries() {
    assert_eq!(PagingPressure::classify(0), PagingPressure::Low);
    assert_eq!(PagingPressure::classify(4_999), PagingPressure::Low);
    assert_eq!(PagingPressure::classify(5_000), PagingPressure::Moderate);
    assert_eq!(PagingPressure::classify(49_999), PagingPressure::Moderate);
    assert_eq!(PagingPressure::classify(50_000), PagingPressure::Heavy);
}

#[test]
fn recommended_threads_clamps() {
    let moderate = PageFaultRate { faults_per_sec: 6_000, pressure: PagingPressure::Moderate };
    assert_eq!(moderate.recommended_threads(0), 2);
    assert_eq!(moderate.recommended_threads(1), 2);
    assert_eq!(moderate.recommended_threads(40), 64);
    assert_eq!(moderate.recommended_threads(usize::MAX), 64);
    let heavy = PageFaultRate { faults_per_sec: 90_000, pressure: PagingPressure::Heavy };
    assert_eq!(heavy.recommended_threads(2), 16);
    assert_eq!(heavy.recommended_threads(10), 30);
    assert_eq!(heavy.recommended_threads(100), 128);
    assert_eq!(heavy.recommended_threads(usize::MAX), 128);
    let low = PageFaultRate { faults_per_sec: 10, pressure: PagingPressure::Low };
    assert_eq!(low.recommended_threads(3), 3);
}

#[test]
fn monitor_needs_two_samples() {
    let mut monitor = PageFaultMonitor::new(5);
    assert_eq!(monitor.sample_interval_secs(), 5);
    assert!(monitor.sample(1_000, 100).is_none());
    let rate = monitor.sample(61_000, 110).unwrap();
    assert_eq!(rate.faults_per_sec, 6_000);
    assert_eq!(rate.pressure, PagingPressure::Moderate);
}

#[test]
fn monitor_same_second_and_counter_reset() {
    let mut monitor = PageFaultMonitor::new(1);
    assert!(monitor.sample(500, 7).is_none());
    assert!(monitor.sample(900, 7).is_none());
    // a smaller count than before reads as no new faults
    let rate = monitor.sample(100, 9).unwrap();
    assert_eq!(rate.faults_per_sec, 0);
    assert_eq!(rate.pressure, PagingPressure::Low);
}

#[test]
fn controller_moves_past_hysteresis() {
    let mut controller = AdaptiveThreadController::new(5, 8);
    controller.update(0, 100);
    assert_eq!(controller.desired_threads(), 8);
    // 600k faults over 10 s: heavy, (8 * 3).clamp(16, 128) = 24
    controller.update(600_000, 110);
    assert_eq!(controller.desired_threads(), 24);
    // 10k faults/sec: moderate, 16; a change of 8 against a hysteresis of 2
    controller.update(700_000, 120);
    assert_eq!(controller.desired_threads(), 16);
}

#[test]
fn controller_ignores_small_change() {
    let mut controller = AdaptiveThreadController::new(5, 8);
    controller.set_desired_threads(15);
    controller.update(0, 100);
    // moderate: 16, one away from 15, under the hysteresis of 2
    controller.update(100_000, 110);
    assert_eq!(controller.desired_threads(), 15);
}
