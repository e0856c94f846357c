use ckb::memory_tracker::{
    interval, jemalloc_profiling_dump, property_from_read, sample_due, set_interval, track_current_process,
    track_current_process_simple, PropertyValue, TrackPlan, TrackerState,
};

#[test]
fn profiling_dump_unsupported() {
    assert_eq!(jemalloc_profiling_dump("heap.prof"), Err("jemalloc profiling dump: unsupported".to_string()));
}

#[test]
fn property_values() {
    match property_from_read("allocated", Ok(4096)) {
        PropertyValue::Value(v) => assert_eq!(v, 4096),
        PropertyValue::Error(e) => panic!("{}", e),
    }
    match property_from_read("resident", Err("no such entry".to_string())) {
        PropertyValue::Error(e) => assert_eq!(e, "failed to read jemalloc stats for resident: no such entry"),
        PropertyValue::Value(v) => panic!("{}", v),
    }
}

#[test]
fn tracking_interval() {
    let mut state = TrackerState::new();
    assert_eq!(interval(&state), 0);
    assert_eq!(track_current_process_simple(&mut state, 0), TrackPlan::Disabled);
    assert_eq!(interval(&state), 0);
    assert_eq!(
        track_current_process_simple(&mut state, 30),
        TrackPlan::Enabled { interval: 30, with_database: false }
    );
    assert_eq!(interval(&state), 30);
    assert_eq!(
        track_current_process(&mut state, 5, true),
        TrackPlan::Enabled { interval: 5, with_database: true }
    );
    assert_eq!(interval(&state), 5);
    set_interval(&mut state, 9);
    assert_eq!(interval(&state), 9);
}

#[test]
fn sampling_schedule() {
    assert!(!sample_due(29, 30));
    assert!(sample_due(30, 30));
    assert!(sample_due(31, 30));
}
