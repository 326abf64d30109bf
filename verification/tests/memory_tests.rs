use olang::errors::InterpreterError;
use olang::memory::MemoryTracker;

#[test]
fn small_allocations_accumulate() {
    let mut t = MemoryTracker::new();
    assert!(matches!(t.track_allocation(10), Ok(false)));
    assert!(matches!(t.track_allocation(20), Ok(false)));
    assert_eq!(t.memory_allocations, 30);
    assert_eq!(t.large_allocation_count, 0);
}

#[test]
fn every_fifth_large_allocation_forces_cleanup() {
    let mut t = MemoryTracker::new();
    for _ in 0..4 {
        assert!(matches!(t.track_allocation(200), Ok(false)));
    }
    assert_eq!(t.memory_allocations, 800);
    assert!(matches!(t.track_allocation(200), Ok(true)));
    assert_eq!(t.memory_allocations, 0);
    assert_eq!(t.last_cleanup_operation, 5);
    assert!(matches!(t.track_allocation(200), Ok(false)));
    assert_eq!(t.memory_allocations, 200);
}

#[test]
fn allocation_past_limit_is_refused() {
    let mut t = MemoryTracker::new();
    assert!(matches!(t.track_allocation(100), Ok(false)));
    match t.track_allocation(9950) {
        Err(InterpreterError::RuntimeError { message }) => assert_eq!(
            message,
            "Memory allocation limit (10000) exceeded. Current allocations: 10050. This prevents memory corruption."
        ),
        _ => panic!("expected a refusal"),
    }
}

#[test]
fn reset_and_call_cleanup_threshold() {
    let mut t = MemoryTracker::new();
    assert!(matches!(t.track_allocation(90), Ok(false)));
    assert!(!t.cleanup_after_call());
    t.memory_allocations = 5001;
    assert!(t.cleanup_after_call());
    t.reset_memory_tracking();
    assert_eq!(t.memory_allocations, 0);
}
