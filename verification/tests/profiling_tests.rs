use owl2_reasoner::memory::MemoryProfiler;

#[test]
fn test_memory_profiler() {
    let mut profiler = MemoryProfiler::new(0);

    let vec: Vec<u8> = vec![0; 1024];
    profiler.checkpoint("after allocation", vec.len());

    assert!(!profiler.checkpoints.is_empty());
}

#[test]
fn memory_profiler_report_and_delta() {
    let mut profiler = MemoryProfiler::new(100);
    profiler.checkpoint("load", 150);
    profiler.checkpoint("free", 120);
    assert_eq!(profiler.delta(90), -10);
    assert_eq!(
        profiler.report(90),
        "Memory Profile Report:\n  Start: 100 bytes\n  load: 150 bytes (Δ 50 bytes)\n  free: 120 bytes (Δ -30 bytes)\n  Total: 90 bytes (Δ -10 bytes)\n"
    );
}
