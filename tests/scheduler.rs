use transcript_sync::scheduler::{ReconciliationScheduler, TickAction};

#[test]
fn tick_while_pass_in_flight_is_skipped() {
    let mut s = ReconciliationScheduler::new();
    assert!(!s.is_in_flight());
    assert_eq!(s.on_tick(), TickAction::RunPass);
    assert!(s.is_in_flight());
    assert_eq!(s.on_tick(), TickAction::SkipTick);
    assert_eq!(s.on_tick(), TickAction::SkipTick);
    s.pass_finished();
    assert_eq!(s.on_tick(), TickAction::RunPass);
}

#[test]
fn stopped_scheduler_leaves_the_loop() {
    let mut s = ReconciliationScheduler::new();
    assert_eq!(s.on_tick(), TickAction::RunPass);
    s.stop();
    assert!(s.is_stopped());
    assert_eq!(s.on_tick(), TickAction::Stop);
    s.pass_finished();
    assert_eq!(s.on_tick(), TickAction::Stop);
}
