use rwatch::monitor::{Action, MonitorLoop, Outcome};

#[test]
fn once_mode_records_one_sample_pings_then_stops() {
    let mut m = MonitorLoop::new(true);
    assert_eq!(m.action(), Action::TakeSample);
    assert_eq!(m.step(Outcome::Completed), Action::WaitInterval);
    assert_eq!(m.step(Outcome::Completed), Action::WriteRecord);
    assert_eq!(m.step(Outcome::Completed), Action::PingWatchdog);
    assert_eq!(m.step(Outcome::Completed), Action::Stop);
    assert_eq!(m.step(Outcome::Completed), Action::Stop);
}

#[test]
fn continuous_mode_repeats_rounds() {
    let mut m = MonitorLoop::new(false);
    for _ in 0..3 {
        assert_eq!(m.action(), Action::TakeSample);
        assert_eq!(m.step(Outcome::Completed), Action::WaitInterval);
        assert_eq!(m.step(Outcome::Completed), Action::WriteRecord);
        assert_eq!(m.step(Outcome::Completed), Action::PingWatchdog);
        assert_eq!(m.step(Outcome::Completed), Action::TakeSample);
    }
}

#[test]
fn failed_write_skips_the_ping() {
    let mut m = MonitorLoop::new(false);
    assert_eq!(m.step(Outcome::Completed), Action::WaitInterval);
    assert_eq!(m.step(Outcome::Completed), Action::WriteRecord);
    assert_eq!(m.step(Outcome::Failed), Action::TakeSample);
    let mut m = MonitorLoop::new(true);
    assert_eq!(m.step(Outcome::Completed), Action::WaitInterval);
    assert_eq!(m.step(Outcome::Completed), Action::WriteRecord);
    assert_eq!(m.step(Outcome::Failed), Action::Stop);
}

#[test]
fn shutdown_during_wait_stops_without_record() {
    let mut m = MonitorLoop::new(false);
    assert_eq!(m.step(Outcome::Completed), Action::WaitInterval);
    assert_eq!(m.step(Outcome::ShutdownRequested), Action::Stop);
    assert_eq!(m.step(Outcome::Completed), Action::Stop);
}

#[test]
fn shutdown_reported_outside_a_wait_is_noticed_at_the_wait() {
    let mut m = MonitorLoop::new(false);
    assert_eq!(m.step(Outcome::ShutdownRequested), Action::WaitInterval);
}
