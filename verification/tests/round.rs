use sling::model::JobMessage;
use sling::slings::{round_step, RoundOutcome};
use sling::{Job, SatDirection};

fn job(once: bool) -> Job {
    let mut j = Job::new(SatDirection::Pull, 100_000, None, 100);
    if once {
        j.add_onceamount_msat(500_000);
    }
    j
}

#[test]
fn one_off_job_ends_after_its_first_delivery() {
    let s = round_step(&job(true), 1_000, RoundOutcome::Delivered(100_000));
    assert_eq!(s.rebalanced_msat, 101_000);
    assert!(s.end);
    assert_eq!(s.pause_secs, 0);
    assert!(s.message.is_none());
}

#[test]
fn standing_job_goes_on_after_a_delivery() {
    let s = round_step(&job(false), 1_000, RoundOutcome::Delivered(100_000));
    assert_eq!(s.rebalanced_msat, 101_000);
    assert!(!s.end);
    assert_eq!(s.pause_secs, 1);
    assert!(!s.forget_route);
}

#[test]
fn missing_route_forgets_the_kept_one_and_waits() {
    let s = round_step(&job(false), 7, RoundOutcome::NoRoute);
    assert_eq!(s.message, Some(JobMessage::NoRoute));
    assert!(s.forget_route);
    assert_eq!(s.pause_secs, 600);
    assert!(!s.end);
    assert_eq!(s.rebalanced_msat, 7);
    let s = round_step(&job(true), 7, RoundOutcome::NoCandidates);
    assert_eq!(s.message, Some(JobMessage::NoCandidates));
    assert!(s.end);
    assert_eq!(s.pause_secs, 1);
}

#[test]
fn dear_route_is_forgotten_even_by_a_one_off_job() {
    let s = round_step(&job(true), 0, RoundOutcome::TooExpensive);
    assert_eq!(s.message, Some(JobMessage::TooExp));
    assert!(s.forget_route);
    assert!(!s.end);
    assert_eq!(s.pause_secs, 600);
}

#[test]
fn unhandled_answer_stops_the_task() {
    let s = round_step(&job(false), 3, RoundOutcome::PaymentError);
    assert_eq!(s.message, Some(JobMessage::Error));
    assert!(s.deactivate);
    assert!(s.end);
}
