use sling::model::JobMessage;
use sling::{Job, SatDirection};

#[test]
fn getters_fall_back_to_the_configuration() {
    let mut job = Job::new(SatDirection::Pull, 100_000_000, Some(0), 300);
    assert_eq!(job.get_maxhops(8), 9);
    assert_eq!(job.get_target(), 0.5f64.to_bits());
    assert_eq!(job.get_depleteuptoamount_msat(2_000_000_000), 2_000_000_000);
    assert_eq!(job.get_depleteuptopercent(0.2f64.to_bits()), 0.2f64.to_bits());
    assert_eq!(job.get_paralleljobs(1), 1);
    assert!(job.get_candidates().is_empty());
    job.add_maxhops(6);
    job.add_target(0.8f64.to_bits());
    job.add_depleteuptoamount_msat(5_000);
    job.add_depleteuptopercent(0.1f64.to_bits());
    job.add_paralleljobs(3);
    job.add_candidates(vec![7, 8]);
    assert_eq!(job.get_maxhops(8), 7);
    assert_eq!(job.get_target(), 0.8f64.to_bits());
    assert_eq!(job.get_depleteuptoamount_msat(2_000_000_000), 5_000);
    assert_eq!(job.get_depleteuptopercent(0.2f64.to_bits()), 0.1f64.to_bits());
    assert_eq!(job.get_paralleljobs(1), 3);
    assert_eq!(job.get_candidates(), vec![7, 8]);
}

#[test]
fn target_cap_leaves_room_for_the_reserve() {
    let mut job = Job::new(SatDirection::Pull, 100_000_000, Some(0), 300);
    assert_eq!(job.target_cap(1_000_000_000, 10_000_000, 10_000_000), 500_000_000);
    job.add_target(0.999f64.to_bits());
    assert_eq!(job.target_cap(1_000_000_000, 10_000_000, 20_000_000), 1_000_000_000 - 10_000_000 - 2_000);
    let mut push = Job::new(SatDirection::Push, 100_000_000, Some(0), 300);
    push.add_target(0.999f64.to_bits());
    assert_eq!(push.target_cap(1_000_000_000, 10_000_000, 20_000_000), 1_000_000_000 - 20_000_000 - 2_000);
    let mut once = Job::new(SatDirection::Pull, 100_000_000, Some(0), 300);
    once.add_onceamount_msat(300_000_000);
    assert_eq!(once.target_cap(1_000_000_000, 10_000_000, 10_000_000), 1_000_000_000);
}

#[test]
fn balanced_when_the_target_side_holds_enough() {
    let pull = Job::new(SatDirection::Pull, 100_000_000, Some(0), 300);
    assert!(pull.is_balanced(1_000_000_000, 600_000_000, 10_000_000, 10_000_000));
    assert!(!pull.is_balanced(1_000_000_000, 400_000_000, 10_000_000, 10_000_000));
    let push = Job::new(SatDirection::Push, 100_000_000, Some(0), 300);
    assert!(push.is_balanced(1_000_000_000, 400_000_000, 10_000_000, 10_000_000));
    assert!(!push.is_balanced(1_000_000_000, 600_000_000, 10_000_000, 10_000_000));
}

#[test]
fn direction_and_state_names() {
    assert_eq!(SatDirection::from_str("pull"), Ok(SatDirection::Pull));
    assert_eq!(SatDirection::from_str("push"), Ok(SatDirection::Push));
    assert_eq!(SatDirection::from_str("Pull"), Err(()));
    assert_eq!(SatDirection::Pull.as_str(), "pull");
    assert_eq!(SatDirection::Push.as_str(), "push");
    assert_eq!(JobMessage::NoRoute.as_str(), "NoRoutes");
    assert_eq!(JobMessage::TooExp.as_str(), "NoCheapRoute");
    assert_eq!(JobMessage::HTLCcapped.as_str(), "HTLCcapped");
}

#[test]
fn target_cap_near_the_reserve() {
    // 1500 msat above the partner's reserve: room for a low target only.
    let mut job = Job::new(SatDirection::Pull, 100_000, Some(0), 300);
    assert!(!job.target_cap_defined(1_000_000, 998_500, 0));
    job.add_target(0.0f64.to_bits());
    assert!(job.target_cap_defined(1_000_000, 998_500, 0));
    assert_eq!(job.target_cap(1_000_000, 998_500, 0), 0);
    // below 1000 msat above the reserve nothing can be worked out
    assert!(!job.target_cap_defined(1_000_000, 999_500, 0));
    // a one-off job aims at the whole capacity in any case
    let mut once = Job::new(SatDirection::Pull, 100_000, Some(0), 300);
    once.add_onceamount_msat(100_000);
    assert!(once.target_cap_defined(1_000, 5_000, 0));
    assert_eq!(once.target_cap(1_000, 5_000, 0), 1_000);
}
