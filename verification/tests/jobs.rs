use sling::jobs::{keep_jobs_on_normal_channels, remove_job, set_job};
use sling::model::{PeerChannel, PubKeyBytes};
use sling::{Job, SatDirection};

fn job(amount: u64) -> Job {
    Job::new(SatDirection::Pull, amount, Some(0), 300)
}

fn channel(short_channel_id: u64, normal: bool) -> PeerChannel {
    PeerChannel {
        short_channel_id: Some(short_channel_id),
        direction: Some(0),
        peer_id: PubKeyBytes::new([2; 33]),
        peer_connected: true,
        normal,
        private: Some(false),
        total_msat: 1_000_000_000,
        to_us_msat: 500_000_000,
        spendable_msat: 300_000_000,
        receivable_msat: 200_000_000,
        their_reserve_msat: 10_000_000,
        our_reserve_msat: 10_000_000,
        fee_base_msat: 0,
        fee_proportional_millionths: 100,
        remote_fee_base_msat: None,
        remote_fee_proportional_millionths: None,
        htlc_count: 0,
        local_alias: None,
        remote_alias: None,
    }
}

#[test]
fn set_job_replaces_the_channels_job() {
    let mut jobs = vec![(1, job(100_000)), (2, job(200_000))];
    set_job(&mut jobs, 1, job(300_000));
    assert_eq!(jobs.len(), 2);
    assert_eq!(jobs.iter().filter(|(c, _)| *c == 1).count(), 1);
    assert_eq!(jobs.iter().find(|(c, _)| *c == 1).map(|(_, j)| j.amount_msat), Some(300_000));
    assert_eq!(jobs.iter().find(|(c, _)| *c == 2).map(|(_, j)| j.amount_msat), Some(200_000));
}

#[test]
fn set_job_adds_a_new_channel() {
    let mut jobs = vec![(1, job(100_000))];
    set_job(&mut jobs, 5, job(50_000));
    assert_eq!(jobs, vec![(1, job(100_000)), (5, job(50_000))]);
}

#[test]
fn remove_job_drops_only_that_channel() {
    let mut jobs = vec![(1, job(100_000)), (2, job(200_000)), (3, job(300_000))];
    remove_job(&mut jobs, 2);
    assert_eq!(jobs, vec![(1, job(100_000)), (3, job(300_000))]);
    remove_job(&mut jobs, 9);
    assert_eq!(jobs.len(), 2);
}

#[test]
fn jobs_on_channels_not_normal_or_unknown_are_dropped() {
    let mut jobs = vec![(1, job(100_000)), (2, job(200_000)), (3, job(300_000))];
    let peer_channels = vec![channel(1, true), channel(2, false)];
    keep_jobs_on_normal_channels(&mut jobs, &peer_channels);
    assert_eq!(jobs, vec![(1, job(100_000))]);
}
