use sling::model::{FailureReb, PeerChannel, PubKeyBytes, SuccessReb};
use sling::stats::{failures_fit_exec, successes_fit_exec, window_fits_exec};
use sling::stats::{
    channel_summary, failure_stats, get_stats_alias, prune_failures, prune_successes, success_stats,
};

const DAY: u64 = 86_400;

fn success(amount_msat: u64, fee_ppm: u32, partner: u64, hops: u8, at: u64) -> SuccessReb {
    SuccessReb { amount_msat, fee_ppm, channel_partner: partner, hops, completed_at: at }
}

fn failure(amount_msat: u64, reason: &str, node: u8, partner: u64, hops: u8, at: u64) -> FailureReb {
    FailureReb {
        amount_msat,
        failure_reason: reason.to_string(),
        failure_node: PubKeyBytes::new([node; 33]),
        channel_partner: partner,
        hops,
        created_at: at,
    }
}

fn channel(scid: u64, peer: u8) -> PeerChannel {
    PeerChannel {
        short_channel_id: Some(scid),
        direction: Some(0),
        peer_id: PubKeyBytes::new([peer; 33]),
        peer_connected: true,
        normal: true,
        private: Some(false),
        total_msat: 1_000_000_000,
        to_us_msat: 500_000_000,
        spendable_msat: 400_000_000,
        receivable_msat: 400_000_000,
        their_reserve_msat: 10_000_000,
        our_reserve_msat: 10_000_000,
        fee_base_msat: 0,
        fee_proportional_millionths: 100,
        remote_fee_base_msat: Some(0),
        remote_fee_proportional_millionths: Some(50),
        htlc_count: 0,
        local_alias: None,
        remote_alias: None,
    }
}

#[test]
fn success_stats_of_nothing_is_none() {
    assert!(success_stats(&[], 30, 100 * DAY).is_none());
}

#[test]
fn success_stats_outside_window_is_none() {
    let now = 100 * DAY;
    assert!(success_stats(&[success(1_000_000, 10, 1, 3, now - 40 * DAY)], 30, now).is_none());
}

#[test]
fn success_stats_sums_and_ranks() {
    let now = 100 * DAY;
    let s = vec![
        success(100_000_000, 100, 7, 3, now - DAY),
        success(300_000_000, 200, 8, 4, now - 2 * DAY),
        success(100_000_000, 300, 7, 3, now - 3 * DAY),
        success(500_000_000, 900, 9, 5, now - 40 * DAY),
    ];
    let st = success_stats(&s, 30, now).unwrap();
    assert_eq!(st.time_window_days, 30);
    assert_eq!(st.total_rebalances, 3);
    assert_eq!(st.total_amount_sats, 500_000);
    // (100*1e8 + 200*3e8 + 300*1e8) / 5e8 = 200
    assert_eq!(st.feeppm_weighted_avg, 200);
    assert_eq!(st.feeppm_min, 100);
    assert_eq!(st.feeppm_max, 300);
    assert_eq!(st.feeppm_median, 200);
    // ceil(3 * 0.9) - 1 = 2
    assert_eq!(st.feeppm_90th_percentile, 300);
    assert_eq!(st.top_5_channel_partners, vec![(8, 300_000), (7, 200_000)]);
    assert_eq!(st.most_common_hop_count, Some(3));
    assert_eq!(st.last_rebalance_at, now - DAY);
    // in binary64, 200 * 0.000001 * 500_000_000 is 99999.99999999999 msat
    assert_eq!(st.total_spent_sats, 99);
}

#[test]
fn success_stats_all_time_window() {
    let s = vec![success(2_000_000, 5, 1, 2, 10)];
    let st = success_stats(&s, 0, 20).unwrap();
    assert_eq!(st.time_window_days, 0);
    assert_eq!(st.total_rebalances, 1);
    assert_eq!(st.feeppm_90th_percentile, 5);
}

#[test]
fn failure_stats_counts_reasons_and_nodes() {
    let now = 100 * DAY;
    let f = vec![
        failure(1_000_000, "WIRE_TEMPORARY_CHANNEL_FAILURE", 3, 11, 4, now - DAY),
        failure(2_000_000, "WIRE_TEMPORARY_CHANNEL_FAILURE", 4, 12, 4, now - DAY),
        failure(3_000_000, "WAITSENDPAY_TIMEOUT", 3, 11, 5, now - DAY),
        failure(9_000_000, "OLD", 5, 13, 6, now - 50 * DAY),
    ];
    let st = failure_stats(&f, 30, now).unwrap();
    assert_eq!(st.total_rebalances_tried, 3);
    assert_eq!(st.total_amount_tried_sats, 6_000);
    assert_eq!(st.top_5_failure_reasons.len(), 2);
    assert_eq!(st.top_5_failure_reasons[0].failure_reason, "WIRE_TEMPORARY_CHANNEL_FAILURE");
    assert_eq!(st.top_5_failure_reasons[0].failure_count, 2);
    assert_eq!(st.top_5_failure_reasons[1].failure_reason, "WAITSENDPAY_TIMEOUT");
    assert_eq!(st.top_5_failure_reasons[1].failure_count, 1);
    assert_eq!(st.top_5_fail_nodes, vec![(PubKeyBytes::new([3; 33]), 2), (PubKeyBytes::new([4; 33]), 1)]);
    assert_eq!(st.top_5_channel_partners, vec![(11, 4_000), (12, 2_000)]);
    assert_eq!(st.most_common_hop_count, Some(4));
    assert_eq!(st.last_attempt_at, now - DAY);
}

#[test]
fn prune_keeps_recent_and_last() {
    let now = 100 * DAY;
    let s = vec![
        success(1, 1, 1, 1, now - 50 * DAY),
        success(2, 1, 1, 1, now - 3 * DAY),
        success(3, 1, 1, 1, now - 2 * DAY),
        success(4, 1, 1, 1, now - DAY),
    ];
    let kept = prune_successes(&s, 30, 2, now);
    assert_eq!(kept.iter().map(|r| r.amount_msat).collect::<Vec<_>>(), vec![3, 4]);
    let all = prune_successes(&s, 0, 0, now);
    assert_eq!(all.len(), 4);
    let again = prune_successes(&kept, 30, 2, now);
    assert_eq!(again, kept);
}

#[test]
fn prune_zero_limit_deletes_nothing_by_that_limit() {
    let now = 100 * DAY;
    let s = vec![
        success(1, 1, 1, 1, now - 50 * DAY),
        success(2, 1, 1, 1, now - 3 * DAY),
        success(3, 1, 1, 1, now - DAY),
    ];
    let by_count = prune_successes(&s, 0, 2, now);
    assert_eq!(by_count.iter().map(|r| r.amount_msat).collect::<Vec<_>>(), vec![2, 3]);
    let by_age = prune_successes(&s, 30, 0, now);
    assert_eq!(by_age.iter().map(|r| r.amount_msat).collect::<Vec<_>>(), vec![2, 3]);
    let old = vec![success(7, 1, 1, 1, now - 90 * DAY)];
    assert_eq!(prune_successes(&old, 0, 5, now), old);
}

#[test]
fn prune_failures_by_size() {
    let f = vec![failure(1, "a", 1, 1, 1, 10), failure(2, "b", 1, 1, 1, 20), failure(3, "c", 1, 1, 1, 30)];
    let kept = prune_failures(&f, 0, 1, 40);
    assert_eq!(kept.len(), 1);
    assert_eq!(kept[0].failure_reason, "c");
}

#[test]
fn channel_summary_of_window() {
    let now = 100 * DAY;
    let s = vec![success(100_000, 10, 1, 2, now - DAY), success(300_000, 30, 1, 2, now - 2 * DAY)];
    let f = vec![failure(1, "x", 1, 1, 1, now - 5)];
    let sum = channel_summary(&s, &f, 30, now);
    assert_eq!(sum.total_amount_msat, 400_000);
    assert_eq!(sum.weighted_fee_ppm, 25);
    assert_eq!(sum.last_route_success, now - 2 * DAY);
    assert_eq!(sum.last_route_failure, now - 5);
    let none = channel_summary(&[], &[], 30, now);
    assert_eq!(none.total_amount_msat, 0);
    assert_eq!(none.last_route_success, 0);
}

#[test]
fn stats_alias_lookup() {
    let chans = vec![channel(5, 9)];
    let aliases = vec![(PubKeyBytes::new([9; 33]), "bob".to_string())];
    assert_eq!(get_stats_alias(&chans, 5, &aliases), "bob");
    assert_eq!(get_stats_alias(&chans, 5, &[]), "ALIAS_NOT_FOUND");
    assert_eq!(get_stats_alias(&chans, 6, &aliases), "PEER_NOT_FOUND");
}

#[test]
fn statistics_fit_checks() {
    assert!(window_fits_exec(0, 0));
    assert!(window_fits_exec(1, 86_400));
    assert!(!window_fits_exec(1, 86_399));
    assert!(!window_fits_exec(u64::MAX, u64::MAX));
    assert!(successes_fit_exec(&[], 5, 0));
    assert!(failures_fit_exec(&[], 5, 0));
    let rec = |amount_msat: u64, fee_ppm: u32| SuccessReb { amount_msat, fee_ppm, channel_partner: 1, hops: 2, completed_at: 100 };
    assert!(successes_fit_exec(&[rec(1_000, 10)], 0, 200));
    assert!(!successes_fit_exec(&[rec(0, 10)], 0, 200));
    assert!(!successes_fit_exec(&[rec(u64::MAX, 0), rec(1, 0)], 0, 200));
    assert!(!successes_fit_exec(&[rec(u64::MAX / 2, 3)], 0, 200));
    assert!(!successes_fit_exec(&[rec(1_000, 10)], 1, 200));
}
