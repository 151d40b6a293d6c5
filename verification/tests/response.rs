use sling::dijkstra::SendpayRoute;
use sling::htlc::{htlc_verdict, HtlcVerdict, PayResolveInfo};
use sling::model::{PeerChannel, PubKeyBytes, ShortChannelIdDir, WaitsendpayErrorData};
use sling::response::{
    sendpay_failure_plan, waitsendpay_plan, ErrorData, PayError, PayRecord, RouteMemory, WaitsendpayReply,
};
use sling::SatDirection;

fn key(b: u8) -> PubKeyBytes {
    PubKeyBytes::new([b; 33])
}

fn hop(amount_msat: u64, id: u8, channel: u64) -> SendpayRoute {
    SendpayRoute { amount_msat, id: key(id), delay: 9, channel }
}

// me(1) -> a(2) over 100, a -> b(3) over 200, b -> me over 300
fn route() -> Vec<SendpayRoute> {
    vec![hop(1_000_300, 2, 100), hop(1_000_100, 3, 200), hop(1_000_000, 1, 300)]
}

fn failed(code: Option<i32>, message: &str, data: ErrorData) -> WaitsendpayReply {
    WaitsendpayReply::Failed { code, message: message.to_string(), data }
}

fn data(erring_channel: u64, failcodename: &str, node: u8) -> ErrorData {
    ErrorData::Read(WaitsendpayErrorData {
        amount_msat: Some(1_000_100),
        created_at: 77,
        erring_node: key(node),
        erring_channel,
        erring_direction: 1,
        failcodename: failcodename.to_string(),
    })
}

#[test]
fn success_records_and_remembers() {
    let reply = WaitsendpayReply::Complete { amount_msat: 1_000_000, amount_sent_msat: 1_000_300, completed_at: 55 };
    let plan = waitsendpay_plan(&key(1), 1_000_000, SatDirection::Pull, &route(), &reply, &[], true, 99);
    match plan.record {
        PayRecord::Success(s) => {
            assert_eq!(s.amount_msat, 1_000_000);
            assert_eq!(s.fee_ppm, 300);
            assert_eq!(s.channel_partner, 100);
            assert_eq!(s.hops, 2);
            assert_eq!(s.completed_at, 55);
        },
        _ => panic!("expected a success record"),
    }
    assert_eq!(plan.route_memory, RouteMemory::Remember);
    assert_eq!(plan.result, Ok(1_000_000));
    assert!(!plan.forget_payment);
}

#[test]
fn timeout_drains_inner_hops() {
    let plan = waitsendpay_plan(&key(1), 1_000_000, SatDirection::Push, &route(), &failed(Some(200), "timeout", ErrorData::Absent), &[], true, 99);
    // only the pair a(2), b(3) has neither end at our node; it is filed
    // under the channel of the route's entry for a
    assert_eq!(plan.drained, vec![ShortChannelIdDir { short_channel_id: 100, direction: 0 }]);
    match plan.record {
        PayRecord::Failure(f) => {
            assert_eq!(f.failure_reason, "WAITSENDPAY_TIMEOUT");
            assert_eq!(f.channel_partner, 300);
            assert_eq!(f.created_at, 99);
        },
        _ => panic!("expected a failure record"),
    }
    assert_eq!(plan.result, Ok(0));
    assert_eq!(plan.route_memory, RouteMemory::Forget);
    assert!(plan.forget_payment);
}

#[test]
fn failure_without_code_is_an_error() {
    let plan = waitsendpay_plan(&key(1), 1, SatDirection::Pull, &route(), &failed(None, "?", ErrorData::Absent), &[], true, 1);
    assert_eq!(plan.result, Err(PayError::NoErrorCode));
    assert!(matches!(plan.record, PayRecord::Nothing));
}

#[test]
fn failure_data_unreadable_or_absent() {
    let plan = waitsendpay_plan(&key(1), 1, SatDirection::Pull, &route(), &failed(Some(204), "?", ErrorData::Unreadable), &[], true, 1);
    assert_eq!(plan.result, Err(PayError::UnreadableData));
    let plan = waitsendpay_plan(&key(1), 1, SatDirection::Pull, &route(), &failed(Some(204), "?", ErrorData::Absent), &[], true, 1);
    assert_eq!(plan.result, Err(PayError::Unexpected));
}

#[test]
fn middle_failure_constrains_liquidity() {
    let plan = waitsendpay_plan(&key(1), 1, SatDirection::Pull, &route(), &failed(Some(204), "failed", data(200, "WIRE_TEMPORARY_CHANNEL_FAILURE", 3)), &[], true, 1);
    assert_eq!(plan.constrained, Some((ShortChannelIdDir { short_channel_id: 200, direction: 1 }, 500_050)));
    assert!(plan.inform_layers);
    assert_eq!(plan.result, Ok(0));
    match plan.record {
        PayRecord::Failure(f) => {
            assert_eq!(f.failure_reason, "WIRE_TEMPORARY_CHANNEL_FAILURE");
            assert_eq!(f.failure_node, key(3));
            assert_eq!(f.created_at, 77);
        },
        _ => panic!("expected a failure record"),
    }
}

#[test]
fn last_channel_failure_bans_or_pauses() {
    let plan = waitsendpay_plan(&key(1), 1, SatDirection::Pull, &route(), &failed(Some(204), "failed", data(300, "X", 3)), &[], false, 1);
    assert_eq!(plan.tempban, Some(300));
    let plan = waitsendpay_plan(&key(1), 1, SatDirection::Pull, &route(), &failed(Some(204), "Too many HTLCs", data(300, "X", 3)), &[], false, 1);
    assert_eq!(plan.tempban, None);
    assert_eq!(plan.pause_secs, 3);
    let plan = waitsendpay_plan(&key(1), 1, SatDirection::Pull, &route(), &failed(Some(204), "failed", data(300, "X", 3)), &[key(3)], false, 1);
    assert_eq!(plan.tempban, None);
    assert_eq!(plan.pause_secs, 0);
}

#[test]
fn first_channel_failure_bans() {
    let plan = waitsendpay_plan(&key(1), 1, SatDirection::Pull, &route(), &failed(Some(204), "failed", data(100, "X", 2)), &[], false, 1);
    assert_eq!(plan.tempban, Some(100));
}

#[test]
fn payment_details_error_from_us_stops() {
    let plan = waitsendpay_plan(&key(1), 1, SatDirection::Pull, &route(), &failed(Some(204), "failed", data(300, "WIRE_INCORRECT_OR_UNKNOWN_PAYMENT_DETAILS", 1)), &[], false, 1);
    assert_eq!(plan.result, Err(PayError::PaymentDetails));
    assert!(matches!(plan.record, PayRecord::Failure(_)));
}

#[test]
fn sendpay_first_peer_not_ready() {
    let plan = sendpay_failure_plan(5, SatDirection::Push, &route(), "First peer not ready", 42);
    assert_eq!(plan.tempban, Some(100));
    assert_eq!(plan.result, Ok(0));
    match plan.record {
        PayRecord::Failure(f) => {
            assert_eq!(f.failure_reason, "FIRST_PEER_NOT_READY");
            assert_eq!(f.failure_node, key(2));
            assert_eq!(f.channel_partner, 300);
        },
        _ => panic!("expected a failure record"),
    }
    let plan = sendpay_failure_plan(5, SatDirection::Push, &route(), "something else", 42);
    assert_eq!(plan.result, Err(PayError::Sendpay));
}

fn channel(scid: u64, peer: u8) -> PeerChannel {
    PeerChannel {
        short_channel_id: Some(scid),
        direction: Some(0),
        peer_id: key(peer),
        peer_connected: true,
        normal: true,
        private: Some(false),
        total_msat: 1,
        to_us_msat: 1,
        spendable_msat: 1,
        receivable_msat: 1,
        their_reserve_msat: 0,
        our_reserve_msat: 0,
        fee_base_msat: 0,
        fee_proportional_millionths: 0,
        remote_fee_base_msat: None,
        remote_fee_proportional_millionths: None,
        htlc_count: 0,
        local_alias: None,
        remote_alias: None,
    }
}

#[test]
fn htlc_verdicts() {
    let pay = PayResolveInfo { preimage: "00".to_string(), incoming_scid: 300, incoming_alias: Some(301), amount_msat: 1_000 };
    let chans = vec![channel(400, 4)];
    assert!(matches!(htlc_verdict(true, 300, 1_000, Some(&pay), &chans), HtlcVerdict::Continue));
    assert!(matches!(htlc_verdict(false, 300, 1_000, None, &chans), HtlcVerdict::Continue));
    assert!(matches!(htlc_verdict(false, 300, 1_000, Some(&pay), &chans), HtlcVerdict::Resolve));
    assert!(matches!(htlc_verdict(false, 301, 1_000, Some(&pay), &chans), HtlcVerdict::Resolve));
    match htlc_verdict(false, 400, 1_000, Some(&pay), &chans) {
        HtlcVerdict::Fail { keep_pay, bad_node } => {
            assert!(keep_pay);
            assert_eq!(bad_node, Some(key(4)));
        },
        _ => panic!("expected a failure"),
    }
    assert!(matches!(htlc_verdict(false, 300, 999, Some(&pay), &chans), HtlcVerdict::Fail { keep_pay: false, bad_node: None }));
}
