//! What a rebalance does with the answer to its payment: the record it
//! keeps, what it learns of the liquidity along the route, which channel it
//! bans for a while, and whether the job goes on.
use crate::SatDirection;
use crate::config::str_eq;
use crate::dijkstra::SendpayRoute;
use crate::fees::{feeppm_effective_from_amts, spec_feeppm_effective_from_amts};
use crate::model::{
    bytes_lt, contains_key_bytes, FailureReb, PubKeyBytes, ShortChannelIdDir, SuccessReb,
    WaitsendpayErrorData,
};
use crate::util::{bytes_contain, get_direction_from_nodes, str_contains};
use vstd::prelude::*;

verus! {

/// The failure reason recorded when the payment timed out.
pub const TIMEOUT_REASON: &'static str = "WAITSENDPAY_TIMEOUT";
/// The failure reason recorded when the first peer was not ready.
pub const FIRST_PEER_NOT_READY_REASON: &'static str = "FIRST_PEER_NOT_READY";
/// The failure code that, from our own node, means the payment itself is wrong.
pub const PAYMENT_DETAILS_FAILCODE: &'static str = "WIRE_INCORRECT_OR_UNKNOWN_PAYMENT_DETAILS";
/// The text by which a peer says it holds too many HTLCs.
pub const TOO_MANY_HTLCS: &'static str = "Too many HTLCs";
/// The `waitsendpay` error code of a timeout.
pub const WAITSENDPAY_TIMEOUT_CODE: i32 = 200;
/// How long a job pauses when a peer holds too many HTLCs, in seconds.
pub const HTLC_PAUSE_SECS: u64 = 3;

/// The data of a failed `waitsendpay`, as far as it could be read.
#[derive(Debug, Clone)]
pub enum ErrorData {
    Absent,
    Unreadable,
    Read(WaitsendpayErrorData),
}

/// The answer to `waitsendpay`.
#[derive(Debug, Clone)]
pub enum WaitsendpayReply {
    Complete { amount_msat: u64, amount_sent_msat: u64, completed_at: u64 },
    Failed { code: Option<i32>, message: String, data: ErrorData },
}

/// The record a payment's answer leaves.
#[derive(Debug, Clone)]
pub enum PayRecord {
    Nothing,
    Success(SuccessReb),
    Failure(FailureReb),
}

/// What becomes of the route the job keeps for its next try.
#[derive(Debug, Clone, Copy, PartialEq, Eq, Structural)]
pub enum RouteMemory {
    Unchanged,
    Forget,
    Remember,
}

/// Why handling a payment's answer ends the job's round with an error.
#[derive(Debug, Clone, Copy, PartialEq, Eq, Structural)]
pub enum PayError {
    /// A failure without an error code.
    NoErrorCode,
    /// The route has more hops than a record holds (its length is given).
    TooManyHops(usize),
    /// Two neighbouring hops of the route name the same node.
    SameNodes,
    /// The failure's data could not be read.
    UnreadableData,
    /// Our own node found the payment details wrong.
    PaymentDetails,
    /// A failure that is neither a timeout nor has data.
    Unexpected,
    /// `sendpay` failed in a way the job does not expect.
    Sendpay,
}

/// What a rebalance does after `waitsendpay` answered.
#[derive(Debug)]
pub struct WaitsendpayPlan {
    /// The record to write for the job's channel.
    pub record: PayRecord,
    pub route_memory: RouteMemory,
    /// Whether the payment is dropped from those being waited on.
    pub forget_payment: bool,
    /// Directed channels whose liquidity is now taken as zero.
    pub drained: Vec<ShortChannelIdDir>,
    /// A directed channel and the amount it is now taken to forward at most.
    pub constrained: Option<(ShortChannelIdDir, u64)>,
    /// Whether the layers are told of that constraint.
    pub inform_layers: bool,
    /// A channel banned for a while.
    pub tempban: Option<u64>,
    /// Seconds the job pauses.
    pub pause_secs: u64,
    /// The amount delivered, or why the round ends in an error.
    pub result: Result<u64, PayError>,
}

/// The channel a record names as partner: for a pull the route's first,
/// for a push its last.
pub open spec fn spec_channel_partner(dir: SatDirection, route: Seq<SendpayRoute>) -> u64 {
    match dir {
        SatDirection::Pull => route[0].channel,
        SatDirection::Push => route.last().channel,
    }
}

/// Whether the number of hops of a route (one less than its length) fits a
/// record.
pub open spec fn hops_fit(route: Seq<SendpayRoute>) -> bool {
    route.len() - 1 <= u8::MAX
}

/// The direction of the channel between two distinct nodes.
pub open spec fn spec_direction(source: PubKeyBytes, destination: PubKeyBytes) -> u32 {
    if bytes_lt(source.0@, destination.0@) { 0 } else { 1 }
}

/// After a timeout, the directed channels of the first `n` hops whose ends
/// are both other nodes than `me`, and whether no hop before had the same
/// node at both ends (the walk stops at the first such hop).
pub open spec fn spec_drained(route: Seq<SendpayRoute>, me: PubKeyBytes, n: int) -> (Seq<ShortChannelIdDir>, bool)
    decreases n,
{
    if n <= 0 {
        (Seq::empty(), true)
    } else {
        let (prev, ok) = spec_drained(route, me, n - 1);
        let i = n - 1;
        let source = route[i].id;
        let destination = route[i + 1].id;
        if !ok {
            (prev, false)
        } else if source == destination {
            (prev, false)
        } else if source == me || destination == me {
            (prev, true)
        } else {
            (prev.push(ShortChannelIdDir {
                short_channel_id: route[i].channel,
                direction: spec_direction(source, destination),
            }), true)
        }
    }
}

/// Whether `r` is the failure record with these fields.
pub open spec fn is_failure_record(
    r: PayRecord,
    amount_msat: u64,
    reason: Seq<char>,
    node: PubKeyBytes,
    partner: u64,
    hops: u8,
    created_at: u64,
) -> bool {
    match r {
        PayRecord::Failure(f) => {
            &&& f.amount_msat == amount_msat
            &&& f.failure_reason@ == reason
            &&& f.failure_node == node
            &&& f.channel_partner == partner
            &&& f.hops == hops
            &&& f.created_at == created_at
        },
        _ => false,
    }
}

/// Whether the text holds the words of a peer with too many HTLCs.
pub open spec fn says_too_many_htlcs(message: Seq<char>) -> bool {
    bytes_contain(vstd::utf8::encode_utf8(message), vstd::utf8::encode_utf8(TOO_MANY_HTLCS@))
}

/// Whether an answer can be handled: a route of at least one hop whose
/// amounts are consistent, failure data that holds its amount, and a
/// second-to-last hop wherever the last channel erred.
pub open spec fn reply_handled(route: Seq<SendpayRoute>, reply: WaitsendpayReply) -> bool {
    &&& route.len() >= 1
    &&& match reply {
        WaitsendpayReply::Complete { amount_msat, amount_sent_msat, .. } => amount_sent_msat >= amount_msat,
        WaitsendpayReply::Failed { code, data, .. } => match (code, data) {
            (Some(c), ErrorData::Read(d)) => c != WAITSENDPAY_TIMEOUT_CODE ==> {
                &&& d.amount_msat is Some
                &&& d.erring_channel == route.last().channel ==> route.len() >= 2
            },
            _ => true,
        },
    }
}

/// What a rebalance does with the answer to its payment. `me` is our node,
/// `bad_fwd_nodes` the nodes known to forward badly, `now` the time (seconds
/// since the epoch), and `inform` whether the node's version has layers to
/// tell of constraints.
pub fn waitsendpay_plan(
    me: &PubKeyBytes,
    job_amount_msat: u64,
    direction: SatDirection,
    route: &[SendpayRoute],
    reply: &WaitsendpayReply,
    bad_fwd_nodes: &[PubKeyBytes],
    inform: bool,
    now: u64,
) -> (r: WaitsendpayPlan)
    requires
        reply_handled(route@, *reply),
    ensures
        match *reply {
            WaitsendpayReply::Complete { amount_msat, amount_sent_msat, completed_at } => {
                &&& !r.forget_payment
                &&& r.drained@.len() == 0
                &&& r.constrained is None
                &&& !r.inform_layers
                &&& r.tempban is None
                &&& r.pause_secs == 0
                &&& if hops_fit(route@) {
                    &&& r.record == PayRecord::Success(SuccessReb {
                        amount_msat,
                        fee_ppm: spec_feeppm_effective_from_amts(amount_sent_msat, amount_msat),
                        channel_partner: spec_channel_partner(direction, route@),
                        hops: (route@.len() - 1) as u8,
                        completed_at,
                    })
                    &&& r.route_memory == RouteMemory::Remember
                    &&& r.result == Ok::<u64, PayError>(amount_msat)
                } else {
                    &&& r.record is Nothing
                    &&& r.route_memory == RouteMemory::Unchanged
                    &&& r.result == Err::<u64, PayError>(PayError::TooManyHops(route@.len() as usize))
                }
            },
            WaitsendpayReply::Failed { code, message, data } => {
                &&& r.forget_payment
                &&& r.route_memory == RouteMemory::Forget
                &&& match code {
                    None => {
                        &&& r.record is Nothing
                        &&& r.drained@.len() == 0
                        &&& r.constrained is None && !r.inform_layers && r.tempban is None && r.pause_secs == 0
                        &&& r.result == Err::<u64, PayError>(PayError::NoErrorCode)
                    },
                    Some(c) => if c == WAITSENDPAY_TIMEOUT_CODE {
                        let (drained, ok) = spec_drained(route@, *me, route@.len() - 1);
                        &&& r.drained@ == drained
                        &&& r.constrained is None && !r.inform_layers && r.tempban is None && r.pause_secs == 0
                        &&& if !ok {
                            r.record is Nothing && r.result == Err::<u64, PayError>(PayError::SameNodes)
                        } else if !hops_fit(route@) {
                            r.record is Nothing
                                && r.result == Err::<u64, PayError>(PayError::TooManyHops(route@.len() as usize))
                        } else {
                            &&& is_failure_record(r.record, job_amount_msat, TIMEOUT_REASON@, *me,
                                spec_channel_partner(direction, route@), (route@.len() - 1) as u8, now)
                            &&& r.result == Ok::<u64, PayError>(0)
                        }
                    } else {
                        &&& r.drained@.len() == 0
                        &&& match data {
                            ErrorData::Absent => {
                                &&& r.record is Nothing
                                &&& r.constrained is None && !r.inform_layers && r.tempban is None && r.pause_secs == 0
                                &&& r.result == Err::<u64, PayError>(PayError::Unexpected)
                            },
                            ErrorData::Unreadable => {
                                &&& r.record is Nothing
                                &&& r.constrained is None && !r.inform_layers && r.tempban is None && r.pause_secs == 0
                                &&& r.result == Err::<u64, PayError>(PayError::UnreadableData)
                            },
                            ErrorData::Read(d) => if !hops_fit(route@) {
                                &&& r.record is Nothing
                                &&& r.constrained is None && !r.inform_layers && r.tempban is None && r.pause_secs == 0
                                &&& r.result == Err::<u64, PayError>(PayError::TooManyHops(route@.len() as usize))
                            } else {
                                let amount = d.amount_msat->Some_0;
                                let first = route@[0].channel;
                                let last = route@.last().channel;
                                &&& is_failure_record(r.record, amount, d.failcodename@, d.erring_node,
                                    spec_channel_partner(direction, route@), (route@.len() - 1) as u8, d.created_at)
                                &&& if d.failcodename@ == PAYMENT_DETAILS_FAILCODE@ && d.erring_node == *me {
                                    &&& r.constrained is None && !r.inform_layers && r.tempban is None && r.pause_secs == 0
                                    &&& r.result == Err::<u64, PayError>(PayError::PaymentDetails)
                                } else {
                                    &&& r.result == Ok::<u64, PayError>(0)
                                    &&& if d.erring_channel == last {
                                        &&& r.constrained is None && !r.inform_layers
                                        &&& if says_too_many_htlcs(message@) {
                                            r.tempban is None && r.pause_secs == HTLC_PAUSE_SECS
                                        } else if bad_fwd_nodes@.contains(route@[route@.len() - 2].id) {
                                            r.tempban is None && r.pause_secs == 0
                                        } else {
                                            r.tempban == Some(last) && r.pause_secs == 0
                                        }
                                    } else if d.erring_channel == first {
                                        &&& r.constrained is None && !r.inform_layers
                                        &&& if says_too_many_htlcs(message@) {
                                            r.tempban is None && r.pause_secs == HTLC_PAUSE_SECS
                                        } else {
                                            r.tempban == Some(first) && r.pause_secs == 0
                                        }
                                    } else {
                                        &&& r.constrained == Some((ShortChannelIdDir {
                                            short_channel_id: d.erring_channel,
                                            direction: d.erring_direction as u32,
                                        }, amount / 2))
                                        &&& r.inform_layers == inform
                                        &&& r.tempban is None && r.pause_secs == 0
                                    }
                                }
                            },
                        }
                    },
                }
            },
        },
{
    let n = route.len();
    let hops_ok = n - 1 <= 255;
    let partner = match direction {
        SatDirection::Pull => route[0].channel,
        SatDirection::Push => route[n - 1].channel,
    };
    let mut plan = WaitsendpayPlan {
        record: PayRecord::Nothing,
        route_memory: RouteMemory::Forget,
        forget_payment: true,
        drained: Vec::new(),
        constrained: None,
        inform_layers: false,
        tempban: None,
        pause_secs: 0,
        result: Err(PayError::Unexpected),
    };
    match reply {
        WaitsendpayReply::Complete { amount_msat, amount_sent_msat, completed_at } => {
            plan.forget_payment = false;
            if !hops_ok {
                plan.route_memory = RouteMemory::Unchanged;
                plan.result = Err(PayError::TooManyHops(n));
                return plan;
            }
            plan.record = PayRecord::Success(SuccessReb {
                amount_msat: *amount_msat,
                fee_ppm: feeppm_effective_from_amts(*amount_sent_msat, *amount_msat),
                channel_partner: partner,
                hops: (n - 1) as u8,
                completed_at: *completed_at,
            });
            plan.route_memory = RouteMemory::Remember;
            plan.result = Ok(*amount_msat);
            plan
        },
        WaitsendpayReply::Failed { code, message, data } => {
            let c = match code {
                None => {
                    plan.result = Err(PayError::NoErrorCode);
                    return plan;
                },
                Some(c) => *c,
            };
            if c == WAITSENDPAY_TIMEOUT_CODE {
                let (drained, ok) = drained_after_timeout(me, route);
                plan.drained = drained;
                if !ok {
                    plan.result = Err(PayError::SameNodes);
                    return plan;
                }
                if !hops_ok {
                    plan.result = Err(PayError::TooManyHops(n));
                    return plan;
                }
                let reason = TIMEOUT_REASON.to_string();
                proof {
                    vstd::string::to_string_from_display_ensures_for_str(TIMEOUT_REASON, reason);
                }
                plan.record = PayRecord::Failure(FailureReb {
                    amount_msat: job_amount_msat,
                    failure_reason: reason,
                    failure_node: *me,
                    channel_partner: partner,
                    hops: (n - 1) as u8,
                    created_at: now,
                });
                plan.result = Ok(0);
                return plan;
            }
            let d = match data {
                ErrorData::Absent => {
                    plan.result = Err(PayError::Unexpected);
                    return plan;
                },
                ErrorData::Unreadable => {
                    plan.result = Err(PayError::UnreadableData);
                    return plan;
                },
                ErrorData::Read(d) => d,
            };
            if !hops_ok {
                plan.result = Err(PayError::TooManyHops(n));
                return plan;
            }
            let amount = match d.amount_msat {
                Some(a) => a,
                None => 0,
            };
            plan.record = PayRecord::Failure(FailureReb {
                amount_msat: amount,
                failure_reason: d.failcodename.clone(),
                failure_node: d.erring_node,
                channel_partner: partner,
                hops: (n - 1) as u8,
                created_at: d.created_at,
            });
            if str_eq(d.failcodename.as_str(), PAYMENT_DETAILS_FAILCODE) && d.erring_node.same_as(me) {
                plan.result = Err(PayError::PaymentDetails);
                return plan;
            }
            plan.result = Ok(0);
            let first = route[0].channel;
            let last = route[n - 1].channel;
            if d.erring_channel == last {
                if str_contains(message.as_str(), TOO_MANY_HTLCS) {
                    plan.pause_secs = HTLC_PAUSE_SECS;
                } else if !contains_key_bytes(bad_fwd_nodes, &route[n - 2].id) {
                    plan.tempban = Some(last);
                }
            } else if d.erring_channel == first {
                if str_contains(message.as_str(), TOO_MANY_HTLCS) {
                    plan.pause_secs = HTLC_PAUSE_SECS;
                } else {
                    plan.tempban = Some(first);
                }
            } else {
                plan.constrained = Some((ShortChannelIdDir {
                    short_channel_id: d.erring_channel,
                    direction: d.erring_direction as u32,
                }, amount / 2));
                plan.inform_layers = inform;
            }
            plan
        },
    }
}

/// After a timeout, the directed channels of the route between other nodes
/// than `me`, walked up to the first hop that has the same node at both
/// ends, and whether there was none.
pub fn drained_after_timeout(me: &PubKeyBytes, route: &[SendpayRoute]) -> (r: (Vec<ShortChannelIdDir>, bool))
    requires
        route@.len() >= 1,
    ensures
        r.0@ == spec_drained(route@, *me, route@.len() - 1).0,
        r.1 == spec_drained(route@, *me, route@.len() - 1).1,
{
    let mut out: Vec<ShortChannelIdDir> = Vec::new();
    let mut i: usize = 0;
    while i < route.len() - 1
        invariant
            route@.len() >= 1,
            i <= route@.len() - 1,
            out@ == spec_drained(route@, *me, i as int).0,
            spec_drained(route@, *me, i as int).1,
        decreases route@.len() - 1 - i,
    {
        let source = route[i].id;
        let destination = route[i + 1].id;
        let direction = match get_direction_from_nodes(source, destination) {
            Ok(d) => d,
            Err(_) => {
                proof {
                    crate::graph::lemma_bytes_lt_total(source.0@, destination.0@);
                    assert(source.0@ =~= destination.0@);
                    assert(source.0 == destination.0);
                    assert(spec_drained(route@, *me, i + 1).1 == false);
                    lemma_drained_stops(route@, *me, i + 1, route@.len() - 1);
                }
                return (out, false);
            },
        };
        proof {
            crate::graph::lemma_bytes_lt_total(source.0@, destination.0@);
            if source.0@ == destination.0@ {
                assert(source.0 == destination.0);
            }
        }
        if !source.same_as(me) && !destination.same_as(me) {
            out.push(ShortChannelIdDir { short_channel_id: route[i].channel, direction });
        }
        i = i + 1;
    }
    (out, true)
}

/// Once the timeout walk has stopped, walking further changes nothing.
pub proof fn lemma_drained_stops(route: Seq<SendpayRoute>, me: PubKeyBytes, k: int, n: int)
    requires
        0 <= k <= n,
        !spec_drained(route, me, k).1,
    ensures
        spec_drained(route, me, n) == spec_drained(route, me, k),
    decreases n - k,
{
    if k < n {
        lemma_drained_stops(route, me, k, n - 1);
    }
}

/// What a rebalance does when `sendpay` itself failed with `message`: a
/// first peer that is not ready is banned for a while and the failure
/// recorded; anything else ends the round with an error.
pub fn sendpay_failure_plan(
    job_amount_msat: u64,
    direction: SatDirection,
    route: &[SendpayRoute],
    message: &str,
    now: u64,
) -> (r: WaitsendpayPlan)
    requires
        route@.len() >= 1,
    ensures
        !r.forget_payment,
        r.drained@.len() == 0,
        r.constrained is None,
        !r.inform_layers,
        r.pause_secs == 0,
        if bytes_contain(vstd::utf8::encode_utf8(message@), vstd::utf8::encode_utf8(FIRST_PEER_NOT_READY@)) {
            &&& r.tempban == Some(route@[0].channel)
            &&& r.route_memory == RouteMemory::Forget
            &&& if hops_fit(route@) {
                &&& is_failure_record(r.record, job_amount_msat, FIRST_PEER_NOT_READY_REASON@, route@[0].id,
                    spec_channel_partner(direction, route@), (route@.len() - 1) as u8, now)
                &&& r.result == Ok::<u64, PayError>(0)
            } else {
                r.record is Nothing && r.result == Err::<u64, PayError>(PayError::TooManyHops(route@.len() as usize))
            }
        } else {
            &&& r.tempban is None
            &&& r.route_memory == RouteMemory::Unchanged
            &&& r.record is Nothing
            &&& r.result == Err::<u64, PayError>(PayError::Sendpay)
        },
{
    let n = route.len();
    let mut plan = WaitsendpayPlan {
        record: PayRecord::Nothing,
        route_memory: RouteMemory::Unchanged,
        forget_payment: false,
        drained: Vec::new(),
        constrained: None,
        inform_layers: false,
        tempban: None,
        pause_secs: 0,
        result: Err(PayError::Sendpay),
    };
    if !str_contains(message, FIRST_PEER_NOT_READY) {
        return plan;
    }
    plan.tempban = Some(route[0].channel);
    plan.route_memory = RouteMemory::Forget;
    if n - 1 > 255 {
        plan.result = Err(PayError::TooManyHops(n));
        return plan;
    }
    let partner = match direction {
        SatDirection::Pull => route[0].channel,
        SatDirection::Push => route[n - 1].channel,
    };
    let reason = FIRST_PEER_NOT_READY_REASON.to_string();
    proof {
        vstd::string::to_string_from_display_ensures_for_str(FIRST_PEER_NOT_READY_REASON, reason);
    }
    plan.record = PayRecord::Failure(FailureReb {
        amount_msat: job_amount_msat,
        failure_reason: reason,
        failure_node: route[0].id,
        channel_partner: partner,
        hops: (n - 1) as u8,
        created_at: now,
    });
    plan.result = Ok(0);
    plan
}

/// The text by which `sendpay` says the first peer is not ready.
pub const FIRST_PEER_NOT_READY: &'static str = "First peer not ready";

} // verus!
