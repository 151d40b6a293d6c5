use std::collections::HashMap;

use sling::dijkstra::dijkstra;
use sling::double::scaled_by;
use sling::gossip::{extract_scid, parse_channel_update, GossipError};
use sling::graph::{get_node_order, private_states, LnGraph, LocalPolicy, ShortChannelIdDirState};
use sling::model::{PubKeyBytes, ShortChannelIdDir};
use sling::util::get_direction_from_nodes;
use sling::SatDirection;

fn key(b: u8) -> PubKeyBytes {
    PubKeyBytes::new([b; 33])
}

fn state(source: u8, destination: u8, base: u32, ppm: u32, now: u32) -> ShortChannelIdDirState {
    ShortChannelIdDirState {
        source: key(source),
        destination: key(destination),
        active: true,
        scid_alias: None,
        fee_per_millionth: ppm,
        base_fee_millisatoshi: base,
        htlc_maximum_msat: 10_000_000_000,
        htlc_minimum_msat: 0,
        delay: 40,
        last_update: now,
        private: false,
    }
}

#[test]
fn scaled_by_half() {
    assert_eq!(scaled_by(1_000, 0.5f64.to_bits()), 500);
    assert_eq!(scaled_by(1_000, 0.2f64.to_bits()), (1_000f64 * 0.2) as u64);
    assert_eq!(scaled_by(7, f64::NAN.to_bits()), 0);
    assert_eq!(scaled_by(7, (-1.0f64).to_bits()), 0);
    assert_eq!(scaled_by(7, f64::INFINITY.to_bits()), u64::MAX);
}

#[test]
fn directions_of_node_pairs() {
    assert_eq!(get_direction_from_nodes(key(1), key(2)), Ok(0));
    assert_eq!(get_direction_from_nodes(key(2), key(1)), Ok(1));
    assert_eq!(get_direction_from_nodes(key(2), key(2)), Err(()));
    assert_eq!(get_node_order(0, key(2), key(1)).unwrap(), (key(1), key(2)));
    assert_eq!(get_node_order(1, key(2), key(1)).unwrap(), (key(2), key(1)));
    assert!(get_node_order(2, key(2), key(1)).is_err());
}

#[test]
fn gossip_scid_and_update_fields() {
    assert_eq!(extract_scid(&[0, 0, 0, 0, 0, 0, 1, 2]), Ok(0x0102));
    assert_eq!(extract_scid(&[1, 2, 3]), Err(GossipError::WrongScidLength(3)));
    let mut msg = vec![0u8; 136];
    msg[96..104].copy_from_slice(&42u64.to_be_bytes());
    msg[104..108].copy_from_slice(&1_700_000_000u32.to_be_bytes());
    msg[109] = 0b11;
    msg[110..112].copy_from_slice(&144u16.to_be_bytes());
    msg[112..120].copy_from_slice(&1_000u64.to_be_bytes());
    msg[120..124].copy_from_slice(&1u32.to_be_bytes());
    msg[124..128].copy_from_slice(&250u32.to_be_bytes());
    msg[128..136].copy_from_slice(&99_000u64.to_be_bytes());
    let (sd, upd) = parse_channel_update(&msg);
    assert_eq!(sd, ShortChannelIdDir { short_channel_id: 42, direction: 1 });
    assert!(!upd.active);
    assert_eq!(upd.last_update, 1_700_000_000);
    assert_eq!(upd.delay, 144);
    assert_eq!(upd.htlc_minimum_msat, 1_000);
    assert_eq!(upd.base_fee_millisatoshi, 1);
    assert_eq!(upd.fee_per_millionth, 250);
    assert_eq!(upd.htlc_maximum_msat, 99_000);
}

#[test]
fn graph_read_after_write() {
    let mut g = LnGraph::new();
    let sd = ShortChannelIdDir { short_channel_id: 7, direction: 0 };
    assert!(g.get_state(&sd).is_none());
    assert!(g.insert(sd, state(1, 2, 0, 0, 10)).is_none());
    assert_eq!(g.get_state(&sd).unwrap().destination, key(2));
    assert!(g.insert(sd, state(1, 2, 5, 0, 11)).is_some());
    assert_eq!(g.get_state(&sd).unwrap().base_fee_millisatoshi, 5);
    assert!(g.remove(&sd).is_some());
    assert!(g.get_state(&sd).is_none());
}

#[test]
fn dijkstra_finds_circular_route() {
    let now: u64 = 1_700_000_000;
    let me = 1;
    let other = 3;
    let hub = 5;
    let (c1, c2, job_chan) = (100u64, 200u64, 300u64);
    let mut g = LnGraph::new();
    // me -> hub over c1, hub -> other over c2, other -> me over the job's channel
    g.insert(ShortChannelIdDir { short_channel_id: c1, direction: 0 }, state(me, hub, 0, 0, now as u32));
    g.insert(ShortChannelIdDir { short_channel_id: c2, direction: 1 }, state(hub, other, 0, 0, now as u32));
    g.insert(ShortChannelIdDir { short_channel_id: job_chan, direction: 1 }, state(other, me, 0, 0, now as u32));
    let route = dijkstra(
        &g, &key(me), &key(other), job_chan, SatDirection::Pull, 100_000_000, 8, 144, now,
        &[c1], &[], &[], &HashMap::new(),
    )
    .unwrap();
    assert_eq!(route.iter().map(|h| h.channel).collect::<Vec<_>>(), vec![c1, c2, job_chan]);
    assert_eq!(route.iter().map(|h| h.id).collect::<Vec<_>>(), vec![key(hub), key(other), key(me)]);
    assert!(route.iter().all(|h| h.amount_msat == 100_000_000));
}

#[test]
fn dijkstra_without_the_job_channel() {
    let g = LnGraph::new();
    assert!(dijkstra(&g, &key(1), &key(3), 300, SatDirection::Pull, 1, 8, 144, 0, &[], &[], &[], &HashMap::new()).is_err());
}

#[test]
fn retain_keeps_what_the_predicate_accepts() {
    let mut g = LnGraph::new();
    let a = ShortChannelIdDir { short_channel_id: 10, direction: 0 };
    let b = ShortChannelIdDir { short_channel_id: 11, direction: 1 };
    let c = ShortChannelIdDir { short_channel_id: 12, direction: 0 };
    g.insert(a, state(1, 2, 0, 10, 5));
    g.insert(b, state(2, 1, 0, 500, 5));
    g.insert(c, state(1, 3, 0, 20, 5));
    g.retain(|_, st| st.fee_per_millionth < 100);
    assert!(g.get_state(&a).is_some());
    assert!(g.get_state(&b).is_none());
    assert!(g.get_state(&c).is_some());
    assert_eq!(g.public_channel_count(), 2);
}

#[test]
fn private_channel_enters_graph_both_ways() {
    let local = LocalPolicy {
        fee_proportional_millionths: 10,
        fee_base_msat: (1u64 << 32) + 7,
        htlc_minimum_msat: 1,
        htlc_maximum_msat: 5_000,
        cltv_expiry_delta: 18,
    };
    let remote = LocalPolicy {
        fee_proportional_millionths: 20,
        fee_base_msat: 3,
        htlc_minimum_msat: 2,
        htlc_maximum_msat: 6_000,
        cltv_expiry_delta: 40,
    };
    let out = private_states(Some(true), true, 77, 0, key(1), key(2), true, 111, 222, local, Some(remote), 9);
    assert_eq!(out.len(), 2);
    assert_eq!(out[0].0, ShortChannelIdDir { short_channel_id: 77, direction: 0 });
    assert_eq!(out[0].1.source, key(1));
    assert_eq!(out[0].1.destination, key(2));
    assert_eq!(out[0].1.scid_alias, Some(111));
    assert_eq!(out[0].1.base_fee_millisatoshi, 7);
    assert_eq!(out[0].1.last_update, 9);
    assert!(out[0].1.private);
    assert_eq!(out[1].0, ShortChannelIdDir { short_channel_id: 77, direction: 1 });
    assert_eq!(out[1].1.source, key(2));
    assert_eq!(out[1].1.destination, key(1));
    assert_eq!(out[1].1.scid_alias, Some(222));
    assert_eq!(out[1].1.fee_per_millionth, 20);
    assert_eq!(out[1].1.delay, 40);
}

#[test]
fn public_or_unsettled_channels_add_nothing() {
    let p = LocalPolicy {
        fee_proportional_millionths: 0,
        fee_base_msat: 0,
        htlc_minimum_msat: 0,
        htlc_maximum_msat: 1,
        cltv_expiry_delta: 6,
    };
    assert!(private_states(Some(false), true, 1, 0, key(1), key(2), true, 1, 2, p, Some(p), 0).is_empty());
    assert!(private_states(None, true, 1, 0, key(1), key(2), true, 1, 2, p, Some(p), 0).is_empty());
    assert!(private_states(Some(true), false, 1, 0, key(1), key(2), true, 1, 2, p, Some(p), 0).is_empty());
    assert!(private_states(Some(true), true, 1, 0, key(1), key(2), true, 1, 2, p, None, 0).is_empty());
}

#[test]
fn dijkstra_owes_a_route_on_a_short_graph() {
    // me -> hub -> other, the job channel other -> me: every path from me has
    // at most two hops, well within the hop limit, so a route is found.
    let now: u64 = 1_700_000_000;
    let mut g = LnGraph::new();
    g.insert(ShortChannelIdDir { short_channel_id: 10, direction: 0 }, state(1, 5, 1, 1, now as u32));
    g.insert(ShortChannelIdDir { short_channel_id: 20, direction: 0 }, state(5, 3, 1, 1, now as u32));
    g.insert(ShortChannelIdDir { short_channel_id: 30, direction: 1 }, state(3, 1, 0, 0, now as u32));
    let route = dijkstra(
        &g, &key(1), &key(3), 30, SatDirection::Pull, 1_000_000, 5, 144, now,
        &[10], &[], &[], &HashMap::new(),
    )
    .unwrap();
    assert!(!route.is_empty());
    assert_eq!(route.last().unwrap().channel, 30);
    assert_eq!(route.last().unwrap().amount_msat, 1_000_000);
}

#[test]
fn dijkstra_hop_limit_cuts_a_cheaper_detour() {
    // Push from other (3) back to me (1): other -> A (4) is dear, the detour
    // other -> B (5) -> C (6) -> A is cheap, A -> me closes the circle. The
    // search reaches A over the detour with three hops; with a hop limit of
    // four it does not go on from A, so no route comes back although
    // other -> A -> me would fit. With five it does.
    let now: u64 = 1_700_000_000;
    let t = now as u32;
    let mut g = LnGraph::new();
    g.insert(ShortChannelIdDir { short_channel_id: 300, direction: 0 }, state(1, 3, 0, 0, t));
    g.insert(ShortChannelIdDir { short_channel_id: 300, direction: 1 }, state(3, 1, 0, 0, t));
    g.insert(ShortChannelIdDir { short_channel_id: 10, direction: 0 }, state(3, 4, 1_000, 5_000, t));
    g.insert(ShortChannelIdDir { short_channel_id: 11, direction: 0 }, state(3, 5, 0, 1, t));
    g.insert(ShortChannelIdDir { short_channel_id: 12, direction: 0 }, state(5, 6, 0, 1, t));
    g.insert(ShortChannelIdDir { short_channel_id: 13, direction: 0 }, state(6, 4, 0, 1, t));
    g.insert(ShortChannelIdDir { short_channel_id: 14, direction: 0 }, state(4, 1, 0, 0, t));
    let cut = dijkstra(
        &g, &key(1), &key(3), 300, SatDirection::Push, 100_000_000, 4, 144, now,
        &[14], &[], &[], &HashMap::new(),
    )
    .unwrap();
    assert!(cut.is_empty());
    let found = dijkstra(
        &g, &key(1), &key(3), 300, SatDirection::Push, 100_000_000, 5, 144, now,
        &[14], &[], &[], &HashMap::new(),
    )
    .unwrap();
    assert_eq!(found.iter().map(|h| h.channel).collect::<Vec<_>>(), vec![300, 11, 12, 13, 14]);
}

#[test]
fn dijkstra_takes_the_cheaper_of_two_ways() {
    // me (1) -> A (4) -> other (3) is dear, me -> B (5) -> other is cheap.
    let now: u64 = 1_700_000_000;
    let t = now as u32;
    let mut g = LnGraph::new();
    g.insert(ShortChannelIdDir { short_channel_id: 300, direction: 1 }, state(3, 1, 0, 0, t));
    g.insert(ShortChannelIdDir { short_channel_id: 10, direction: 0 }, state(1, 4, 0, 0, t));
    g.insert(ShortChannelIdDir { short_channel_id: 11, direction: 0 }, state(1, 5, 0, 0, t));
    g.insert(ShortChannelIdDir { short_channel_id: 20, direction: 0 }, state(4, 3, 1_000, 2_000, t));
    g.insert(ShortChannelIdDir { short_channel_id: 21, direction: 0 }, state(5, 3, 1, 10, t));
    let route = dijkstra(
        &g, &key(1), &key(3), 300, SatDirection::Pull, 1_000_000, 8, 144, now,
        &[10, 11], &[], &[], &HashMap::new(),
    )
    .unwrap();
    assert_eq!(route.iter().map(|h| h.channel).collect::<Vec<_>>(), vec![11, 21, 300]);
}

#[test]
fn dijkstra_finds_a_one_hop_circle_at_the_least_hop_limit() {
    // me (1) -> other (3) directly, back over the job's channel: with a hop
    // limit of two the search still goes on from the start.
    let now: u64 = 1_700_000_000;
    let t = now as u32;
    let mut g = LnGraph::new();
    g.insert(ShortChannelIdDir { short_channel_id: 300, direction: 1 }, state(3, 1, 0, 0, t));
    g.insert(ShortChannelIdDir { short_channel_id: 10, direction: 0 }, state(1, 3, 0, 0, t));
    let route = dijkstra(
        &g, &key(1), &key(3), 300, SatDirection::Pull, 1_000_000, 2, 144, now,
        &[10], &[], &[], &HashMap::new(),
    )
    .unwrap();
    assert_eq!(route.iter().map(|h| h.channel).collect::<Vec<_>>(), vec![10, 300]);
}
