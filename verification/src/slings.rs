//! The decisions of a rebalancing job between its payments: whether the
//! channel is fit to rebalance, which channels may take part, and which
//! route to try next.
use crate::dijkstra::{dijkstra, dijkstra_result, spec_first_node, DijkstraError, SendpayRoute};
use crate::double::{scaled_by, spec_scaled_by};
use crate::fees::{feeppm_effective, feeppm_effective_from_amts, spec_feeppm_effective, spec_feeppm_effective_from_amts};
use crate::graph::{spec_state_no_direction, LnGraph};
use crate::model::{
    contains_key_bytes, contains_scid, contains_scid_dir, spec_scid_block, scid_block, JobMessage,
    Liquidity, PeerChannel, PubKeyBytes, ShortChannelIdDir,
};
use crate::util::{
    get_normal_channel_from_listpeerchannels, get_remote_feeppm_effective, spec_find_channel,
    ChannelError,
};
use crate::{spec_target_cap, spec_target_cap_defined, Job, SatDirection};
use std::collections::HashMap;
use vstd::prelude::*;

verus! {

/// Both directions of each of the channels, in order.
pub open spec fn both_dirs(scids: Seq<u64>) -> Seq<ShortChannelIdDir>
    decreases scids.len(),
{
    if scids.len() == 0 {
        Seq::empty()
    } else {
        both_dirs(scids.drop_last()).push(
            ShortChannelIdDir { short_channel_id: scids.last(), direction: 0 },
        ).push(ShortChannelIdDir { short_channel_id: scids.last(), direction: 1 })
    }
}

fn push_both_dirs(out: &mut Vec<ShortChannelIdDir>, scids: &[u64])
    ensures
        final(out)@ == old(out)@ + both_dirs(scids@),
{
    let mut i: usize = 0;
    while i < scids.len()
        invariant
            i <= scids@.len(),
            out@ == old(out)@ + both_dirs(scids@.take(i as int)),
        decreases scids@.len() - i,
    {
        let scid = scids[i];
        out.push(ShortChannelIdDir { short_channel_id: scid, direction: 0 });
        out.push(ShortChannelIdDir { short_channel_id: scid, direction: 1 });
        proof {
            assert(scids@.take(i + 1).drop_last() =~= scids@.take(i as int));
            assert(out@ =~= old(out)@ + both_dirs(scids@.take(i + 1)));
        }
        i = i + 1;
    }
    proof {
        assert(scids@.take(i as int) =~= scids@);
    }
}

/// The directed channels a job keeps out of its routes: both directions of
/// the temporarily banned channels, then of the channels excluded for the
/// job's direction.
pub fn build_except_chans(
    tempbans: &[u64],
    exclude_chans_pull: &[u64],
    exclude_chans_push: &[u64],
    sat_direction: SatDirection,
) -> (r: Vec<ShortChannelIdDir>)
    ensures
        r@ == both_dirs(tempbans@) + both_dirs(
            match sat_direction {
                SatDirection::Pull => exclude_chans_pull@,
                SatDirection::Push => exclude_chans_push@,
            },
        ),
{
    let mut excepts: Vec<ShortChannelIdDir> = Vec::new();
    push_both_dirs(&mut excepts, tempbans);
    match sat_direction {
        SatDirection::Pull => push_both_dirs(&mut excepts, exclude_chans_pull),
        SatDirection::Push => push_both_dirs(&mut excepts, exclude_chans_push),
    }
    proof {
        assert(Seq::<ShortChannelIdDir>::empty() + both_dirs(tempbans@) =~= both_dirs(tempbans@));
    }
    excepts
}

/// What the health check of a job decides.
#[derive(Debug, Clone, Copy, PartialEq, Eq, Structural)]
pub enum HealthVerdict {
    /// Stop the job with this state.
    Stop(JobMessage),
    /// Report this state and sleep this many seconds before checking again.
    Pause(JobMessage, u64),
    /// Go on rebalancing.
    Proceed,
}

/// The channels' balances are within their capacities.
pub open spec fn channels_sane(peer_channels: Seq<PeerChannel>) -> bool {
    forall|i: int| 0 <= i < peer_channels.len() ==> #[trigger] peer_channels[i].to_us_msat <= peer_channels[i].total_msat
}

/// What the balance check reads of the job's channel, if it is normal, is
/// consistent: for a push job a balance within the capacity, and room for
/// the job's aim above the reserve on the side it fills
/// (`spec_target_cap_defined`).
pub open spec fn job_channel_fits(peer_channels: Seq<PeerChannel>, chan_id: u64, job: Job) -> bool {
    match spec_find_channel(peer_channels, chan_id) {
        Some(i) => peer_channels[i].normal ==> {
            let c = peer_channels[i];
            &&& job.sat_direction == SatDirection::Push ==> c.to_us_msat <= c.total_msat
            &&& spec_target_cap_defined(job, c.total_msat, c.their_reserve_msat, c.our_reserve_msat)
        },
        None => true,
    }
}

/// The first of our channels with the peer.
pub open spec fn spec_find_peer(peer_channels: Seq<PeerChannel>, peer: PubKeyBytes) -> Option<int>
    decreases peer_channels.len(),
{
    if peer_channels.len() == 0 {
        None
    } else if peer_channels[0].peer_id == peer {
        Some(0)
    } else {
        match spec_find_peer(peer_channels.drop_first(), peer) {
            Some(i) => Some(i + 1),
            None => None,
        }
    }
}

proof fn lemma_find_peer(peer_channels: Seq<PeerChannel>, peer: PubKeyBytes)
    ensures
        match spec_find_peer(peer_channels, peer) {
            Some(i) => 0 <= i < peer_channels.len() && peer_channels[i].peer_id == peer
                && forall|j: int| 0 <= j < i ==> peer_channels[j].peer_id != peer,
            None => forall|j: int| 0 <= j < peer_channels.len() ==> peer_channels[j].peer_id != peer,
        },
    decreases peer_channels.len(),
{
    if peer_channels.len() > 0 {
        lemma_find_peer(peer_channels.drop_first(), peer);
        assert forall|j: int| 1 <= j < peer_channels.len() implies peer_channels[j] == peer_channels.drop_first()[j - 1] by {}
    }
}

fn find_peer(peer_channels: &[PeerChannel], peer: &PubKeyBytes) -> (r: Option<usize>)
    ensures
        match spec_find_peer(peer_channels@, *peer) {
            Some(i) => r == Some(i as usize) && 0 <= i < peer_channels@.len(),
            None => r is None,
        },
{
    let mut i: usize = 0;
    while i < peer_channels.len()
        invariant
            i <= peer_channels@.len(),
            forall|j: int| 0 <= j < i ==> peer_channels@[j].peer_id != *peer,
        decreases peer_channels@.len() - i,
    {
        if peer_channels[i].peer_id.same_as(peer) {
            proof {
                assert(peer_channels@[i as int].peer_id.0 == peer.0);
                lemma_find_peer(peer_channels@, *peer);
                let f = spec_find_peer(peer_channels@, *peer);
                if f is None {
                    assert(peer_channels@[i as int].peer_id != *peer);
                } else if f->0 < i {
                    assert(peer_channels@[f->0].peer_id != *peer);
                } else if f->0 > i {
                    assert(peer_channels@[i as int].peer_id != *peer);
                }
            }
            return Some(i);
        }
        proof {
            if peer_channels@[i as int].peer_id == *peer {
                assert(peer_channels@[i as int].peer_id.0@ == peer.0@);
            }
        }
        i = i + 1;
    }
    proof {
        lemma_find_peer(peer_channels@, *peer);
        let f = spec_find_peer(peer_channels@, *peer);
        if f is Some {
            assert(peer_channels@[f->0].peer_id != *peer);
        }
    }
    None
}

/// The health check's verdict, as the job's loop takes it.
pub open spec fn spec_health_check(
    peer_channels: Seq<PeerChannel>,
    chan_id: u64,
    job: Job,
    other_peer: PubKeyBytes,
    temp_chan_bans: Seq<u64>,
    bad_fwd_nodes: Seq<PubKeyBytes>,
    max_htlc_count: u64,
) -> HealthVerdict {
    match spec_find_channel(peer_channels, chan_id) {
        None => HealthVerdict::Stop(JobMessage::ChanNotNormal),
        Some(i) => {
            let c = peer_channels[i];
            if !c.normal {
                HealthVerdict::Stop(JobMessage::ChanNotNormal)
            } else {
                let cap = spec_target_cap(job, c.total_msat, c.their_reserve_msat, c.our_reserve_msat);
                let balanced = match job.sat_direction {
                    SatDirection::Pull => c.to_us_msat >= cap,
                    SatDirection::Push => c.total_msat - c.to_us_msat >= cap,
                };
                let short = match job.sat_direction {
                    SatDirection::Pull => c.receivable_msat < job.amount_msat,
                    SatDirection::Push => c.spendable_msat < job.amount_msat,
                };
                if balanced || short {
                    HealthVerdict::Pause(JobMessage::Balanced, 600)
                } else if c.htlc_count > max_htlc_count {
                    HealthVerdict::Pause(JobMessage::HTLCcapped, 10)
                } else {
                    match spec_find_peer(peer_channels, other_peer) {
                        None => HealthVerdict::Stop(JobMessage::PeerNotFound),
                        Some(k) => if !peer_channels[k].peer_connected {
                            HealthVerdict::Pause(JobMessage::Disconnected, 60)
                        } else if temp_chan_bans.contains(chan_id) {
                            HealthVerdict::Pause(JobMessage::PeerNotReady, 20)
                        } else if job.sat_direction == SatDirection::Pull && bad_fwd_nodes.contains(
                            other_peer,
                        ) {
                            HealthVerdict::Pause(JobMessage::PeerBad, 60)
                        } else {
                            HealthVerdict::Proceed
                        },
                    }
                }
            }
        },
    }
}

/// When the job's channel is normal and already balanced for the job (for
/// a pull our side holds at least the job's aim, for a push the partner's
/// side does), or cannot move one more payment of the job's amount, the
/// job pauses as balanced for ten minutes, whatever else holds.
pub proof fn law_balanced_pauses(
    peer_channels: Seq<PeerChannel>,
    chan_id: u64,
    job: Job,
    other_peer: PubKeyBytes,
    temp_chan_bans: Seq<u64>,
    bad_fwd_nodes: Seq<PubKeyBytes>,
    max_htlc_count: u64,
    i: int,
)
    requires
        spec_find_channel(peer_channels, chan_id) == Some(i),
        peer_channels[i].normal,
        ({
            let c = peer_channels[i];
            let cap = spec_target_cap(job, c.total_msat, c.their_reserve_msat, c.our_reserve_msat);
            ||| (job.sat_direction == SatDirection::Pull && c.to_us_msat >= cap)
            ||| (job.sat_direction == SatDirection::Push && c.total_msat - c.to_us_msat >= cap)
            ||| (job.sat_direction == SatDirection::Pull && c.receivable_msat < job.amount_msat)
            ||| (job.sat_direction == SatDirection::Push && c.spendable_msat < job.amount_msat)
        }),
    ensures
        spec_health_check(peer_channels, chan_id, job, other_peer, temp_chan_bans, bad_fwd_nodes, max_htlc_count)
            == HealthVerdict::Pause(JobMessage::Balanced, 600),
{
}

/// The job goes on exactly when its channel is normal, neither balanced
/// for the job nor short of the job's amount, carries no more HTLCs than
/// allowed, and the partner is known, connected, not banned for now and,
/// for a pull, not a known bad forwarder. A normal, unbalanced channel
/// that is not short but carries too many HTLCs pauses for ten seconds.
pub proof fn law_health_proceeds(
    peer_channels: Seq<PeerChannel>,
    chan_id: u64,
    job: Job,
    other_peer: PubKeyBytes,
    temp_chan_bans: Seq<u64>,
    bad_fwd_nodes: Seq<PubKeyBytes>,
    max_htlc_count: u64,
    i: int,
)
    requires
        spec_find_channel(peer_channels, chan_id) == Some(i),
    ensures
        ({
            let c = peer_channels[i];
            let cap = spec_target_cap(job, c.total_msat, c.their_reserve_msat, c.our_reserve_msat);
            let clear = c.normal && match job.sat_direction {
                SatDirection::Pull => c.to_us_msat < cap && c.receivable_msat >= job.amount_msat,
                SatDirection::Push => c.total_msat - c.to_us_msat < cap && c.spendable_msat >= job.amount_msat,
            };
            let v = spec_health_check(peer_channels, chan_id, job, other_peer, temp_chan_bans, bad_fwd_nodes, max_htlc_count);
            &&& (v == HealthVerdict::Proceed) <==> (clear && c.htlc_count <= max_htlc_count
                && spec_find_peer(peer_channels, other_peer) is Some
                && peer_channels[spec_find_peer(peer_channels, other_peer)->0].peer_connected
                && !temp_chan_bans.contains(chan_id)
                && !(job.sat_direction == SatDirection::Pull && bad_fwd_nodes.contains(other_peer)))
            &&& clear && c.htlc_count > max_htlc_count ==> v == HealthVerdict::Pause(JobMessage::HTLCcapped, 10)
        }),
{
}

/// A channel that is gone or not normal stops the job.
pub proof fn law_not_normal_stops(
    peer_channels: Seq<PeerChannel>,
    chan_id: u64,
    job: Job,
    other_peer: PubKeyBytes,
    temp_chan_bans: Seq<u64>,
    bad_fwd_nodes: Seq<PubKeyBytes>,
    max_htlc_count: u64,
)
    requires
        spec_find_channel(peer_channels, chan_id) matches Some(i) ==> !peer_channels[i].normal,
    ensures
        spec_health_check(peer_channels, chan_id, job, other_peer, temp_chan_bans, bad_fwd_nodes, max_htlc_count)
            == HealthVerdict::Stop(JobMessage::ChanNotNormal),
{
}

/// Whether the job's channel is fit to rebalance now: stops the job when
/// the channel is gone or not normal or its peer is unknown, pauses it when
/// balanced, short of funds, too busy, disconnected or banned.
pub fn health_check(
    peer_channels: &[PeerChannel],
    chan_id: u64,
    job: &Job,
    other_peer: &PubKeyBytes,
    temp_chan_bans: &[u64],
    bad_fwd_nodes: &[PubKeyBytes],
    max_htlc_count: u64,
) -> (r: HealthVerdict)
    requires
        job_channel_fits(peer_channels@, chan_id, *job),
    ensures
        r == spec_health_check(
            peer_channels@,
            chan_id,
            *job,
            *other_peer,
            temp_chan_bans@,
            bad_fwd_nodes@,
            max_htlc_count,
        ),
{
    let channel = match get_normal_channel_from_listpeerchannels(peer_channels, chan_id) {
        Ok(c) => c,
        Err(_) => {
            return HealthVerdict::Stop(JobMessage::ChanNotNormal);
        },
    };
    proof {
        crate::util::lemma_find_channel_pub(peer_channels@, chan_id);
    }
    let balanced = job.is_balanced(
        channel.total_msat,
        channel.to_us_msat,
        channel.their_reserve_msat,
        channel.our_reserve_msat,
    );
    let short = match job.sat_direction {
        SatDirection::Pull => channel.receivable_msat < job.amount_msat,
        SatDirection::Push => channel.spendable_msat < job.amount_msat,
    };
    if balanced || short {
        HealthVerdict::Pause(JobMessage::Balanced, 600)
    } else if channel.htlc_count > max_htlc_count {
        HealthVerdict::Pause(JobMessage::HTLCcapped, 10)
    } else {
        match find_peer(peer_channels, other_peer) {
            None => HealthVerdict::Stop(JobMessage::PeerNotFound),
            Some(k) => {
                if !peer_channels[k].peer_connected {
                    HealthVerdict::Pause(JobMessage::Disconnected, 60)
                } else if contains_scid(temp_chan_bans, chan_id) {
                    HealthVerdict::Pause(JobMessage::PeerNotReady, 20)
                } else if job.sat_direction == SatDirection::Pull && contains_key_bytes(
                    bad_fwd_nodes,
                    other_peer,
                ) {
                    HealthVerdict::Pause(JobMessage::PeerBad, 60)
                } else {
                    HealthVerdict::Proceed
                }
            },
        }
    }
}

/// The liquidity a candidate must keep beyond what it gives: the amount
/// plus 10000 sat, or the depletable part of its capacity (the smaller of
/// `total_msat` scaled by the share, truncated, and the amount cap) if that
/// is more.
pub open spec fn liquidity_target(amount_msat: u64, total_msat: u64, depleteuptopercent: u64, depleteuptoamount: u64) -> u64 {
    let deplete = spec_scaled_by(total_msat, depleteuptopercent);
    let capped = if deplete < depleteuptoamount {
        deplete
    } else {
        depleteuptoamount
    };
    let floor = (amount_msat + 10_000_000) as u64;
    if floor > capped {
        floor
    } else {
        capped
    }
}

/// Whether one of our channels is a candidate for the job: `Ok(true)` to
/// take it, `Ok(false)` to pass it over, an error when its base fee does not
/// fit 32 bits.
pub open spec fn spec_candidate_verdict(
    c: PeerChannel,
    chan_id: u64,
    job: Job,
    custom: Seq<u64>,
    excepts: Seq<ShortChannelIdDir>,
    bad_fwd_nodes: Seq<PubKeyBytes>,
    depleteuptopercent: u64,
    depleteuptoamount: u64,
    candidates_min_age: u32,
    max_htlc_count: u64,
    blockheight: u32,
) -> Result<bool, ChannelError> {
    match c.short_channel_id {
        None => Ok(false),
        Some(scid) => {
            let direction = c.direction->0;
            let excepted = match job.sat_direction {
                SatDirection::Pull => excepts.contains(
                    ShortChannelIdDir { short_channel_id: scid, direction },
                ),
                SatDirection::Push => excepts.contains(
                    ShortChannelIdDir { short_channel_id: scid, direction: direction ^ 1u32 },
                ) || bad_fwd_nodes.contains(c.peer_id),
            };
            if scid == chan_id || (custom.len() > 0 && !custom.contains(scid)) || excepted
                || !c.normal || !c.peer_connected || spec_scid_block(scid)
                > blockheight.wrapping_sub(candidates_min_age) || c.remote_fee_proportional_millionths is None
                || c.remote_fee_base_msat is None || c.remote_fee_base_msat->0 > u32::MAX {
                Ok(false)
            } else if c.fee_base_msat > u32::MAX {
                Err(ChannelError::BaseFeeTooLarge(c.fee_base_msat))
            } else {
                let chan_in_ppm = spec_feeppm_effective(
                    c.remote_fee_proportional_millionths->0,
                    c.remote_fee_base_msat->0 as u32,
                    job.amount_msat,
                );
                let chan_out_ppm = spec_feeppm_effective(
                    c.fee_proportional_millionths,
                    c.fee_base_msat as u32,
                    job.amount_msat,
                );
                let target = liquidity_target(
                    job.amount_msat,
                    c.total_msat,
                    depleteuptopercent,
                    depleteuptoamount,
                );
                let fits = match job.sat_direction {
                    SatDirection::Pull => c.to_us_msat > target && match job.outppm {
                        Some(o) => chan_out_ppm <= o,
                        None => true,
                    },
                    SatDirection::Push => c.total_msat - c.to_us_msat > target && match job.outppm {
                        Some(o) => chan_out_ppm >= o,
                        None => true,
                    } && chan_in_ppm <= job.maxppm,
                };
                Ok(fits && c.htlc_count <= max_htlc_count)
            }
        },
    }
}

/// Whether one of our channels passes every candidate filter but the fee
/// rates: it has a short channel id other than the job's, is among the
/// job's own candidates when it names any, is not excepted (for a push,
/// neither its way in nor its peer), is normal, connected and old enough,
/// has known remote fees and base fees within 32 bits, holds more than the
/// liquidity target on the side the job takes from, and is not too busy.
pub open spec fn candidate_passes_filters(
    c: PeerChannel,
    chan_id: u64,
    job: Job,
    custom: Seq<u64>,
    excepts: Seq<ShortChannelIdDir>,
    bad_fwd_nodes: Seq<PubKeyBytes>,
    depleteuptopercent: u64,
    depleteuptoamount: u64,
    candidates_min_age: u32,
    max_htlc_count: u64,
    blockheight: u32,
) -> bool {
    &&& c.short_channel_id matches Some(scid)
    &&& scid != chan_id
    &&& (custom.len() == 0 || custom.contains(scid))
    &&& match job.sat_direction {
        SatDirection::Pull => !excepts.contains(ShortChannelIdDir { short_channel_id: scid, direction: c.direction->0 }),
        SatDirection::Push => !excepts.contains(ShortChannelIdDir { short_channel_id: scid, direction: c.direction->0 ^ 1u32 })
            && !bad_fwd_nodes.contains(c.peer_id),
    }
    &&& c.normal
    &&& c.peer_connected
    &&& spec_scid_block(scid) <= blockheight.wrapping_sub(candidates_min_age)
    &&& c.remote_fee_proportional_millionths is Some
    &&& c.remote_fee_base_msat matches Some(b) && b <= u32::MAX
    &&& c.fee_base_msat <= u32::MAX
    &&& match job.sat_direction {
        SatDirection::Pull => c.to_us_msat > liquidity_target(job.amount_msat, c.total_msat, depleteuptopercent, depleteuptoamount),
        SatDirection::Push => c.total_msat - c.to_us_msat > liquidity_target(job.amount_msat, c.total_msat, depleteuptopercent, depleteuptoamount),
    }
    &&& c.htlc_count <= max_htlc_count
}

/// Whether the channel's fee rates suit the job: for a pull, our effective
/// out rate for the job's amount is at most the job's `outppm` (when it
/// sets one); for a push, that rate is at least `outppm` (when set) and the
/// partner's effective rate into us is at most the job's `maxppm`.
pub open spec fn candidate_fees_fit(c: PeerChannel, job: Job) -> bool {
    let out_ppm = spec_feeppm_effective(c.fee_proportional_millionths, c.fee_base_msat as u32, job.amount_msat);
    let in_ppm = spec_feeppm_effective(
        c.remote_fee_proportional_millionths->0,
        c.remote_fee_base_msat->0 as u32,
        job.amount_msat,
    );
    match job.sat_direction {
        SatDirection::Pull => job.outppm matches Some(o) ==> out_ppm <= o,
        SatDirection::Push => (job.outppm matches Some(o) ==> out_ppm >= o) && in_ppm <= job.maxppm,
    }
}

/// A channel is taken as a candidate exactly when it passes the filters and
/// its fee rates suit the job: a channel that passes the filters is taken
/// iff its fees fit, and a channel taken passes both.
pub proof fn law_candidate_by_fees(
    c: PeerChannel,
    chan_id: u64,
    job: Job,
    custom: Seq<u64>,
    excepts: Seq<ShortChannelIdDir>,
    bad_fwd_nodes: Seq<PubKeyBytes>,
    depleteuptopercent: u64,
    depleteuptoamount: u64,
    candidates_min_age: u32,
    max_htlc_count: u64,
    blockheight: u32,
)
    ensures
        candidate_passes_filters(c, chan_id, job, custom, excepts, bad_fwd_nodes, depleteuptopercent, depleteuptoamount, candidates_min_age, max_htlc_count, blockheight)
            ==> spec_candidate_verdict(c, chan_id, job, custom, excepts, bad_fwd_nodes, depleteuptopercent, depleteuptoamount, candidates_min_age, max_htlc_count, blockheight)
                == Ok::<bool, ChannelError>(candidate_fees_fit(c, job)),
        spec_candidate_verdict(c, chan_id, job, custom, excepts, bad_fwd_nodes, depleteuptopercent, depleteuptoamount, candidates_min_age, max_htlc_count, blockheight)
            == Ok::<bool, ChannelError>(true) ==> candidate_passes_filters(c, chan_id, job, custom, excepts, bad_fwd_nodes, depleteuptopercent, depleteuptoamount, candidates_min_age, max_htlc_count, blockheight)
                && candidate_fees_fit(c, job),
{
}

/// The candidates among the channels, in order; the first channel whose
/// base fee does not fit 32 bits makes it an error.
pub open spec fn spec_candidates(
    s: Seq<PeerChannel>,
    chan_id: u64,
    job: Job,
    custom: Seq<u64>,
    excepts: Seq<ShortChannelIdDir>,
    bad_fwd_nodes: Seq<PubKeyBytes>,
    depleteuptopercent: u64,
    depleteuptoamount: u64,
    candidates_min_age: u32,
    max_htlc_count: u64,
    blockheight: u32,
) -> Result<Seq<u64>, ChannelError>
    decreases s.len(),
{
    if s.len() == 0 {
        Ok(Seq::empty())
    } else {
        match spec_candidates(
            s.drop_last(),
            chan_id,
            job,
            custom,
            excepts,
            bad_fwd_nodes,
            depleteuptopercent,
            depleteuptoamount,
            candidates_min_age,
            max_htlc_count,
            blockheight,
        ) {
            Err(e) => Err(e),
            Ok(prev) => match spec_candidate_verdict(
                s.last(),
                chan_id,
                job,
                custom,
                excepts,
                bad_fwd_nodes,
                depleteuptopercent,
                depleteuptoamount,
                candidates_min_age,
                max_htlc_count,
                blockheight,
            ) {
                Err(e) => Err(e),
                Ok(true) => Ok(prev.push(s.last().short_channel_id->0)),
                Ok(false) => Ok(prev),
            },
        }
    }
}

/// Whether `v` holds the short channel id of every channel of `s` that
/// passes the candidate filters and whose fee rates suit the job, and holds
/// only ids of such channels.
pub open spec fn candidates_exact(
    s: Seq<PeerChannel>,
    v: Seq<u64>,
    chan_id: u64,
    job: Job,
    custom: Seq<u64>,
    excepts: Seq<ShortChannelIdDir>,
    bad_fwd_nodes: Seq<PubKeyBytes>,
    depleteuptopercent: u64,
    depleteuptoamount: u64,
    candidates_min_age: u32,
    max_htlc_count: u64,
    blockheight: u32,
) -> bool {
    &&& forall|i: int| 0 <= i < s.len() && candidate_passes_filters(#[trigger] s[i], chan_id, job, custom, excepts, bad_fwd_nodes, depleteuptopercent, depleteuptoamount, candidates_min_age, max_htlc_count, blockheight)
        && candidate_fees_fit(s[i], job) ==> v.contains(s[i].short_channel_id->0)
    &&& forall|k: int| #![trigger v[k]] 0 <= k < v.len() ==> exists|i: int| 0 <= i < s.len() && (#[trigger] s[i].short_channel_id) is Some && s[i].short_channel_id->0 == v[k]
        && candidate_passes_filters(s[i], chan_id, job, custom, excepts, bad_fwd_nodes, depleteuptopercent, depleteuptoamount, candidates_min_age, max_htlc_count, blockheight)
        && candidate_fees_fit(s[i], job)
}

/// The candidate list holds the short channel id of every channel that
/// passes the filters and whose fee rates suit the job, and nothing else.
pub proof fn law_candidates_members(
    s: Seq<PeerChannel>,
    chan_id: u64,
    job: Job,
    custom: Seq<u64>,
    excepts: Seq<ShortChannelIdDir>,
    bad_fwd_nodes: Seq<PubKeyBytes>,
    depleteuptopercent: u64,
    depleteuptoamount: u64,
    candidates_min_age: u32,
    max_htlc_count: u64,
    blockheight: u32,
)
    requires
        spec_candidates(s, chan_id, job, custom, excepts, bad_fwd_nodes, depleteuptopercent, depleteuptoamount, candidates_min_age, max_htlc_count, blockheight) is Ok,
    ensures
        candidates_exact(s, spec_candidates(s, chan_id, job, custom, excepts, bad_fwd_nodes, depleteuptopercent, depleteuptoamount, candidates_min_age, max_htlc_count, blockheight)->Ok_0, chan_id, job, custom, excepts, bad_fwd_nodes, depleteuptopercent, depleteuptoamount, candidates_min_age, max_htlc_count, blockheight),
    decreases s.len(),
{
    let v = spec_candidates(s, chan_id, job, custom, excepts, bad_fwd_nodes, depleteuptopercent, depleteuptoamount, candidates_min_age, max_htlc_count, blockheight)->Ok_0;
    if s.len() > 0 {
        let t = s.drop_last();
        law_candidates_members(t, chan_id, job, custom, excepts, bad_fwd_nodes, depleteuptopercent, depleteuptoamount, candidates_min_age, max_htlc_count, blockheight);
        law_candidate_by_fees(s.last(), chan_id, job, custom, excepts, bad_fwd_nodes, depleteuptopercent, depleteuptoamount, candidates_min_age, max_htlc_count, blockheight);
        let prev = spec_candidates(t, chan_id, job, custom, excepts, bad_fwd_nodes, depleteuptopercent, depleteuptoamount, candidates_min_age, max_htlc_count, blockheight)->Ok_0;
        let n = s.len() - 1;
        assert forall|i: int| 0 <= i < s.len() && candidate_passes_filters(#[trigger] s[i], chan_id, job, custom, excepts, bad_fwd_nodes, depleteuptopercent, depleteuptoamount, candidates_min_age, max_htlc_count, blockheight)
            && candidate_fees_fit(s[i], job) implies v.contains(s[i].short_channel_id->0) by {
            if i < n {
                assert(s[i] == t[i]);
                assert(prev.contains(t[i].short_channel_id->0));
                let k = choose|k: int| 0 <= k < prev.len() && prev[k] == t[i].short_channel_id->0;
                assert(v[k] == prev[k]);
            } else {
                assert(v[v.len() - 1] == s.last().short_channel_id->0);
            }
        }
        assert forall|k: int| #![trigger v[k]] 0 <= k < v.len() implies exists|i: int| 0 <= i < s.len() && (#[trigger] s[i].short_channel_id) is Some && s[i].short_channel_id->0 == v[k]
            && candidate_passes_filters(s[i], chan_id, job, custom, excepts, bad_fwd_nodes, depleteuptopercent, depleteuptoamount, candidates_min_age, max_htlc_count, blockheight)
            && candidate_fees_fit(s[i], job) by {
            if k < prev.len() {
                assert(v[k] == prev[k]);
                let i = choose|i: int| 0 <= i < t.len() && (#[trigger] t[i].short_channel_id) is Some && t[i].short_channel_id->0 == prev[k]
                    && candidate_passes_filters(t[i], chan_id, job, custom, excepts, bad_fwd_nodes, depleteuptopercent, depleteuptoamount, candidates_min_age, max_htlc_count, blockheight)
                    && candidate_fees_fit(t[i], job);
                assert(s[i] == t[i]);
            } else {
                assert(s[n] == s.last());
            }
        }
        assert(candidates_exact(s, v, chan_id, job, custom, excepts, bad_fwd_nodes, depleteuptopercent, depleteuptoamount, candidates_min_age, max_htlc_count, blockheight));
    } else {
        assert(v.len() == 0);
    }
}

fn candidate_verdict(
    c: &PeerChannel,
    chan_id: u64,
    job: &Job,
    custom: &[u64],
    excepts: &[ShortChannelIdDir],
    bad_fwd_nodes: &[PubKeyBytes],
    depleteuptopercent: u64,
    depleteuptoamount: u64,
    candidates_min_age: u32,
    max_htlc_count: u64,
    blockheight: u32,
) -> (r: Result<bool, ChannelError>)
    requires
        job.sat_direction == SatDirection::Push ==> c.to_us_msat <= c.total_msat,
        c.short_channel_id is Some ==> c.direction is Some,
        job.amount_msat <= u64::MAX - 10_000_000,
    ensures
        r == spec_candidate_verdict(
            *c,
            chan_id,
            *job,
            custom@,
            excepts@,
            bad_fwd_nodes@,
            depleteuptopercent,
            depleteuptoamount,
            candidates_min_age,
            max_htlc_count,
            blockheight,
        ),
{
    let scid = match c.short_channel_id {
        Some(s) => s,
        None => {
            return Ok(false);
        },
    };
    let direction = match c.direction {
        Some(d) => d,
        None => {
            return Ok(false);
        },
    };
    if scid == chan_id {
        return Ok(false);
    }
    if custom.len() > 0 && !contains_scid(custom, scid) {
        return Ok(false);
    }
    let excepted = match job.sat_direction {
        SatDirection::Pull => contains_scid_dir(excepts, &ShortChannelIdDir { short_channel_id: scid, direction }),
        SatDirection::Push => contains_scid_dir(
            excepts,
            &ShortChannelIdDir { short_channel_id: scid, direction: direction ^ 1u32 },
        ) || contains_key_bytes(bad_fwd_nodes, &c.peer_id),
    };
    if excepted || !c.normal || !c.peer_connected {
        return Ok(false);
    }
    if scid_block(scid) > blockheight.wrapping_sub(candidates_min_age) {
        return Ok(false);
    }
    let chan_in_ppm = match get_remote_feeppm_effective(c, job.amount_msat) {
        Ok(p) => p,
        Err(_) => {
            return Ok(false);
        },
    };
    if c.fee_base_msat > u32::MAX as u64 {
        return Err(ChannelError::BaseFeeTooLarge(c.fee_base_msat));
    }
    let chan_out_ppm = feeppm_effective(c.fee_proportional_millionths, c.fee_base_msat as u32, job.amount_msat);
    let deplete = scaled_by(c.total_msat, depleteuptopercent);
    let capped = if deplete < depleteuptoamount {
        deplete
    } else {
        depleteuptoamount
    };
    let floor = job.amount_msat + 10_000_000;
    let target = if floor > capped {
        floor
    } else {
        capped
    };
    let fits = match job.sat_direction {
        SatDirection::Pull => c.to_us_msat > target && match job.outppm {
            Some(o) => chan_out_ppm <= o,
            None => true,
        },
        SatDirection::Push => c.total_msat - c.to_us_msat > target && match job.outppm {
            Some(o) => chan_out_ppm >= o,
            None => true,
        } && chan_in_ppm <= job.maxppm as u64,
    };
    Ok(fits && c.htlc_count <= max_htlc_count)
}

/// Our channels that can take part in the job's rebalance, in the order of
/// the list: not the job's own channel, among the job's candidates if it
/// names any, not excepted (nor, for a push, with a badly forwarding peer),
/// normal, connected, old enough, with known remote fees, with enough
/// liquidity to spare, at a fee rate the job accepts, and not too busy.
pub fn build_candidatelist(
    peer_channels: &[PeerChannel],
    chan_id: u64,
    job: &Job,
    excepts: &[ShortChannelIdDir],
    bad_fwd_nodes: &[PubKeyBytes],
    depleteuptopercent: u64,
    depleteuptoamount: u64,
    candidates_min_age: u32,
    max_htlc_count: u64,
    blockheight: u32,
) -> (r: Result<Vec<u64>, ChannelError>)
    requires
        job.sat_direction == SatDirection::Push ==> channels_sane(peer_channels@),
        forall|i: int| 0 <= i < peer_channels@.len() && (#[trigger] peer_channels@[i]).short_channel_id is Some ==> peer_channels@[i].direction is Some,
        job.amount_msat <= u64::MAX - 10_000_000,
    ensures
        ({
            let custom = match job.candidates {
                Some(c) => c@,
                None => Seq::<u64>::empty(),
            };
            let spec = spec_candidates(
                peer_channels@,
                chan_id,
                *job,
                custom,
                excepts@,
                bad_fwd_nodes@,
                job.get_depleteuptopercent_spec(depleteuptopercent),
                job.get_depleteuptoamount_spec(depleteuptoamount),
                candidates_min_age,
                max_htlc_count,
                blockheight,
            );
            match r {
                Ok(v) => spec == Ok::<Seq<u64>, ChannelError>(v@),
                Err(e) => spec == Err::<Seq<u64>, ChannelError>(e),
            }
        }),
        r matches Ok(v) ==> candidates_exact(
            peer_channels@,
            v@,
            chan_id,
            *job,
            match job.candidates {
                Some(c) => c@,
                None => Seq::<u64>::empty(),
            },
            excepts@,
            bad_fwd_nodes@,
            job.get_depleteuptopercent_spec(depleteuptopercent),
            job.get_depleteuptoamount_spec(depleteuptoamount),
            candidates_min_age,
            max_htlc_count,
            blockheight,
        ),
{
    let custom = job.get_candidates();
    let dp = job.get_depleteuptopercent(depleteuptopercent);
    let da = job.get_depleteuptoamount_msat(depleteuptoamount);
    let mut out: Vec<u64> = Vec::new();
    let mut i: usize = 0;
    while i < peer_channels.len()
        invariant
            i <= peer_channels@.len(),
            job.sat_direction == SatDirection::Push ==> channels_sane(peer_channels@),
            forall|k: int| 0 <= k < peer_channels@.len() && (#[trigger] peer_channels@[k]).short_channel_id is Some ==> peer_channels@[k].direction is Some,
            job.amount_msat <= u64::MAX - 10_000_000,
            custom@ == (match job.candidates {
                Some(c) => c@,
                None => Seq::<u64>::empty(),
            }),
            dp == job.get_depleteuptopercent_spec(depleteuptopercent),
            da == job.get_depleteuptoamount_spec(depleteuptoamount),
            spec_candidates(
                peer_channels@.take(i as int),
                chan_id,
                *job,
                custom@,
                excepts@,
                bad_fwd_nodes@,
                dp,
                da,
                candidates_min_age,
                max_htlc_count,
                blockheight,
            ) == Ok::<Seq<u64>, ChannelError>(out@),
        decreases peer_channels@.len() - i,
    {
        let c = peer_channels[i];
        proof {
            assert(peer_channels@.take(i + 1).drop_last() =~= peer_channels@.take(i as int));
            assert(peer_channels@.take(i + 1).last() == c);
            assert(job.sat_direction == SatDirection::Push ==> peer_channels@[i as int].to_us_msat <= peer_channels@[i as int].total_msat);
        }
        match candidate_verdict(
            &c,
            chan_id,
            job,
            custom.as_slice(),
            excepts,
            bad_fwd_nodes,
            dp,
            da,
            candidates_min_age,
            max_htlc_count,
            blockheight,
        ) {
            Err(e) => {
                proof {
                    assert(spec_candidates(peer_channels@.take(i + 1), chan_id, *job, custom@, excepts@, bad_fwd_nodes@, dp, da, candidates_min_age, max_htlc_count, blockheight) == Err::<Seq<u64>, ChannelError>(e));
                    lemma_candidates_err(peer_channels@, (i + 1) as nat, chan_id, *job, custom@, excepts@, bad_fwd_nodes@, dp, da, candidates_min_age, max_htlc_count, blockheight);
                }
                return Err(e);
            },
            Ok(true) => {
                out.push(c.short_channel_id.unwrap());
            },
            Ok(false) => {},
        }
        i = i + 1;
    }
    proof {
        assert(peer_channels@.take(i as int) =~= peer_channels@);
        law_candidates_members(peer_channels@, chan_id, *job, custom@, excepts@, bad_fwd_nodes@, dp, da, candidates_min_age, max_htlc_count, blockheight);
    }
    Ok(out)
}

proof fn lemma_candidates_err(
    s: Seq<PeerChannel>,
    i: nat,
    chan_id: u64,
    job: Job,
    custom: Seq<u64>,
    excepts: Seq<ShortChannelIdDir>,
    bad_fwd_nodes: Seq<PubKeyBytes>,
    depleteuptopercent: u64,
    depleteuptoamount: u64,
    candidates_min_age: u32,
    max_htlc_count: u64,
    blockheight: u32,
)
    requires
        i <= s.len(),
        spec_candidates(s.take(i as int), chan_id, job, custom, excepts, bad_fwd_nodes, depleteuptopercent, depleteuptoamount, candidates_min_age, max_htlc_count, blockheight) is Err,
    ensures
        spec_candidates(s, chan_id, job, custom, excepts, bad_fwd_nodes, depleteuptopercent, depleteuptoamount, candidates_min_age, max_htlc_count, blockheight)
            == spec_candidates(s.take(i as int), chan_id, job, custom, excepts, bad_fwd_nodes, depleteuptopercent, depleteuptoamount, candidates_min_age, max_htlc_count, blockheight),
    decreases s.len() - i,
{
    if i < s.len() {
        assert(s.take((i + 1) as int).drop_last() =~= s.take(i as int));
        lemma_candidates_err(s, i + 1, chan_id, job, custom, excepts, bad_fwd_nodes, depleteuptopercent, depleteuptoamount, candidates_min_age, max_htlc_count, blockheight);
    } else {
        assert(s.take(i as int) =~= s);
    }
}

/// Whether the last successful route can be sent along again: its channel
/// on our side (the first hop of a pull, the last of a push) is still a
/// candidate, directly or as the alias our side (pull) or the partner's side
/// (push) of that candidate carries.
pub open spec fn spec_route_still_usable(
    prev: Seq<SendpayRoute>,
    candidates: Seq<u64>,
    peer_channels: Seq<PeerChannel>,
    sat_direction: SatDirection,
) -> bool {
    let ours = match sat_direction {
        SatDirection::Pull => prev[0].channel,
        SatDirection::Push => prev[prev.len() - 1].channel,
    };
    exists|j: int|
        0 <= j < candidates.len() && {
            let c = #[trigger] candidates[j];
            c == ours || match spec_find_channel(peer_channels, c) {
                Some(k) => match sat_direction {
                    SatDirection::Pull => peer_channels[k].local_alias == Some(ours),
                    SatDirection::Push => peer_channels[k].remote_alias == Some(ours),
                },
                None => false,
            }
        }
}

fn find_channel(peer_channels: &[PeerChannel], chan_id: u64) -> (r: Option<usize>)
    ensures
        match spec_find_channel(peer_channels@, chan_id) {
            Some(i) => r == Some(i as usize) && 0 <= i < peer_channels@.len(),
            None => r is None,
        },
{
    let mut i: usize = 0;
    while i < peer_channels.len()
        invariant
            i <= peer_channels@.len(),
            forall|j: int| 0 <= j < i ==> peer_channels@[j].short_channel_id != Some(chan_id),
        decreases peer_channels@.len() - i,
    {
        if peer_channels[i].short_channel_id == Some(chan_id) {
            proof {
                crate::util::lemma_find_channel_pub(peer_channels@, chan_id);
                let f = spec_find_channel(peer_channels@, chan_id);
                if f is None {
                    assert(peer_channels@[i as int].short_channel_id != Some(chan_id));
                } else if f->0 < i {
                    assert(peer_channels@[f->0].short_channel_id != Some(chan_id));
                } else if f->0 > i {
                    assert(peer_channels@[i as int].short_channel_id != Some(chan_id));
                }
            }
            return Some(i);
        }
        i = i + 1;
    }
    proof {
        crate::util::lemma_find_channel_pub(peer_channels@, chan_id);
        let f = spec_find_channel(peer_channels@, chan_id);
        if f is Some {
            assert(peer_channels@[f->0].short_channel_id != Some(chan_id));
        }
    }
    None
}

pub fn route_still_usable(
    prev: &[SendpayRoute],
    candidates: &[u64],
    peer_channels: &[PeerChannel],
    sat_direction: SatDirection,
) -> (r: bool)
    requires
        prev@.len() > 0,
    ensures
        r == spec_route_still_usable(prev@, candidates@, peer_channels@, sat_direction),
{
    let ours = match sat_direction {
        SatDirection::Pull => prev[0].channel,
        SatDirection::Push => prev[prev.len() - 1].channel,
    };
    let mut j: usize = 0;
    while j < candidates.len()
        invariant
            j <= candidates@.len(),
            prev@.len() > 0,
            ours == (match sat_direction {
                SatDirection::Pull => prev@[0].channel,
                SatDirection::Push => prev@[prev@.len() - 1].channel,
            }),
            forall|t: int|
                0 <= t < j ==> !({
                    let c = #[trigger] candidates@[t];
                    c == ours || match spec_find_channel(peer_channels@, c) {
                        Some(k) => match sat_direction {
                            SatDirection::Pull => peer_channels@[k].local_alias == Some(ours),
                            SatDirection::Push => peer_channels@[k].remote_alias == Some(ours),
                        },
                        None => false,
                    }
                }),
        decreases candidates@.len() - j,
    {
        let c = candidates[j];
        let hit = c == ours || match find_channel(peer_channels, c) {
            Some(k) => match sat_direction {
                SatDirection::Pull => peer_channels[k].local_alias == Some(ours),
                SatDirection::Push => peer_channels[k].remote_alias == Some(ours),
            },
            None => false,
        };
        if hit {
            return true;
        }
        j = j + 1;
    }
    false
}

/// The directed channel other tasks of the job should keep out of their
/// routes while this one pays along `route`: for a route of three or more
/// hops, the channel in its middle (looked up from the hop before it), if
/// the graph has it and it is not ours; `None` for a shorter route or one
/// of ours; the current ban stays when the graph lacks the channel.
pub open spec fn spec_parallel_ban(
    route: Seq<SendpayRoute>,
    g: Map<ShortChannelIdDir, crate::graph::ShortChannelIdDirState>,
    my_pubkey: PubKeyBytes,
    current: Option<ShortChannelIdDir>,
) -> Option<ShortChannelIdDir> {
    if route.len() >= 3 {
        let mid = (route.len() / 2) as int;
        match spec_state_no_direction(g, route[mid - 1].id, route[mid].channel) {
            Some((sd, st)) => if st.source != my_pubkey && st.destination != my_pubkey {
                Some(sd)
            } else {
                None
            },
            None => current,
        }
    } else {
        None
    }
}

pub fn parallel_ban_for_route(
    route: &[SendpayRoute],
    graph: &LnGraph,
    my_pubkey: &PubKeyBytes,
    current: Option<ShortChannelIdDir>,
) -> (r: Option<ShortChannelIdDir>)
    requires
        graph.wf(),
    ensures
        r == spec_parallel_ban(route@, graph@, *my_pubkey, current),
{
    if route.len() >= 3 {
        let mid = route.len() / 2;
        let claim_chan = route[mid].channel;
        let claim_peer = route[mid - 1].id;
        match graph.get_state_no_direction(&claim_peer, claim_chan) {
            Ok((sd, st)) => {
                let mine = st.source.same_as(my_pubkey) || st.destination.same_as(my_pubkey);
                proof {
                    if st.source.0@ == my_pubkey.0@ {
                        assert(st.source.0 == my_pubkey.0);
                    }
                    if st.destination.0@ == my_pubkey.0@ {
                        assert(st.destination.0 == my_pubkey.0);
                    }
                }
                if !mine {
                    Some(sd)
                } else {
                    None
                }
            },
            Err(_) => current,
        }
    } else {
        None
    }
}

/// The bans of the job's other tasks: `bans` without `own`.
pub open spec fn others_bans(bans: Seq<ShortChannelIdDir>, own: Option<ShortChannelIdDir>) -> Seq<ShortChannelIdDir> {
    match own {
        Some(o) => bans.filter(|b: ShortChannelIdDir| b != o),
        None => bans,
    }
}

fn without(bans: &[ShortChannelIdDir], own: Option<ShortChannelIdDir>) -> (r: Vec<ShortChannelIdDir>)
    ensures
        r@ == others_bans(bans@, own),
{
    let mut out: Vec<ShortChannelIdDir> = Vec::new();
    let mut i: usize = 0;
    while i < bans.len()
        invariant
            i <= bans@.len(),
            out@ == others_bans(bans@.take(i as int), own),
        decreases bans@.len() - i,
    {
        let b = bans[i];
        proof {
            assert(bans@.take(i + 1).drop_last() =~= bans@.take(i as int));
            assert(bans@.take(i + 1).last() == b);
            reveal(Seq::filter);
        }
        match own {
            Some(o) => {
                if !(b.short_channel_id == o.short_channel_id && b.direction == o.direction) {
                    out.push(b);
                }
            },
            None => {
                out.push(b);
            },
        }
        i = i + 1;
    }
    proof {
        assert(bans@.take(i as int) =~= bans@);
    }
    out
}

/// Which route a job tries next: while the route that last succeeded still
/// works, that one; else a new search, which also avoids the channels the
/// job's other tasks are paying through. Returns the route, or the search
/// error, and the channel the calling task now reserves.
pub fn next_route(
    graph: &LnGraph,
    my_pubkey: &PubKeyBytes,
    other_pubkey: &PubKeyBytes,
    chan_id: u64,
    job: &Job,
    maxhops: u8,
    cltv_delta: u32,
    now_secs: u64,
    excepts: &mut Vec<ShortChannelIdDir>,
    task_bans: &[ShortChannelIdDir],
    own_ban: Option<ShortChannelIdDir>,
    success_route: &mut Option<Vec<SendpayRoute>>,
    actual_candidates: &[u64],
    peer_channels: &[PeerChannel],
    exclude_peers: &[PubKeyBytes],
    liquidity: &HashMap<u128, Liquidity>,
) -> (r: (Result<Vec<SendpayRoute>, DijkstraError>, Option<ShortChannelIdDir>))
    requires
        graph.wf(),
        match *old(success_route) {
            Some(p) => p@.len() > 0,
            None => true,
        },
    ensures
        ({
            let reuse = match *old(success_route) {
                Some(p) => spec_route_still_usable(p@, actual_candidates@, peer_channels@, job.sat_direction),
                None => false,
            };
            if reuse {
                &&& *final(success_route) == *old(success_route)
                &&& final(excepts)@ == old(excepts)@
                &&& r.0 is Ok
                &&& r.0->Ok_0@ == old(success_route)->0@
                &&& r.1 == spec_parallel_ban(old(success_route)->0@, graph@, *my_pubkey, own_ban)
            } else {
                &&& *final(success_route) is None
                &&& final(excepts)@ == old(excepts)@ + others_bans(task_bans@, own_ban)
                &&& dijkstra_result(
                    graph@,
                    *my_pubkey,
                    *other_pubkey,
                    chan_id,
                    job.sat_direction,
                    job.amount_msat,
                    maxhops,
                    cltv_delta,
                    now_secs,
                    actual_candidates@,
                    exclude_peers@,
                    final(excepts)@,
                    liquidity@,
                    r.0,
                )
                &&& match r.0 {
                    Ok(v) => r.1 == spec_parallel_ban(v@, graph@, *my_pubkey, None),
                    Err(_) => r.1 is None,
                }
            }
        }),
{
    let mut reuse = false;
    match success_route {
        Some(prev) => {
            if route_still_usable(prev.as_slice(), actual_candidates, peer_channels, job.sat_direction) {
                reuse = true;
            }
        },
        None => {},
    }
    if reuse {
        let route = match success_route {
            Some(prev) => prev.clone(),
            None => Vec::new(),
        };
        proof {
            assert(route@ =~= old(success_route)->0@);
        }
        let ban = parallel_ban_for_route(route.as_slice(), graph, my_pubkey, own_ban);
        return (Ok(route), ban);
    }
    *success_route = None;
    let others = without(task_bans, own_ban);
    let ghost e0 = excepts@;
    let mut i: usize = 0;
    while i < others.len()
        invariant
            i <= others@.len(),
            excepts@ == e0 + others@.take(i as int),
        decreases others@.len() - i,
    {
        excepts.push(others[i]);
        proof {
            assert(others@.take(i + 1) =~= others@.take(i as int).push(others@[i as int]));
        }
        i = i + 1;
    }
    proof {
        assert(others@.take(i as int) =~= others@);
    }
    match dijkstra(
        graph,
        my_pubkey,
        other_pubkey,
        chan_id,
        job.sat_direction,
        job.amount_msat,
        maxhops,
        cltv_delta,
        now_secs,
        actual_candidates,
        exclude_peers,
        excepts.as_slice(),
        liquidity,
    ) {
        Ok(route) => {
            let ban = parallel_ban_for_route(route.as_slice(), graph, my_pubkey, None);
            (Ok(route), ban)
        },
        Err(e) => (Err(e), None),
    }
}

/// Why the hop a payment comes back in through is unknown.
#[derive(Debug, Clone, Copy, PartialEq, Eq, Structural)]
pub enum LastHopError {
    /// None of our channels is the route's last one.
    NotFound,
    /// Several of our channels go by the route's last channel as their
    /// partner's alias.
    Ambiguous,
}

/// How many of the first `n` channels go by `scid` as their partner's alias.
pub open spec fn alias_count(c: Seq<PeerChannel>, scid: u64, n: int) -> nat
    decreases n,
{
    if n <= 0 {
        0
    } else {
        alias_count(c, scid, n - 1) + if c[n - 1].remote_alias == Some(scid) { 1nat } else { 0nat }
    }
}

/// The channel a payment on a route ending in `last_scid` comes back in
/// through: the channel of that id, else the only one with that remote
/// alias.
pub open spec fn spec_last_hop(c: Seq<PeerChannel>, last_scid: u64) -> Result<int, LastHopError> {
    match crate::stats::channel_index(c, last_scid) {
        Some(i) => Ok(i),
        None => {
            let n = alias_count(c, last_scid, c.len() as int);
            if n == 0 {
                Err(LastHopError::NotFound)
            } else if n > 1 {
                Err(LastHopError::Ambiguous)
            } else {
                Ok(choose|i: int| 0 <= i < c.len() && c[i].remote_alias == Some(last_scid))
            }
        },
    }
}

proof fn lemma_alias_two(c: Seq<PeerChannel>, scid: u64, n: int, j: int, k: int)
    requires
        0 <= j < n <= c.len(),
        0 <= k < n,
        j != k,
        c[j].remote_alias == Some(scid),
        c[k].remote_alias == Some(scid),
    ensures
        alias_count(c, scid, n) >= 2,
    decreases n,
{
    if n - 1 == j {
        lemma_alias_count_pos(c, scid, n - 1, k);
    } else if n - 1 == k {
        lemma_alias_count_pos(c, scid, n - 1, j);
    } else {
        lemma_alias_two(c, scid, n - 1, j, k);
    }
}

proof fn lemma_alias_count_pos(c: Seq<PeerChannel>, scid: u64, n: int, j: int)
    requires
        0 <= j < n <= c.len(),
        c[j].remote_alias == Some(scid),
    ensures
        alias_count(c, scid, n) >= 1,
    decreases n,
{
    if n - 1 > j {
        lemma_alias_count_pos(c, scid, n - 1, j);
    }
}

/// The channel a payment on a route ending in `last_scid` comes back in
/// through.
pub fn find_last_hop(peer_channels: &[PeerChannel], last_scid: u64) -> (r: Result<usize, LastHopError>)
    ensures
        match r {
            Ok(i) => spec_last_hop(peer_channels@, last_scid) == Ok::<int, LastHopError>(i as int),
            Err(e) => spec_last_hop(peer_channels@, last_scid) == Err::<int, LastHopError>(e),
        },
{
    if let Some(i) = crate::commands::find_channel(peer_channels, last_scid) {
        return Ok(i);
    }
    let mut found: Option<usize> = None;
    let mut count: usize = 0;
    let mut i: usize = 0;
    while i < peer_channels.len()
        invariant
            i <= peer_channels@.len(),
            count == alias_count(peer_channels@, last_scid, i as int),
            count <= i,
            count == 0 ==> found is None,
            count > 0 ==> found is Some,
            found matches Some(f) ==> f < i && peer_channels@[f as int].remote_alias == Some(last_scid),
        decreases peer_channels@.len() - i,
    {
        if peer_channels[i].remote_alias == Some(last_scid) {
            if found.is_none() {
                found = Some(i);
            }
            count = count + 1;
        }
        i = i + 1;
    }
    if count == 0 {
        return Err(LastHopError::NotFound);
    }
    if count > 1 {
        return Err(LastHopError::Ambiguous);
    }
    let f = match found {
        Some(f) => f,
        None => 0,
    };
    proof {
        let c = peer_channels@;
        assert(c[f as int].remote_alias == Some(last_scid));
        let k = choose|k: int| 0 <= k < c.len() && c[k].remote_alias == Some(last_scid);
        if k != f {
            lemma_alias_two(c, last_scid, c.len() as int, k, f as int);
        }
    }
    Ok(f)
}

/// What a job does when a round found nothing to pay: a one-off job ends,
/// any other waits and searches anew.
#[derive(Debug, Clone, Copy, PartialEq, Eq, Structural)]
pub enum IdleAction {
    /// End the job after a second.
    End,
    /// Forget the kept route and wait ten minutes.
    Wait,
}

/// What a job does when a round found nothing to pay.
pub fn idle_action(job: &Job) -> (r: IdleAction)
    ensures
        r == if job.onceamount_msat is Some { IdleAction::End } else { IdleAction::Wait },
{
    if job.onceamount_msat.is_some() {
        IdleAction::End
    } else {
        IdleAction::Wait
    }
}

/// How a round of a task's loop ended, once it got past the channel's
/// health checks.
#[derive(Debug, Clone, Copy, PartialEq, Eq, Structural)]
pub enum RoundOutcome {
    /// No candidate channel could take part.
    NoCandidates,
    /// The search found no route.
    NoRoute,
    /// The route found costs more than the job allows.
    TooExpensive,
    /// The payment went through and delivered this many msat.
    Delivered(u64),
    /// The payment's answer could not be handled.
    PaymentError,
}

/// What the task's loop does after a round: the total it has moved, whether
/// it forgets the route it kept, the state it shows (if that changes),
/// whether it marks itself stopped, how long it waits, and whether it ends
/// after that wait.
#[derive(Debug, Clone, Copy, PartialEq, Eq, Structural)]
pub struct RoundStep {
    pub rebalanced_msat: u64,
    pub forget_route: bool,
    pub message: Option<JobMessage>,
    pub deactivate: bool,
    pub pause_secs: u64,
    pub end: bool,
}

/// The step after a round that found nothing to pay: the task shows
/// `message`; a one-off job ends after a second, any other forgets its
/// route and waits ten minutes.
pub open spec fn idle_step(once: bool, rebalanced_msat: u64, message: JobMessage) -> RoundStep {
    if once {
        RoundStep { rebalanced_msat, forget_route: false, message: Some(message), deactivate: false, pause_secs: 1, end: true }
    } else {
        RoundStep { rebalanced_msat, forget_route: true, message: Some(message), deactivate: false, pause_secs: 600, end: false }
    }
}

/// The step after a round: nothing to pay is `idle_step`; a route too dear
/// makes any job forget it and wait ten minutes; a delivery adds to the
/// total, and ends a one-off job at once or lets another go on after a
/// second; an unhandled answer stops the task with an error.
pub open spec fn spec_round_step(once: bool, rebalanced_msat: u64, outcome: RoundOutcome) -> RoundStep {
    match outcome {
        RoundOutcome::NoCandidates => idle_step(once, rebalanced_msat, JobMessage::NoCandidates),
        RoundOutcome::NoRoute => idle_step(once, rebalanced_msat, JobMessage::NoRoute),
        RoundOutcome::TooExpensive => RoundStep {
            rebalanced_msat,
            forget_route: true,
            message: Some(JobMessage::TooExp),
            deactivate: false,
            pause_secs: 600,
            end: false,
        },
        RoundOutcome::Delivered(moved) => RoundStep {
            rebalanced_msat: (rebalanced_msat + moved) as u64,
            forget_route: false,
            message: None,
            deactivate: false,
            pause_secs: if once { 0 } else { 1 },
            end: once,
        },
        RoundOutcome::PaymentError => RoundStep {
            rebalanced_msat,
            forget_route: false,
            message: Some(JobMessage::Error),
            deactivate: true,
            pause_secs: 0,
            end: true,
        },
    }
}

/// What the task's loop of `job` does after a round that ended with
/// `outcome`, having moved `rebalanced_msat` so far.
pub fn round_step(job: &Job, rebalanced_msat: u64, outcome: RoundOutcome) -> (r: RoundStep)
    requires
        outcome matches RoundOutcome::Delivered(moved) ==> rebalanced_msat + moved <= u64::MAX,
    ensures
        r == spec_round_step(job.onceamount_msat is Some, rebalanced_msat, outcome),
{
    let once = job.onceamount_msat.is_some();
    match outcome {
        RoundOutcome::NoCandidates | RoundOutcome::NoRoute => {
            let message = match outcome {
                RoundOutcome::NoCandidates => JobMessage::NoCandidates,
                _ => JobMessage::NoRoute,
            };
            match idle_action(job) {
                IdleAction::End => RoundStep {
                    rebalanced_msat,
                    forget_route: false,
                    message: Some(message),
                    deactivate: false,
                    pause_secs: 1,
                    end: true,
                },
                IdleAction::Wait => RoundStep {
                    rebalanced_msat,
                    forget_route: true,
                    message: Some(message),
                    deactivate: false,
                    pause_secs: 600,
                    end: false,
                },
            }
        },
        RoundOutcome::TooExpensive => RoundStep {
            rebalanced_msat,
            forget_route: true,
            message: Some(JobMessage::TooExp),
            deactivate: false,
            pause_secs: 600,
            end: false,
        },
        RoundOutcome::Delivered(moved) => RoundStep {
            rebalanced_msat: rebalanced_msat + moved,
            forget_route: false,
            message: None,
            deactivate: false,
            pause_secs: if once { 0 } else { 1 },
            end: once,
        },
        RoundOutcome::PaymentError => RoundStep {
            rebalanced_msat,
            forget_route: false,
            message: Some(JobMessage::Error),
            deactivate: true,
            pause_secs: 0,
            end: true,
        },
    }
}

/// The fee rate of a route and whether the job accepts it: the rate paid
/// for what the first hop sends to deliver what the last one receives, at
/// most the job's maximum.
pub fn route_fee_check(route: &[SendpayRoute], maxppm: u32) -> (r: (u32, bool))
    requires
        route@.len() >= 1,
        route@[0].amount_msat >= route@.last().amount_msat,
    ensures
        r.0 == spec_feeppm_effective_from_amts(route@[0].amount_msat, route@.last().amount_msat),
        r.1 == (r.0 <= maxppm),
{
    let fee = feeppm_effective_from_amts(route[0].amount_msat, route[route.len() - 1].amount_msat);
    (fee, fee <= maxppm)
}

/// How long a channel stays banned, in seconds.
pub const TEMPBAN_SECS: u64 = 600;

/// Whether a ban made at `banned_at` still holds at `now`.
pub fn tempban_active(banned_at: u64, now: u64) -> (r: bool)
    requires
        now >= TEMPBAN_SECS,
    ensures
        r == (banned_at > now - TEMPBAN_SECS),
{
    banned_at > now - TEMPBAN_SECS
}

/// Whether what the plugin learned of a channel's liquidity at
/// `liquidity_age` is older than `interval_mins` minutes at `now` (the sum
/// saturating), and is to be forgotten.
pub fn liquidity_expired(liquidity_age: u64, now: u64, interval_mins: u64) -> (r: bool)
    ensures
        r == (liquidity_age as int + interval_mins as int * 60 < now as int),
{
    let span = interval_mins as u128 * 60;
    (liquidity_age as u128 + span) < now as u128
}

} // verus!
