//! The saved jobs: at most one per channel, kept only for channels in
//! normal state.
use crate::model::PeerChannel;
use crate::util::{get_normal_channel_from_listpeerchannels, spec_find_channel};
use crate::Job;
use vstd::prelude::*;

verus! {

/// The jobs as a map from channel to job: a later entry for a channel
/// stands over an earlier one.
pub open spec fn jobs_map(s: Seq<(u64, Job)>) -> Map<u64, Job>
    decreases s.len(),
{
    if s.len() == 0 {
        Map::empty()
    } else {
        jobs_map(s.drop_last()).insert(s.last().0, s.last().1)
    }
}

/// How many entries name channel `c`.
pub open spec fn key_count(s: Seq<(u64, Job)>, c: u64) -> nat
    decreases s.len(),
{
    if s.len() == 0 {
        0
    } else {
        key_count(s.drop_last(), c) + if s.last().0 == c { 1nat } else { 0nat }
    }
}

/// The entries that do not name channel `c`, in their order.
pub open spec fn without_key(s: Seq<(u64, Job)>, c: u64) -> Seq<(u64, Job)>
    decreases s.len(),
{
    if s.len() == 0 {
        s
    } else {
        let rest = without_key(s.drop_last(), c);
        if s.last().0 == c { rest } else { rest.push(s.last()) }
    }
}

/// Whether our channel `c` is known and in normal state.
pub open spec fn chan_is_normal(peer_channels: Seq<PeerChannel>, c: u64) -> bool {
    match spec_find_channel(peer_channels, c) {
        Some(i) => peer_channels[i].normal,
        None => false,
    }
}

/// The entries whose channel is one of ours in normal state, in their order.
pub open spec fn on_normal_channels(s: Seq<(u64, Job)>, peer_channels: Seq<PeerChannel>) -> Seq<(u64, Job)>
    decreases s.len(),
{
    if s.len() == 0 {
        s
    } else {
        let rest = on_normal_channels(s.drop_last(), peer_channels);
        if chan_is_normal(peer_channels, s.last().0) { rest.push(s.last()) } else { rest }
    }
}

/// The channels in normal state, as a set.
pub open spec fn normal_set(peer_channels: Seq<PeerChannel>) -> Set<u64> {
    Set::new(|c: u64| chan_is_normal(peer_channels, c))
}

/// Dropping a channel's entries drops it from the map and leaves no entry
/// that names it.
pub proof fn lemma_without_key(s: Seq<(u64, Job)>, c: u64)
    ensures
        jobs_map(without_key(s, c)) == jobs_map(s).remove(c),
        key_count(without_key(s, c), c) == 0,
    decreases s.len(),
{
    if s.len() > 0 {
        lemma_without_key(s.drop_last(), c);
        let rest = without_key(s.drop_last(), c);
        if s.last().0 != c {
            assert(rest.push(s.last()).drop_last() =~= rest);
        }
        assert(jobs_map(without_key(s, c)) =~= jobs_map(s).remove(c));
    } else {
        assert(jobs_map(s).remove(c) =~= Map::<u64, Job>::empty());
    }
}

/// Keeping the entries on normal channels restricts the map to them.
pub proof fn lemma_on_normal(s: Seq<(u64, Job)>, peer_channels: Seq<PeerChannel>)
    ensures
        jobs_map(on_normal_channels(s, peer_channels)) == jobs_map(s).restrict(normal_set(peer_channels)),
    decreases s.len(),
{
    if s.len() > 0 {
        lemma_on_normal(s.drop_last(), peer_channels);
        let rest = on_normal_channels(s.drop_last(), peer_channels);
        if chan_is_normal(peer_channels, s.last().0) {
            assert(rest.push(s.last()).drop_last() =~= rest);
        }
        assert(jobs_map(on_normal_channels(s, peer_channels)) =~= jobs_map(s).restrict(normal_set(peer_channels)));
    } else {
        assert(jobs_map(s).restrict(normal_set(peer_channels)) =~= Map::<u64, Job>::empty());
    }
}

/// Appending an entry files it in the map over what was there.
pub proof fn lemma_push(s: Seq<(u64, Job)>, c: u64, job: Job)
    ensures
        jobs_map(s.push((c, job))) == jobs_map(s).insert(c, job),
        key_count(s.push((c, job)), c) == key_count(s, c) + 1,
{
    assert(s.push((c, job)).drop_last() =~= s);
}

/// Drops the job of channel `c`.
pub fn remove_job(jobs: &mut Vec<(u64, Job)>, c: u64)
    ensures
        final(jobs)@ == without_key(old(jobs)@, c),
        jobs_map(final(jobs)@) == jobs_map(old(jobs)@).remove(c),
{
    let ghost s = old(jobs)@;
    let mut rest: Vec<(u64, Job)> = Vec::new();
    std::mem::swap(jobs, &mut rest);
    let mut kept: Vec<(u64, Job)> = Vec::new();
    let ghost mut i: int = 0;
    while rest.len() > 0
        invariant
            0 <= i <= s.len(),
            rest@ == s.skip(i),
            kept@ == without_key(s.take(i), c),
        decreases rest@.len(),
    {
        let e = rest.remove(0);
        proof {
            assert(s.take(i + 1).drop_last() =~= s.take(i));
            assert(s.take(i + 1).last() == e);
            assert(rest@ =~= s.skip(i + 1));
        }
        if e.0 != c {
            kept.push(e);
        }
        proof {
            i = i + 1;
        }
    }
    proof {
        assert(s.take(i) =~= s);
        lemma_without_key(s, c);
    }
    *jobs = kept;
}

/// Sets the job of channel `c`, in place of any it had: the channel then
/// has exactly this one job.
pub fn set_job(jobs: &mut Vec<(u64, Job)>, c: u64, job: Job)
    ensures
        final(jobs)@ == without_key(old(jobs)@, c).push((c, job)),
        jobs_map(final(jobs)@) == jobs_map(old(jobs)@).insert(c, job),
        key_count(final(jobs)@, c) == 1,
{
    remove_job(jobs, c);
    jobs.push((c, job));
    proof {
        lemma_without_key(old(jobs)@, c);
        lemma_push(without_key(old(jobs)@, c), c, job);
        assert(jobs_map(old(jobs)@).remove(c).insert(c, job) =~= jobs_map(old(jobs)@).insert(c, job));
    }
}

/// Keeps the jobs whose channel is one of ours in normal state.
pub fn keep_jobs_on_normal_channels(jobs: &mut Vec<(u64, Job)>, peer_channels: &[PeerChannel])
    ensures
        final(jobs)@ == on_normal_channels(old(jobs)@, peer_channels@),
        jobs_map(final(jobs)@) == jobs_map(old(jobs)@).restrict(normal_set(peer_channels@)),
{
    let ghost s = old(jobs)@;
    let mut rest: Vec<(u64, Job)> = Vec::new();
    std::mem::swap(jobs, &mut rest);
    let mut kept: Vec<(u64, Job)> = Vec::new();
    let ghost mut i: int = 0;
    while rest.len() > 0
        invariant
            0 <= i <= s.len(),
            rest@ == s.skip(i),
            kept@ == on_normal_channels(s.take(i), peer_channels@),
        decreases rest@.len(),
    {
        let e = rest.remove(0);
        proof {
            assert(s.take(i + 1).drop_last() =~= s.take(i));
            assert(s.take(i + 1).last() == e);
            assert(rest@ =~= s.skip(i + 1));
        }
        if get_normal_channel_from_listpeerchannels(peer_channels, e.0).is_ok() {
            kept.push(e);
        }
        proof {
            i = i + 1;
        }
    }
    proof {
        assert(s.take(i) =~= s);
        lemma_on_normal(s, peer_channels@);
    }
    *jobs = kept;
}

} // verus!
