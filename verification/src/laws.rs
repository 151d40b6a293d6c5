//! Properties that hold across the library's operations.
use crate::commands::{set_with, set_without, spec_once_settle, spec_once_step, other_than, OnceStep};
use crate::graph::ShortChannelIdDirState;
use crate::model::{PubKeyBytes, ShortChannelIdDir, TaskIdentifier};
use crate::parse::{
    arg_candidates, candidates_from, first_excluded_from, is_share_bits, spec_parse_amounts,
    spec_parse_job, spec_parse_options, spec_parse_parallel, spec_parse_scid, JobArgs,
};
use crate::response::spec_direction;
use crate::stats::{in_window, keep_last, success_window, failure_window};
use crate::model::{FailureReb, SuccessReb};
use crate::jobs::{jobs_map, key_count, lemma_push, lemma_without_key, without_key};
use crate::tasks::{idents_distinct, not_of_scid, task_index, Task};
use crate::util::{compare_parts, spec_parse_u32, VersionError};
use crate::{Job, JobView, SatDirection};
use vstd::prelude::*;

verus! {

/// A read of the graph gives back what the last write of that directed
/// channel wrote, and a write leaves every other directed channel as it
/// was; after a removal the channel reads as absent.
pub proof fn law_graph_read_after_write(
    g: Map<ShortChannelIdDir, ShortChannelIdDirState>,
    sd: ShortChannelIdDir,
    st: ShortChannelIdDirState,
    other: ShortChannelIdDir,
)
    ensures
        g.insert(sd, st).contains_key(sd) && g.insert(sd, st)[sd] == st,
        other != sd ==> (g.insert(sd, st).contains_key(other) == g.contains_key(other)),
        other != sd && g.contains_key(other) ==> g.insert(sd, st)[other] == g[other],
        !g.remove(sd).contains_key(sd),
        other != sd ==> (g.remove(sd).contains_key(other) == g.contains_key(other)),
{
}

/// Of two different nodes, the channel from one to the other and the
/// channel back have opposite directions.
pub proof fn law_directions_opposite(a: PubKeyBytes, b: PubKeyBytes)
    requires
        a != b,
    ensures
        spec_direction(a, b) + spec_direction(b, a) == 1,
{
    assert(a.0@ != b.0@) by {
        if a.0@ == b.0@ {
            assert(a.0 == b.0);
        }
    }
    crate::graph::lemma_bytes_lt_total(a.0@, b.0@);
}

proof fn lemma_no_excluded(c: Seq<u64>, excluded: Seq<u64>, j: int)
    requires
        0 <= j,
        first_excluded_from(c, excluded, j) is None,
    ensures
        forall|k: int| j <= k < c.len() ==> !excluded.contains(#[trigger] c[k]),
    decreases c.len() - j,
{
    if j < c.len() {
        lemma_no_excluded(c, excluded, j + 1);
    }
}

/// Whether a job is one the job commands accept: a positive amount, a way
/// to choose candidates, a hop limit of at least 2, a depletable share in
/// `[0, 1)`, at least one parallel task (for a push job no more than the
/// HTLC limit), candidates that no job the other way excludes, and for a
/// one-off job a total that is a multiple of the amount, at least the
/// amount, and no target.
pub open spec fn job_accepted(
    job: JobView,
    once: bool,
    max_htlc_count: u64,
    exclude_chans_pull: Seq<u64>,
    exclude_chans_push: Seq<u64>,
) -> bool {
    &&& job.amount_msat > 0
    &&& job.outppm is Some || job.candidates is Some
    &&& job.maxhops matches Some(h) ==> h >= 2
    &&& job.depleteuptopercent matches Some(d) ==> is_share_bits(d)
    &&& job.target matches Some(t) ==> crate::parse::is_unit_bits(t)
    &&& job.paralleljobs matches Some(p) ==> p >= 1
    &&& job.paralleljobs matches Some(p) ==> (job.sat_direction == SatDirection::Push ==> p <= (max_htlc_count as u16))
    &&& job.candidates matches Some(c) ==> forall|k: int| 0 <= k < c.len() ==> !(match job.sat_direction {
        SatDirection::Pull => exclude_chans_pull,
        SatDirection::Push => exclude_chans_push,
    }).contains(#[trigger] c[k])
    &&& once ==> (job.onceamount_msat matches Some(o) && o % job.amount_msat == 0 && o >= job.amount_msat && job.target is None)
    &&& !once ==> job.onceamount_msat is None
}

proof fn lemma_parallel_accepted(
    e: Seq<(String, crate::parse::JsonArg)>,
    job: JobView,
    max_htlc_count: u64,
    exclude_chans_pull: Seq<u64>,
    exclude_chans_push: Seq<u64>,
    out: JobView,
)
    requires
        spec_parse_parallel(e, job, max_htlc_count, exclude_chans_pull, exclude_chans_push) == Ok::<JobView, crate::parse::ParseError>(out),
        job.candidates is None,
        job.paralleljobs is None,
    ensures
        out.amount_msat == job.amount_msat,
        out.sat_direction == job.sat_direction,
        out.outppm == job.outppm,
        out.maxhops == job.maxhops,
        out.depleteuptopercent == job.depleteuptopercent,
        out.onceamount_msat == job.onceamount_msat,
        out.target == job.target,
        out.outppm is Some || out.candidates is Some,
        out.paralleljobs matches Some(p) ==> p >= 1,
        out.paralleljobs matches Some(p) ==> (out.sat_direction == SatDirection::Push ==> p <= (max_htlc_count as u16)),
        out.candidates matches Some(c) ==> forall|k: int| 0 <= k < c.len() ==> !(match out.sat_direction {
            SatDirection::Pull => exclude_chans_pull,
            SatDirection::Push => exclude_chans_push,
        }).contains(#[trigger] c[k]),
{
    let excluded = match job.sat_direction {
        SatDirection::Pull => exclude_chans_pull,
        SatDirection::Push => exclude_chans_push,
    };
    match arg_candidates(crate::parse::lookup(e, crate::parse::KEY_CANDIDATES@)) {
        Ok(Some(c)) => {
            if first_excluded_from(c, excluded, 0) is None {
                lemma_no_excluded(c, excluded, 0);
            }
        },
        _ => {},
    }
}

/// A job that the job commands accept is valid: whatever the arguments,
/// an accepted job has the properties `job_accepted` lists.
pub proof fn law_parsed_job_valid(
    args: JobArgs,
    once: bool,
    max_htlc_count: u64,
    exclude_chans_pull: Seq<u64>,
    exclude_chans_push: Seq<u64>,
    chan_id: u64,
    job: JobView,
)
    requires
        crate::parse::amounts_fit(args),
        spec_parse_job(args, once, max_htlc_count, exclude_chans_pull, exclude_chans_push) == Ok::<(u64, JobView), crate::parse::ParseError>((chan_id, job)),
    ensures
        job_accepted(job, once, max_htlc_count, exclude_chans_pull, exclude_chans_push),
{
    match args {
        JobArgs::NotAnObject => {},
        JobArgs::Object(entries) => {
            let e = entries@;
            let d = crate::parse::lookup(e, crate::parse::KEY_DIRECTION@);
            let dir = match d {
                Some(crate::parse::JsonArg::Str(t)) => if t@ == crate::pull_chars() { SatDirection::Pull } else { SatDirection::Push },
                _ => SatDirection::Pull,
            };
            let amounts = spec_parse_amounts(e, once, dir, max_htlc_count, exclude_chans_pull, exclude_chans_push);
            assert(amounts == Ok::<JobView, crate::parse::ParseError>(job));
            lemma_amounts_accepted(e, once, dir, max_htlc_count, exclude_chans_pull, exclude_chans_push, job);
        },
    }
}

proof fn lemma_amounts_accepted(
    e: Seq<(String, crate::parse::JsonArg)>,
    once: bool,
    dir: SatDirection,
    max_htlc_count: u64,
    exclude_chans_pull: Seq<u64>,
    exclude_chans_push: Seq<u64>,
    job: JobView,
)
    requires
        spec_parse_amounts(e, once, dir, max_htlc_count, exclude_chans_pull, exclude_chans_push) == Ok::<JobView, crate::parse::ParseError>(job),
        crate::parse::lookup(e, crate::parse::KEY_AMOUNT@) matches Some(crate::parse::JsonArg::Number { unsigned: Some(v), .. }) ==> v <= u64::MAX / 1000,
    ensures
        job_accepted(job, once, max_htlc_count, exclude_chans_pull, exclude_chans_push),
{
    let amount = crate::parse::arg_u64(crate::parse::lookup(e, crate::parse::KEY_AMOUNT@), crate::parse::ArgKey::Amount)->Ok_0->Some_0;
    let amount_msat = (amount * 1000) as u64;
    let outppm = crate::parse::arg_u64(crate::parse::lookup(e, crate::parse::KEY_OUTPPM@), crate::parse::ArgKey::Outppm)->Ok_0;
    let maxppm = crate::parse::arg_u64(crate::parse::lookup(e, crate::parse::KEY_MAXPPM@), crate::parse::ArgKey::Maxppm)->Ok_0->Some_0;
    let base = JobView {
        sat_direction: dir,
        amount_msat,
        outppm,
        maxppm: maxppm as u32,
        candidates: None,
        target: None,
        maxhops: None,
        depleteuptopercent: None,
        depleteuptoamount_msat: None,
        paralleljobs: None,
        onceamount_msat: None,
    };
    let mid = if once {
        let oa = crate::parse::arg_u64(crate::parse::lookup(e, crate::parse::KEY_ONCEAMOUNT@), crate::parse::ArgKey::Onceamount)->Ok_0->Some_0;
        JobView { onceamount_msat: Some((oa * 1000) as u64), ..base }
    } else {
        let target = crate::parse::arg_bits(crate::parse::lookup(e, crate::parse::KEY_TARGET@), crate::parse::ArgKey::Target)->Ok_0;
        JobView { target, ..base }
    };
    assert(spec_parse_options(e, mid, max_htlc_count, exclude_chans_pull, exclude_chans_push) == Ok::<JobView, crate::parse::ParseError>(job));
    let mh = crate::parse::arg_u64(crate::parse::lookup(e, crate::parse::KEY_MAXHOPS@), crate::parse::ArgKey::Maxhops)->Ok_0;
    let j1 = if mh is Some { JobView { maxhops: Some(mh->0 as u8), ..mid } } else { mid };
    let dp = crate::parse::arg_bits(crate::parse::lookup(e, crate::parse::KEY_DEPLETEUPTOPERCENT@), crate::parse::ArgKey::Depleteuptopercent)->Ok_0;
    let j2 = if dp is Some { JobView { depleteuptopercent: dp, ..j1 } } else { j1 };
    let da = crate::parse::arg_u64(crate::parse::lookup(e, crate::parse::KEY_DEPLETEUPTOAMOUNT@), crate::parse::ArgKey::Depleteuptoamount)->Ok_0;
    let j3 = if da is Some { JobView { depleteuptoamount_msat: Some((da->0 * 1000) as u64), ..j2 } } else { j2 };
    assert(spec_parse_parallel(e, j3, max_htlc_count, exclude_chans_pull, exclude_chans_push) == Ok::<JobView, crate::parse::ParseError>(job));
    lemma_parallel_accepted(e, j3, max_htlc_count, exclude_chans_pull, exclude_chans_push, job);
}

proof fn lemma_window_all(s: Seq<SuccessReb>, now: u64)
    ensures
        success_window(s, 0, now) == s,
    decreases s.len(),
{
    if s.len() > 0 {
        lemma_window_all(s.drop_last(), now);
        assert(s.drop_last().push(s.last()) =~= s);
    }
}

proof fn lemma_failure_window_all(s: Seq<FailureReb>, now: u64)
    ensures
        failure_window(s, 0, now) == s,
    decreases s.len(),
{
    if s.len() > 0 {
        lemma_failure_window_all(s.drop_last(), now);
        assert(s.drop_last().push(s.last()) =~= s);
    }
}

/// A limit of 0 deletes nothing by that limit: with an age of 0 only the
/// count limit applies, and with a size of 0 only the age limit does.
pub proof fn law_prune_zero_limits(
    successes: Seq<SuccessReb>,
    failures: Seq<FailureReb>,
    days: u64,
    size: u64,
    now: u64,
)
    ensures
        keep_last(success_window(successes, 0, now), size) == keep_last(successes, size),
        keep_last(failure_window(failures, 0, now), size) == keep_last(failures, size),
        keep_last(success_window(successes, days, now), 0) == success_window(successes, days, now),
        keep_last(failure_window(failures, days, now), 0) == failure_window(failures, days, now),
{
    lemma_window_all(successes, now);
    lemma_failure_window_all(failures, now);
}

/// A channel has at most one job: once a job is set for a channel exactly
/// one entry names the channel, it holds that job, and every other channel
/// keeps its job; once the channel's job is removed no entry names it.
pub proof fn law_one_job_per_channel(jobs: Seq<(u64, Job)>, c: u64, job: Job)
    ensures
        key_count(without_key(jobs, c).push((c, job)), c) == 1,
        jobs_map(without_key(jobs, c).push((c, job))).contains_key(c),
        jobs_map(without_key(jobs, c).push((c, job)))[c] == job,
        forall|d: u64| d != c ==> (#[trigger] jobs_map(without_key(jobs, c).push((c, job))).contains_key(d)
            == jobs_map(jobs).contains_key(d)),
        forall|d: u64| d != c && jobs_map(jobs).contains_key(d) ==>
            #[trigger] jobs_map(without_key(jobs, c).push((c, job)))[d] == jobs_map(jobs)[d],
        key_count(without_key(jobs, c), c) == 0,
        !jobs_map(without_key(jobs, c)).contains_key(c),
{
    lemma_without_key(jobs, c);
    lemma_push(without_key(jobs, c), c, job);
}

/// An excepted channel or node is in the list after it is added, and not
/// after it is removed; removing undoes adding, as far as the list's members
/// go.
pub proof fn law_except_add_remove<T>(s: Seq<T>, x: T, y: T)
    ensures
        set_with(s, x).contains(x),
        !set_without(s, x).contains(x),
        y != x ==> (set_without(set_with(s, x), x).contains(y) == s.contains(y)),
        y != x ==> (set_with(s, x).contains(y) == s.contains(y)),
{
    reveal(Seq::filter);
    if !s.contains(x) {
        assert(s.push(x)[s.len() as int] == x);
    }
    s.filter_lemma(other_than(x));
    set_with(s, x).filter_lemma(other_than(x));
    if set_without(s, x).contains(x) {
        let k = choose|k: int| 0 <= k < set_without(s, x).len() && set_without(s, x)[k] == x;
        assert((other_than(x))(set_without(s, x)[k]));
    }
    if y != x {
        if s.contains(y) {
            let k = choose|k: int| 0 <= k < s.len() && s[k] == y;
            assert(set_with(s, x)[k] == y);
            assert((other_than(x))(set_with(s, x)[k]));
        }
        if set_without(set_with(s, x), x).contains(y) {
            set_with(s, x).lemma_filter_contains_rev(other_than(x), y);
            let k = choose|k: int| 0 <= k < set_with(s, x).len() && set_with(s, x)[k] == y;
            if !s.contains(x) && k == s.len() {
                assert(set_with(s, x)[k] == x);
            } else {
                assert(s[k] == y);
            }
        }
        if set_with(s, x).contains(y) {
            let k = choose|k: int| 0 <= k < set_with(s, x).len() && set_with(s, x)[k] == y;
            if !s.contains(x) && k == s.len() {
                assert(set_with(s, x)[k] == x);
            } else {
                assert(s[k] == y);
            }
        }
    }
}

/// A task filed under a fresh identifier is then found under it, whatever
/// identifier it carries itself, and the identifiers stay distinct.
pub proof fn law_task_insert_then_get(s: Seq<(TaskIdentifier, Task)>, id: TaskIdentifier, t: Task)
    requires
        idents_distinct(s),
        task_index(s, id) is None,
    ensures
        idents_distinct(s.push((id, t))),
        task_index(s.push((id, t)), id) == Some(s.len() as int),
        s.push((id, t))[s.len() as int] == (id, t),
{
    assert forall|j: int| 0 <= j < s.len() implies #[trigger] s[j].0 != id by {
        if s[j].0 == id {
            assert(exists|i: int| 0 <= i < s.len() && #[trigger] s[i].0 == id);
        }
    }
    let u = s.push((id, t));
    assert(exists|i: int| 0 <= i < u.len() && #[trigger] u[i].0 == id) by {
        assert(u[s.len() as int].0 == id);
    }
    let k = task_index(u, id)->Some_0;
    if k != s.len() {
        assert(u[k] == s[k]);
    }
}

/// After the tasks of a channel are removed, none filed under it is left,
/// and every task filed under another channel still is.
pub proof fn law_remove_task(s: Seq<(TaskIdentifier, Task)>, scid: u64, e: (TaskIdentifier, Task))
    ensures
        forall|i: int| 0 <= i < s.filter(not_of_scid(scid)).len()
            ==> #[trigger] s.filter(not_of_scid(scid))[i].0.short_channel_id != scid,
        s.contains(e) && e.0.short_channel_id != scid ==> s.filter(not_of_scid(scid)).contains(e),
{
    s.filter_lemma(not_of_scid(scid));
    assert forall|i: int| 0 <= i < s.filter(not_of_scid(scid)).len()
        implies #[trigger] s.filter(not_of_scid(scid))[i].0.short_channel_id != scid by {
        assert((not_of_scid(scid))(s.filter(not_of_scid(scid))[i]));
    }
    if s.contains(e) && e.0.short_channel_id != scid {
        let k = choose|k: int| 0 <= k < s.len() && s[k] == e;
        assert((not_of_scid(scid))(s[k]));
    }
}

/// A one-off job never counts more than its total: from a count within the
/// total, the next step's count is within it too.
pub proof fn law_once_within_total(total: u64, amount: u64, onceamount: u64, should_stop: bool)
    requires
        total <= onceamount,
    ensures
        spec_once_step(total, amount, onceamount, should_stop).1 <= onceamount,
{
}

/// A round that a one-off job counted in advance and that then moved
/// nothing, or failed, is taken back: the count is what it was before.
pub proof fn law_once_failed_round_not_counted(total: u64, amount: u64, onceamount: u64, moved: Option<u64>)
    requires
        spec_once_step(total, amount, onceamount, false).0 == OnceStep::Go,
        moved == Some(0u64) || moved is None,
    ensures
        spec_once_step(total, amount, onceamount, false).1 >= amount,
        spec_once_settle(spec_once_step(total, amount, onceamount, false).1, amount, moved) == total,
{
}

/// A version is at or above itself: comparing numeric pieces with
/// themselves never finds a smaller one.
pub proof fn law_version_at_or_above_itself(parts: Seq<Seq<char>>, i: int)
    requires
        0 <= i,
        forall|k: int| i <= k < parts.len() ==> (#[trigger] spec_parse_u32(parts[k])) is Some,
    ensures
        compare_parts(parts, parts, i) == Ok::<bool, VersionError>(true),
    decreases parts.len() - i,
{
    if i < parts.len() {
        assert(spec_parse_u32(parts[i]) is Some);
        law_version_at_or_above_itself(parts, i + 1);
    }
}

} // verus!
