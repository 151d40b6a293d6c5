//! The statistics of a channel's rebalances within a time window.
use crate::config::DAY_SECS;
use crate::double::{
    dbl_ceil, dbl_ceil_u64, dbl_floor, dbl_floor_u64, dbl_mul, dbl_mul_exec, dbl_of, dbl_of_bits,
    dbl_of_u64, dv, sat_u64, wf, Double, P52,
};
use crate::config::str_eq;
use crate::model::{FailureReasonCount, FailureReb, PeerChannel, PubKeyBytes, SuccessReb};
use crate::rank::{has_key, is_heaviest, is_top, lemma_top_one_heaviest, top_keys, total_weight};
use vstd::prelude::*;
use vstd::relations::{sorted_by, total_ordering};

verus! {

/// Whether a time (seconds since the epoch) lies in a window of `days`
/// days before `now`; a window of 0 days holds all times.
pub open spec fn in_window(t: u64, days: u64, now: u64) -> bool {
    days == 0 || t >= now - days * DAY_SECS
}

/// Whether the window's start can be computed: a window of 0 days, or one
/// that begins after the epoch.
pub open spec fn window_fits(days: u64, now: u64) -> bool {
    days == 0 || days * DAY_SECS <= now
}

/// The successes within the window, in their order.
pub open spec fn success_window(s: Seq<SuccessReb>, days: u64, now: u64) -> Seq<SuccessReb>
    decreases s.len(),
{
    if s.len() == 0 {
        s
    } else {
        let w = success_window(s.drop_last(), days, now);
        if in_window(s.last().completed_at, days, now) { w.push(s.last()) } else { w }
    }
}

/// The failures within the window, in their order.
pub open spec fn failure_window(s: Seq<FailureReb>, days: u64, now: u64) -> Seq<FailureReb>
    decreases s.len(),
{
    if s.len() == 0 {
        s
    } else {
        let w = failure_window(s.drop_last(), days, now);
        if in_window(s.last().created_at, days, now) { w.push(s.last()) } else { w }
    }
}

/// The amounts of the successes summed.
pub open spec fn success_amount_sum(w: Seq<SuccessReb>) -> nat
    decreases w.len(),
{
    if w.len() == 0 { 0 } else { success_amount_sum(w.drop_last()) + w.last().amount_msat as nat }
}

/// The fee rates of the successes weighted by their amounts, summed.
pub open spec fn success_weighted_sum(w: Seq<SuccessReb>) -> nat
    decreases w.len(),
{
    if w.len() == 0 {
        0
    } else {
        success_weighted_sum(w.drop_last()) + (w.last().fee_ppm as nat) * (w.last().amount_msat as nat)
    }
}

/// The amounts of the failures summed.
pub open spec fn failure_amount_sum(w: Seq<FailureReb>) -> nat
    decreases w.len(),
{
    if w.len() == 0 { 0 } else { failure_amount_sum(w.drop_last()) + w.last().amount_msat as nat }
}

/// The latest completion time of the successes (0 for none).
pub open spec fn latest_completed(w: Seq<SuccessReb>) -> u64
    decreases w.len(),
{
    if w.len() == 0 {
        0
    } else {
        let m = latest_completed(w.drop_last());
        if w.last().completed_at > m { w.last().completed_at } else { m }
    }
}

/// The latest creation time of the failures (0 for none).
pub open spec fn latest_created(w: Seq<FailureReb>) -> u64
    decreases w.len(),
{
    if w.len() == 0 {
        0
    } else {
        let m = latest_created(w.drop_last());
        if w.last().created_at > m { w.last().created_at } else { m }
    }
}

/// The fee rates of the successes.
pub open spec fn fee_rates(w: Seq<SuccessReb>) -> Seq<u32> {
    w.map_values(|x: SuccessReb| x.fee_ppm)
}

/// The order of fee rates.
pub open spec fn fee_leq() -> spec_fn(u32, u32) -> bool {
    |a: u32, b: u32| a <= b
}

/// The fee rates in ascending order.
pub open spec fn sorted_fee_rates(w: Seq<SuccessReb>) -> Seq<u32> {
    choose|s: Seq<u32>| sorted_by(s, fee_leq()) && s.to_multiset() == fee_rates(w).to_multiset()
}

/// Per success, its channel partner and the sats it moved.
pub open spec fn partner_sats(w: Seq<SuccessReb>) -> Seq<(u64, u64)> {
    w.map_values(|x: SuccessReb| (x.channel_partner, x.amount_msat / 1000))
}

/// Per failure, its channel partner and the sats it tried.
pub open spec fn failed_partner_sats(w: Seq<FailureReb>) -> Seq<(u64, u64)> {
    w.map_values(|x: FailureReb| (x.channel_partner, x.amount_msat / 1000))
}

/// Per success, its hop count once.
pub open spec fn success_hops(w: Seq<SuccessReb>) -> Seq<(u64, u64)> {
    w.map_values(|x: SuccessReb| (x.hops as u64, 1u64))
}

/// Per failure, its hop count once.
pub open spec fn failure_hops(w: Seq<FailureReb>) -> Seq<(u64, u64)> {
    w.map_values(|x: FailureReb| (x.hops as u64, 1u64))
}

/// The bits of the binary64 number 0.9.
pub const NINE_TENTHS_BITS: u64 = 0x3FEC_CCCC_CCCC_CCCD;

/// The bits of the binary64 number 0.000001.
pub const ONE_MILLIONTH_BITS: u64 = 0x3EB0_C6F7_A0B5_ED8D;

/// The index of the 90th percentile in `n` sorted values:
/// `(n as f64 * 0.9).ceil() as i32 - 1`, at least 0 and below `n`.
pub open spec fn p90_index(n: nat) -> int {
    let up = dbl_ceil(dbl_mul(dbl_of(n), dbl_of_bits(NINE_TENTHS_BITS)));
    let c = if up > 0x7FFF_FFFF { 0x7FFF_FFFFnat } else { up };
    if c == 0 { 0 } else if c > n { n - 1 } else { c - 1 }
}

/// `(weighted as f64 * 0.000001 * total as f64) as u64 / 1000`: the fees
/// paid, in sats, from the weighted fee rate and the amount moved.
pub open spec fn spent_sats(weighted: u64, total_msat: u64) -> u64 {
    (sat_u64(dbl_floor(dbl_mul(dbl_mul(dbl_of(weighted as nat), dbl_of_bits(ONE_MILLIONTH_BITS)), dbl_of(total_msat as nat)))) / 1000) as u64
}

/// The statistics of the successful rebalances within a time window.
#[derive(Debug, Clone)]
pub struct SuccessStats {
    /// The window in days; 0 for all time.
    pub time_window_days: u64,
    pub total_amount_sats: u64,
    pub feeppm_weighted_avg: u64,
    pub feeppm_min: u32,
    pub feeppm_max: u32,
    pub feeppm_median: u32,
    pub feeppm_90th_percentile: u32,
    /// Channel partners and the sats moved through them, most first.
    pub top_5_channel_partners: Vec<(u64, u64)>,
    pub most_common_hop_count: Option<u8>,
    /// When the last rebalance completed (seconds since the epoch).
    pub last_rebalance_at: u64,
    pub total_rebalances: u64,
    pub total_spent_sats: u64,
}

/// The statistics of the failed rebalances within a time window.
#[derive(Debug, Clone)]
pub struct FailureStats {
    /// The window in days; 0 for all time.
    pub time_window_days: u64,
    pub total_amount_tried_sats: u64,
    /// Failure reasons and how often each came, most first.
    pub top_5_failure_reasons: Vec<FailureReasonCount>,
    /// Failing nodes and how often each failed, most first.
    pub top_5_fail_nodes: Vec<(PubKeyBytes, u32)>,
    /// Channel partners and the sats tried through them, most first.
    pub top_5_channel_partners: Vec<(u64, u64)>,
    pub most_common_hop_count: Option<u8>,
    /// When the last attempt was made (seconds since the epoch).
    pub last_attempt_at: u64,
    pub total_rebalances_tried: u64,
}

/// The records of `s` within the window.
pub fn successes_in_window(s: &[SuccessReb], days: u64, now: u64) -> (w: Vec<SuccessReb>)
    requires
        window_fits(days, now),
    ensures
        w@ == success_window(s@, days, now),
{
    let mut w: Vec<SuccessReb> = Vec::new();
    let mut i: usize = 0;
    while i < s.len()
        invariant
            i <= s@.len(),
            window_fits(days, now),
            w@ == success_window(s@.subrange(0, i as int), days, now),
        decreases s@.len() - i,
    {
        proof {
            assert(s@.subrange(0, i + 1).drop_last() =~= s@.subrange(0, i as int));
        }
        let r = s[i];
        if days == 0 || r.completed_at >= now - days * DAY_SECS {
            w.push(r);
        }
        i = i + 1;
    }
    proof {
        assert(s@.subrange(0, s@.len() as int) =~= s@);
    }
    w
}

/// A copy of a failure record.
pub fn copy_failure(f: &FailureReb) -> (r: FailureReb)
    ensures
        r == *f,
{
    FailureReb {
        amount_msat: f.amount_msat,
        failure_reason: f.failure_reason.clone(),
        failure_node: f.failure_node,
        channel_partner: f.channel_partner,
        hops: f.hops,
        created_at: f.created_at,
    }
}

/// The records of `s` within the window.
pub fn failures_in_window(s: &[FailureReb], days: u64, now: u64) -> (w: Vec<FailureReb>)
    requires
        window_fits(days, now),
    ensures
        w@ == failure_window(s@, days, now),
{
    let mut w: Vec<FailureReb> = Vec::new();
    let mut i: usize = 0;
    while i < s.len()
        invariant
            i <= s@.len(),
            window_fits(days, now),
            w@ == failure_window(s@.subrange(0, i as int), days, now),
        decreases s@.len() - i,
    {
        proof {
            assert(s@.subrange(0, i + 1).drop_last() =~= s@.subrange(0, i as int));
        }
        if days == 0 || s[i].created_at >= now - days * DAY_SECS {
            w.push(copy_failure(&s[i]));
        }
        i = i + 1;
    }
    proof {
        assert(s@.subrange(0, s@.len() as int) =~= s@);
    }
    w
}

/// The values of `v` in ascending order.
pub fn sort_fee_rates(v: &Vec<u32>) -> (r: Vec<u32>)
    ensures
        sorted_by(r@, fee_leq()),
        r@.to_multiset() == v@.to_multiset(),
{
    broadcast use vstd::seq_lib::group_to_multiset_ensures;
    let mut r: Vec<u32> = Vec::new();
    let mut i: usize = 0;
    while i < v.len()
        invariant
            i <= v@.len(),
            r@.len() == i,
            sorted_by(r@, fee_leq()),
            r@.to_multiset() == v@.subrange(0, i as int).to_multiset(),
        decreases v@.len() - i,
    {
        let x = v[i];
        let mut p: usize = 0;
        while p < r.len() && r[p] <= x
            invariant
                p <= r@.len(),
                forall|q: int| 0 <= q < p ==> r@[q] <= x,
            decreases r@.len() - p,
        {
            p = p + 1;
        }
        let ghost old_r = r@;
        r.insert(p, x);
        proof {
            vstd::seq_lib::to_multiset_insert(old_r, p as int, x);
            assert(v@.subrange(0, i + 1) =~= v@.subrange(0, i as int).push(x));
            vstd::seq_lib::to_multiset_build(v@.subrange(0, i as int), x);
            assert(r@ == old_r.insert(p as int, x));
            assert forall|a: int, b: int| 0 <= a < b < r@.len() implies #[trigger] (fee_leq())(r@[a], r@[b]) by {
                assert((fee_leq())(r@[a], r@[b]) == (r@[a] <= r@[b]));
                if b < p {
                    assert((fee_leq())(old_r[a], old_r[b]));
                } else if b == p {
                    assert(r@[a] == old_r[a]);
                } else if a == p {
                    assert(r@[b] == old_r[b - 1]);
                    if p < old_r.len() {
                        assert(old_r[p as int] > x);
                        if b - 1 > p {
                            assert((fee_leq())(old_r[p as int], old_r[b - 1]));
                        }
                    }
                } else if a < p {
                    assert((fee_leq())(old_r[a], old_r[b - 1]));
                } else {
                    assert((fee_leq())(old_r[a - 1], old_r[b - 1]));
                }
            }
        }
        i = i + 1;
    }
    proof {
        assert(v@.subrange(0, v@.len() as int) =~= v@);
    }
    r
}

/// Sorted fee rates are the sorted fee rates.
proof fn lemma_sorted_fee_rates(w: Seq<SuccessReb>, r: Seq<u32>)
    requires
        sorted_by(r, fee_leq()),
        r.to_multiset() == fee_rates(w).to_multiset(),
    ensures
        r == sorted_fee_rates(w),
{
    let s = sorted_fee_rates(w);
    assert(sorted_by(s, fee_leq()) && s.to_multiset() == fee_rates(w).to_multiset());
    assert(total_ordering(fee_leq())) by {
        assert(vstd::relations::reflexive(fee_leq()));
        assert(vstd::relations::antisymmetric(fee_leq()));
        assert(vstd::relations::transitive(fee_leq()));
        assert(vstd::relations::strongly_connected(fee_leq()));
    }
    vstd::seq_lib::lemma_sorted_unique(r, s, fee_leq());
}

/// 0.9 as an operand of the binary64 operations.
fn nine_tenths() -> (r: Double)
    ensures
        dv(r) == dbl_of_bits(NINE_TENTHS_BITS),
        wf(dv(r)),
{
    let r = Double { m: 0x1C_CCCC_CCCC_CCCD, e: -53 };
    assert(dv(r) == dbl_of_bits(NINE_TENTHS_BITS));
    r
}

/// 0.000001 as an operand of the binary64 operations.
fn one_millionth() -> (r: Double)
    ensures
        dv(r) == dbl_of_bits(ONE_MILLIONTH_BITS),
        wf(dv(r)),
{
    let r = Double { m: 0x10_C6F7_A0B5_ED8D, e: -72 };
    assert(dv(r) == dbl_of_bits(ONE_MILLIONTH_BITS));
    r
}

/// The index of the 90th percentile among `n` sorted values.
pub fn percentile_90_index(n: usize) -> (r: usize)
    requires
        n > 0,
    ensures
        r == p90_index(n as nat),
        r < n,
{
    let prod = dbl_mul_exec(dbl_of_u64(n as u64), nine_tenths());
    let up = dbl_ceil_u64(prod);
    let c = if up > 0x7FFF_FFFF { 0x7FFF_FFFF } else { up };
    proof {
        let upn = dbl_ceil(dbl_mul(dbl_of(n as nat), dbl_of_bits(NINE_TENTHS_BITS)));
        assert(up == sat_u64(upn));
    }
    if c == 0 {
        0
    } else if c > n as u64 {
        n - 1
    } else {
        (c - 1) as usize
    }
}

/// The fees paid, in sats, for moving `total_msat` at the weighted fee
/// rate `weighted`.
pub fn spent_sats_of(weighted: u64, total_msat: u64) -> (r: u64)
    ensures
        r == spent_sats(weighted, total_msat),
{
    let a = dbl_mul_exec(dbl_of_u64(weighted), one_millionth());
    let b = dbl_mul_exec(a, dbl_of_u64(total_msat));
    dbl_floor_u64(b) / 1000
}

proof fn lemma_success_sums_prefix(w: Seq<SuccessReb>, n: int)
    requires
        0 <= n <= w.len(),
    ensures
        success_amount_sum(w.subrange(0, n)) <= success_amount_sum(w),
        success_weighted_sum(w.subrange(0, n)) <= success_weighted_sum(w),
    decreases w.len() - n,
{
    if n < w.len() {
        lemma_success_sums_prefix(w, n + 1);
        assert(w.subrange(0, n + 1).drop_last() =~= w.subrange(0, n));
    } else {
        assert(w.subrange(0, n) =~= w);
    }
}

proof fn lemma_partner_weight(w: Seq<SuccessReb>)
    ensures
        total_weight(partner_sats(w)) <= success_amount_sum(w),
        total_weight(success_hops(w)) == w.len(),
    decreases w.len(),
{
    if w.len() > 0 {
        lemma_partner_weight(w.drop_last());
        assert(partner_sats(w).drop_last() =~= partner_sats(w.drop_last()));
        assert(success_hops(w).drop_last() =~= success_hops(w.drop_last()));
    }
}

/// The amounts summed, the amount-weighted fee rates summed, and the latest
/// completion time of the successes.
pub fn success_sums(w: &Vec<SuccessReb>) -> (r: (u64, u64, u64))
    requires
        success_amount_sum(w@) <= u64::MAX,
        success_weighted_sum(w@) <= u64::MAX,
    ensures
        r.0 == success_amount_sum(w@),
        r.1 == success_weighted_sum(w@),
        r.2 == latest_completed(w@),
{
    let mut total: u64 = 0;
    let mut weighted: u64 = 0;
    let mut latest: u64 = 0;
    let mut i: usize = 0;
    while i < w.len()
        invariant
            i <= w@.len(),
            success_amount_sum(w@) <= u64::MAX,
            success_weighted_sum(w@) <= u64::MAX,
            total == success_amount_sum(w@.subrange(0, i as int)),
            weighted == success_weighted_sum(w@.subrange(0, i as int)),
            latest == latest_completed(w@.subrange(0, i as int)),
        decreases w@.len() - i,
    {
        let r = w[i];
        proof {
            assert(w@.subrange(0, i + 1).drop_last() =~= w@.subrange(0, i as int));
            lemma_success_sums_prefix(w@, i + 1);
            assert((r.fee_ppm as nat) * (r.amount_msat as nat) == (r.fee_ppm as u64) * r.amount_msat);
        }
        total = total + r.amount_msat;
        weighted = weighted + (r.fee_ppm as u64) * r.amount_msat;
        if r.completed_at > latest {
            latest = r.completed_at;
        }
        i = i + 1;
    }
    proof {
        assert(w@.subrange(0, w@.len() as int) =~= w@);
    }
    (total, weighted, latest)
}

/// The statistics of the successes within a window of `time_window` days
/// before `now` (all of them for 0 days); `None` when there are none.
pub fn success_stats(successes: &[SuccessReb], time_window: u64, now: u64) -> (r: Option<SuccessStats>)
    requires
        successes@.len() > 0 ==> window_fits(time_window, now),
        success_amount_sum(success_window(successes@, time_window, now)) <= u64::MAX,
        success_weighted_sum(success_window(successes@, time_window, now)) <= u64::MAX,
        success_window(successes@, time_window, now).len() > 0
            ==> success_amount_sum(success_window(successes@, time_window, now)) > 0,
    ensures
        successes@.len() == 0 ==> r is None,
        successes@.len() > 0 ==> ({
            let w = success_window(successes@, time_window, now);
            let fees = sorted_fee_rates(w);
            let total = success_amount_sum(w);
            let weighted_avg = success_weighted_sum(w) / total;
            &&& (w.len() == 0 <==> r is None)
            &&& r matches Some(st) ==> {
                &&& st.time_window_days == time_window
                &&& st.total_amount_sats == total / 1000
                &&& st.feeppm_weighted_avg == weighted_avg
                &&& st.feeppm_min == fees[0]
                &&& st.feeppm_max == fees[fees.len() - 1]
                &&& st.feeppm_median == fees[(fees.len() / 2) as int]
                &&& st.feeppm_90th_percentile == fees[p90_index(fees.len())]
                &&& is_top(partner_sats(w), st.top_5_channel_partners@, 5)
                &&& st.most_common_hop_count matches Some(h)
                &&& is_heaviest(success_hops(w), h as u64)
                &&& st.last_rebalance_at == latest_completed(w)
                &&& st.total_rebalances == w.len()
                &&& st.total_spent_sats == spent_sats(weighted_avg as u64, total as u64)
            }
        }),
{
    if successes.len() == 0 {
        return None;
    }
    let w = successes_in_window(successes, time_window, now);
    if w.len() == 0 {
        return None;
    }
    let (total, weighted, latest) = success_sums(&w);
    let weighted_avg = weighted / total;
    let mut fees: Vec<u32> = Vec::new();
    let mut partners: Vec<(u64, u64)> = Vec::new();
    let mut hops: Vec<(u64, u64)> = Vec::new();
    let mut i: usize = 0;
    while i < w.len()
        invariant
            i <= w@.len(),
            fees@ == fee_rates(w@).subrange(0, i as int),
            partners@ == partner_sats(w@).subrange(0, i as int),
            hops@ == success_hops(w@).subrange(0, i as int),
        decreases w@.len() - i,
    {
        let r = w[i];
        fees.push(r.fee_ppm);
        partners.push((r.channel_partner, r.amount_msat / 1000));
        hops.push((r.hops as u64, 1));
        proof {
            assert(fees@ =~= fee_rates(w@).subrange(0, i + 1));
            assert(partners@ =~= partner_sats(w@).subrange(0, i + 1));
            assert(hops@ =~= success_hops(w@).subrange(0, i + 1));
        }
        i = i + 1;
    }
    proof {
        assert(fees@ =~= fee_rates(w@));
        assert(partners@ =~= partner_sats(w@));
        assert(hops@ =~= success_hops(w@));
        lemma_partner_weight(w@);
    }
    let sorted = sort_fee_rates(&fees);
    proof {
        lemma_sorted_fee_rates(w@, sorted@);
        broadcast use vstd::seq_lib::group_to_multiset_ensures;
        assert(sorted@.len() == fees@.len()) by {
            assert(sorted@.to_multiset().len() == fees@.to_multiset().len());
        }
    }
    let n = sorted.len();
    let p90 = percentile_90_index(n);
    let top_partners = top_keys(&partners, 5);
    let top_hop = top_keys(&hops, 1);
    proof {
        let e = success_hops(w@);
        assert(e[0].0 == w@[0].hops as u64);
        assert(has_key(e, e[0].0));
        if top_hop@.len() == 0 {
            assert(has_key(top_hop@, e[0].0));
        }
        assert(has_key(e, top_hop@[0].0));
        let x = choose|x: int| 0 <= x < e.len() && #[trigger] e[x].0 == top_hop@[0].0;
        assert(e[x].0 == w@[x].hops as u64);
    }
    let hop = top_hop[0].0 as u8;
    proof {
        lemma_top_one_heaviest(success_hops(w@), top_hop@);
    }
    Some(SuccessStats {
        time_window_days: time_window,
        total_amount_sats: total / 1000,
        feeppm_weighted_avg: weighted_avg,
        feeppm_min: sorted[0],
        feeppm_max: sorted[n - 1],
        feeppm_median: sorted[n / 2],
        feeppm_90th_percentile: sorted[p90],
        top_5_channel_partners: top_partners,
        most_common_hop_count: Some(hop),
        last_rebalance_at: latest,
        total_rebalances: w.len() as u64,
        total_spent_sats: spent_sats_of(weighted_avg, total),
    })
}

/// The index of the first failure at or after `j` with reason `r` (the
/// length if there is none).
pub open spec fn first_reason_from(w: Seq<FailureReb>, r: Seq<char>, j: int) -> int
    decreases w.len() - j,
{
    if j < 0 || j >= w.len() {
        w.len() as int
    } else if w[j].failure_reason@ == r {
        j
    } else {
        first_reason_from(w, r, j + 1)
    }
}

/// The index of the first failure at or after `j` at node `n`.
pub open spec fn first_node_from(w: Seq<FailureReb>, n: PubKeyBytes, j: int) -> int
    decreases w.len() - j,
{
    if j < 0 || j >= w.len() {
        w.len() as int
    } else if w[j].failure_node == n {
        j
    } else {
        first_node_from(w, n, j + 1)
    }
}

/// Per failure, its reason (told apart by the index of the reason's first
/// failure) once.
pub open spec fn reason_entries(w: Seq<FailureReb>) -> Seq<(u64, u64)> {
    Seq::new(w.len(), |i: int| (first_reason_from(w, w[i].failure_reason@, 0) as u64, 1u64))
}

/// Per failure, its failing node (told apart by the index of the node's
/// first failure) once.
pub open spec fn node_entries(w: Seq<FailureReb>) -> Seq<(u64, u64)> {
    Seq::new(w.len(), |i: int| (first_node_from(w, w[i].failure_node, 0) as u64, 1u64))
}

proof fn lemma_first_reason(w: Seq<FailureReb>, r: Seq<char>, j: int, i: int)
    requires
        0 <= j <= i < w.len(),
        w[i].failure_reason@ == r,
    ensures
        j <= first_reason_from(w, r, j) <= i,
        w[first_reason_from(w, r, j)].failure_reason@ == r,
        forall|t: int| j <= t < first_reason_from(w, r, j) ==> w[t].failure_reason@ != r,
    decreases i - j,
{
    if w[j].failure_reason@ != r {
        lemma_first_reason(w, r, j + 1, i);
    }
}

proof fn lemma_first_node(w: Seq<FailureReb>, n: PubKeyBytes, j: int, i: int)
    requires
        0 <= j <= i < w.len(),
        w[i].failure_node == n,
    ensures
        j <= first_node_from(w, n, j) <= i,
        w[first_node_from(w, n, j)].failure_node == n,
        forall|t: int| j <= t < first_node_from(w, n, j) ==> w[t].failure_node != n,
    decreases i - j,
{
    if w[j].failure_node != n {
        lemma_first_node(w, n, j + 1, i);
    }
}

proof fn lemma_failure_weights(w: Seq<FailureReb>)
    ensures
        total_weight(failed_partner_sats(w)) <= failure_amount_sum(w),
        total_weight(failure_hops(w)) == w.len(),
    decreases w.len(),
{
    if w.len() > 0 {
        lemma_failure_weights(w.drop_last());
        assert(failed_partner_sats(w).drop_last() =~= failed_partner_sats(w.drop_last()));
        assert(failure_hops(w).drop_last() =~= failure_hops(w.drop_last()));
    }
}

proof fn lemma_unit_weights(e: Seq<(u64, u64)>)
    requires
        forall|i: int| 0 <= i < e.len() ==> #[trigger] e[i].1 == 1,
    ensures
        total_weight(e) == e.len(),
    decreases e.len(),
{
    if e.len() > 0 {
        lemma_unit_weights(e.drop_last());
    }
}

proof fn lemma_failure_sum_prefix(w: Seq<FailureReb>, n: int)
    requires
        0 <= n <= w.len(),
    ensures
        failure_amount_sum(w.subrange(0, n)) <= failure_amount_sum(w),
    decreases w.len() - n,
{
    if n < w.len() {
        lemma_failure_sum_prefix(w, n + 1);
        assert(w.subrange(0, n + 1).drop_last() =~= w.subrange(0, n));
    } else {
        assert(w.subrange(0, n) =~= w);
    }
}

/// The index of the first failure of `w` with the reason of its `i`th.
fn first_reason_index(w: &Vec<FailureReb>, i: usize) -> (r: usize)
    requires
        i < w@.len(),
    ensures
        r == first_reason_from(w@, w@[i as int].failure_reason@, 0),
        r <= i,
{
    proof {
        lemma_first_reason(w@, w@[i as int].failure_reason@, 0, i as int);
    }
    let mut j: usize = 0;
    while !str_eq(w[j].failure_reason.as_str(), w[i].failure_reason.as_str())
        invariant
            j <= i < w@.len(),
            first_reason_from(w@, w@[i as int].failure_reason@, j as int) == first_reason_from(w@, w@[i as int].failure_reason@, 0),
            j <= first_reason_from(w@, w@[i as int].failure_reason@, 0) <= i,
        decreases i - j,
    {
        assert(w@[j as int].failure_reason@ != w@[i as int].failure_reason@);
        assert(first_reason_from(w@, w@[i as int].failure_reason@, j as int) == first_reason_from(w@, w@[i as int].failure_reason@, j + 1));
        proof {
            lemma_first_reason(w@, w@[i as int].failure_reason@, j + 1, i as int);
        }
        j = j + 1;
    }
    j
}

/// The index of the first failure of `w` at the node of its `i`th.
fn first_node_index(w: &Vec<FailureReb>, i: usize) -> (r: usize)
    requires
        i < w@.len(),
    ensures
        r == first_node_from(w@, w@[i as int].failure_node, 0),
        r <= i,
{
    proof {
        lemma_first_node(w@, w@[i as int].failure_node, 0, i as int);
    }
    let mut j: usize = 0;
    while !w[j].failure_node.same_as(&w[i].failure_node)
        invariant
            j <= i < w@.len(),
            first_node_from(w@, w@[i as int].failure_node, j as int) == first_node_from(w@, w@[i as int].failure_node, 0),
            j <= first_node_from(w@, w@[i as int].failure_node, 0) <= i,
        decreases i - j,
    {
        assert(w@[j as int].failure_node != w@[i as int].failure_node);
        assert(first_node_from(w@, w@[i as int].failure_node, j as int) == first_node_from(w@, w@[i as int].failure_node, j + 1));
        proof {
            lemma_first_node(w@, w@[i as int].failure_node, j + 1, i as int);
        }
        j = j + 1;
    }
    j
}

/// The statistics of the failures within a window of `time_window` days
/// before `now` (all of them for 0 days); `None` when there are none.
/// Reasons and nodes are counted per distinct value; each is named by its
/// first failure in the window.
pub fn failure_stats(failures: &[FailureReb], time_window: u64, now: u64) -> (r: Option<FailureStats>)
    requires
        failures@.len() > 0 ==> window_fits(time_window, now),
        failure_amount_sum(failure_window(failures@, time_window, now)) <= u64::MAX,
        failure_window(failures@, time_window, now).len() <= u32::MAX,
    ensures
        failures@.len() == 0 ==> r is None,
        failures@.len() > 0 ==> ({
            let w = failure_window(failures@, time_window, now);
            &&& (w.len() == 0 <==> r is None)
            &&& r matches Some(st) ==> {
                &&& st.time_window_days == time_window
                &&& st.total_amount_tried_sats == failure_amount_sum(w) / 1000
                &&& exists|top: Seq<(u64, u64)>| {
                    &&& #[trigger] is_top(reason_entries(w), top, 5)
                    &&& top.len() == st.top_5_failure_reasons@.len()
                    &&& forall|i: int| 0 <= i < top.len() ==> {
                        &&& (#[trigger] st.top_5_failure_reasons@[i]).failure_reason@ == w[top[i].0 as int].failure_reason@
                        &&& st.top_5_failure_reasons@[i].failure_count == top[i].1
                    }
                }
                &&& exists|top: Seq<(u64, u64)>| {
                    &&& #[trigger] is_top(node_entries(w), top, 5)
                    &&& top.len() == st.top_5_fail_nodes@.len()
                    &&& forall|i: int| 0 <= i < top.len() ==> {
                        &&& (#[trigger] st.top_5_fail_nodes@[i]).0 == w[top[i].0 as int].failure_node
                        &&& st.top_5_fail_nodes@[i].1 == top[i].1
                    }
                }
                &&& is_top(failed_partner_sats(w), st.top_5_channel_partners@, 5)
                &&& st.most_common_hop_count matches Some(h)
                &&& is_heaviest(failure_hops(w), h as u64)
                &&& st.last_attempt_at == latest_created(w)
                &&& st.total_rebalances_tried == w.len()
            }
        }),
{
    if failures.len() == 0 {
        return None;
    }
    let w = failures_in_window(failures, time_window, now);
    if w.len() == 0 {
        return None;
    }
    let mut total: u64 = 0;
    let mut latest: u64 = 0;
    let mut partners: Vec<(u64, u64)> = Vec::new();
    let mut hops: Vec<(u64, u64)> = Vec::new();
    let mut reasons: Vec<(u64, u64)> = Vec::new();
    let mut nodes: Vec<(u64, u64)> = Vec::new();
    let mut i: usize = 0;
    while i < w.len()
        invariant
            i <= w@.len(),
            failure_amount_sum(w@) <= u64::MAX,
            total == failure_amount_sum(w@.subrange(0, i as int)),
            latest == latest_created(w@.subrange(0, i as int)),
            partners@ == failed_partner_sats(w@).subrange(0, i as int),
            hops@ == failure_hops(w@).subrange(0, i as int),
            reasons@ == reason_entries(w@).subrange(0, i as int),
            nodes@ == node_entries(w@).subrange(0, i as int),
        decreases w@.len() - i,
    {
        proof {
            assert(w@.subrange(0, i + 1).drop_last() =~= w@.subrange(0, i as int));
            lemma_failure_sum_prefix(w@, i + 1);
        }
        let amount = w[i].amount_msat;
        total = total + amount;
        if w[i].created_at > latest {
            latest = w[i].created_at;
        }
        partners.push((w[i].channel_partner, amount / 1000));
        hops.push((w[i].hops as u64, 1));
        let ri = first_reason_index(&w, i);
        reasons.push((ri as u64, 1));
        let ni = first_node_index(&w, i);
        nodes.push((ni as u64, 1));
        proof {
            assert(partners@ =~= failed_partner_sats(w@).subrange(0, i + 1));
            assert(hops@ =~= failure_hops(w@).subrange(0, i + 1));
            assert(reasons@ =~= reason_entries(w@).subrange(0, i + 1));
            assert(nodes@ =~= node_entries(w@).subrange(0, i + 1));
        }
        i = i + 1;
    }
    proof {
        assert(w@.subrange(0, w@.len() as int) =~= w@);
        assert(partners@ =~= failed_partner_sats(w@));
        assert(hops@ =~= failure_hops(w@));
        assert(reasons@ =~= reason_entries(w@));
        assert(nodes@ =~= node_entries(w@));
        lemma_failure_weights(w@);
        lemma_unit_weights(reasons@);
        lemma_unit_weights(nodes@);
    }
    let top_partners = top_keys(&partners, 5);
    let top_hop = top_keys(&hops, 1);
    let top_reasons = top_keys(&reasons, 5);
    let top_nodes = top_keys(&nodes, 5);
    proof {
        let e = failure_hops(w@);
        assert(e[0].0 == w@[0].hops as u64);
        assert(has_key(e, e[0].0));
        if top_hop@.len() == 0 {
            assert(has_key(top_hop@, e[0].0));
        }
        assert(has_key(e, top_hop@[0].0));
        let x = choose|x: int| 0 <= x < e.len() && #[trigger] e[x].0 == top_hop@[0].0;
        assert(e[x].0 == w@[x].hops as u64);
        lemma_top_one_heaviest(e, top_hop@);
    }
    let hop = top_hop[0].0 as u8;
    let mut reason_counts: Vec<FailureReasonCount> = Vec::new();
    let mut k: usize = 0;
    while k < top_reasons.len()
        invariant
            k <= top_reasons@.len(),
            w@.len() <= u32::MAX,
            is_top(reason_entries(w@), top_reasons@, 5),
            total_weight(reason_entries(w@)) == w@.len(),
            reason_counts@.len() == k,
            forall|t: int| 0 <= t < k ==> {
                &&& (#[trigger] reason_counts@[t]).failure_reason@ == w@[top_reasons@[t].0 as int].failure_reason@
                &&& reason_counts@[t].failure_count == top_reasons@[t].1
            },
        decreases top_reasons@.len() - k,
    {
        let (id, count) = top_reasons[k];
        proof {
            let e = reason_entries(w@);
            assert(has_key(e, id));
            let x = choose|x: int| 0 <= x < e.len() && #[trigger] e[x].0 == id;
            lemma_first_reason(w@, w@[x].failure_reason@, 0, x);
            crate::rank::lemma_key_weight_le_total(e, id);
        }
        reason_counts.push(FailureReasonCount {
            failure_reason: w[id as usize].failure_reason.clone(),
            failure_count: count as u32,
        });
        k = k + 1;
    }
    let mut node_counts: Vec<(PubKeyBytes, u32)> = Vec::new();
    let mut k: usize = 0;
    while k < top_nodes.len()
        invariant
            k <= top_nodes@.len(),
            w@.len() <= u32::MAX,
            is_top(node_entries(w@), top_nodes@, 5),
            total_weight(node_entries(w@)) == w@.len(),
            node_counts@.len() == k,
            forall|t: int| 0 <= t < k ==> {
                &&& (#[trigger] node_counts@[t]).0 == w@[top_nodes@[t].0 as int].failure_node
                &&& node_counts@[t].1 == top_nodes@[t].1
            },
        decreases top_nodes@.len() - k,
    {
        let (id, count) = top_nodes[k];
        proof {
            let e = node_entries(w@);
            assert(has_key(e, id));
            let x = choose|x: int| 0 <= x < e.len() && #[trigger] e[x].0 == id;
            lemma_first_node(w@, w@[x].failure_node, 0, x);
            crate::rank::lemma_key_weight_le_total(e, id);
        }
        node_counts.push((w[id as usize].failure_node, count as u32));
        k = k + 1;
    }
    Some(FailureStats {
        time_window_days: time_window,
        total_amount_tried_sats: total / 1000,
        top_5_failure_reasons: reason_counts,
        top_5_fail_nodes: node_counts,
        top_5_channel_partners: top_partners,
        most_common_hop_count: Some(hop),
        last_attempt_at: latest,
        total_rebalances_tried: w.len() as u64,
    })
}

/// What the overview of all jobs shows of one channel's rebalances.
#[derive(Debug, Clone, Copy, PartialEq, Eq, Structural)]
pub struct ChannelSummary {
    /// The amount moved within the window.
    pub total_amount_msat: u64,
    /// The amount-weighted fee rate within the window (0 if nothing moved).
    pub weighted_fee_ppm: u64,
    /// When the last recorded success completed (0 for never).
    pub last_route_success: u64,
    /// When the last recorded failure was made (0 for never).
    pub last_route_failure: u64,
}

/// A channel's overview from its records: totals over the successes within
/// the window, and the times of the last success and failure recorded.
pub open spec fn spec_channel_summary(s: Seq<SuccessReb>, f: Seq<FailureReb>, days: u64, now: u64) -> ChannelSummary {
    let w = success_window(s, days, now);
    let total = success_amount_sum(w);
    ChannelSummary {
        total_amount_msat: total as u64,
        weighted_fee_ppm: if total > 0 { (success_weighted_sum(w) / total) as u64 } else { success_weighted_sum(w) as u64 },
        last_route_success: if s.len() > 0 { s.last().completed_at } else { 0 },
        last_route_failure: if f.len() > 0 { f.last().created_at } else { 0 },
    }
}

/// A channel's overview: what it moved within the window of `days` days
/// before `now` at what weighted fee rate, and when it last succeeded and
/// failed.
pub fn channel_summary(successes: &[SuccessReb], failures: &[FailureReb], days: u64, now: u64) -> (r: ChannelSummary)
    requires
        window_fits(days, now),
        success_amount_sum(success_window(successes@, days, now)) <= u64::MAX,
        success_weighted_sum(success_window(successes@, days, now)) <= u64::MAX,
    ensures
        r == spec_channel_summary(successes@, failures@, days, now),
{
    let w = successes_in_window(successes, days, now);
    let (total, weighted, _latest) = success_sums(&w);
    let weighted_fee_ppm = if total > 0 { weighted / total } else { weighted };
    ChannelSummary {
        total_amount_msat: total,
        weighted_fee_ppm,
        last_route_success: if successes.len() > 0 { successes[successes.len() - 1].completed_at } else { 0 },
        last_route_failure: if failures.len() > 0 { failures[failures.len() - 1].created_at } else { 0 },
    }
}

/// The alias shown for a channel partner when the peer is unknown.
pub const PEER_NOT_FOUND: &'static str = "PEER_NOT_FOUND";
/// The alias shown for a peer without a known alias.
pub const ALIAS_NOT_FOUND: &'static str = "ALIAS_NOT_FOUND";

/// The index of the first channel with short channel id `scid`.
pub open spec fn channel_index(c: Seq<PeerChannel>, scid: u64) -> Option<int> {
    if exists|i: int| 0 <= i < c.len() && #[trigger] c[i].short_channel_id == Some(scid) {
        Some(choose|i: int| 0 <= i < c.len() && c[i].short_channel_id == Some(scid)
            && forall|j: int| 0 <= j < i ==> #[trigger] c[j].short_channel_id != Some(scid))
    } else {
        None
    }
}

/// The index of the first alias entry of node `k`.
pub open spec fn alias_index(a: Seq<(PubKeyBytes, String)>, k: PubKeyBytes) -> Option<int> {
    if exists|i: int| 0 <= i < a.len() && #[trigger] a[i].0 == k {
        Some(choose|i: int| 0 <= i < a.len() && a[i].0 == k && forall|j: int| 0 <= j < i ==> #[trigger] a[j].0 != k)
    } else {
        None
    }
}

/// The alias of the peer of channel `partner`: its known alias, or a
/// placeholder when the alias or the channel is unknown.
pub open spec fn spec_stats_alias(c: Seq<PeerChannel>, partner: u64, a: Seq<(PubKeyBytes, String)>) -> Seq<char> {
    match channel_index(c, partner) {
        None => PEER_NOT_FOUND@,
        Some(i) => match alias_index(a, c[i].peer_id) {
            None => ALIAS_NOT_FOUND@,
            Some(j) => a[j].1@,
        },
    }
}

/// The alias to show for channel partner `partner`, from our channels and
/// the known aliases.
pub fn get_stats_alias(peer_channels: &[PeerChannel], partner: u64, aliases: &[(PubKeyBytes, String)]) -> (r: String)
    ensures
        r@ == spec_stats_alias(peer_channels@, partner, aliases@),
{
    let mut i: usize = 0;
    while i < peer_channels.len()
        invariant
            i <= peer_channels@.len(),
            forall|j: int| 0 <= j < i ==> #[trigger] peer_channels@[j].short_channel_id != Some(partner),
        ensures
            i <= peer_channels@.len(),
            forall|j: int| 0 <= j < i ==> #[trigger] peer_channels@[j].short_channel_id != Some(partner),
            i < peer_channels@.len() ==> peer_channels@[i as int].short_channel_id == Some(partner),
        decreases peer_channels@.len() - i,
    {
        if peer_channels[i].short_channel_id == Some(partner) {
            break;
        }
        i = i + 1;
    }
    if i == peer_channels.len() {
        let r = PEER_NOT_FOUND.to_string();
        proof {
            vstd::string::to_string_from_display_ensures_for_str(PEER_NOT_FOUND, r);
        }
        return r;
    }
    proof {
        assert(peer_channels@[i as int].short_channel_id == Some(partner));
        let ci = channel_index(peer_channels@, partner);
        assert(ci == Some(i as int)) by {
            let k = ci->Some_0;
            if k < i {
                assert(peer_channels@[k].short_channel_id != Some(partner));
            }
            if k > i {
                assert(peer_channels@[i as int].short_channel_id != Some(partner));
            }
        }
    }
    let peer = peer_channels[i].peer_id;
    let mut j: usize = 0;
    while j < aliases.len()
        invariant
            j <= aliases@.len(),
            forall|t: int| 0 <= t < j ==> #[trigger] aliases@[t].0 != peer,
        ensures
            j <= aliases@.len(),
            forall|t: int| 0 <= t < j ==> #[trigger] aliases@[t].0 != peer,
            j < aliases@.len() ==> aliases@[j as int].0 == peer,
        decreases aliases@.len() - j,
    {
        if aliases[j].0.same_as(&peer) {
            break;
        }
        j = j + 1;
    }
    if j == aliases.len() {
        let r = ALIAS_NOT_FOUND.to_string();
        proof {
            vstd::string::to_string_from_display_ensures_for_str(ALIAS_NOT_FOUND, r);
        }
        return r;
    }
    proof {
        let ai = alias_index(aliases@, peer);
        assert(aliases@[j as int].0 == peer);
        assert(ai == Some(j as int)) by {
            let k = ai->Some_0;
            if k < j {
                assert(aliases@[k].0 != peer);
            }
            if k > j {
                assert(aliases@[j as int].0 != peer);
            }
        }
    }
    aliases[j].1.clone()
}

/// The last `size` records of `s` when there are more (all when `size`
/// is 0).
pub open spec fn keep_last<T>(s: Seq<T>, size: u64) -> Seq<T> {
    if size > 0 && s.len() > size {
        s.subrange(s.len() - size, s.len() as int)
    } else {
        s
    }
}

/// The successes a channel keeps: those within the age limit of `age_days`
/// days before `now` (all for 0), then at most the last `size` of them
/// (all for 0).
pub fn prune_successes(rebs: &[SuccessReb], age_days: u64, size: u64, now: u64) -> (r: Vec<SuccessReb>)
    requires
        age_days * DAY_SECS <= now,
    ensures
        r@ == keep_last(success_window(rebs@, age_days, now), size),
{
    let w = successes_in_window(rebs, age_days, now);
    if size > 0 && w.len() as u64 > size {
        let from = w.len() - size as usize;
        let mut r: Vec<SuccessReb> = Vec::new();
        let mut i: usize = from;
        while i < w.len()
            invariant
                from <= i <= w@.len(),
                r@ == w@.subrange(from as int, i as int),
            decreases w@.len() - i,
        {
            r.push(w[i]);
            proof {
                assert(r@ =~= w@.subrange(from as int, i + 1));
            }
            i = i + 1;
        }
        r
    } else {
        w
    }
}

/// The failures a channel keeps: those within the age limit of `age_days`
/// days before `now` (all for 0), then at most the last `size` of them
/// (all for 0).
pub fn prune_failures(rebs: &[FailureReb], age_days: u64, size: u64, now: u64) -> (r: Vec<FailureReb>)
    requires
        age_days * DAY_SECS <= now,
    ensures
        r@ == keep_last(failure_window(rebs@, age_days, now), size),
{
    let w = failures_in_window(rebs, age_days, now);
    if size > 0 && w.len() as u64 > size {
        let from = w.len() - size as usize;
        let mut r: Vec<FailureReb> = Vec::new();
        let mut i: usize = from;
        while i < w.len()
            invariant
                from <= i <= w@.len(),
                r@ == w@.subrange(from as int, i as int),
            decreases w@.len() - i,
        {
            r.push(copy_failure(&w[i]));
            proof {
                assert(r@ =~= w@.subrange(from as int, i + 1));
            }
            i = i + 1;
        }
        r
    } else {
        w
    }
}

proof fn lemma_success_window_all_in(s: Seq<SuccessReb>, days: u64, now: u64)
    ensures
        forall|i: int| 0 <= i < success_window(s, days, now).len()
            ==> in_window(#[trigger] success_window(s, days, now)[i].completed_at, days, now),
        success_window(s, days, now).len() <= s.len(),
    decreases s.len(),
{
    if s.len() > 0 {
        lemma_success_window_all_in(s.drop_last(), days, now);
    }
}

proof fn lemma_success_window_keeps(s: Seq<SuccessReb>, days: u64, now: u64)
    requires
        forall|i: int| 0 <= i < s.len() ==> in_window(#[trigger] s[i].completed_at, days, now),
    ensures
        success_window(s, days, now) == s,
    decreases s.len(),
{
    if s.len() > 0 {
        lemma_success_window_keeps(s.drop_last(), days, now);
        assert(s.drop_last().push(s.last()) =~= s);
    }
}

/// Pruning kept records again at the same time keeps them all: what one
/// pruning keeps is within the age limit and within the size limit.
pub proof fn lemma_prune_successes_idempotent(rebs: Seq<SuccessReb>, age_days: u64, size: u64, now: u64)
    ensures
        ({
            let kept = keep_last(success_window(rebs, age_days, now), size);
            &&& keep_last(success_window(kept, age_days, now), size) == kept
            &&& size > 0 ==> kept.len() <= size
            &&& forall|i: int| 0 <= i < kept.len() ==> in_window(#[trigger] kept[i].completed_at, age_days, now)
        }),
{
    let w = success_window(rebs, age_days, now);
    let kept = keep_last(w, size);
    lemma_success_window_all_in(rebs, age_days, now);
    assert forall|i: int| 0 <= i < kept.len() implies in_window(#[trigger] kept[i].completed_at, age_days, now) by {
        if size > 0 && w.len() > size {
            assert(kept[i] == w[w.len() - size + i]);
        }
    }
    lemma_success_window_keeps(kept, age_days, now);
}

/// Whether the window's start can be computed (see `window_fits`).
pub fn window_fits_exec(days: u64, now: u64) -> (r: bool)
    ensures
        r == window_fits(days, now),
{
    if days == 0 {
        return true;
    }
    match days.checked_mul(DAY_SECS) {
        Some(x) => x <= now,
        None => false,
    }
}

/// What `success_stats` asks of the successes: a window that can be
/// computed when there are any, sums within the window that fit in 64
/// bits, and a window with records that moved something.
pub open spec fn successes_fit(s: Seq<SuccessReb>, days: u64, now: u64) -> bool {
    let w = success_window(s, days, now);
    &&& s.len() > 0 ==> window_fits(days, now)
    &&& success_amount_sum(w) <= u64::MAX
    &&& success_weighted_sum(w) <= u64::MAX
    &&& w.len() > 0 ==> success_amount_sum(w) > 0
}

/// What `failure_stats` asks of the failures: a window that can be
/// computed when there are any, an amount within the window that fits in
/// 64 bits, and at most `u32::MAX` failures in it.
pub open spec fn failures_fit(s: Seq<FailureReb>, days: u64, now: u64) -> bool {
    let w = failure_window(s, days, now);
    &&& s.len() > 0 ==> window_fits(days, now)
    &&& failure_amount_sum(w) <= u64::MAX
    &&& w.len() <= u32::MAX
}

/// Whether the successes meet what `success_stats` asks of them.
pub fn successes_fit_exec(s: &[SuccessReb], days: u64, now: u64) -> (r: bool)
    ensures
        r == successes_fit(s@, days, now),
{
    if s.len() == 0 {
        proof {
            assert(success_window(s@, days, now) =~= Seq::<SuccessReb>::empty());
        }
        return true;
    }
    if !window_fits_exec(days, now) {
        return false;
    }
    let w = successes_in_window(s, days, now);
    let mut total: u128 = 0;
    let mut weighted: u128 = 0;
    let mut i: usize = 0;
    while i < w.len()
        invariant
            i <= w@.len(),
            total == success_amount_sum(w@.subrange(0, i as int)),
            weighted == success_weighted_sum(w@.subrange(0, i as int)),
            w@ == success_window(s@, days, now),
            s@.len() > 0 ==> window_fits(days, now),
            total <= u64::MAX,
            weighted <= u64::MAX,
        decreases w@.len() - i,
    {
        let r = w[i];
        proof {
            assert(w@.subrange(0, i + 1).drop_last() =~= w@.subrange(0, i as int));
            assert(w@.subrange(0, i + 1).last() == r);
            assert((r.fee_ppm as nat) * (r.amount_msat as nat) <= 0xffff_ffff * 0xffff_ffff_ffff_ffff) by (nonlinear_arith);
        }
        total = total + r.amount_msat as u128;
        weighted = weighted + (r.fee_ppm as u128) * (r.amount_msat as u128);
        proof {
            let pre = w@.subrange(0, i + 1);
            assert(success_amount_sum(pre) == success_amount_sum(pre.drop_last()) + pre.last().amount_msat as nat);
            assert(total == success_amount_sum(pre));
            assert(weighted == success_weighted_sum(pre));
        }
        if total > u64::MAX as u128 || weighted > u64::MAX as u128 {
            proof {
                lemma_success_sums_prefix(w@, i + 1);
                assert(w@ == success_window(s@, days, now));
                assert(success_amount_sum(w@) > u64::MAX || success_weighted_sum(w@) > u64::MAX);
                assert(!successes_fit(s@, days, now));
            }
            return false;
        }
        i = i + 1;
    }
    proof {
        assert(w@.subrange(0, w@.len() as int) =~= w@);
    }
    w.len() == 0 || total > 0
}

/// Whether the failures meet what `failure_stats` asks of them.
pub fn failures_fit_exec(s: &[FailureReb], days: u64, now: u64) -> (r: bool)
    ensures
        r == failures_fit(s@, days, now),
{
    if s.len() == 0 {
        proof {
            assert(failure_window(s@, days, now) =~= Seq::<FailureReb>::empty());
        }
        return true;
    }
    if !window_fits_exec(days, now) {
        return false;
    }
    let w = failures_in_window(s, days, now);
    if w.len() > 0xffff_ffff {
        return false;
    }
    let mut total: u128 = 0;
    let mut i: usize = 0;
    while i < w.len()
        invariant
            i <= w@.len(),
            total == failure_amount_sum(w@.subrange(0, i as int)),
            w@ == failure_window(s@, days, now),
            w@.len() <= u32::MAX,
            total <= u64::MAX,
        decreases w@.len() - i,
    {
        proof {
            assert(w@.subrange(0, i + 1).drop_last() =~= w@.subrange(0, i as int));
            assert(w@.subrange(0, i + 1).last() == w@[i as int]);
        }
        total = total + w[i].amount_msat as u128;
        proof {
            let pre = w@.subrange(0, i + 1);
            assert(failure_amount_sum(pre) == failure_amount_sum(pre.drop_last()) + pre.last().amount_msat as nat);
            assert(total == failure_amount_sum(pre));
        }
        if total > u64::MAX as u128 {
            proof {
                lemma_failure_sum_prefix(w@, i + 1);
            }
            return false;
        }
        i = i + 1;
    }
    proof {
        assert(w@.subrange(0, w@.len() as int) =~= w@);
    }
    true
}

} // verus!
