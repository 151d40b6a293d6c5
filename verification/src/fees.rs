//! Fee arithmetic of routes and channels, in the binary64 arithmetic that
//! the fee formulas are defined by.
use crate::double::{
    dbl_add, dbl_add_exec, dbl_ceil, dbl_ceil_u64, dbl_div, dbl_div_exec, dbl_le, dbl_mul, dbl_mul_exec,
    dbl_of, dbl_of_u64, dv, lemma_dbl_add_mono, lemma_dbl_add_mono_left, lemma_dbl_ceil_mono,
    lemma_dbl_div_mono, lemma_dbl_mul_mono, lemma_dbl_of_mono, lemma_round_norm, million, sat_u32,
    sat_u64, wf, Double,
};
use vstd::prelude::*;

verus! {

/// The fee of forwarding `amount_msat` over a channel that charges
/// `basefee_msat` plus `feeppm` parts per million:
/// `basefee_msat + feeppm / 1e6 * amount_msat` in binary64.
pub open spec fn spec_fee_total(feeppm: u32, basefee_msat: u32, amount_msat: u64) -> (nat, int) {
    dbl_add(
        dbl_of(basefee_msat as nat),
        dbl_mul(dbl_div(dbl_of(feeppm as nat), million()), dbl_of(amount_msat as nat)),
    )
}

/// The fee of forwarding `amount_msat`, rounded up to whole millisatoshi
/// (saturating at `u64::MAX`).
pub open spec fn spec_fee_ceil(feeppm: u32, basefee_msat: u32, amount_msat: u64) -> u64 {
    sat_u64(dbl_ceil(spec_fee_total(feeppm, basefee_msat, amount_msat)))
}

/// The effective fee rate in parts per million of forwarding `amount_msat`:
/// `ceil(fee_total / amount_msat * 1e6)` in binary64, cast to `u64`.
/// For a zero amount the division gives infinity (cast to `u64::MAX`),
/// or NaN (cast to 0) when the fee is zero as well.
pub open spec fn spec_feeppm_effective(feeppm: u32, basefee_msat: u32, amount_msat: u64) -> u64 {
    if amount_msat == 0 {
        if basefee_msat == 0 {
            0
        } else {
            u64::MAX
        }
    } else {
        sat_u64(
            dbl_ceil(
                dbl_mul(
                    dbl_div(
                        spec_fee_total(feeppm, basefee_msat, amount_msat),
                        dbl_of(amount_msat as nat),
                    ),
                    million(),
                ),
            ),
        )
    }
}

/// The fee rate in parts per million that was paid when `amount_sent_msat`
/// was sent to deliver `amount_msat`:
/// `ceil((amount_sent_msat - amount_msat) / amount_msat * 1e6)` in binary64,
/// cast to `u32`.
pub open spec fn spec_feeppm_effective_from_amts(amount_sent_msat: u64, amount_msat: u64) -> u32 {
    if amount_msat == 0 {
        if amount_sent_msat == 0 {
            0
        } else {
            u32::MAX
        }
    } else {
        sat_u32(
            dbl_ceil(
                dbl_mul(
                    dbl_div(
                        dbl_of((amount_sent_msat - amount_msat) as nat),
                        dbl_of(amount_msat as nat),
                    ),
                    million(),
                ),
            ),
        )
    }
}

fn million_exec() -> (r: Double)
    ensures
        dv(r) == million(),
        wf(dv(r)),
        r.m > 0,
        -117 <= r.e <= 65,
{
    dbl_of_u64(1_000_000)
}

/// `basefee_msat + feeppm / 1e6 * amount_msat` in binary64.
fn fee_total_exec(feeppm: u32, basefee_msat: u32, amount_msat: u64) -> (r: Double)
    ensures
        dv(r) == spec_fee_total(feeppm, basefee_msat, amount_msat),
        wf(dv(r)),
        r.m > 0 || (basefee_msat == 0 && (feeppm == 0 || amount_msat == 0)),
        r.m > 0 ==> -1000 <= r.e <= 1000,
{
    let mil = million_exec();
    let ppm = dbl_of_u64(feeppm as u64);
    let rate = dbl_div_exec(ppm, mil);
    let amt = dbl_of_u64(amount_msat);
    let var = dbl_mul_exec(rate, amt);
    let base = dbl_of_u64(basefee_msat as u64);
    dbl_add_exec(base, var)
}

/// The total fee `basefee_msat + feeppm / 1e6 * amount_msat`, rounded up to
/// whole millisatoshi (binary64 arithmetic, as a route's amounts are built).
pub fn fee_total_msat_ceil(feeppm: u32, basefee_msat: u32, amount_msat: u64) -> (r: u64)
    ensures
        r == spec_fee_ceil(feeppm, basefee_msat, amount_msat),
{
    let fee = fee_total_exec(feeppm, basefee_msat, amount_msat);
    dbl_ceil_u64(fee)
}

/// The effective fee rate in parts per million of forwarding `amount_msat`
/// over a channel with the given proportional and base fee.
pub fn feeppm_effective(feeppm: u32, basefee_msat: u32, amount_msat: u64) -> (r: u64)
    ensures
        r == spec_feeppm_effective(feeppm, basefee_msat, amount_msat),
{
    if amount_msat == 0 {
        if basefee_msat == 0 {
            0
        } else {
            u64::MAX
        }
    } else {
        let fee = fee_total_exec(feeppm, basefee_msat, amount_msat);
        let amt = dbl_of_u64(amount_msat);
        let per_msat = dbl_div_exec(fee, amt);
        let mil = million_exec();
        let ppm = dbl_mul_exec(per_msat, mil);
        dbl_ceil_u64(ppm)
    }
}

/// The fee rate in parts per million paid when `amount_sent_msat` was sent
/// to deliver `amount_msat`.
pub fn feeppm_effective_from_amts(amount_sent_msat: u64, amount_msat: u64) -> (r: u32)
    requires
        amount_sent_msat >= amount_msat,
    ensures
        r == spec_feeppm_effective_from_amts(amount_sent_msat, amount_msat),
{
    if amount_msat == 0 {
        if amount_sent_msat == 0 {
            0
        } else {
            u32::MAX
        }
    } else {
        let diff = dbl_of_u64(amount_sent_msat - amount_msat);
        let amt = dbl_of_u64(amount_msat);
        let ratio = dbl_div_exec(diff, amt);
        let mil = million_exec();
        let ppm = dbl_mul_exec(ratio, mil);
        let c = dbl_ceil_u64(ppm);
        if c > u32::MAX as u64 {
            u32::MAX
        } else {
            c as u32
        }
    }
}

/// The effective fee rate of a larger total fee is no smaller.
proof fn lemma_feeppm_of_total_mono(t1: (nat, int), t2: (nat, int), amount_msat: u64)
    requires
        amount_msat > 0,
        dbl_le(t1, t2),
    ensures
        sat_u64(dbl_ceil(dbl_mul(dbl_div(t1, dbl_of(amount_msat as nat)), million())))
            <= sat_u64(dbl_ceil(dbl_mul(dbl_div(t2, dbl_of(amount_msat as nat)), million()))),
{
    let amt = dbl_of(amount_msat as nat);
    lemma_round_norm(amount_msat as nat, 1, 0);
    lemma_dbl_div_mono(t1, t2, amt);
    lemma_dbl_mul_mono(dbl_div(t1, amt), dbl_div(t2, amt), million());
    lemma_dbl_ceil_mono(dbl_mul(dbl_div(t1, amt), million()), dbl_mul(dbl_div(t2, amt), million()));
}

/// The effective fee rate of forwarding an amount never falls when the
/// proportional fee or the base fee rises.
pub proof fn lemma_feeppm_effective_monotone(f1: u32, b1: u32, f2: u32, b2: u32, amount_msat: u64)
    requires
        f1 <= f2,
        b1 <= b2,
        amount_msat > 0,
    ensures
        spec_feeppm_effective(f1, b1, amount_msat) <= spec_feeppm_effective(f2, b2, amount_msat),
{
    let mil = million();
    lemma_round_norm(1_000_000, 1, 0);
    let amt = dbl_of(amount_msat as nat);
    // a larger proportional fee
    lemma_dbl_of_mono(f1 as nat, f2 as nat);
    lemma_dbl_div_mono(dbl_of(f1 as nat), dbl_of(f2 as nat), mil);
    lemma_dbl_mul_mono(dbl_div(dbl_of(f1 as nat), mil), dbl_div(dbl_of(f2 as nat), mil), amt);
    lemma_round_norm(b1 as nat, 1, 0);
    lemma_dbl_add_mono(
        dbl_of(b1 as nat),
        dbl_mul(dbl_div(dbl_of(f1 as nat), mil), amt),
        dbl_mul(dbl_div(dbl_of(f2 as nat), mil), amt),
    );
    lemma_feeppm_of_total_mono(spec_fee_total(f1, b1, amount_msat), spec_fee_total(f2, b1, amount_msat), amount_msat);
    // a larger base fee
    lemma_dbl_of_mono(b1 as nat, b2 as nat);
    let v = dbl_mul(dbl_div(dbl_of(f2 as nat), mil), amt);
    lemma_round_norm(dbl_div(dbl_of(f2 as nat), mil).0 * amt.0, 1, dbl_div(dbl_of(f2 as nat), mil).1 + amt.1);
    lemma_dbl_add_mono_left(dbl_of(b1 as nat), dbl_of(b2 as nat), v);
    lemma_feeppm_of_total_mono(spec_fee_total(f2, b1, amount_msat), spec_fee_total(f2, b2, amount_msat), amount_msat);
}

} // verus!
