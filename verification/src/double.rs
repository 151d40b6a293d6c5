//! Non-negative IEEE 754 binary64 arithmetic (round to nearest, ties to even)
//! over integers, for the fee formulas of the library.
//!
//! A value is a significand `m` and an exponent `e`, standing for `m * 2^e`.
//! Zero is `m == 0`; every other value that the operations produce has a
//! significand in `[2^52, 2^53)`, as a normal binary64 number has.
use vstd::arithmetic::power2::{
    lemma2_to64,
    lemma2_to64_rest,
    lemma_pow2_adds,
    lemma_pow2_pos,
    lemma_pow2_strictly_increases,
    lemma_pow2_unfold,
    pow2,
};
use vstd::prelude::*;

verus! {

/// Smallest significand of a normal binary64 number.
pub const P52: u64 = 0x10_0000_0000_0000;

/// One past the largest significand of a normal binary64 number.
pub const P53: u64 = 0x20_0000_0000_0000;

/// Bound on the exponents that the operations accept.
pub const EXP_BOUND: i64 = 0x100_0000;

/// A non-negative finite binary64 value `m * 2^e`.
#[derive(Clone, Copy, Debug)]
pub struct Double {
    pub m: u64,
    pub e: i64,
}

/// The mathematical pair (significand, exponent) of a value.
pub open spec fn dv(x: Double) -> (nat, int) {
    (x.m as nat, x.e as int)
}

/// A value as the operations produce it: zero, or a normal significand,
/// with an exponent well inside the range the operations accept.
pub open spec fn wf(x: (nat, int)) -> bool {
    &&& x.0 == 0 || (P52 <= x.0 < P53)
    &&& -EXP_BOUND <= x.1 <= EXP_BOUND
}

/// The measure by which `round_rational` normalises `a / b` into `[2^52, 2^53)`.
pub open spec fn norm_measure(a: nat, b: nat) -> nat {
    if a == 0 || b == 0 {
        0
    } else if a >= P53 * b {
        (a - P53 * b + 1) as nat
    } else if a < P52 * b {
        (P52 * b - a) as nat
    } else {
        0
    }
}

/// Rounds `a / b * 2^e` (with `a / b` already in `[2^52, 2^53)`) to an
/// integer significand, to nearest, ties to even.
pub open spec fn round_binade(a: nat, b: nat, e: int) -> (nat, int) {
    let q = a / b;
    let r = a % b;
    let m = if 2 * r > b || (2 * r == b && q % 2 == 1) {
        q + 1
    } else {
        q
    };
    if m == P53 {
        (P52 as nat, e + 1)
    } else {
        (m as nat, e)
    }
}

/// The binary64 value nearest to the rational `a / b * 2^e` (ties to even),
/// with an unbounded exponent; zero when `a` is zero.
/// The rational is first brought into the binade `[2^52, 2^53)` by halving
/// or doubling, which moves the exponent, then rounded.
pub open spec fn round_rational(a: nat, b: nat, e: int) -> (nat, int)
    decreases norm_measure(a, b),
{
    if a == 0 || b == 0 {
        (0, 0)
    } else if a >= P53 * b {
        round_rational(a, 2 * b, e + 1)
    } else if a < P52 * b {
        round_rational(2 * a, b, e - 1)
    } else {
        round_binade(a, b, e)
    }
}

/// `n as f64`.
pub open spec fn dbl_of(n: nat) -> (nat, int) {
    round_rational(n, 1, 0)
}

/// `x * y` in binary64.
pub open spec fn dbl_mul(x: (nat, int), y: (nat, int)) -> (nat, int) {
    round_rational(x.0 * y.0, 1, x.1 + y.1)
}

/// `x / y` in binary64, for a non-zero `y`.
pub open spec fn dbl_div(x: (nat, int), y: (nat, int)) -> (nat, int) {
    round_rational(x.0, y.0, x.1 - y.1)
}

/// `x + y` in binary64.
pub open spec fn dbl_add(x: (nat, int), y: (nat, int)) -> (nat, int) {
    if x.0 == 0 {
        y
    } else if y.0 == 0 {
        x
    } else if x.1 >= y.1 {
        round_rational(x.0 * pow2((x.1 - y.1) as nat) + y.0, 1, y.1)
    } else {
        round_rational(y.0 * pow2((y.1 - x.1) as nat) + x.0, 1, x.1)
    }
}

/// `x.ceil()` of a non-negative value, as a natural number.
pub open spec fn dbl_ceil(x: (nat, int)) -> nat {
    if x.0 == 0 {
        0
    } else if x.1 >= 0 {
        x.0 * pow2(x.1 as nat)
    } else {
        ((x.0 + pow2((-x.1) as nat) - 1) as nat / pow2((-x.1) as nat)) as nat
    }
}

/// `v as u64` of a non-negative number: saturates at `u64::MAX`.
pub open spec fn sat_u64(v: nat) -> u64 {
    if v > u64::MAX {
        u64::MAX
    } else {
        v as u64
    }
}

/// `v as u32` of a non-negative number: saturates at `u32::MAX`.
pub open spec fn sat_u32(v: nat) -> u32 {
    if v > u32::MAX {
        u32::MAX
    } else {
        v as u32
    }
}

/// The binary64 value of one million.
pub open spec fn million() -> (nat, int) {
    dbl_of(1_000_000)
}

proof fn lemma_pow2_ge_64(k: nat)
    requires
        k >= 64,
    ensures
        pow2(k) >= 0x1_0000_0000_0000_0000,
{
    lemma2_to64();
    lemma2_to64_rest();
    if k > 64 {
        lemma_pow2_strictly_increases(64, k);
    }
}

proof fn lemma_pow2_ge_117(k: nat)
    requires
        k >= 117,
    ensures
        pow2(k) >= 0x20_0000_0000_0000_0000_0000_0000_0000,
{
    lemma2_to64();
    lemma2_to64_rest();
    lemma_pow2_adds(64, 53);
    if k > 117 {
        lemma_pow2_strictly_increases(117, k);
    }
}

/// Within the binade, the quotient is a normal significand.
proof fn lemma_binade_quotient(a: nat, b: nat)
    requires
        b > 0,
        P52 * b <= a < P53 * b,
    ensures
        P52 <= a / b < P53,
        a % b < b,
{
    let q = a / b;
    let r = a % b;
    assert(a == q * b + r && 0 <= r < b) by {
        vstd::arithmetic::div_mod::lemma_fundamental_div_mod(a as int, b as int);
    }
    assert(P52 <= q) by (nonlinear_arith)
        requires
            a == q * b + r,
            r < b,
            P52 * b <= a,
            b > 0,
    ;
    assert(q < P53) by (nonlinear_arith)
        requires
            a == q * b + r,
            r >= 0,
            a < P53 * b,
            b > 0,
    ;
}

/// Rounds `a / b * 2^e`.
fn round_exec(a: u128, b: u128, e: i64) -> (r: Double)
    requires
        0 < a < 0x4000_0000_0000_0000_0000_0000_0000,
        0 < b < 0x1_0000_0000_0000_0000,
        -4 * EXP_BOUND <= e <= 4 * EXP_BOUND,
    ensures
        dv(r) == round_rational(a as nat, b as nat, e as int),
        P52 <= r.m < P53,
        e - 117 <= r.e <= e + 65,
{
    let p52: u128 = 0x10_0000_0000_0000;
    let p53: u128 = 0x20_0000_0000_0000;
    let mut aa: u128 = a;
    let mut bb: u128 = b;
    let mut ee: i64 = e;
    let ghost mut i1: nat = 0;
    let ghost mut i2: nat = 0;
    proof {
        lemma2_to64();
    }
    while aa >= p53 * bb
        invariant
            aa == a,
            p52 == P52,
            p53 == P53,
            0 < bb < 0x1_0000_0000_0000_0000,
            bb == b * pow2(i1),
            ee == e + i1,
            i1 < 64,
            0 < a < 0x4000_0000_0000_0000_0000_0000_0000,
            -4 * EXP_BOUND <= e <= 4 * EXP_BOUND,
            round_rational(aa as nat, bb as nat, ee as int) == round_rational(
                a as nat,
                b as nat,
                e as int,
            ),
        decreases 64 - i1,
    {
        assert(round_rational(aa as nat, bb as nat, ee as int) == round_rational(
            aa as nat,
            (2 * bb) as nat,
            ee + 1,
        ));
        proof {
            lemma_pow2_unfold(i1 + 1);
        }
        bb = 2 * bb;
        ee = ee + 1;
        proof {
            i1 = i1 + 1;
            assert(bb == b * pow2(i1)) by (nonlinear_arith)
                requires
                    bb == 2 * (b * pow2((i1 - 1) as nat)),
                    pow2(i1) == 2 * pow2((i1 - 1) as nat),
            ;
            if i1 >= 64 {
                lemma_pow2_ge_64(i1);
                assert(b * pow2(i1) >= pow2(i1)) by (nonlinear_arith)
                    requires
                        b >= 1,
                ;
            }
        }
    }
    while aa < p52 * bb
        invariant
            0 < aa < 0x20_0000_0000_0000_0000_0000_0000_0000,
            aa < p53 * bb,
            p52 == P52,
            p53 == P53,
            aa == a * pow2(i2),
            0 < bb < 0x1_0000_0000_0000_0000,
            ee == e + i1 - i2,
            i1 < 64,
            i2 < 117,
            0 < a,
            -4 * EXP_BOUND <= e <= 4 * EXP_BOUND,
            round_rational(aa as nat, bb as nat, ee as int) == round_rational(
                a as nat,
                b as nat,
                e as int,
            ),
        decreases 117 - i2,
    {
        assert(round_rational(aa as nat, bb as nat, ee as int) == round_rational(
            (2 * aa) as nat,
            bb as nat,
            ee - 1,
        ));
        proof {
            lemma_pow2_unfold(i2 + 1);
        }
        aa = 2 * aa;
        ee = ee - 1;
        proof {
            i2 = i2 + 1;
            assert(aa == a * pow2(i2)) by (nonlinear_arith)
                requires
                    aa == 2 * (a * pow2((i2 - 1) as nat)),
                    pow2(i2) == 2 * pow2((i2 - 1) as nat),
            ;
            if i2 >= 117 {
                lemma_pow2_ge_117(i2);
                assert(a * pow2(i2) >= pow2(i2)) by (nonlinear_arith)
                    requires
                        a >= 1,
                ;
            }
        }
    }
    assert(round_rational(aa as nat, bb as nat, ee as int) == round_binade(
        aa as nat,
        bb as nat,
        ee as int,
    ));
    proof {
        lemma_binade_quotient(aa as nat, bb as nat);
    }
    let q: u128 = aa / bb;
    let rem: u128 = aa % bb;
    let m: u128 = if 2 * rem > bb || (2 * rem == bb && q % 2 == 1) {
        q + 1
    } else {
        q
    };
    if m == P53 as u128 {
        Double { m: P52, e: ee + 1 }
    } else {
        Double { m: m as u64, e: ee }
    }
}

/// `n as f64`.
pub fn dbl_of_u64(n: u64) -> (r: Double)
    ensures
        dv(r) == dbl_of(n as nat),
        wf(dv(r)),
        n > 0 ==> r.m > 0,
        n > 0 ==> -117 <= r.e <= 65,
{
    if n == 0 {
        Double { m: 0, e: 0 }
    } else {
        round_exec(n as u128, 1, 0)
    }
}

/// `x * y` in binary64.
pub fn dbl_mul_exec(x: Double, y: Double) -> (r: Double)
    requires
        wf(dv(x)),
        wf(dv(y)),
    ensures
        dv(r) == dbl_mul(dv(x), dv(y)),
        r.m == 0 || P52 <= r.m < P53,
        x.m > 0 && y.m > 0 ==> r.m > 0 && x.e + y.e - 117 <= r.e <= x.e + y.e + 65,
        x.m == 0 || y.m == 0 ==> r.m == 0 && r.e == 0,
{
    if x.m == 0 || y.m == 0 {
        assert((x.m as nat) * (y.m as nat) == 0) by (nonlinear_arith)
            requires
                x.m == 0 || y.m == 0,
        ;
        Double { m: 0, e: 0 }
    } else {
        assert((x.m as u128) * (y.m as u128) < 0x400_0000_0000_0000_0000_0000_0000)
            by (nonlinear_arith)
            requires
                x.m < 0x20_0000_0000_0000,
                y.m < 0x20_0000_0000_0000,
        ;
        let p: u128 = (x.m as u128) * (y.m as u128);
        assert(p > 0) by (nonlinear_arith)
            requires
                x.m > 0,
                y.m > 0,
                p == (x.m as u128) * (y.m as u128),
        ;
        round_exec(p, 1, x.e + y.e)
    }
}

/// `x / y` in binary64, for a non-zero `y`.
pub fn dbl_div_exec(x: Double, y: Double) -> (r: Double)
    requires
        wf(dv(x)),
        wf(dv(y)),
        y.m > 0,
    ensures
        dv(r) == dbl_div(dv(x), dv(y)),
        r.m == 0 || P52 <= r.m < P53,
        x.m > 0 ==> r.m > 0 && x.e - y.e - 117 <= r.e <= x.e - y.e + 65,
        x.m == 0 ==> r.m == 0 && r.e == 0,
{
    if x.m == 0 {
        Double { m: 0, e: 0 }
    } else {
        round_exec(x.m as u128, y.m as u128, x.e - y.e)
    }
}

/// Shifting a value far below the unit of the last place of a larger one
/// leaves the larger one.
proof fn lemma_shift_out(a: nat, k: nat, e: int)
    requires
        forall|j: nat| j < k ==> a >= #[trigger] (P53 * pow2(j)),
    ensures
        round_rational(a, 1, e) == round_rational(a, pow2(k), e + k),
    decreases k,
{
    if k == 0 {
        assert(pow2(0) == 1) by {
            lemma2_to64();
        }
    } else {
        let k1 = (k - 1) as nat;
        assert forall|j: nat| j < k1 implies a >= #[trigger] (P53 * pow2(j)) by {
            assert(j < k);
        }
        lemma_shift_out(a, k1, e);
        lemma_pow2_pos(k1);
        lemma_pow2_unfold(k);
        assert(a >= P53 * pow2(k1));
        assert(round_rational(a, pow2(k1), e + k1) == round_rational(a, 2 * pow2(k1), e + k1 + 1));
    }
}

/// Adding a value below a quarter of the last place of `xm * 2^d` gives `xm * 2^d`.
proof fn lemma_add_small(xm: nat, ym: nat, d: nat, e: int)
    requires
        P52 <= xm < P53,
        0 < ym < P53,
        d >= 55,
    ensures
        round_rational(xm * pow2(d) + ym, 1, e) == (xm, e + d),
{
    let a = xm * pow2(d) + ym;
    lemma2_to64();
    lemma2_to64_rest();
    assert forall|j: nat| j < d implies a >= #[trigger] (P53 * pow2(j)) by {
        let dj = (d - j - 1) as nat;
        lemma_pow2_adds(j + 1, dj);
        lemma_pow2_unfold(j + 1);
        lemma_pow2_pos(dj);
        lemma_pow2_pos(j);
        assert(pow2(d) == 2 * pow2(j) * pow2(dj));
        assert(xm * pow2(d) >= P53 * pow2(j)) by (nonlinear_arith)
            requires
                pow2(d) == 2 * pow2(j) * pow2(dj),
                pow2(dj) >= 1,
                xm >= P52,
                P53 == 2 * P52,
        ;
    }
    lemma_shift_out(a, d, e);
    let b = pow2(d);
    lemma_pow2_pos(d);
    lemma_pow2_adds(54, (d - 54) as nat);
    lemma_pow2_pos((d - 54) as nat);
    assert(b >= pow2(54)) by (nonlinear_arith)
        requires
            b == pow2(54) * pow2((d - 54) as nat),
            pow2((d - 54) as nat) >= 1,
    ;
    assert(2 * ym < b);
    assert(a / b == xm && a % b == ym) by {
        vstd::arithmetic::div_mod::lemma_fundamental_div_mod_converse(
            a as int,
            b as int,
            xm as int,
            ym as int,
        );
    }
    assert(P52 * b <= a) by (nonlinear_arith)
        requires
            a == xm * b + ym,
            xm >= P52,
            ym >= 0,
    ;
    assert(a < P53 * b) by (nonlinear_arith)
        requires
            a == xm * b + ym,
            xm + 1 <= P53,
            ym < b,
    ;
    assert(round_rational(a, b, e + d) == round_binade(a, b, e + d));
}

/// Computes `2^k`.
fn pow2_exec(k: u32) -> (r: u128)
    requires
        k <= 64,
    ensures
        r == pow2(k as nat),
{
    let mut r: u128 = 1;
    let mut i: u32 = 0;
    proof {
        lemma2_to64();
        lemma2_to64_rest();
    }
    while i < k
        invariant
            i <= k <= 64,
            r == pow2(i as nat),
            pow2(64) == 0x1_0000_0000_0000_0000,
        decreases k - i,
    {
        proof {
            lemma_pow2_unfold((i + 1) as nat);
            if i < 64 {
                lemma_pow2_strictly_increases(i as nat, 64);
            }
        }
        r = 2 * r;
        i = i + 1;
    }
    r
}

/// `x + y` in binary64.
pub fn dbl_add_exec(x: Double, y: Double) -> (r: Double)
    requires
        wf(dv(x)),
        wf(dv(y)),
    ensures
        dv(r) == dbl_add(dv(x), dv(y)),
        r.m == 0 || P52 <= r.m < P53,
        x.m > 0 || y.m > 0 ==> r.m > 0,
        x.m > 0 && y.m > 0 ==> (x.e <= y.e ==> x.e - 117 <= r.e <= y.e + 65) && (y.e <= x.e
            ==> y.e - 117 <= r.e <= x.e + 65),
        x.m == 0 ==> r == y,
        x.m > 0 && y.m == 0 ==> r == x,
{
    if x.m == 0 {
        y
    } else if y.m == 0 {
        x
    } else if x.e >= y.e {
        let d: i64 = x.e - y.e;
        if d >= 55 {
            proof {
                lemma_add_small(x.m as nat, y.m as nat, d as nat, y.e as int);
            }
            x
        } else {
            let p: u128 = pow2_exec(d as u32);
            proof {
                lemma2_to64();
                lemma2_to64_rest();
                if d < 54 {
                    lemma_pow2_strictly_increases(d as nat, 54);
                }
            }
            assert((x.m as u128) * p <= 0x800_0000_0000_0000_0000_0000_0000) by (nonlinear_arith)
                requires
                    x.m < 0x20_0000_0000_0000,
                    p <= 0x40_0000_0000_0000,
            ;
            let s: u128 = (x.m as u128) * p + (y.m as u128);
            round_exec(s, 1, y.e)
        }
    } else {
        let d: i64 = y.e - x.e;
        if d >= 55 {
            proof {
                lemma_add_small(y.m as nat, x.m as nat, d as nat, x.e as int);
            }
            y
        } else {
            let p: u128 = pow2_exec(d as u32);
            proof {
                lemma2_to64();
                lemma2_to64_rest();
                if d < 54 {
                    lemma_pow2_strictly_increases(d as nat, 54);
                }
            }
            assert((y.m as u128) * p <= 0x800_0000_0000_0000_0000_0000_0000) by (nonlinear_arith)
                requires
                    y.m < 0x20_0000_0000_0000,
                    p <= 0x40_0000_0000_0000,
            ;
            let s: u128 = (y.m as u128) * p + (x.m as u128);
            round_exec(s, 1, x.e)
        }
    }
}

/// `x.ceil() as u64` of a non-negative value.
pub fn dbl_ceil_u64(x: Double) -> (r: u64)
    requires
        wf(dv(x)),
    ensures
        r == sat_u64(dbl_ceil(dv(x))),
{
    if x.m == 0 {
        0
    } else if x.e >= 0 {
        if x.e >= 12 {
            proof {
                lemma2_to64();
                lemma2_to64_rest();
                if x.e > 12 {
                    lemma_pow2_strictly_increases(12, x.e as nat);
                }
                assert((x.m as nat) * pow2(x.e as nat) >= P52 * pow2(12)) by (nonlinear_arith)
                    requires
                        x.m >= P52,
                        pow2(x.e as nat) >= pow2(12),
                ;
            }
            u64::MAX
        } else {
            let p: u128 = pow2_exec(x.e as u32);
            proof {
                lemma2_to64();
                if x.e < 11 {
                    lemma_pow2_strictly_increases(x.e as nat, 11);
                }
            }
            assert((x.m as u128) * p <= 0x1_0000_0000_0000_0000_0000) by (nonlinear_arith)
                requires
                    x.m < 0x20_0000_0000_0000,
                    p <= 0x800,
            ;
            let v: u128 = (x.m as u128) * p;
            if v > u64::MAX as u128 {
                u64::MAX
            } else {
                v as u64
            }
        }
    } else {
        let k: i64 = -x.e;
        if k >= 54 {
            proof {
                lemma2_to64();
                lemma2_to64_rest();
                if k > 54 {
                    lemma_pow2_strictly_increases(54, k as nat);
                }
                let p = pow2(k as nat);
                vstd::arithmetic::div_mod::lemma_fundamental_div_mod_converse(
                    (x.m + p - 1) as int,
                    p as int,
                    1,
                    (x.m - 1) as int,
                );
            }
            1
        } else {
            let p: u128 = pow2_exec(k as u32);
            proof {
                lemma2_to64();
                lemma2_to64_rest();
                if k < 53 {
                    lemma_pow2_strictly_increases(k as nat, 53);
                }
                lemma_pow2_pos(k as nat);
            }
            let v: u128 = ((x.m as u128) + p - 1) / p;
            proof {
                vstd::arithmetic::div_mod::lemma_div_is_ordered_by_denominator(
                    ((x.m as u128) + p - 1) as int,
                    1,
                    p as int,
                );
            }
            assert(v < 0x100_0000_0000_0000);
            v as u64
        }
    }
}

/// `x.floor()` of a non-negative value, as a natural number.
pub open spec fn dbl_floor(x: (nat, int)) -> nat {
    if x.0 == 0 {
        0
    } else if x.1 >= 0 {
        x.0 * pow2(x.1 as nat)
    } else {
        x.0 / pow2((-x.1) as nat)
    }
}

/// `x as u64` (truncation) of a non-negative value.
pub fn dbl_floor_u64(x: Double) -> (r: u64)
    requires
        wf(dv(x)),
    ensures
        r == sat_u64(dbl_floor(dv(x))),
{
    if x.m == 0 {
        0
    } else if x.e >= 0 {
        if x.e >= 12 {
            proof {
                lemma2_to64();
                lemma2_to64_rest();
                if x.e > 12 {
                    lemma_pow2_strictly_increases(12, x.e as nat);
                }
                assert((x.m as nat) * pow2(x.e as nat) >= P52 * pow2(12)) by (nonlinear_arith)
                    requires
                        x.m >= P52,
                        pow2(x.e as nat) >= pow2(12),
                ;
            }
            u64::MAX
        } else {
            let p: u128 = pow2_exec(x.e as u32);
            proof {
                lemma2_to64();
                if x.e < 11 {
                    lemma_pow2_strictly_increases(x.e as nat, 11);
                }
            }
            assert((x.m as u128) * p <= 0x1_0000_0000_0000_0000_0000) by (nonlinear_arith)
                requires
                    x.m < 0x20_0000_0000_0000,
                    p <= 0x800,
            ;
            let v: u128 = (x.m as u128) * p;
            if v > u64::MAX as u128 {
                u64::MAX
            } else {
                v as u64
            }
        }
    } else {
        let k: i64 = -x.e;
        if k >= 54 {
            proof {
                lemma2_to64();
                lemma2_to64_rest();
                if k > 54 {
                    lemma_pow2_strictly_increases(54, k as nat);
                }
                let p = pow2(k as nat);
                vstd::arithmetic::div_mod::lemma_basic_div(x.m as int, p as int);
            }
            0
        } else {
            let p: u128 = pow2_exec(k as u32);
            proof {
                lemma2_to64();
                lemma2_to64_rest();
                lemma_pow2_pos(k as nat);
            }
            let v: u128 = (x.m as u128) / p;
            proof {
                vstd::arithmetic::div_mod::lemma_div_is_ordered_by_denominator(
                    x.m as int,
                    1,
                    p as int,
                );
            }
            assert(v < 0x100_0000_0000_0000);
            v as u64
        }
    }
}

/// The value of a non-negative finite binary64 number from its bits (a
/// subnormal one brought to a normal significand, which is exact).
pub open spec fn dbl_of_bits(bits: u64) -> (nat, int) {
    let exp = (bits / 0x10_0000_0000_0000) % 0x800;
    let mant = bits % 0x10_0000_0000_0000;
    if exp == 0 {
        round_rational(mant as nat, 1, -1074)
    } else {
        ((mant + P52) as nat, exp - 1075)
    }
}

/// `(x as f64 * f64::from_bits(factor_bits)) as u64`: the product rounded to
/// binary64, truncated to an integer; a NaN or negative product gives 0, an
/// infinite or too large one `u64::MAX`.
pub open spec fn spec_scaled_by(x: u64, factor_bits: u64) -> u64 {
    let negative = factor_bits >= 0x8000_0000_0000_0000;
    let exp = (factor_bits / 0x10_0000_0000_0000) % 0x800;
    let mant = factor_bits % 0x10_0000_0000_0000;
    if exp == 0x7ff {
        if mant != 0 || negative || x == 0 {
            0
        } else {
            u64::MAX
        }
    } else if negative {
        0
    } else {
        sat_u64(dbl_floor(dbl_mul(dbl_of(x as nat), dbl_of_bits(factor_bits))))
    }
}

pub fn scaled_by(x: u64, factor_bits: u64) -> (r: u64)
    ensures
        r == spec_scaled_by(x, factor_bits),
{
    let negative = factor_bits >= 0x8000_0000_0000_0000;
    let exp = (factor_bits / 0x10_0000_0000_0000) % 0x800;
    let mant = factor_bits % 0x10_0000_0000_0000;
    if exp == 0x7ff {
        if mant != 0 || negative || x == 0 {
            0
        } else {
            u64::MAX
        }
    } else if negative {
        0
    } else {
        let f = if exp == 0 {
            if mant == 0 {
                Double { m: 0, e: 0 }
            } else {
                round_exec(mant as u128, 1, -1074)
            }
        } else {
            Double { m: mant + P52, e: exp as i64 - 1075 }
        };
        proof {
            if exp == 0 && mant == 0 {
                assert(round_rational(0, 1, -1074) == (0nat, 0int));
            }
        }
        let xv = dbl_of_u64(x);
        let prod = dbl_mul_exec(xv, f);
        dbl_floor_u64(prod)
    }
}

/// The rational `a1 / b1 * 2^e1` is at most `a2 / b2 * 2^e2`.
pub open spec fn rat_le(a1: nat, b1: nat, e1: int, a2: nat, b2: nat, e2: int) -> bool {
    if e1 <= e2 {
        a1 * b2 <= a2 * b1 * pow2((e2 - e1) as nat)
    } else {
        a1 * b2 * pow2((e1 - e2) as nat) <= a2 * b1
    }
}

/// The value `x` is at most the value `y`.
pub open spec fn dbl_le(x: (nat, int), y: (nat, int)) -> bool {
    rat_le(x.0, 1, x.1, y.0, 1, y.1)
}

/// `rat_le` compared at any exponent `k` below both.
proof fn lemma_rat_le_at(a1: nat, b1: nat, e1: int, a2: nat, b2: nat, e2: int, k: int)
    requires
        k <= e1,
        k <= e2,
    ensures
        rat_le(a1, b1, e1, a2, b2, e2) <==> a1 * b2 * pow2((e1 - k) as nat) <= a2 * b1 * pow2((e2 - k) as nat),
{
    let m = if e1 <= e2 { e1 } else { e2 };
    let d = (m - k) as nat;
    let c = pow2(d);
    lemma_pow2_pos(d);
    lemma_pow2_adds((e1 - m) as nat, d);
    lemma_pow2_adds((e2 - m) as nat, d);
    assert((e1 - m) as nat + d == (e1 - k) as nat);
    assert((e2 - m) as nat + d == (e2 - k) as nat);
    let l = a1 * b2 * pow2((e1 - m) as nat);
    let r = a2 * b1 * pow2((e2 - m) as nat);
    assert(a1 * b2 * pow2((e1 - k) as nat) == l * c) by (nonlinear_arith)
        requires
            pow2((e1 - k) as nat) == pow2((e1 - m) as nat) * c,
            l == a1 * b2 * pow2((e1 - m) as nat),
    ;
    assert(a2 * b1 * pow2((e2 - k) as nat) == r * c) by (nonlinear_arith)
        requires
            pow2((e2 - k) as nat) == pow2((e2 - m) as nat) * c,
            r == a2 * b1 * pow2((e2 - m) as nat),
    ;
    assert(l <= r <==> l * c <= r * c) by (nonlinear_arith)
        requires
            c > 0,
    ;
    if e1 <= e2 {
        assert(pow2((e1 - m) as nat) == 1) by {
            lemma2_to64();
        }
        assert(l == a1 * b2);
    } else {
        assert(pow2((e2 - m) as nat) == 1) by {
            lemma2_to64();
        }
        assert(r == a2 * b1);
    }
}

/// Halving the rational's fraction and raising its exponent, or doubling
/// its numerator and lowering its exponent, keeps its value.
proof fn lemma_rat_le_norm(a1: nat, b1: nat, e1: int, a2: nat, b2: nat, e2: int)
    ensures
        rat_le(a1, b1, e1, a2, b2, e2) <==> rat_le(a1, 2 * b1, e1 + 1, a2, b2, e2),
        rat_le(a1, b1, e1, a2, b2, e2) <==> rat_le(2 * a1, b1, e1 - 1, a2, b2, e2),
        rat_le(a1, b1, e1, a2, b2, e2) <==> rat_le(a1, b1, e1, a2, 2 * b2, e2 + 1),
        rat_le(a1, b1, e1, a2, b2, e2) <==> rat_le(a1, b1, e1, 2 * a2, b2, e2 - 1),
{
    let k = (if e1 <= e2 { e1 } else { e2 }) - 1;
    let p1 = pow2((e1 - k) as nat);
    let p2 = pow2((e2 - k) as nat);
    lemma_pow2_unfold((e1 + 1 - k) as nat);
    lemma_pow2_unfold((e2 + 1 - k) as nat);
    lemma_pow2_unfold((e1 - k) as nat);
    lemma_pow2_unfold((e2 - k) as nat);
    assert((e1 - k) as nat >= 1 && (e2 - k) as nat >= 1);
    lemma_rat_le_at(a1, b1, e1, a2, b2, e2, k);
    lemma_rat_le_at(a1, 2 * b1, e1 + 1, a2, b2, e2, k);
    lemma_rat_le_at(2 * a1, b1, e1 - 1, a2, b2, e2, k);
    lemma_rat_le_at(a1, b1, e1, a2, 2 * b2, e2 + 1, k);
    lemma_rat_le_at(a1, b1, e1, 2 * a2, b2, e2 - 1, k);
    let q1 = pow2((e1 - 1 - k) as nat);
    let q2 = pow2((e2 - 1 - k) as nat);
    assert(p1 == 2 * q1 && p2 == 2 * q2);
    let x = a1 * b2 * p1;
    let y = a2 * b1 * p2;
    assert(a1 * b2 * pow2((e1 + 1 - k) as nat) == 2 * x) by (nonlinear_arith)
        requires
            pow2((e1 + 1 - k) as nat) == 2 * p1,
            x == a1 * b2 * p1,
    ;
    assert(a2 * (2 * b1) * p2 == 2 * y) by (nonlinear_arith)
        requires
            y == a2 * b1 * p2,
    ;
    assert((2 * a1) * b2 * q1 == x) by (nonlinear_arith)
        requires
            p1 == 2 * q1,
            x == a1 * b2 * p1,
    ;
    assert(a1 * (2 * b2) * p1 == 2 * x) by (nonlinear_arith)
        requires
            x == a1 * b2 * p1,
    ;
    assert(a2 * b1 * pow2((e2 + 1 - k) as nat) == 2 * y) by (nonlinear_arith)
        requires
            pow2((e2 + 1 - k) as nat) == 2 * p2,
            y == a2 * b1 * p2,
    ;
    assert((2 * a2) * b1 * q2 == y) by (nonlinear_arith)
        requires
            p2 == 2 * q2,
            y == a2 * b1 * p2,
    ;
}

/// The significand that `round_binade` picks for `a / b`, before a carry
/// into the next binade.
spec fn round_int(a: nat, b: nat) -> nat {
    let q = a / b;
    let r = a % b;
    if 2 * r > b || (2 * r == b && q % 2 == 1) {
        q + 1
    } else {
        q
    }
}

/// Rounding to nearest, ties to even, never swaps the order of two
/// fractions.
proof fn lemma_round_int_mono(a1: nat, b1: nat, a2: nat, b2: nat)
    requires
        b1 > 0,
        b2 > 0,
        a1 * b2 <= a2 * b1,
    ensures
        round_int(a1, b1) <= round_int(a2, b2),
{
    let q1 = a1 / b1;
    let r1 = a1 % b1;
    let q2 = a2 / b2;
    let r2 = a2 % b2;
    vstd::arithmetic::div_mod::lemma_fundamental_div_mod(a1 as int, b1 as int);
    vstd::arithmetic::div_mod::lemma_fundamental_div_mod(a2 as int, b2 as int);
    assert(a1 == q1 * b1 + r1 && r1 < b1);
    assert(a2 == q2 * b2 + r2 && r2 < b2);
    assert(q1 <= q2) by (nonlinear_arith)
        requires
            a1 == q1 * b1 + r1,
            a2 == q2 * b2 + r2,
            r2 < b2,
            b1 > 0,
            b2 > 0,
            a1 * b2 <= a2 * b1,
            q1 >= 0,
            r1 >= 0,
    {
        if q1 > q2 {
            assert(a1 >= (q2 + 1) * b1);
            assert(a2 < (q2 + 1) * b2);
            assert(a1 * b2 >= (q2 + 1) * b1 * b2);
            assert(a2 * b1 < (q2 + 1) * b2 * b1);
        }
    }
    if q1 == q2 {
        assert(r1 * b2 <= r2 * b1) by (nonlinear_arith)
            requires
                a1 == q1 * b1 + r1,
                a2 == q1 * b2 + r2,
                a1 * b2 <= a2 * b1,
        ;
        assert(2 * r1 > b1 ==> 2 * r2 > b2) by (nonlinear_arith)
            requires
                r1 * b2 <= r2 * b1,
                b1 > 0,
                b2 > 0,
        ;
        assert(2 * r1 == b1 ==> 2 * r2 >= b2) by (nonlinear_arith)
            requires
                r1 * b2 <= r2 * b1,
                b1 > 0,
                b2 > 0,
        ;
    }
}

/// A binade's rounding, as a value: the rounded significand at the
/// binade's exponent.
proof fn lemma_round_binade_value(a: nat, b: nat, e: int)
    requires
        b > 0,
        P52 * b <= a < P53 * b,
    ensures
        P52 <= round_int(a, b) <= P53,
        round_binade(a, b, e) == (if round_int(a, b) == P53 { (P52 as nat, e + 1) } else { (round_int(a, b), e) }),
{
    lemma_binade_quotient(a, b);
}

/// `(m1, f1)` is at most `(m2, f2)` when `m1 <= m2 * 2^(f2 - f1)`.
proof fn lemma_dbl_le_by(m1: nat, f1: int, m2: nat, f2: int)
    requires
        f1 <= f2,
        m1 <= m2 * pow2((f2 - f1) as nat),
    ensures
        dbl_le((m1, f1), (m2, f2)),
{
}

/// Rounding never swaps the order of two rationals.
pub proof fn lemma_round_mono(a1: nat, b1: nat, e1: int, a2: nat, b2: nat, e2: int)
    requires
        b1 > 0,
        b2 > 0,
        rat_le(a1, b1, e1, a2, b2, e2),
    ensures
        dbl_le(round_rational(a1, b1, e1), round_rational(a2, b2, e2)),
    decreases norm_measure(a1, b1) + norm_measure(a2, b2),
{
    lemma2_to64();
    if a1 == 0 {
        let y = round_rational(a2, b2, e2);
        lemma_pow2_pos((y.1 - 0) as nat);
        assert(dbl_le((0, 0), y)) by (nonlinear_arith)
            requires
                pow2((y.1 - 0) as nat) > 0,
        {
        }
    } else if a2 == 0 {
        let d = if e1 <= e2 { (e2 - e1) as nat } else { (e1 - e2) as nat };
        lemma_pow2_pos(d);
        assert(false) by (nonlinear_arith)
            requires
                a1 > 0,
                b2 > 0,
                pow2(d) > 0,
                rat_le(a1, b1, e1, 0, b2, e2),
                d == if e1 <= e2 { (e2 - e1) as nat } else { (e1 - e2) as nat },
        {
            if e1 <= e2 {
                assert(a1 * b2 > 0);
                assert(0 * b1 * pow2(d) == 0);
            } else {
                assert(a1 * b2 * pow2(d) > 0);
            }
        }
    } else if a1 >= P53 * b1 {
        lemma_rat_le_norm(a1, b1, e1, a2, b2, e2);
        lemma_round_mono(a1, 2 * b1, e1 + 1, a2, b2, e2);
    } else if a1 < P52 * b1 {
        lemma_rat_le_norm(a1, b1, e1, a2, b2, e2);
        lemma_round_mono(2 * a1, b1, e1 - 1, a2, b2, e2);
    } else if a2 >= P53 * b2 {
        lemma_rat_le_norm(a1, b1, e1, a2, b2, e2);
        lemma_round_mono(a1, b1, e1, a2, 2 * b2, e2 + 1);
    } else if a2 < P52 * b2 {
        lemma_rat_le_norm(a1, b1, e1, a2, b2, e2);
        lemma_round_mono(a1, b1, e1, 2 * a2, b2, e2 - 1);
    } else {
        lemma_round_binade_value(a1, b1, e1);
        lemma_round_binade_value(a2, b2, e2);
        let m1 = round_int(a1, b1);
        let m2 = round_int(a2, b2);
        let x = round_rational(a1, b1, e1);
        let y = round_rational(a2, b2, e2);
        assert(x == round_binade(a1, b1, e1));
        assert(y == round_binade(a2, b2, e2));
        if e1 == e2 {
            assert(a1 * b2 <= a2 * b1 * pow2(0));
            lemma_round_int_mono(a1, b1, a2, b2);
            if m2 == P53 {
                if m1 == P53 {
                    lemma_dbl_le_by(P52 as nat, e1 + 1, P52 as nat, e2 + 1);
                } else {
                    lemma_dbl_le_by(m1, e1, P52 as nat, e2 + 1);
                }
            } else {
                lemma_dbl_le_by(m1, e1, m2, e2);
            }
        } else if e1 < e2 {
            let d = (e2 - e1) as nat;
            lemma_pow2_unfold(d);
            lemma_pow2_pos((d - 1) as nat);
            lemma_pow2_unfold(d + 1);
            if m1 == P53 {
                if m2 == P53 {
                    assert(P52 <= P52 * pow2(d)) by (nonlinear_arith)
                        requires
                            pow2(d) > 0,
                    ;
                    lemma_dbl_le_by(P52 as nat, e1 + 1, P52 as nat, e2 + 1);
                } else {
                    assert(P52 <= m2 * pow2((d - 1) as nat)) by (nonlinear_arith)
                        requires
                            pow2((d - 1) as nat) > 0,
                            m2 >= P52,
                    ;
                    lemma_dbl_le_by(P52 as nat, e1 + 1, m2, e2);
                }
            } else {
                if m2 == P53 {
                    assert(m1 <= P52 * pow2(d + 1)) by (nonlinear_arith)
                        requires
                            pow2(d + 1) == 2 * pow2(d),
                            pow2(d) == 2 * pow2((d - 1) as nat),
                            pow2((d - 1) as nat) > 0,
                            m1 <= P53,
                    ;
                    lemma_dbl_le_by(m1, e1, P52 as nat, e2 + 1);
                } else {
                    assert(m1 <= m2 * pow2(d)) by (nonlinear_arith)
                        requires
                            pow2(d) == 2 * pow2((d - 1) as nat),
                            pow2((d - 1) as nat) > 0,
                            m1 <= P53,
                            m2 >= P52,
                    ;
                    lemma_dbl_le_by(m1, e1, m2, e2);
                }
            }
        } else {
            let d = (e1 - e2) as nat;
            lemma_pow2_unfold(d);
            lemma_pow2_pos((d - 1) as nat);
            assert(false) by (nonlinear_arith)
                requires
                    a1 * b2 * pow2(d) <= a2 * b1,
                    pow2(d) == 2 * pow2((d - 1) as nat),
                    pow2((d - 1) as nat) > 0,
                    a1 >= P52 * b1,
                    a2 < P53 * b2,
                    b1 > 0,
                    b2 > 0,
            {
                assert(a1 * b2 * pow2(d) >= P52 * b1 * b2 * 2);
                assert(a2 * b1 < P53 * b2 * b1);
            }
        }
    }
}

/// A value as the operations give it: zero, or a normal significand.
pub open spec fn is_norm(x: (nat, int)) -> bool {
    x.0 == 0 || (P52 <= x.0 < P53)
}

/// Rounding gives zero or a normal significand.
pub proof fn lemma_round_norm(a: nat, b: nat, e: int)
    ensures
        is_norm(round_rational(a, b, e)),
        a > 0 && b > 0 ==> round_rational(a, b, e).0 > 0,
    decreases norm_measure(a, b),
{
    if a == 0 || b == 0 {
    } else if a >= P53 * b {
        lemma_round_norm(a, 2 * b, e + 1);
    } else if a < P52 * b {
        lemma_round_norm(2 * a, b, e - 1);
    } else {
        lemma_round_binade_value(a, b, e);
    }
}

/// Rounding a normal significand keeps it.
proof fn lemma_round_exact(m: nat, e: int)
    requires
        P52 <= m < P53,
    ensures
        round_rational(m, 1, e) == (m, e),
{
    assert(m / 1 == m && m % 1 == 0) by (nonlinear_arith);
    assert(round_int(m, 1) == m);
    lemma_round_binade_value(m, 1, e);
}

/// Every value is at most itself.
proof fn lemma_dbl_le_refl(x: (nat, int))
    ensures
        dbl_le(x, x),
{
    lemma2_to64();
}

/// `n as f64` never swaps the order of two integers.
pub proof fn lemma_dbl_of_mono(n1: nat, n2: nat)
    requires
        n1 <= n2,
    ensures
        dbl_le(dbl_of(n1), dbl_of(n2)),
{
    lemma2_to64();
    lemma_round_mono(n1, 1, 0, n2, 1, 0);
}

/// Dividing by a non-zero value never swaps the order of two values.
pub proof fn lemma_dbl_div_mono(x1: (nat, int), x2: (nat, int), y: (nat, int))
    requires
        y.0 > 0,
        dbl_le(x1, x2),
    ensures
        dbl_le(dbl_div(x1, y), dbl_div(x2, y)),
{
    if x1.1 <= x2.1 {
        let p = pow2((x2.1 - x1.1) as nat);
        assert(x1.0 * y.0 <= x2.0 * y.0 * p) by (nonlinear_arith)
            requires
                x1.0 * 1 <= x2.0 * 1 * p,
        ;
        assert((x2.1 - y.1) - (x1.1 - y.1) == x2.1 - x1.1);
    } else {
        let p = pow2((x1.1 - x2.1) as nat);
        assert(x1.0 * y.0 * p <= x2.0 * y.0) by (nonlinear_arith)
            requires
                x1.0 * 1 * p <= x2.0 * 1,
        ;
        assert((x1.1 - y.1) - (x2.1 - y.1) == x1.1 - x2.1);
    }
    lemma_round_mono(x1.0, y.0, x1.1 - y.1, x2.0, y.0, x2.1 - y.1);
}

/// Multiplying by a value never swaps the order of two values.
pub proof fn lemma_dbl_mul_mono(x1: (nat, int), x2: (nat, int), y: (nat, int))
    requires
        dbl_le(x1, x2),
    ensures
        dbl_le(dbl_mul(x1, y), dbl_mul(x2, y)),
{
    if x1.1 <= x2.1 {
        let p = pow2((x2.1 - x1.1) as nat);
        assert((x1.0 * y.0) * 1 <= (x2.0 * y.0) * 1 * p) by (nonlinear_arith)
            requires
                x1.0 * 1 <= x2.0 * 1 * p,
        ;
        assert((x2.1 + y.1) - (x1.1 + y.1) == x2.1 - x1.1);
    } else {
        let p = pow2((x1.1 - x2.1) as nat);
        assert((x1.0 * y.0) * 1 * p <= (x2.0 * y.0) * 1) by (nonlinear_arith)
            requires
                x1.0 * 1 * p <= x2.0 * 1,
        ;
        assert((x1.1 + y.1) - (x2.1 + y.1) == x1.1 - x2.1);
    }
    lemma_round_mono(x1.0 * y.0, 1, x1.1 + y.1, x2.0 * y.0, 1, x2.1 + y.1);
}

/// Adding is the same in either order, unless both are zero.
proof fn lemma_dbl_add_comm(x: (nat, int), y: (nat, int))
    requires
        x.0 != 0 || y.0 != 0,
    ensures
        dbl_add(x, y) == dbl_add(y, x),
{
    lemma2_to64();
    if x.0 != 0 && y.0 != 0 && x.1 == y.1 {
        assert((x.1 - y.1) as nat == 0 && (y.1 - x.1) as nat == 0);
        assert(x.0 * pow2((x.1 - y.1) as nat) + y.0 == y.0 * pow2((y.1 - x.1) as nat) + x.0);
    }
}

/// The exact sum of two non-zero values, as `dbl_add` rounds it: a
/// significand over the smaller exponent.
spec fn sum_sig(x: (nat, int), y: (nat, int)) -> nat {
    if x.1 >= y.1 {
        x.0 * pow2((x.1 - y.1) as nat) + y.0
    } else {
        y.0 * pow2((y.1 - x.1) as nat) + x.0
    }
}

spec fn sum_exp(x: (nat, int), y: (nat, int)) -> int {
    if x.1 >= y.1 {
        y.1
    } else {
        x.1
    }
}

/// The exact sum, seen from an exponent `k` below both.
proof fn lemma_sum_at(x: (nat, int), y: (nat, int), k: int)
    requires
        k <= x.1,
        k <= y.1,
    ensures
        sum_sig(x, y) * pow2((sum_exp(x, y) - k) as nat) == x.0 * pow2((x.1 - k) as nat) + y.0 * pow2((y.1 - k) as nat),
{
    let e = sum_exp(x, y);
    let c = pow2((e - k) as nat);
    lemma_pow2_adds((x.1 - e) as nat, (e - k) as nat);
    lemma_pow2_adds((y.1 - e) as nat, (e - k) as nat);
    assert((x.1 - e) as nat + (e - k) as nat == (x.1 - k) as nat);
    assert((y.1 - e) as nat + (e - k) as nat == (y.1 - k) as nat);
    lemma2_to64();
    let px = pow2((x.1 - e) as nat);
    let py = pow2((y.1 - e) as nat);
    if x.1 >= y.1 {
        assert((y.1 - e) as nat == 0);
        assert(py == 1);
        assert(y.0 * py == y.0);
    } else {
        assert((x.1 - e) as nat == 0);
        assert(px == 1);
        assert(x.0 * px == x.0);
    }
    assert(sum_sig(x, y) == x.0 * px + y.0 * py);
    assert((x.0 * px + y.0 * py) * c == x.0 * (px * c) + y.0 * (py * c)) by (nonlinear_arith);
}

/// Adding a fixed normal value never swaps the order of two values.
pub proof fn lemma_dbl_add_mono(x: (nat, int), y1: (nat, int), y2: (nat, int))
    requires
        is_norm(x),
        dbl_le(y1, y2),
    ensures
        dbl_le(dbl_add(x, y1), dbl_add(x, y2)),
{
    lemma2_to64();
    if x.0 == 0 {
    } else if y2.0 == 0 {
        if y1.0 != 0 {
            let d = if y1.1 <= y2.1 { (y2.1 - y1.1) as nat } else { (y1.1 - y2.1) as nat };
            lemma_pow2_pos(d);
            assert(false) by (nonlinear_arith)
                requires
                    y1.0 > 0,
                    pow2(d) > 0,
                    dbl_le(y1, (0nat, y2.1)),
                    d == if y1.1 <= y2.1 { (y2.1 - y1.1) as nat } else { (y1.1 - y2.1) as nat },
            {
                if y1.1 <= y2.1 {
                    assert(0 * 1 * pow2(d) == 0);
                } else {
                    assert(y1.0 * 1 * pow2(d) > 0);
                }
            }
        }
        lemma_dbl_le_refl(x);
    } else if y1.0 == 0 {
        // x against the rounded exact sum of x and y2
        lemma_round_exact(x.0, x.1);
        let k = if x.1 <= y2.1 { x.1 } else { y2.1 };
        lemma_sum_at(x, y2, k);
        lemma_pow2_pos((y2.1 - k) as nat);
        let lhs = x.0 * pow2((x.1 - k) as nat);
        let rhs = sum_sig(x, y2) * pow2((sum_exp(x, y2) - k) as nat);
        assert(lhs <= rhs) by (nonlinear_arith)
            requires
                rhs == lhs + y2.0 * pow2((y2.1 - k) as nat),
                pow2((y2.1 - k) as nat) > 0,
        ;
        assert(x.0 * 1 * pow2((x.1 - k) as nat) <= sum_sig(x, y2) * 1 * pow2((sum_exp(x, y2) - k) as nat));
        lemma_rat_le_at(x.0, 1, x.1, sum_sig(x, y2), 1, sum_exp(x, y2), k);
        lemma_round_mono(x.0, 1, x.1, sum_sig(x, y2), 1, sum_exp(x, y2));
    } else {
        let k0 = if x.1 <= y1.1 { x.1 } else { y1.1 };
        let k = if k0 <= y2.1 { k0 } else { y2.1 };
        lemma_sum_at(x, y1, k);
        lemma_sum_at(x, y2, k);
        lemma_rat_le_at(y1.0, 1, y1.1, y2.0, 1, y2.1, k);
        assert(y1.0 * pow2((y1.1 - k) as nat) <= y2.0 * pow2((y2.1 - k) as nat)) by {
            assert(y1.0 * 1 * pow2((y1.1 - k) as nat) == y1.0 * pow2((y1.1 - k) as nat));
            assert(y2.0 * 1 * pow2((y2.1 - k) as nat) == y2.0 * pow2((y2.1 - k) as nat));
        }
        let s1 = sum_sig(x, y1) * pow2((sum_exp(x, y1) - k) as nat);
        let s2 = sum_sig(x, y2) * pow2((sum_exp(x, y2) - k) as nat);
        assert(s1 <= s2);
        assert(sum_sig(x, y1) * 1 * pow2((sum_exp(x, y1) - k) as nat) <= sum_sig(x, y2) * 1 * pow2((sum_exp(x, y2) - k) as nat));
        lemma_rat_le_at(sum_sig(x, y1), 1, sum_exp(x, y1), sum_sig(x, y2), 1, sum_exp(x, y2), k);
        lemma_round_mono(sum_sig(x, y1), 1, sum_exp(x, y1), sum_sig(x, y2), 1, sum_exp(x, y2));
    }
}

/// Zero is at most every value.
proof fn lemma_dbl_le_zero(x: (nat, int), y: (nat, int))
    requires
        x.0 == 0,
    ensures
        dbl_le(x, y),
{
    if x.1 <= y.1 {
        lemma_pow2_pos((y.1 - x.1) as nat);
        assert(0 * 1 <= y.0 * 1 * pow2((y.1 - x.1) as nat)) by (nonlinear_arith)
            requires
                pow2((y.1 - x.1) as nat) > 0,
        ;
    } else {
        assert(0 * 1 * pow2((x.1 - y.1) as nat) <= y.0 * 1) by (nonlinear_arith);
    }
}

/// Adding a fixed normal value, on the left, never swaps the order of two
/// values.
pub proof fn lemma_dbl_add_mono_left(x1: (nat, int), x2: (nat, int), y: (nat, int))
    requires
        is_norm(y),
        dbl_le(x1, x2),
    ensures
        dbl_le(dbl_add(x1, y), dbl_add(x2, y)),
{
    if y.0 != 0 {
        lemma_dbl_add_comm(x1, y);
        lemma_dbl_add_comm(x2, y);
        lemma_dbl_add_mono(y, x1, x2);
    } else if x1.0 == 0 {
        lemma_dbl_le_zero(dbl_add(x1, y), dbl_add(x2, y));
    } else if x2.0 == 0 {
        let d = if x1.1 <= x2.1 { (x2.1 - x1.1) as nat } else { (x1.1 - x2.1) as nat };
        lemma_pow2_pos(d);
        assert(false) by (nonlinear_arith)
            requires
                x1.0 > 0,
                pow2(d) > 0,
                dbl_le(x1, (0nat, x2.1)),
                d == if x1.1 <= x2.1 { (x2.1 - x1.1) as nat } else { (x1.1 - x2.1) as nat },
        {
            if x1.1 <= x2.1 {
                assert(0 * 1 * pow2(d) == 0);
            } else {
                assert(x1.0 * 1 * pow2(d) > 0);
            }
        }
    }
}

/// A ceiling of `a / p` is at most any `z` with `a <= z * p`.
proof fn lemma_ceil_div_le(a: nat, p: nat, z: nat)
    requires
        p > 0,
        a <= z * p,
    ensures
        ((a + p - 1) as nat / p) as nat <= z,
{
    let c = (a + p - 1) as nat / p;
    let r = (a + p - 1) as nat % p;
    vstd::arithmetic::div_mod::lemma_fundamental_div_mod((a + p - 1) as int, p as int);
    assert(c <= z) by (nonlinear_arith)
        requires
            (a + p - 1) as nat == c * p + r,
            0 <= r < p,
            a <= z * p,
            p > 0,
            c >= 0,
    {
        if c > z {
            assert(c * p >= (z + 1) * p);
        }
    }
}

/// `a` is at most its ceiling over `p` times `p`.
proof fn lemma_ceil_div_ge(a: nat, p: nat)
    requires
        p > 0,
    ensures
        a <= (((a + p - 1) as nat / p) as nat) * p,
{
    let c = (a + p - 1) as nat / p;
    let r = (a + p - 1) as nat % p;
    vstd::arithmetic::div_mod::lemma_fundamental_div_mod((a + p - 1) as int, p as int);
    assert(a <= c * p) by (nonlinear_arith)
        requires
            (a + p - 1) as nat == c * p + r,
            0 <= r < p,
    ;
}

/// `x.ceil()` never swaps the order of two values.
pub proof fn lemma_dbl_ceil_mono(x: (nat, int), y: (nat, int))
    requires
        dbl_le(x, y),
    ensures
        dbl_ceil(x) <= dbl_ceil(y),
{
    lemma2_to64();
    if x.0 == 0 {
    } else if y.0 == 0 {
        let d = if x.1 <= y.1 { (y.1 - x.1) as nat } else { (x.1 - y.1) as nat };
        lemma_pow2_pos(d);
        assert(false) by (nonlinear_arith)
            requires
                x.0 > 0,
                pow2(d) > 0,
                dbl_le(x, (0nat, y.1)),
                d == if x.1 <= y.1 { (y.1 - x.1) as nat } else { (x.1 - y.1) as nat },
        {
            if x.1 <= y.1 {
                assert(0 * 1 * pow2(d) == 0);
            } else {
                assert(x.0 * 1 * pow2(d) > 0);
            }
        }
    } else if x.1 >= 0 && y.1 >= 0 {
        lemma_rat_le_at(x.0, 1, x.1, y.0, 1, y.1, 0);
        assert(x.0 * 1 * pow2((x.1 - 0) as nat) == x.0 * pow2(x.1 as nat));
        assert(y.0 * 1 * pow2((y.1 - 0) as nat) == y.0 * pow2(y.1 as nat));
    } else if x.1 < 0 && y.1 >= 0 {
        let p = pow2((-x.1) as nat);
        lemma_pow2_pos((-x.1) as nat);
        lemma_rat_le_at(x.0, 1, x.1, y.0, 1, y.1, x.1);
        lemma_pow2_adds(y.1 as nat, (-x.1) as nat);
        assert((y.1 - x.1) as nat == y.1 as nat + (-x.1) as nat);
        let z = y.0 * pow2(y.1 as nat);
        assert(x.0 <= z * p) by (nonlinear_arith)
            requires
                x.0 * 1 * pow2(0) <= y.0 * 1 * pow2((y.1 - x.1) as nat),
                pow2(0) == 1,
                pow2((y.1 - x.1) as nat) == pow2(y.1 as nat) * p,
                z == y.0 * pow2(y.1 as nat),
        ;
        lemma_ceil_div_le(x.0, p, z);
    } else if x.1 >= 0 && y.1 < 0 {
        let q = pow2((-y.1) as nat);
        lemma_pow2_pos((-y.1) as nat);
        lemma_rat_le_at(x.0, 1, x.1, y.0, 1, y.1, y.1);
        lemma_pow2_adds(x.1 as nat, (-y.1) as nat);
        assert((x.1 - y.1) as nat == x.1 as nat + (-y.1) as nat);
        let xx = x.0 * pow2(x.1 as nat);
        let c = (y.0 + q - 1) as nat / q;
        lemma_ceil_div_ge(y.0, q);
        assert(xx <= c) by (nonlinear_arith)
            requires
                x.0 * 1 * pow2((x.1 - y.1) as nat) <= y.0 * 1 * pow2(0),
                pow2(0) == 1,
                pow2((x.1 - y.1) as nat) == pow2(x.1 as nat) * q,
                xx == x.0 * pow2(x.1 as nat),
                y.0 <= c * q,
                q > 0,
        {
            assert(xx * q <= c * q);
        }
    } else {
        let p = pow2((-x.1) as nat);
        let q = pow2((-y.1) as nat);
        lemma_pow2_pos((-x.1) as nat);
        lemma_pow2_pos((-y.1) as nat);
        let c = ((y.0 + q - 1) as nat / q) as nat;
        lemma_ceil_div_ge(y.0, q);
        if x.1 <= y.1 {
            let dd = (y.1 - x.1) as nat;
            lemma_rat_le_at(x.0, 1, x.1, y.0, 1, y.1, x.1);
            lemma_pow2_adds((-y.1) as nat, dd);
            assert((-x.1) as nat == (-y.1) as nat + dd);
            assert(x.0 <= c * p) by (nonlinear_arith)
                requires
                    x.0 * 1 * pow2(0) <= y.0 * 1 * pow2(dd),
                    pow2(0) == 1,
                    p == q * pow2(dd),
                    y.0 <= c * q,
                    pow2(dd) >= 0,
            {
                assert(y.0 * pow2(dd) <= c * q * pow2(dd));
            }
        } else {
            let dd = (x.1 - y.1) as nat;
            lemma_rat_le_at(x.0, 1, x.1, y.0, 1, y.1, y.1);
            lemma_pow2_adds((-x.1) as nat, dd);
            assert((-y.1) as nat == (-x.1) as nat + dd);
            lemma_pow2_pos(dd);
            assert(x.0 <= c * p) by (nonlinear_arith)
                requires
                    x.0 * 1 * pow2(dd) <= y.0 * 1 * pow2(0),
                    pow2(0) == 1,
                    q == p * pow2(dd),
                    y.0 <= c * q,
                    pow2(dd) > 0,
            {
                assert(x.0 * pow2(dd) <= c * p * pow2(dd));
            }
        }
        lemma_ceil_div_le(x.0, p, c);
    }
}

} // verus!
