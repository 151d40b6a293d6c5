//! The plugin's settings and the checks its options pass through.
use crate::model::{PubKeyBytes};
use vstd::prelude::*;

verus! {

pub const OPT_REFRESH_ALIASMAP_INTERVAL: &'static str = "sling-refresh-aliasmap-interval";
pub const OPT_RESET_LIQUIDITY_INTERVAL: &'static str = "sling-reset-liquidity-interval";
pub const OPT_DEPLETEUPTOPERCENT: &'static str = "sling-depleteuptopercent";
pub const OPT_DEPLETEUPTOAMOUNT: &'static str = "sling-depleteuptoamount";
pub const OPT_MAXHOPS: &'static str = "sling-maxhops";
pub const OPT_CANDIDATES_MIN_AGE: &'static str = "sling-candidates-min-age";
pub const OPT_PARALLELJOBS: &'static str = "sling-paralleljobs";
pub const OPT_TIMEOUTPAY: &'static str = "sling-timeoutpay";
pub const OPT_MAX_HTLC_COUNT: &'static str = "sling-max-htlc-count";
pub const OPT_STATS_DELETE_FAILURES_AGE: &'static str = "sling-stats-delete-failures-age";
pub const OPT_STATS_DELETE_FAILURES_SIZE: &'static str = "sling-stats-delete-failures-size";
pub const OPT_STATS_DELETE_SUCCESSES_AGE: &'static str = "sling-stats-delete-successes-age";
pub const OPT_STATS_DELETE_SUCCESSES_SIZE: &'static str = "sling-stats-delete-successes-size";
pub const OPT_INFORM_LAYERS: &'static str = "sling-inform-layers";

/// Seconds in a day.
pub const DAY_SECS: u64 = 86_400;

/// Whether two strings are the same text.
pub fn str_eq(a: &str, b: &str) -> (r: bool)
    ensures
        r == (a@ == b@),
{
    let x = a.as_bytes();
    let y = b.as_bytes();
    if x.len() != y.len() {
        proof {
            if a@ == b@ {
                assert(x@ == y@);
            }
        }
        return false;
    }
    let mut i: usize = 0;
    while i < x.len()
        invariant
            x@ == vstd::utf8::encode_utf8(a@),
            y@ == vstd::utf8::encode_utf8(b@),
            x@.len() == y@.len(),
            i <= x@.len(),
            forall|j: int| 0 <= j < i ==> x@[j] == y@[j],
        decreases x@.len() - i,
    {
        if x[i] != y[i] {
            proof {
                if a@ == b@ {
                    assert(x@ == y@);
                }
            }
            return false;
        }
        i = i + 1;
    }
    proof {
        assert(x@ =~= y@);
        vstd::utf8::encode_utf8_decode_utf8(a@);
        vstd::utf8::encode_utf8_decode_utf8(b@);
    }
    true
}

/// Why an option's value was refused.
#[derive(Debug, Clone, Copy, PartialEq, Eq, Structural)]
pub enum OptionError {
    /// A negative number where a count or duration is needed.
    Negative(i64),
    /// Less than the option's least value (given).
    BelowMinimum(u64),
    /// As a time span, it reaches back before the epoch: the value and the
    /// time (seconds since the epoch) it was checked at.
    TooFarBack(u64, u64),
    /// Too large for the setting's integer type.
    OutOfRange(u64),
    /// Not a binary64 number.
    NotANumber,
    /// Outside `[0, 1)` (the number's bits).
    NotAShare(u64),
    /// No option of that name.
    Unknown,
}

/// The current time in seconds since the epoch, by `chrono::Utc::now`.
/// Nothing is claimed of the value: it is the clock's.
#[verifier::external_body]
fn utc_now_timestamp() -> (r: i64) {
    chrono::Utc::now().timestamp()
}

/// Whether `val` seconds since the epoch lie before `now`.
pub open spec fn spec_before_now(now: i64, val: u64) -> bool {
    (now as u64) > val
}

/// Whether `val` (seconds since the epoch) lies before now.
pub fn is_valid_hour_timestamp(val: u64) -> (r: bool)
    ensures
        exists|now: i64| r == spec_before_now(now, val),
{
    let now = utc_now_timestamp();
    is_valid_hour_timestamp_at(val, now)
}

/// Whether `val` lies before `now` (the clock's seconds since the epoch,
/// cast to unsigned).
pub fn is_valid_hour_timestamp_at(val: u64, now: i64) -> (r: bool)
    ensures
        r == spec_before_now(now, val),
{
    (now as u64) > val
}

/// The checks of an unsigned option: at least `gteq`, and, for a time span
/// in units of `time_factor_to_secs` seconds, not reaching back before the
/// epoch at `now` (the product saturating).
pub open spec fn spec_validate_u64(value: u64, gteq: u64, time_factor_to_secs: Option<u64>, now: i64) -> Result<u64, OptionError> {
    if value < gteq {
        Err(OptionError::BelowMinimum(gteq))
    } else {
        match time_factor_to_secs {
            Some(factor) => {
                let secs = if value * factor > u64::MAX {
                    u64::MAX
                } else {
                    (value * factor) as u64
                };
                if !spec_before_now(now, secs) {
                    Err(OptionError::TooFarBack(value, now as u64))
                } else {
                    Ok(value)
                }
            },
            None => Ok(value),
        }
    }
}

pub fn validate_u64_input_at(value: u64, gteq: u64, time_factor_to_secs: Option<u64>, now: i64) -> (r: Result<u64, OptionError>)
    ensures
        r == spec_validate_u64(value, gteq, time_factor_to_secs, now),
{
    if value < gteq {
        return Err(OptionError::BelowMinimum(gteq));
    }
    if let Some(factor) = time_factor_to_secs {
        let secs = match value.checked_mul(factor) {
            Some(v) => v,
            None => u64::MAX,
        };
        if !is_valid_hour_timestamp_at(secs, now) {
            return Err(OptionError::TooFarBack(value, now as u64));
        }
    }
    Ok(value)
}

/// The value of a non-negative integer option, checked against now.
pub open spec fn spec_options_value_to_u64(value: i64, gteq: u64, time_factor_to_secs: Option<u64>, now: i64) -> Result<u64, OptionError> {
    if value >= 0 {
        spec_validate_u64(value as u64, gteq, time_factor_to_secs, now)
    } else {
        Err(OptionError::Negative(value))
    }
}

pub fn options_value_to_u64_at(value: i64, gteq: u64, time_factor_to_secs: Option<u64>, now: i64) -> (r: Result<u64, OptionError>)
    ensures
        r == spec_options_value_to_u64(value, gteq, time_factor_to_secs, now),
{
    if value >= 0 {
        validate_u64_input_at(value as u64, gteq, time_factor_to_secs, now)
    } else {
        Err(OptionError::Negative(value))
    }
}

/// The value of a non-negative integer option: at least `gteq`, and, for a
/// time span, not reaching back before the epoch now. The clock is read
/// only for a time span.
pub fn options_value_to_u64(value: i64, gteq: u64, time_factor_to_secs: Option<u64>) -> (r: Result<u64, OptionError>)
    ensures
        value < 0 ==> r == Err::<u64, OptionError>(OptionError::Negative(value)),
        value >= 0 && (value as u64) < gteq ==> r == Err::<u64, OptionError>(OptionError::BelowMinimum(gteq)),
        value >= 0 && (value as u64) >= gteq && time_factor_to_secs is None ==> r == Ok::<u64, OptionError>(value as u64),
        value >= 0 && (value as u64) >= gteq && time_factor_to_secs is Some ==> (r == Ok::<u64, OptionError>(value as u64) || r matches Err(OptionError::TooFarBack(_, _))),
{
    if value >= 0 && (value as u64) >= gteq && time_factor_to_secs.is_some() {
        let now = utc_now_timestamp();
        options_value_to_u64_at(value, gteq, time_factor_to_secs, now)
    } else {
        options_value_to_u64_at(value, gteq, time_factor_to_secs, 0)
    }
}

/// Whether a binary64 number, given by its bits, lies in `[0, 1)`.
pub open spec fn is_share(bits: u64) -> bool {
    bits < 0x3FF0_0000_0000_0000 || bits == 0x8000_0000_0000_0000
}

/// The settings the options give, and what the plugin knows of its node.
#[derive(Debug, Clone)]
pub struct Config {
    pub pubkey_bytes: PubKeyBytes,
    pub version: String,
    pub network: String,
    pub refresh_aliasmap_interval: u64,
    pub reset_liquidity_interval: u64,
    /// Bits of a binary64 share in `[0, 1)`.
    pub depleteuptopercent: u64,
    pub depleteuptoamount: u64,
    pub maxhops: u8,
    pub candidates_min_age: u32,
    pub paralleljobs: u16,
    pub timeoutpay: u16,
    pub max_htlc_count: u64,
    pub stats_delete_failures_age: u64,
    pub stats_delete_failures_size: u64,
    pub stats_delete_successes_age: u64,
    pub stats_delete_successes_size: u64,
    pub cltv_delta: u32,
    pub at_or_above_24_11: bool,
    pub inform_layers: Vec<String>,
    pub exclude_chans_pull: Vec<u64>,
    pub exclude_chans_push: Vec<u64>,
    pub exclude_peers: Vec<PubKeyBytes>,
}

/// The bits of the binary64 number 0.2, the default depletable share.
pub const DEFAULT_DEPLETEUPTOPERCENT_BITS: u64 = 0x3FC9_9999_9999_999A;

impl Config {
    /// The settings before any option is read.
    pub fn new(
        pubkey_bytes: PubKeyBytes,
        version: String,
        network: String,
        exclude_chans_pull: Vec<u64>,
        exclude_chans_push: Vec<u64>,
        exclude_peers: Vec<PubKeyBytes>,
    ) -> (r: Config)
        ensures
            r.pubkey_bytes == pubkey_bytes,
            r.version == version,
            r.network == network,
            r.refresh_aliasmap_interval == 3600,
            r.reset_liquidity_interval == 360,
            r.depleteuptopercent == DEFAULT_DEPLETEUPTOPERCENT_BITS,
            r.depleteuptoamount == 2_000_000_000,
            r.maxhops == 8,
            r.candidates_min_age == 0,
            r.paralleljobs == 1,
            r.timeoutpay == 120,
            r.max_htlc_count == 5,
            r.stats_delete_failures_age == 30,
            r.stats_delete_failures_size == 10_000,
            r.stats_delete_successes_age == 30,
            r.stats_delete_successes_size == 10_000,
            r.cltv_delta == 144,
            !r.at_or_above_24_11,
            r.inform_layers@.len() == 1,
            r.inform_layers@[0]@ == "xpay"@,
            r.exclude_chans_pull == exclude_chans_pull,
            r.exclude_chans_push == exclude_chans_push,
            r.exclude_peers == exclude_peers,
    {
        let mut inform_layers: Vec<String> = Vec::new();
        let xpay = "xpay".to_string();
        proof {
            vstd::string::to_string_from_display_ensures_for_str("xpay", xpay);
        }
        inform_layers.push(xpay);
        Config {
            pubkey_bytes,
            version,
            network,
            refresh_aliasmap_interval: 3600,
            reset_liquidity_interval: 360,
            depleteuptopercent: DEFAULT_DEPLETEUPTOPERCENT_BITS,
            depleteuptoamount: 2_000_000_000,
            maxhops: 8,
            candidates_min_age: 0,
            paralleljobs: 1,
            timeoutpay: 120,
            max_htlc_count: 5,
            stats_delete_failures_age: 30,
            stats_delete_failures_size: 10_000,
            stats_delete_successes_age: 30,
            stats_delete_successes_size: 10_000,
            cltv_delta: 144,
            at_or_above_24_11: false,
            inform_layers,
            exclude_chans_pull,
            exclude_chans_push,
            exclude_peers,
        }
    }
}

/// The value an option is set to. A decimal option's text arrives as the
/// bits of the binary64 number it reads as, or `None` where it reads as no
/// number.
#[derive(Debug, Clone)]
pub enum OptionValue {
    Integer(i64),
    Decimal(Option<u64>),
    StringArray(Vec<String>),
}

/// The integer options: their least value, for a time span its unit in
/// seconds, and the largest value their setting holds.
pub open spec fn int_option_bounds(name: Seq<char>) -> Option<(u64, Option<u64>, u64)> {
    if name == OPT_REFRESH_ALIASMAP_INTERVAL@ {
        Some((1, None, u64::MAX))
    } else if name == OPT_RESET_LIQUIDITY_INTERVAL@ {
        Some((10, None, u64::MAX))
    } else if name == OPT_DEPLETEUPTOAMOUNT@ {
        Some((0, None, u64::MAX))
    } else if name == OPT_MAXHOPS@ {
        Some((2, None, u8::MAX as u64))
    } else if name == OPT_CANDIDATES_MIN_AGE@ {
        Some((0, None, u32::MAX as u64))
    } else if name == OPT_PARALLELJOBS@ {
        Some((1, None, u16::MAX as u64))
    } else if name == OPT_TIMEOUTPAY@ {
        Some((1, None, u16::MAX as u64))
    } else if name == OPT_MAX_HTLC_COUNT@ {
        Some((1, None, u64::MAX))
    } else if name == OPT_STATS_DELETE_FAILURES_AGE@ {
        Some((0, Some(DAY_SECS), u64::MAX))
    } else if name == OPT_STATS_DELETE_FAILURES_SIZE@ {
        Some((0, None, u64::MAX))
    } else if name == OPT_STATS_DELETE_SUCCESSES_AGE@ {
        Some((0, Some(DAY_SECS), u64::MAX))
    } else if name == OPT_STATS_DELETE_SUCCESSES_SIZE@ {
        Some((0, None, u64::MAX))
    } else {
        None
    }
}

/// The settings with the integer option `name` set to `v`.
pub open spec fn with_int_option(c: Config, name: Seq<char>, v: u64) -> Config {
    if name == OPT_REFRESH_ALIASMAP_INTERVAL@ {
        Config { refresh_aliasmap_interval: v, ..c }
    } else if name == OPT_RESET_LIQUIDITY_INTERVAL@ {
        Config { reset_liquidity_interval: v, ..c }
    } else if name == OPT_DEPLETEUPTOAMOUNT@ {
        Config { depleteuptoamount: (v * 1000) as u64, ..c }
    } else if name == OPT_MAXHOPS@ {
        Config { maxhops: v as u8, ..c }
    } else if name == OPT_CANDIDATES_MIN_AGE@ {
        Config { candidates_min_age: v as u32, ..c }
    } else if name == OPT_PARALLELJOBS@ {
        Config { paralleljobs: v as u16, ..c }
    } else if name == OPT_TIMEOUTPAY@ {
        Config { timeoutpay: v as u16, ..c }
    } else if name == OPT_MAX_HTLC_COUNT@ {
        Config { max_htlc_count: v, ..c }
    } else if name == OPT_STATS_DELETE_FAILURES_AGE@ {
        Config { stats_delete_failures_age: v, ..c }
    } else if name == OPT_STATS_DELETE_FAILURES_SIZE@ {
        Config { stats_delete_failures_size: v, ..c }
    } else if name == OPT_STATS_DELETE_SUCCESSES_AGE@ {
        Config { stats_delete_successes_age: v, ..c }
    } else {
        Config { stats_delete_successes_size: v, ..c }
    }
}

/// Whether the option's value has the type the option is registered with.
pub open spec fn option_value_typed(name: Seq<char>, value: OptionValue) -> bool {
    &&& int_option_bounds(name) is Some ==> value is Integer
    &&& name == OPT_DEPLETEUPTOPERCENT@ ==> value is Decimal
    &&& name == OPT_INFORM_LAYERS@ ==> value is StringArray
}

/// What setting an option does: `r` is the result and `c1` the settings
/// after, from `c0`, with the clock at `now`.
pub open spec fn spec_check_option(c0: Config, c1: Config, name: Seq<char>, value: OptionValue, now: i64, r: Result<(), OptionError>) -> bool {
        match int_option_bounds(name) {
                Some((gteq, factor, max)) => {
                    let checked = spec_options_value_to_u64(value->Integer_0, gteq, factor, now);
                    match checked {
                        Err(e) => r == Err::<(), OptionError>(e) && c1 == c0,
                        Ok(v) => if v > max {
                            r == Err::<(), OptionError>(OptionError::OutOfRange(v)) && c1 == c0
                        } else {
                            r == Ok::<(), OptionError>(()) && c1 == with_int_option(c0, name, v)
                        },
                    }
                },
                None => if name == OPT_DEPLETEUPTOPERCENT@ {
                    match value->Decimal_0 {
                        None => r == Err::<(), OptionError>(OptionError::NotANumber) && c1 == c0,
                        Some(bits) => if is_share(bits) {
                            r == Ok::<(), OptionError>(()) && c1 == (Config { depleteuptopercent: bits, ..c0 })
                        } else {
                            r == Err::<(), OptionError>(OptionError::NotAShare(bits)) && c1 == c0
                        },
                    }
                } else if name == OPT_INFORM_LAYERS@ {
                    r == Ok::<(), OptionError>(()) && c1.inform_layers@ == value->StringArray_0@
                        && c1 == (Config { inform_layers: c1.inform_layers, ..c0 })
                } else {
                    r == Err::<(), OptionError>(OptionError::Unknown) && c1 == c0
                },
            }
}

impl Config {
    /// Sets the option `name` to `value`, checked as the option requires,
    /// with `now` as the time the age options are checked at. A refused
    /// value leaves the settings as they were.
    pub fn check_option_at(&mut self, name: &str, value: &OptionValue, now: i64) -> (r: Result<(), OptionError>)
        requires
            option_value_typed(name@, *value),
            name@ == OPT_DEPLETEUPTOAMOUNT@ && value is Integer ==> value->Integer_0 <= u64::MAX / 1000,
        ensures
            spec_check_option(*old(self), *final(self), name@, *value, now, r),
    {
        let bounds: Option<(u64, Option<u64>, u64)> = if str_eq(name, OPT_REFRESH_ALIASMAP_INTERVAL) {
            Some((1, None, u64::MAX))
        } else if str_eq(name, OPT_RESET_LIQUIDITY_INTERVAL) {
            Some((10, None, u64::MAX))
        } else if str_eq(name, OPT_DEPLETEUPTOAMOUNT) {
            Some((0, None, u64::MAX))
        } else if str_eq(name, OPT_MAXHOPS) {
            Some((2, None, u8::MAX as u64))
        } else if str_eq(name, OPT_CANDIDATES_MIN_AGE) {
            Some((0, None, u32::MAX as u64))
        } else if str_eq(name, OPT_PARALLELJOBS) {
            Some((1, None, u16::MAX as u64))
        } else if str_eq(name, OPT_TIMEOUTPAY) {
            Some((1, None, u16::MAX as u64))
        } else if str_eq(name, OPT_MAX_HTLC_COUNT) {
            Some((1, None, u64::MAX))
        } else if str_eq(name, OPT_STATS_DELETE_FAILURES_AGE) {
            Some((0, Some(DAY_SECS), u64::MAX))
        } else if str_eq(name, OPT_STATS_DELETE_FAILURES_SIZE) {
            Some((0, None, u64::MAX))
        } else if str_eq(name, OPT_STATS_DELETE_SUCCESSES_AGE) {
            Some((0, Some(DAY_SECS), u64::MAX))
        } else if str_eq(name, OPT_STATS_DELETE_SUCCESSES_SIZE) {
            Some((0, None, u64::MAX))
        } else {
            None
        };
        if let Some((gteq, factor, max)) = bounds {
            let raw = match value {
                OptionValue::Integer(i) => *i,
                _ => 0,
            };
            let v = options_value_to_u64_at(raw, gteq, factor, now)?;
            if v > max {
                return Err(OptionError::OutOfRange(v));
            }
            if str_eq(name, OPT_REFRESH_ALIASMAP_INTERVAL) {
                self.refresh_aliasmap_interval = v;
            } else if str_eq(name, OPT_RESET_LIQUIDITY_INTERVAL) {
                self.reset_liquidity_interval = v;
            } else if str_eq(name, OPT_DEPLETEUPTOAMOUNT) {
                self.depleteuptoamount = v * 1000;
            } else if str_eq(name, OPT_MAXHOPS) {
                self.maxhops = v as u8;
            } else if str_eq(name, OPT_CANDIDATES_MIN_AGE) {
                self.candidates_min_age = v as u32;
            } else if str_eq(name, OPT_PARALLELJOBS) {
                self.paralleljobs = v as u16;
            } else if str_eq(name, OPT_TIMEOUTPAY) {
                self.timeoutpay = v as u16;
            } else if str_eq(name, OPT_MAX_HTLC_COUNT) {
                self.max_htlc_count = v;
            } else if str_eq(name, OPT_STATS_DELETE_FAILURES_AGE) {
                self.stats_delete_failures_age = v;
            } else if str_eq(name, OPT_STATS_DELETE_FAILURES_SIZE) {
                self.stats_delete_failures_size = v;
            } else if str_eq(name, OPT_STATS_DELETE_SUCCESSES_AGE) {
                self.stats_delete_successes_age = v;
            } else {
                self.stats_delete_successes_size = v;
            }
            return Ok(());
        }
        if str_eq(name, OPT_DEPLETEUPTOPERCENT) {
            let parsed = match value {
                OptionValue::Decimal(p) => *p,
                _ => None,
            };
            return match parsed {
                None => Err(OptionError::NotANumber),
                Some(bits) => {
                    if bits < 0x3FF0_0000_0000_0000 || bits == 0x8000_0000_0000_0000 {
                        self.depleteuptopercent = bits;
                        Ok(())
                    } else {
                        Err(OptionError::NotAShare(bits))
                    }
                },
            };
        }
        if str_eq(name, OPT_INFORM_LAYERS) {
            if let OptionValue::StringArray(layers) = value {
                let mut copy: Vec<String> = Vec::new();
                let mut i: usize = 0;
                while i < layers.len()
                    invariant
                        i <= layers@.len(),
                        copy@ == layers@.subrange(0, i as int),
                    decreases layers@.len() - i,
                {
                    copy.push(layers[i].clone());
                    proof {
                        assert(layers@.subrange(0, i + 1) =~= layers@.subrange(0, i as int).push(layers@[i as int]));
                    }
                    i = i + 1;
                }
                proof {
                    assert(layers@.subrange(0, layers@.len() as int) =~= layers@);
                }
                self.inform_layers = copy;
            }
            return Ok(());
        }
        Err(OptionError::Unknown)
    }

    /// Sets the option `name` to `value`, checked as the option requires
    /// (the age options against the clock now). A refused value leaves the
    /// settings as they were.
    pub fn check_option(&mut self, name: &str, value: &OptionValue) -> (r: Result<(), OptionError>)
        requires
            option_value_typed(name@, *value),
            name@ == OPT_DEPLETEUPTOAMOUNT@ && value is Integer ==> value->Integer_0 <= u64::MAX / 1000,
        ensures
            exists|now: i64| spec_check_option(*old(self), *final(self), name@, *value, now, r),
    {
        let now = utc_now_timestamp();
        self.check_option_at(name, value, now)
    }
}

} // verus!
