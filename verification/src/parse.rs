//! The arguments of a new job: which keys are accepted, what each must
//! hold, and the job they make.
use crate::config::{str_eq, Config};
use crate::model::contains_scid;
use crate::util::{spec_parse_u64, split_at_char};
use crate::{Job, JobView, SatDirection};
use crate::{pull_chars, push_chars};
use vstd::prelude::*;

verus! {

pub const KEY_SCID: &'static str = "scid";
pub const KEY_DIRECTION: &'static str = "direction";
pub const KEY_AMOUNT: &'static str = "amount";
pub const KEY_MAXPPM: &'static str = "maxppm";
pub const KEY_OUTPPM: &'static str = "outppm";
pub const KEY_TARGET: &'static str = "target";
pub const KEY_MAXHOPS: &'static str = "maxhops";
pub const KEY_CANDIDATES: &'static str = "candidates";
pub const KEY_DEPLETEUPTOPERCENT: &'static str = "depleteuptopercent";
pub const KEY_DEPLETEUPTOAMOUNT: &'static str = "depleteuptoamount";
pub const KEY_PARALLELJOBS: &'static str = "paralleljobs";
pub const KEY_ONCEAMOUNT: &'static str = "onceamount";

/// A value in a job's arguments.
#[derive(Debug, Clone)]
pub enum JsonArg {
    /// A number: its value where it is an unsigned integer, and its value
    /// as a binary64 number, by bits.
    Number { unsigned: Option<u64>, bits: u64 },
    Str(String),
    /// An array, of which only the strings matter.
    Array(Vec<Option<String>>),
    Bool(bool),
    Other,
}

/// A job's arguments: the entries of an object, or something else.
#[derive(Debug, Clone)]
pub enum JobArgs {
    Object(Vec<(String, JsonArg)>),
    NotAnObject,
}

/// The argument a message is about.
#[derive(Debug, Clone, Copy, PartialEq, Eq, Structural)]
pub enum ArgKey {
    Scid,
    Direction,
    Amount,
    Maxppm,
    Outppm,
    Target,
    Maxhops,
    Candidates,
    Depleteuptopercent,
    Depleteuptoamount,
    Paralleljobs,
    Onceamount,
}

/// Why a job's arguments were refused.
#[derive(Debug, Clone, Copy, PartialEq, Eq, Structural)]
pub enum ParseError {
    NotAnObject,
    /// The entry at this index has a key no job takes.
    InvalidArgument(usize),
    TargetWithOnce,
    Missing(ArgKey),
    NotAString(ArgKey),
    NotAnInteger(ArgKey),
    NotANumber(ArgKey),
    NotAnArray(ArgKey),
    /// A short channel id that does not read as one.
    MalformedScid,
    UnknownDirection,
    AmountZero,
    OnceamountZero,
    OnceamountNotMultiple,
    OnceamountBelowAmount,
    MaxhopsBelowTwo,
    /// A target that is not a number from 0 to 1.
    TargetOutOfRange,
    ShareOutOfRange,
    ParalleljobsZero,
    ParalleljobsOverHtlcLimit,
    NeitherOutppmNorCandidates,
    /// A candidate that a job in the other direction excludes.
    CandidateExcluded(u64),
}

/// What `ShortChannelId::from_str` of cln-rpc gives for a text: the text
/// split at each `x` must give exactly three pieces that read as `u64`
/// numbers `block`, `tx` and `out`; the id is `block << 40 | tx << 16 | out`
/// in 64 bits (bits shifted past the top are lost). Otherwise nothing.
pub open spec fn scid_of_text(s: Seq<char>) -> Option<u64> {
    let p = split_at_char(s, 'x');
    if p.len() != 3 {
        None
    } else {
        match (spec_parse_u64(p[0]), spec_parse_u64(p[1]), spec_parse_u64(p[2])) {
            (Some(block), Some(tx), Some(out)) => Some((block << 40u64) | (tx << 16u64) | out),
            _ => None,
        }
    }
}

/// Reads a short channel id (`block x tx x out`) with cln-rpc's
/// `ShortChannelId::from_str`; the contract claims it computes
/// `scid_of_text`, as that function's source does.
#[verifier::external_body]
pub(crate) fn parse_scid(s: &str) -> (r: Option<u64>)
    ensures
        r == scid_of_text(s@),
{
    match <cln_rpc::primitives::ShortChannelId as std::str::FromStr>::from_str(s) {
        Ok(scid) => Some(scid.to_u64()),
        Err(_) => None,
    }
}

/// The index of the first entry at or after `j` with key `k` (the length
/// when there is none).
pub open spec fn find_from(e: Seq<(String, JsonArg)>, k: Seq<char>, j: int) -> int
    decreases e.len() - j,
{
    if j < 0 || j >= e.len() {
        e.len() as int
    } else if e[j].0@ == k {
        j
    } else {
        find_from(e, k, j + 1)
    }
}

/// The value of the first entry with key `k`.
pub open spec fn lookup(e: Seq<(String, JsonArg)>, k: Seq<char>) -> Option<JsonArg> {
    let i = find_from(e, k, 0);
    if i < e.len() { Some(e[i].1) } else { None }
}

/// The keys a job takes; a one-off job takes its total amount too.
pub open spec fn valid_key(k: Seq<char>, once: bool) -> bool {
    ||| k == KEY_SCID@
    ||| k == KEY_DIRECTION@
    ||| k == KEY_AMOUNT@
    ||| k == KEY_MAXPPM@
    ||| k == KEY_OUTPPM@
    ||| k == KEY_TARGET@
    ||| k == KEY_MAXHOPS@
    ||| k == KEY_CANDIDATES@
    ||| k == KEY_DEPLETEUPTOPERCENT@
    ||| k == KEY_DEPLETEUPTOAMOUNT@
    ||| k == KEY_PARALLELJOBS@
    ||| once && k == KEY_ONCEAMOUNT@
}

/// The index of the first entry at or after `j` whose key a job does not
/// take.
pub open spec fn first_invalid_from(e: Seq<(String, JsonArg)>, once: bool, j: int) -> int
    decreases e.len() - j,
{
    if j < 0 || j >= e.len() {
        e.len() as int
    } else if !valid_key(e[j].0@, once) {
        j
    } else {
        first_invalid_from(e, once, j + 1)
    }
}

/// An unsigned integer argument: missing, not one, or its value.
pub open spec fn arg_u64(a: Option<JsonArg>, key: ArgKey) -> Result<Option<u64>, ParseError> {
    match a {
        None => Ok(None),
        Some(JsonArg::Number { unsigned: Some(v), .. }) => Ok(Some(v)),
        Some(_) => Err(ParseError::NotAnInteger(key)),
    }
}

/// A number argument, by its binary64 bits: missing, not a number, or its
/// bits.
pub open spec fn arg_bits(a: Option<JsonArg>, key: ArgKey) -> Result<Option<u64>, ParseError> {
    match a {
        None => Ok(None),
        Some(JsonArg::Number { bits, .. }) => Ok(Some(bits)),
        Some(_) => Err(ParseError::NotANumber(key)),
    }
}

/// Whether a binary64 number, by its bits, lies in `[0, 1)`.
pub open spec fn is_share_bits(bits: u64) -> bool {
    bits < 0x3FF0_0000_0000_0000 || bits == 0x8000_0000_0000_0000
}

/// Whether the binary64 number with these bits lies from 0 to 1, both
/// included (negative zero counts as 0).
pub open spec fn is_unit_bits(bits: u64) -> bool {
    bits <= 0x3FF0_0000_0000_0000 || bits == 0x8000_0000_0000_0000
}

/// The candidates argument: missing, or the channels its strings name, or
/// why it was refused.
pub open spec fn arg_candidates(a: Option<JsonArg>) -> Result<Option<Seq<u64>>, ParseError> {
    match a {
        None => Ok(None),
        Some(JsonArg::Array(items)) => match candidates_from(items@, 0) {
            Ok(c) => Ok(Some(c)),
            Err(e) => Err(e),
        },
        Some(_) => Err(ParseError::NotAnArray(ArgKey::Candidates)),
    }
}

/// The channels named by the items from `j` on, or the first item's error.
pub open spec fn candidates_from(items: Seq<Option<String>>, j: int) -> Result<Seq<u64>, ParseError>
    decreases items.len() - j,
{
    if j < 0 || j >= items.len() {
        Ok(Seq::empty())
    } else {
        match items[j] {
            None => Err(ParseError::NotAString(ArgKey::Candidates)),
            Some(s) => match scid_of_text(s@) {
                None => Err(ParseError::MalformedScid),
                Some(scid) => match candidates_from(items, j + 1) {
                    Ok(rest) => Ok(seq![scid] + rest),
                    Err(e) => Err(e),
                },
            },
        }
    }
}

/// The first candidate at or after `j` that the excluded channels hold.
pub open spec fn first_excluded_from(c: Seq<u64>, excluded: Seq<u64>, j: int) -> Option<u64>
    decreases c.len() - j,
{
    if j < 0 || j >= c.len() {
        None
    } else if excluded.contains(c[j]) {
        Some(c[j])
    } else {
        first_excluded_from(c, excluded, j + 1)
    }
}

/// Whether the amounts a job's arguments give in sats fit when taken to
/// msat.
pub open spec fn amounts_fit(args: JobArgs) -> bool {
    match args {
        JobArgs::Object(e) => {
            &&& (lookup(e@, KEY_AMOUNT@) matches Some(JsonArg::Number { unsigned: Some(v), .. }) ==> v <= u64::MAX / 1000)
            &&& (lookup(e@, KEY_ONCEAMOUNT@) matches Some(JsonArg::Number { unsigned: Some(v), .. }) ==> v <= u64::MAX / 1000)
            &&& (lookup(e@, KEY_DEPLETEUPTOAMOUNT@) matches Some(JsonArg::Number { unsigned: Some(v), .. }) ==> v <= u64::MAX / 1000)
        },
        JobArgs::NotAnObject => true,
    }
}

/// The job that the arguments make, with its channel, or why they were
/// refused; the checks run in this order. `once` tells a one-off job,
/// which needs a total amount and takes no target.
pub open spec fn spec_parse_job(
    args: JobArgs,
    once: bool,
    max_htlc_count: u64,
    exclude_chans_pull: Seq<u64>,
    exclude_chans_push: Seq<u64>,
) -> Result<(u64, JobView), ParseError> {
    match args {
        JobArgs::NotAnObject => Err(ParseError::NotAnObject),
        JobArgs::Object(entries) => {
            let e = entries@;
            let bad = first_invalid_from(e, once, 0);
            if bad < e.len() {
                Err(ParseError::InvalidArgument(bad as usize))
            } else if once && lookup(e, KEY_TARGET@) is Some {
                Err(ParseError::TargetWithOnce)
            } else {
                spec_parse_scid(e, once, max_htlc_count, exclude_chans_pull, exclude_chans_push)
            }
        },
    }
}

/// The checks from the channel on.
pub open spec fn spec_parse_scid(
    e: Seq<(String, JsonArg)>,
    once: bool,
    max_htlc_count: u64,
    exclude_chans_pull: Seq<u64>,
    exclude_chans_push: Seq<u64>,
) -> Result<(u64, JobView), ParseError> {
    match lookup(e, KEY_SCID@) {
        None => Err(ParseError::Missing(ArgKey::Scid)),
        Some(JsonArg::Str(s)) => match scid_of_text(s@) {
            None => Err(ParseError::MalformedScid),
            Some(chan_id) => match lookup(e, KEY_DIRECTION@) {
                None => Err(ParseError::Missing(ArgKey::Direction)),
                Some(JsonArg::Str(d)) => if d@ == pull_chars() || d@ == push_chars() {
                    let dir = if d@ == pull_chars() { SatDirection::Pull } else { SatDirection::Push };
                    match spec_parse_amounts(e, once, dir, max_htlc_count, exclude_chans_pull, exclude_chans_push) {
                        Ok(job) => Ok((chan_id, job)),
                        Err(err) => Err(err),
                    }
                } else {
                    Err(ParseError::UnknownDirection)
                },
                Some(_) => Err(ParseError::NotAString(ArgKey::Direction)),
            },
        },
        Some(_) => Err(ParseError::NotAString(ArgKey::Scid)),
    }
}

/// The checks from the amount to the one-off amount.
pub open spec fn spec_parse_amounts(
    e: Seq<(String, JsonArg)>,
    once: bool,
    dir: SatDirection,
    max_htlc_count: u64,
    exclude_chans_pull: Seq<u64>,
    exclude_chans_push: Seq<u64>,
) -> Result<JobView, ParseError> {
    match arg_u64(lookup(e, KEY_AMOUNT@), ArgKey::Amount) {
        Err(err) => Err(err),
        Ok(None) => Err(ParseError::Missing(ArgKey::Amount)),
        Ok(Some(amount)) => if amount == 0 {
            Err(ParseError::AmountZero)
        } else {
            let amount_msat = (amount * 1000) as u64;
            match arg_u64(lookup(e, KEY_MAXPPM@), ArgKey::Maxppm) {
                Err(err) => Err(err),
                Ok(None) => Err(ParseError::Missing(ArgKey::Maxppm)),
                Ok(Some(maxppm)) => match arg_u64(lookup(e, KEY_OUTPPM@), ArgKey::Outppm) {
                    Err(err) => Err(err),
                    Ok(outppm) => {
                        let job = JobView {
                            sat_direction: dir,
                            amount_msat,
                            outppm,
                            maxppm: maxppm as u32,
                            candidates: None,
                            target: None,
                            maxhops: None,
                            depleteuptopercent: None,
                            depleteuptoamount_msat: None,
                            paralleljobs: None,
                            onceamount_msat: None,
                        };
                        if once {
                            match arg_u64(lookup(e, KEY_ONCEAMOUNT@), ArgKey::Onceamount) {
                                Err(err) => Err(err),
                                Ok(None) => Err(ParseError::Missing(ArgKey::Onceamount)),
                                Ok(Some(oa)) => {
                                    let oa_msat = (oa * 1000) as u64;
                                    if oa_msat == 0 {
                                        Err(ParseError::OnceamountZero)
                                    } else if oa_msat % amount_msat != 0 {
                                        Err(ParseError::OnceamountNotMultiple)
                                    } else if oa_msat < amount_msat {
                                        Err(ParseError::OnceamountBelowAmount)
                                    } else {
                                        spec_parse_options(e, JobView { onceamount_msat: Some(oa_msat), ..job },
                                            max_htlc_count, exclude_chans_pull, exclude_chans_push)
                                    }
                                },
                            }
                        } else {
                            match arg_bits(lookup(e, KEY_TARGET@), ArgKey::Target) {
                                Err(err) => Err(err),
                                Ok(target) => if target is Some && !is_unit_bits(target->0) {
                                    Err(ParseError::TargetOutOfRange)
                                } else {
                                    spec_parse_options(e, JobView { target, ..job },
                                        max_htlc_count, exclude_chans_pull, exclude_chans_push)
                                },
                            }
                        }
                    },
                },
            }
        },
    }
}

/// The checks from the hop limit on.
pub open spec fn spec_parse_options(
    e: Seq<(String, JsonArg)>,
    job: JobView,
    max_htlc_count: u64,
    exclude_chans_pull: Seq<u64>,
    exclude_chans_push: Seq<u64>,
) -> Result<JobView, ParseError> {
    match arg_u64(lookup(e, KEY_MAXHOPS@), ArgKey::Maxhops) {
        Err(err) => Err(err),
        Ok(mh) => if mh is Some && (mh->0 as u8) < 2 {
            Err(ParseError::MaxhopsBelowTwo)
        } else {
            let job = if mh is Some { JobView { maxhops: Some(mh->0 as u8), ..job } } else { job };
            match arg_bits(lookup(e, KEY_DEPLETEUPTOPERCENT@), ArgKey::Depleteuptopercent) {
                Err(err) => Err(err),
                Ok(dp) => if dp is Some && !is_share_bits(dp->0) {
                    Err(ParseError::ShareOutOfRange)
                } else {
                    let job = if dp is Some { JobView { depleteuptopercent: dp, ..job } } else { job };
                    match arg_u64(lookup(e, KEY_DEPLETEUPTOAMOUNT@), ArgKey::Depleteuptoamount) {
                        Err(err) => Err(err),
                        Ok(da) => {
                            let job = if da is Some {
                                JobView { depleteuptoamount_msat: Some((da->0 * 1000) as u64), ..job }
                            } else {
                                job
                            };
                            spec_parse_parallel(e, job, max_htlc_count, exclude_chans_pull, exclude_chans_push)
                        },
                    }
                },
            }
        },
    }
}

/// The checks from the parallel jobs on.
pub open spec fn spec_parse_parallel(
    e: Seq<(String, JsonArg)>,
    job: JobView,
    max_htlc_count: u64,
    exclude_chans_pull: Seq<u64>,
    exclude_chans_push: Seq<u64>,
) -> Result<JobView, ParseError> {
    match arg_u64(lookup(e, KEY_PARALLELJOBS@), ArgKey::Paralleljobs) {
        Err(err) => Err(err),
        Ok(pj) => if pj is Some && (pj->0 as u16) < 1 {
            Err(ParseError::ParalleljobsZero)
        } else if pj is Some && job.sat_direction == SatDirection::Push && (pj->0 as u16) > (max_htlc_count as u16) {
            Err(ParseError::ParalleljobsOverHtlcLimit)
        } else {
            let job = if pj is Some { JobView { paralleljobs: Some(pj->0 as u16), ..job } } else { job };
            match arg_candidates(lookup(e, KEY_CANDIDATES@)) {
                Err(err) => Err(err),
                Ok(None) => if job.outppm is None {
                    Err(ParseError::NeitherOutppmNorCandidates)
                } else {
                    Ok(job)
                },
                Ok(Some(c)) => {
                    let excluded = match job.sat_direction {
                        SatDirection::Pull => exclude_chans_pull,
                        SatDirection::Push => exclude_chans_push,
                    };
                    match first_excluded_from(c, excluded, 0) {
                        Some(x) => Err(ParseError::CandidateExcluded(x)),
                        None => Ok(JobView { candidates: Some(c), ..job }),
                    }
                },
            }
        },
    }
}

/// The index of the first entry with key `key` (the length when none).
fn find_key(e: &Vec<(String, JsonArg)>, key: &str) -> (r: usize)
    ensures
        r == find_from(e@, key@, 0),
        r <= e@.len(),
{
    let mut j: usize = 0;
    while j < e.len()
        invariant
            j <= e@.len(),
            find_from(e@, key@, j as int) == find_from(e@, key@, 0),
        decreases e@.len() - j,
    {
        if str_eq(e[j].0.as_str(), key) {
            return j;
        }
        j = j + 1;
    }
    j
}

/// The value of the first entry with key `key`.
pub(crate) fn lookup_exec<'a>(e: &'a Vec<(String, JsonArg)>, key: &str) -> (r: Option<&'a JsonArg>)
    ensures
        match r {
            Some(a) => lookup(e@, key@) == Some(*a),
            None => lookup(e@, key@) is None,
        },
{
    let i = find_key(e, key);
    if i < e.len() {
        Some(&e[i].1)
    } else {
        None
    }
}

/// Whether a job takes the key `k`.
fn is_valid_key(k: &str, once: bool) -> (r: bool)
    ensures
        r == valid_key(k@, once),
{
    str_eq(k, KEY_SCID) || str_eq(k, KEY_DIRECTION) || str_eq(k, KEY_AMOUNT) || str_eq(k, KEY_MAXPPM)
        || str_eq(k, KEY_OUTPPM) || str_eq(k, KEY_TARGET) || str_eq(k, KEY_MAXHOPS)
        || str_eq(k, KEY_CANDIDATES) || str_eq(k, KEY_DEPLETEUPTOPERCENT)
        || str_eq(k, KEY_DEPLETEUPTOAMOUNT) || str_eq(k, KEY_PARALLELJOBS)
        || (once && str_eq(k, KEY_ONCEAMOUNT))
}

/// The index of the first entry whose key a job does not take.
fn first_invalid(e: &Vec<(String, JsonArg)>, once: bool) -> (r: usize)
    ensures
        r == first_invalid_from(e@, once, 0),
        r <= e@.len(),
{
    let mut j: usize = 0;
    while j < e.len()
        invariant
            j <= e@.len(),
            first_invalid_from(e@, once, j as int) == first_invalid_from(e@, once, 0),
        decreases e@.len() - j,
    {
        if !is_valid_key(e[j].0.as_str(), once) {
            return j;
        }
        j = j + 1;
    }
    j
}

/// An unsigned integer argument.
fn get_u64(e: &Vec<(String, JsonArg)>, key: &str, which: ArgKey) -> (r: Result<Option<u64>, ParseError>)
    ensures
        r == arg_u64(lookup(e@, key@), which),
{
    match lookup_exec(e, key) {
        None => Ok(None),
        Some(JsonArg::Number { unsigned: Some(v), .. }) => Ok(Some(*v)),
        Some(_) => Err(ParseError::NotAnInteger(which)),
    }
}

/// A number argument, by its binary64 bits.
fn get_bits(e: &Vec<(String, JsonArg)>, key: &str, which: ArgKey) -> (r: Result<Option<u64>, ParseError>)
    ensures
        r == arg_bits(lookup(e@, key@), which),
{
    match lookup_exec(e, key) {
        None => Ok(None),
        Some(JsonArg::Number { bits, .. }) => Ok(Some(*bits)),
        Some(_) => Err(ParseError::NotANumber(which)),
    }
}

proof fn lemma_candidates_step(items: Seq<Option<String>>, j: int, scid: u64)
    requires
        0 <= j < items.len(),
        items[j] matches Some(s) && scid_of_text(s@) == Some(scid),
    ensures
        candidates_from(items, j) == (match candidates_from(items, j + 1) {
            Ok(rest) => Ok::<Seq<u64>, ParseError>(seq![scid] + rest),
            Err(e) => Err(e),
        }),
{
}

/// The channels the candidates argument names.
fn get_candidates(e: &Vec<(String, JsonArg)>) -> (r: Result<Option<Vec<u64>>, ParseError>)
    ensures
        match r {
            Ok(Some(c)) => arg_candidates(lookup(e@, KEY_CANDIDATES@)) == Ok::<Option<Seq<u64>>, ParseError>(Some(c@)),
            Ok(None) => arg_candidates(lookup(e@, KEY_CANDIDATES@)) == Ok::<Option<Seq<u64>>, ParseError>(None),
            Err(err) => arg_candidates(lookup(e@, KEY_CANDIDATES@)) == Err::<Option<Seq<u64>>, ParseError>(err),
        },
{
    let items = match lookup_exec(e, KEY_CANDIDATES) {
        None => {
            return Ok(None);
        },
        Some(JsonArg::Array(items)) => items,
        Some(_) => {
            return Err(ParseError::NotAnArray(ArgKey::Candidates));
        },
    };
    let mut out: Vec<u64> = Vec::new();
    let mut j: usize = 0;
    proof {
        match candidates_from(items@, 0) {
            Ok(rest) => {
                assert(out@ + rest =~= rest);
            },
            Err(_) => {},
        }
    }
    while j < items.len()
        invariant
            j <= items@.len(),
            lookup(e@, KEY_CANDIDATES@) == Some(JsonArg::Array(*items)),
            candidates_from(items@, 0) == (match candidates_from(items@, j as int) {
                Ok(rest) => Ok::<Seq<u64>, ParseError>(out@ + rest),
                Err(err) => Err(err),
            }),
        decreases items@.len() - j,
    {
        match &items[j] {
            None => {
                return Err(ParseError::NotAString(ArgKey::Candidates));
            },
            Some(text) => match parse_scid(text.as_str()) {
                None => {
                    return Err(ParseError::MalformedScid);
                },
                Some(scid) => {
                    proof {
                        lemma_candidates_step(items@, j as int, scid);
                        match candidates_from(items@, j + 1) {
                            Ok(rest) => {
                                assert(out@ + (seq![scid] + rest) =~= out@.push(scid) + rest);
                            },
                            Err(_) => {},
                        }
                    }
                    out.push(scid);
                },
            },
        }
        j = j + 1;
    }
    proof {
        assert(out@ + Seq::<u64>::empty() =~= out@);
    }
    Ok(Some(out))
}

/// The first candidate that the excluded channels hold.
fn first_excluded(c: &Vec<u64>, excluded: &[u64]) -> (r: Option<u64>)
    ensures
        r == first_excluded_from(c@, excluded@, 0),
{
    let mut j: usize = 0;
    while j < c.len()
        invariant
            j <= c@.len(),
            first_excluded_from(c@, excluded@, j as int) == first_excluded_from(c@, excluded@, 0),
        decreases c@.len() - j,
    {
        if contains_scid(excluded, c[j]) {
            return Some(c[j]);
        }
        j = j + 1;
    }
    None
}

/// The job that the arguments make, with its channel, or why they were
/// refused. `once` tells a one-off job; `max_htlc_count` bounds the
/// parallel tasks of a push job; candidates that the excluded channels of
/// the job's direction hold are refused.
pub fn parse_job_args(
    args: &JobArgs,
    once: bool,
    max_htlc_count: u64,
    exclude_chans_pull: &[u64],
    exclude_chans_push: &[u64],
) -> (r: Result<(u64, Job), ParseError>)
    requires
        amounts_fit(*args),
    ensures
        match r {
            Ok((chan_id, job)) => spec_parse_job(*args, once, max_htlc_count, exclude_chans_pull@, exclude_chans_push@)
                == Ok::<(u64, JobView), ParseError>((chan_id, job@)),
            Err(err) => spec_parse_job(*args, once, max_htlc_count, exclude_chans_pull@, exclude_chans_push@)
                == Err::<(u64, JobView), ParseError>(err),
        },
{
    let e = match args {
        JobArgs::NotAnObject => {
            return Err(ParseError::NotAnObject);
        },
        JobArgs::Object(e) => e,
    };
    let bad = first_invalid(e, once);
    if bad < e.len() {
        return Err(ParseError::InvalidArgument(bad));
    }
    if once && lookup_exec(e, KEY_TARGET).is_some() {
        return Err(ParseError::TargetWithOnce);
    }
    let chan_id = match lookup_exec(e, KEY_SCID) {
        None => {
            return Err(ParseError::Missing(ArgKey::Scid));
        },
        Some(JsonArg::Str(text)) => match parse_scid(text.as_str()) {
            None => {
                return Err(ParseError::MalformedScid);
            },
            Some(c) => c,
        },
        Some(_) => {
            return Err(ParseError::NotAString(ArgKey::Scid));
        },
    };
    let sat_direction = match lookup_exec(e, KEY_DIRECTION) {
        None => {
            return Err(ParseError::Missing(ArgKey::Direction));
        },
        Some(JsonArg::Str(text)) => match SatDirection::from_str(text.as_str()) {
            Ok(d) => d,
            Err(_) => {
                return Err(ParseError::UnknownDirection);
            },
        },
        Some(_) => {
            return Err(ParseError::NotAString(ArgKey::Direction));
        },
    };
    let amount = match get_u64(e, KEY_AMOUNT, ArgKey::Amount)? {
        None => {
            return Err(ParseError::Missing(ArgKey::Amount));
        },
        Some(a) => a,
    };
    if amount == 0 {
        return Err(ParseError::AmountZero);
    }
    let amount_msat = amount * 1000;
    let maxppm = match get_u64(e, KEY_MAXPPM, ArgKey::Maxppm)? {
        None => {
            return Err(ParseError::Missing(ArgKey::Maxppm));
        },
        Some(p) => p,
    };
    let outppm = get_u64(e, KEY_OUTPPM, ArgKey::Outppm)?;
    let mut job = Job::new(sat_direction, amount_msat, outppm, maxppm as u32);
    if once {
        let oa = match get_u64(e, KEY_ONCEAMOUNT, ArgKey::Onceamount)? {
            None => {
                return Err(ParseError::Missing(ArgKey::Onceamount));
            },
            Some(o) => o,
        };
        let oa_msat = oa * 1000;
        if oa_msat == 0 {
            return Err(ParseError::OnceamountZero);
        }
        if oa_msat % amount_msat != 0 {
            return Err(ParseError::OnceamountNotMultiple);
        }
        if oa_msat < amount_msat {
            return Err(ParseError::OnceamountBelowAmount);
        }
        job.add_onceamount_msat(oa_msat);
    } else {
        if let Some(t) = get_bits(e, KEY_TARGET, ArgKey::Target)? {
            if !(t <= 0x3FF0_0000_0000_0000 || t == 0x8000_0000_0000_0000) {
                return Err(ParseError::TargetOutOfRange);
            }
            job.add_target(t);
        }
    }
    if let Some(h) = get_u64(e, KEY_MAXHOPS, ArgKey::Maxhops)? {
        if (h as u8) < 2 {
            return Err(ParseError::MaxhopsBelowTwo);
        }
        job.add_maxhops(h as u8);
    }
    if let Some(dp) = get_bits(e, KEY_DEPLETEUPTOPERCENT, ArgKey::Depleteuptopercent)? {
        if !(dp < 0x3FF0_0000_0000_0000 || dp == 0x8000_0000_0000_0000) {
            return Err(ParseError::ShareOutOfRange);
        }
        job.add_depleteuptopercent(dp);
    }
    if let Some(da) = get_u64(e, KEY_DEPLETEUPTOAMOUNT, ArgKey::Depleteuptoamount)? {
        job.add_depleteuptoamount_msat(da * 1000);
    }
    if let Some(pj) = get_u64(e, KEY_PARALLELJOBS, ArgKey::Paralleljobs)? {
        if (pj as u16) < 1 {
            return Err(ParseError::ParalleljobsZero);
        }
        if job.sat_direction == SatDirection::Push && (pj as u16) > (max_htlc_count as u16) {
            return Err(ParseError::ParalleljobsOverHtlcLimit);
        }
        job.add_paralleljobs(pj as u16);
    }
    match get_candidates(e)? {
        None => {
            if job.outppm.is_none() {
                return Err(ParseError::NeitherOutppmNorCandidates);
            }
        },
        Some(c) => {
            let excluded = match job.sat_direction {
                SatDirection::Pull => exclude_chans_pull,
                SatDirection::Push => exclude_chans_push,
            };
            if let Some(x) = first_excluded(&c, excluded) {
                return Err(ParseError::CandidateExcluded(x));
            }
            job.add_candidates(c);
        },
    }
    Ok((chan_id, job))
}

/// A rebalancing job from its arguments, checked against the settings.
pub fn parse_job(args: &JobArgs, config: &Config) -> (r: Result<(u64, Job), ParseError>)
    requires
        amounts_fit(*args),
    ensures
        match r {
            Ok((chan_id, job)) => spec_parse_job(*args, false, config.max_htlc_count,
                config.exclude_chans_pull@, config.exclude_chans_push@) == Ok::<(u64, JobView), ParseError>((chan_id, job@)),
            Err(err) => spec_parse_job(*args, false, config.max_htlc_count,
                config.exclude_chans_pull@, config.exclude_chans_push@) == Err::<(u64, JobView), ParseError>(err),
        },
{
    parse_job_args(args, false, config.max_htlc_count, config.exclude_chans_pull.as_slice(), config.exclude_chans_push.as_slice())
}

/// A one-off job (one that moves a total amount, then stops) from its
/// arguments, checked against the settings.
pub fn parse_once_job(args: &JobArgs, config: &Config) -> (r: Result<(u64, Job), ParseError>)
    requires
        amounts_fit(*args),
    ensures
        match r {
            Ok((chan_id, job)) => spec_parse_job(*args, true, config.max_htlc_count,
                config.exclude_chans_pull@, config.exclude_chans_push@) == Ok::<(u64, JobView), ParseError>((chan_id, job@)),
            Err(err) => spec_parse_job(*args, true, config.max_htlc_count,
                config.exclude_chans_pull@, config.exclude_chans_push@) == Err::<(u64, JobView), ParseError>(err),
        },
{
    parse_job_args(args, true, config.max_htlc_count, config.exclude_chans_pull.as_slice(), config.exclude_chans_push.as_slice())
}

} // verus!
