use sling::config::Config;
use sling::model::PubKeyBytes;
use sling::parse::{parse_job, parse_once_job, ArgKey, JobArgs, JsonArg, ParseError};
use sling::SatDirection;

fn config() -> Config {
    Config::new(
        PubKeyBytes::new([2u8; 33]),
        "v25.02".to_string(),
        "regtest".to_string(),
        vec![(700_000u64 << 40) | (1 << 16) | 1],
        vec![],
        vec![],
    )
}

fn num(v: u64) -> JsonArg {
    JsonArg::Number { unsigned: Some(v), bits: (v as f64).to_bits() }
}

fn float(f: f64) -> JsonArg {
    JsonArg::Number { unsigned: None, bits: f.to_bits() }
}

fn text(s: &str) -> JsonArg {
    JsonArg::Str(s.to_string())
}

fn object(entries: Vec<(&str, JsonArg)>) -> JobArgs {
    JobArgs::Object(entries.into_iter().map(|(k, v)| (k.to_string(), v)).collect())
}

fn scid(block: u64, tx: u64, out: u64) -> u64 {
    (block << 40) | (tx << 16) | out
}

#[test]
fn parse_pull_job_with_outppm() {
    let args = object(vec![
        ("scid", text("704776x2087x3")),
        ("direction", text("pull")),
        ("amount", num(100_000)),
        ("maxppm", num(300)),
        ("outppm", num(0)),
    ]);
    let (chan, job) = parse_job(&args, &config()).unwrap();
    assert_eq!(chan, scid(704776, 2087, 3));
    assert_eq!(job.sat_direction, SatDirection::Pull);
    assert_eq!(job.amount_msat, 100_000_000);
    assert_eq!(job.maxppm, 300);
    assert_eq!(job.outppm, Some(0));
    assert!(job.candidates.is_none());
    assert!(job.target.is_none());
}

#[test]
fn parse_push_job_with_options_and_candidates() {
    let args = object(vec![
        ("scid", text("704776x2087x3")),
        ("direction", text("push")),
        ("amount", num(100_000)),
        ("maxppm", num(300)),
        ("target", float(0.8)),
        ("maxhops", num(6)),
        ("candidates", JsonArg::Array(vec![Some("704776x2087x5".to_string()), Some("702776x1087x2".to_string())])),
        ("depleteuptopercent", float(0.3)),
        ("depleteuptoamount", num(1_000)),
        ("paralleljobs", num(2)),
    ]);
    let (_, job) = parse_job(&args, &config()).unwrap();
    assert_eq!(job.sat_direction, SatDirection::Push);
    assert_eq!(job.target, Some(0.8f64.to_bits()));
    assert_eq!(job.maxhops, Some(6));
    assert_eq!(job.candidates, Some(vec![scid(704776, 2087, 5), scid(702776, 1087, 2)]));
    assert_eq!(job.depleteuptopercent, Some(0.3f64.to_bits()));
    assert_eq!(job.depleteuptoamount_msat, Some(1_000_000));
    assert_eq!(job.paralleljobs, Some(2));
}

#[test]
fn parse_refuses_non_object() {
    assert_eq!(parse_job(&JobArgs::NotAnObject, &config()).err(), Some(ParseError::NotAnObject));
}

#[test]
fn parse_refuses_unknown_key() {
    let args = object(vec![("scid", text("1x1x1")), ("speed", num(1))]);
    assert_eq!(parse_job(&args, &config()).err(), Some(ParseError::InvalidArgument(1)));
}

#[test]
fn parse_refuses_missing_scid() {
    let args = object(vec![("direction", text("pull"))]);
    assert_eq!(parse_job(&args, &config()).err(), Some(ParseError::Missing(ArgKey::Scid)));
}

#[test]
fn parse_refuses_malformed_scid() {
    let args = object(vec![("scid", text("1x1"))]);
    assert_eq!(parse_job(&args, &config()).err(), Some(ParseError::MalformedScid));
}

#[test]
fn parse_refuses_unknown_direction() {
    let args = object(vec![("scid", text("1x1x1")), ("direction", text("sideways"))]);
    assert_eq!(parse_job(&args, &config()).err(), Some(ParseError::UnknownDirection));
}

#[test]
fn parse_refuses_zero_amount() {
    let args = object(vec![("scid", text("1x1x1")), ("direction", text("pull")), ("amount", num(0))]);
    assert_eq!(parse_job(&args, &config()).err(), Some(ParseError::AmountZero));
}

#[test]
fn parse_refuses_float_amount() {
    let args = object(vec![("scid", text("1x1x1")), ("direction", text("pull")), ("amount", float(1.5))]);
    assert_eq!(parse_job(&args, &config()).err(), Some(ParseError::NotAnInteger(ArgKey::Amount)));
}

#[test]
fn parse_refuses_one_hop() {
    let args = object(vec![
        ("scid", text("1x1x1")), ("direction", text("pull")), ("amount", num(1)),
        ("maxppm", num(1)), ("outppm", num(1)), ("maxhops", num(1)),
    ]);
    assert_eq!(parse_job(&args, &config()).err(), Some(ParseError::MaxhopsBelowTwo));
}

#[test]
fn parse_refuses_whole_share() {
    let args = object(vec![
        ("scid", text("1x1x1")), ("direction", text("pull")), ("amount", num(1)),
        ("maxppm", num(1)), ("outppm", num(1)), ("depleteuptopercent", float(1.0)),
    ]);
    assert_eq!(parse_job(&args, &config()).err(), Some(ParseError::ShareOutOfRange));
}

#[test]
fn parse_refuses_too_many_parallel_push_tasks() {
    let args = object(vec![
        ("scid", text("1x1x1")), ("direction", text("push")), ("amount", num(1)),
        ("maxppm", num(1)), ("outppm", num(1)), ("paralleljobs", num(6)),
    ]);
    assert_eq!(parse_job(&args, &config()).err(), Some(ParseError::ParalleljobsOverHtlcLimit));
}

#[test]
fn parse_refuses_zero_parallel_tasks() {
    let args = object(vec![
        ("scid", text("1x1x1")), ("direction", text("pull")), ("amount", num(1)),
        ("maxppm", num(1)), ("outppm", num(1)), ("paralleljobs", num(0)),
    ]);
    assert_eq!(parse_job(&args, &config()).err(), Some(ParseError::ParalleljobsZero));
}

#[test]
fn parse_requires_outppm_or_candidates() {
    let args = object(vec![("scid", text("1x1x1")), ("direction", text("pull")), ("amount", num(1)), ("maxppm", num(1))]);
    assert_eq!(parse_job(&args, &config()).err(), Some(ParseError::NeitherOutppmNorCandidates));
}

#[test]
fn parse_refuses_excluded_candidate() {
    let args = object(vec![
        ("scid", text("1x1x1")), ("direction", text("pull")), ("amount", num(1)), ("maxppm", num(1)),
        ("candidates", JsonArg::Array(vec![Some("700000x1x1".to_string())])),
    ]);
    assert_eq!(parse_job(&args, &config()).err(), Some(ParseError::CandidateExcluded(scid(700000, 1, 1))));
}

#[test]
fn parse_once_job_checks_total() {
    let base = |once: u64| object(vec![
        ("scid", text("1x1x1")), ("direction", text("pull")), ("amount", num(100)), ("maxppm", num(1)),
        ("outppm", num(1)), ("onceamount", num(once)),
    ]);
    assert_eq!(parse_once_job(&base(250), &config()).err(), Some(ParseError::OnceamountNotMultiple));
    assert_eq!(parse_once_job(&base(0), &config()).err(), Some(ParseError::OnceamountZero));
    let (_, job) = parse_once_job(&base(300), &config()).unwrap();
    assert_eq!(job.onceamount_msat, Some(300_000));
}

#[test]
fn parse_once_job_refuses_target() {
    let args = object(vec![("scid", text("1x1x1")), ("target", float(0.5))]);
    assert_eq!(parse_once_job(&args, &config()).err(), Some(ParseError::TargetWithOnce));
}

#[test]
fn parse_plain_job_refuses_onceamount() {
    let args = object(vec![("scid", text("1x1x1")), ("onceamount", num(5))]);
    assert_eq!(parse_job(&args, &config()).err(), Some(ParseError::InvalidArgument(1)));
}

#[test]
fn parse_refuses_target_outside_unit_range() {
    for t in [1.5f64, -0.1, 2.0, f64::NAN] {
        let args = object(vec![
            ("scid", text("704776x2087x3")), ("direction", text("pull")), ("amount", num(100_000)),
            ("maxppm", num(300)), ("outppm", num(0)), ("target", float(t)),
        ]);
        assert_eq!(parse_job(&args, &config()).err(), Some(ParseError::TargetOutOfRange));
    }
}

#[test]
fn parse_accepts_target_bounds() {
    for t in [0.0f64, 1.0, 0.5] {
        let args = object(vec![
            ("scid", text("704776x2087x3")), ("direction", text("pull")), ("amount", num(100_000)),
            ("maxppm", num(300)), ("outppm", num(0)), ("target", float(t)),
        ]);
        let (_, job) = parse_job(&args, &config()).unwrap();
        assert_eq!(job.target, Some(t.to_bits()));
    }
}
