use sling::config::{
    options_value_to_u64_at, Config, OptionError, OptionValue, OPT_DEPLETEUPTOAMOUNT, OPT_DEPLETEUPTOPERCENT,
    OPT_INFORM_LAYERS, OPT_MAXHOPS, OPT_STATS_DELETE_FAILURES_AGE,
};
use sling::model::PubKeyBytes;

fn config() -> Config {
    Config::new(PubKeyBytes::new([2; 33]), "v25.02".to_string(), "bitcoin".to_string(), vec![], vec![], vec![])
}

#[test]
fn option_value_checks() {
    assert_eq!(options_value_to_u64_at(-1, 0, None, 0), Err(OptionError::Negative(-1)));
    assert_eq!(options_value_to_u64_at(1, 2, None, 0), Err(OptionError::BelowMinimum(2)));
    assert_eq!(options_value_to_u64_at(5, 2, None, 0), Ok(5));
    assert_eq!(options_value_to_u64_at(2, 0, Some(86_400), 100_000), Err(OptionError::TooFarBack(2, 100_000)));
    assert_eq!(options_value_to_u64_at(1, 0, Some(86_400), 100_000), Ok(1));
}

#[test]
fn setting_options() {
    let mut c = config();
    assert_eq!(c.maxhops, 8);
    assert_eq!(c.check_option_at(OPT_MAXHOPS, &OptionValue::Integer(4), 0), Ok(()));
    assert_eq!(c.maxhops, 4);
    assert_eq!(c.check_option_at(OPT_MAXHOPS, &OptionValue::Integer(1), 0), Err(OptionError::BelowMinimum(2)));
    assert_eq!(c.check_option_at(OPT_MAXHOPS, &OptionValue::Integer(300), 0), Err(OptionError::OutOfRange(300)));
    assert_eq!(c.maxhops, 4);
    assert_eq!(c.check_option_at(OPT_DEPLETEUPTOAMOUNT, &OptionValue::Integer(5), 0), Ok(()));
    assert_eq!(c.depleteuptoamount, 5_000);
    assert_eq!(c.check_option_at(OPT_DEPLETEUPTOPERCENT, &OptionValue::Decimal(Some(0.3f64.to_bits())), 0), Ok(()));
    assert_eq!(c.depleteuptopercent, 0.3f64.to_bits());
    assert_eq!(
        c.check_option_at(OPT_DEPLETEUPTOPERCENT, &OptionValue::Decimal(Some(1.5f64.to_bits())), 0),
        Err(OptionError::NotAShare(1.5f64.to_bits()))
    );
    assert_eq!(c.check_option_at(OPT_DEPLETEUPTOPERCENT, &OptionValue::Decimal(None), 0), Err(OptionError::NotANumber));
    assert_eq!(c.check_option_at(OPT_STATS_DELETE_FAILURES_AGE, &OptionValue::Integer(2), 100_000), Err(OptionError::TooFarBack(2, 100_000)));
    assert_eq!(c.check_option_at(OPT_INFORM_LAYERS, &OptionValue::StringArray(vec!["a".to_string(), "b".to_string()]), 0), Ok(()));
    assert_eq!(c.inform_layers, vec!["a".to_string(), "b".to_string()]);
    assert_eq!(c.check_option_at("sling-nonsense", &OptionValue::Integer(1), 0), Err(OptionError::Unknown));
}
