use talon_core::error::TalonError;
use talon_core::search::input::{cli_search_limits, search_limits_from_config, SearchConfigLimits};

fn config(limit: u16, candidate_limit: u16) -> SearchConfigLimits {
    SearchConfigLimits { limit, candidate_limit }
}

fn field_of(err: TalonError) -> &'static str {
    match err {
        TalonError::InvalidInput { field, message } => {
            assert_eq!(message, "must be greater than zero");
            field
        }
        other => panic!("unexpected error {other:?}"),
    }
}

#[test]
fn from_cli_query_uses_config_defaults_when_flags_are_absent() {
    let (limit, candidate_limit) = cli_search_limits(None, None, Some(config(12, 60)))
        .unwrap_or_else(|err| panic!("search input should build: {err:?}"));
    assert_eq!(limit.get(), 12);
    assert_eq!(candidate_limit.get(), 60);
}

#[test]
fn from_cli_query_flags_override_config_defaults() {
    let (limit, candidate_limit) = cli_search_limits(Some(20), Some(80), Some(config(12, 60)))
        .unwrap_or_else(|err| panic!("search input should build: {err:?}"));
    assert_eq!(limit.get(), 20);
    assert_eq!(candidate_limit.get(), 80);
}

#[test]
fn limits_default_without_configuration() {
    let (limit, candidate_limit) = search_limits_from_config(None).unwrap();
    assert_eq!((limit.get(), candidate_limit.get()), (10, 40));
    let (limit, candidate_limit) = cli_search_limits(Some(3), None, None).unwrap();
    assert_eq!((limit.get(), candidate_limit.get()), (3, 40));
}

#[test]
fn zero_limits_are_rejected_configuration_first() {
    assert_eq!(field_of(search_limits_from_config(Some(config(0, 0))).unwrap_err()), "limit");
    assert_eq!(field_of(search_limits_from_config(Some(config(5, 0))).unwrap_err()), "candidate_limit");
    assert_eq!(field_of(cli_search_limits(Some(5), None, Some(config(0, 60))).unwrap_err()), "limit");
    assert_eq!(field_of(cli_search_limits(Some(0), Some(0), None).unwrap_err()), "limit");
    assert_eq!(field_of(cli_search_limits(None, Some(0), Some(config(12, 60))).unwrap_err()), "candidate_limit");
}
