use kommitted::cli::{
    parse_cli_and_init_logging, parse_number, parse_pair, Cli, ConfigurationError, LogLevel,
    DEFAULT_OFFSETS_HISTORY,
};

fn args(words: &[&str]) -> Vec<String> {
    words.iter().map(|w| w.to_string()).collect()
}

fn parse(words: &[&str]) -> Result<(Cli, LogLevel), ConfigurationError> {
    parse_cli_and_init_logging(&args(words))
}

#[test]
fn brokers_alone_give_the_defaults() {
    let (cli, level) = parse(&["--brokers", "k1:9092,k2:9092"]).unwrap();
    assert_eq!(cli.bootstrap_brokers, "k1:9092,k2:9092");
    assert_eq!(cli.offsets_history, DEFAULT_OFFSETS_HISTORY);
    assert_eq!(cli.offsets_history, 3_600);
    assert!(cli.kafka_config.is_empty());
    assert_eq!(cli.verbose, 0);
    assert_eq!(cli.quiet, 0);
    assert_eq!(cli.verbosity_level(), 0);
    assert_eq!(level, LogLevel::Error);
}

#[test]
fn all_options_in_any_order() {
    let (cli, level) =
        parse(&["-v", "--offsets-history", "120", "--verbose", "-b", "k:9092", "-q", "-v"]).unwrap();
    assert_eq!(cli.bootstrap_brokers, "k:9092");
    assert_eq!(cli.offsets_history, 120);
    assert_eq!(cli.verbose, 3);
    assert_eq!(cli.quiet, 1);
    assert_eq!(cli.verbosity_level(), 2);
    assert_eq!(level, LogLevel::Info);
}

#[test]
fn later_value_stands() {
    let (cli, _) = parse(&[
        "--brokers",
        "a",
        "--offsets-history",
        "1",
        "--brokers",
        "b",
        "--offsets-history",
        "0",
    ])
    .unwrap();
    assert_eq!(cli.bootstrap_brokers, "b");
    assert_eq!(cli.offsets_history, 0);
}

#[test]
fn value_may_look_like_an_option() {
    let (cli, level) = parse(&["--brokers", "-v"]).unwrap();
    assert_eq!(cli.bootstrap_brokers, "-v");
    assert_eq!(cli.verbose, 0);
    assert_eq!(level, LogLevel::Error);
}

#[test]
fn log_level_follows_the_verbosity() {
    let level = |extra: &[&str]| {
        let mut words = vec!["-b", "k"];
        words.extend_from_slice(extra);
        let (cli, level) = parse(&words).unwrap();
        assert_eq!(cli.log_level(), level);
        level
    };
    assert_eq!(level(&["-q"]), LogLevel::Off);
    assert_eq!(level(&["-q", "-q", "--quiet"]), LogLevel::Off);
    assert_eq!(level(&[]), LogLevel::Error);
    assert_eq!(level(&["-v", "-q"]), LogLevel::Error);
    assert_eq!(level(&["-v"]), LogLevel::Warn);
    assert_eq!(level(&["-v", "-v"]), LogLevel::Info);
    assert_eq!(level(&["-v", "-v", "-v"]), LogLevel::Debug);
    assert_eq!(level(&["-v", "-v", "-v", "-v"]), LogLevel::Trace);
    assert_eq!(level(&["-v", "-v", "-v", "-v", "-v", "-v"]), LogLevel::Trace);
}

#[test]
fn counts_stop_at_their_highest() {
    let mut words = vec!["-b", "k"];
    for _ in 0..300 {
        words.push("-v");
    }
    let (cli, level) = parse(&words).unwrap();
    assert_eq!(cli.verbose, 255);
    assert_eq!(level, LogLevel::Trace);
}

#[test]
fn missing_brokers() {
    assert_eq!(parse(&[]).unwrap_err(), ConfigurationError::MissingBrokers);
    assert_eq!(parse(&["-v"]).unwrap_err(), ConfigurationError::MissingBrokers);
    assert_eq!(parse(&["--brokers", ""]).unwrap_err(), ConfigurationError::MissingBrokers);
    assert_eq!(
        parse(&["--offsets-history", "5"]).unwrap_err(),
        ConfigurationError::MissingBrokers
    );
}

#[test]
fn missing_value() {
    assert_eq!(parse(&["--brokers"]).unwrap_err(), ConfigurationError::MissingValue(0));
    assert_eq!(parse(&["-v", "-b"]).unwrap_err(), ConfigurationError::MissingValue(1));
    assert_eq!(
        parse(&["-b", "k", "--offsets-history"]).unwrap_err(),
        ConfigurationError::MissingValue(2)
    );
}

#[test]
fn invalid_offsets_history() {
    for bad in ["", "x", "12x", "-1", "+1", " 1", "1.5", "99999999999999999999999999"] {
        assert_eq!(
            parse(&["-b", "k", "--offsets-history", bad]).unwrap_err(),
            ConfigurationError::InvalidOffsetsHistory(3),
            "{:?}",
            bad
        );
    }
}

#[test]
fn unknown_argument() {
    assert_eq!(parse(&["--nope"]).unwrap_err(), ConfigurationError::UnknownArgument(0));
    assert_eq!(
        parse(&["-b", "k", "extra"]).unwrap_err(),
        ConfigurationError::UnknownArgument(2)
    );
    assert_eq!(parse(&["-b", "k", ""]).unwrap_err(), ConfigurationError::UnknownArgument(2));
    assert_eq!(parse(&["--Verbose"]).unwrap_err(), ConfigurationError::UnknownArgument(0));
}

#[test]
fn first_mistake_is_reported() {
    assert_eq!(
        parse(&["--offsets-history", "x", "--nope"]).unwrap_err(),
        ConfigurationError::InvalidOffsetsHistory(1)
    );
    assert_eq!(
        parse(&["--nope", "--offsets-history", "x"]).unwrap_err(),
        ConfigurationError::UnknownArgument(0)
    );
}

#[test]
fn numbers_are_read_in_decimal() {
    assert_eq!(parse_number("0"), Some(0));
    assert_eq!(parse_number("7"), Some(7));
    assert_eq!(parse_number("007"), Some(7));
    assert_eq!(parse_number("3600"), Some(3_600));
    assert_eq!(parse_number(&usize::MAX.to_string()), Some(usize::MAX));
    assert_eq!(parse_number(&format!("{}0", usize::MAX)), None);
    assert_eq!(parse_number(&(usize::MAX as u128 + 1).to_string()), None);
    assert_eq!(parse_number(""), None);
    assert_eq!(parse_number("12a"), None);
    assert_eq!(parse_number("a12"), None);
    assert_eq!(parse_number("١٢"), None);
}

fn pair(key: &str, value: &str) -> (String, String) {
    (key.to_string(), value.to_string())
}

#[test]
fn client_settings_are_kept_in_order() {
    let (cli, _) = parse(&[
        "--config",
        "security.protocol:SASL_SSL",
        "-b",
        "k:9092",
        "--config",
        "sasl.jaas.config:user:secret",
        "--config",
        "security.protocol:PLAINTEXT",
        "--config",
        "empty:",
    ])
    .unwrap();
    assert_eq!(
        cli.kafka_config,
        vec![
            pair("security.protocol", "SASL_SSL"),
            pair("sasl.jaas.config", "user:secret"),
            pair("security.protocol", "PLAINTEXT"),
            pair("empty", ""),
        ]
    );
    assert_eq!(cli.bootstrap_brokers, "k:9092");
}

#[test]
fn invalid_config() {
    for bad in ["", "novalue", ":value", ":"] {
        assert_eq!(
            parse(&["-b", "k", "--config", bad]).unwrap_err(),
            ConfigurationError::InvalidConfig(3),
            "{:?}",
            bad
        );
    }
    assert_eq!(parse(&["--config"]).unwrap_err(), ConfigurationError::MissingValue(0));
}

#[test]
fn pairs_split_at_the_first_colon() {
    assert_eq!(parse_pair("a:b"), Some(pair("a", "b")));
    assert_eq!(parse_pair("a:b:c"), Some(pair("a", "b:c")));
    assert_eq!(parse_pair("a::"), Some(pair("a", ":")));
    assert_eq!(parse_pair("key:"), Some(pair("key", "")));
    assert_eq!(parse_pair("clé:välue"), Some(pair("clé", "välue")));
    assert_eq!(parse_pair(":b"), None);
    assert_eq!(parse_pair("ab"), None);
    assert_eq!(parse_pair(""), None);
}
