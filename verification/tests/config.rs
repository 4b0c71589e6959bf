use std::collections::BTreeSet;

use collector::adapters::data_client_settings;
use collector::adapters::BinanceEncoding;
use collector::adapters::BinanceMarket;
use collector::adapters::DataClientSettings;
use collector::adapters::Network;
use collector::config::CollectorConfig;
use collector::config::ConfigError;
use collector::config::DataType;
use collector::config::Exchange;
use collector::config::ExchangeSection;
use collector::config::ReadConfigError;
use collector::config::Section;
use collector::config::SubscriptionRequest;
use collector::names::NameSet;
use collector::ordering::bytes_before;
use collector::ordering::text_before;
use collector::settings::catalog_path;
use collector::settings::config_path;
use collector::settings::node_names;
use collector::settings::streaming_settings;
use collector::settings::Rotation;

fn section(data_type: &str, exchanges: &[(&str, &[&str])]) -> Section {
    Section {
        data_type: data_type.to_string(),
        exchanges: exchanges
            .iter()
            .map(|(exchange, instruments)| ExchangeSection {
                exchange: exchange.to_string(),
                instruments: instruments.iter().map(|name| name.to_string()).collect(),
            })
            .collect(),
    }
}

fn example() -> Vec<Section> {
    vec![
        section(
            "book_deltas",
            &[
                ("binance", &["BTCUSDT-PERP.BINANCE"]),
                ("hyperliquid", &["BTC-USD-PERP.HYPERLIQUID"]),
                ("lighter", &["BTC-PERP.LIGHTER"]),
            ],
        ),
        section("quotes", &[("lighter", &["BTC-PERP.LIGHTER"])]),
        section("trades", &[("lighter", &["BTC-PERP.LIGHTER"])]),
    ]
}

#[test]
fn parses_data_types_and_exchanges() {
    let config = CollectorConfig::from_sections(&example()).unwrap();

    assert_eq!(config.requests.len(), 5);
    assert_eq!(
        config.requests[1],
        SubscriptionRequest {
            data_type: DataType::BookDeltas,
            exchange: Exchange::Hyperliquid,
            instruments: vec!["BTC-USD-PERP.HYPERLIQUID".to_string()],
        }
    );
    assert_eq!(config.requests[3].data_type, DataType::Quotes);
    assert_eq!(config.requests[4].data_type, DataType::Trades);
}

#[test]
fn rejects_an_unknown_data_type() {
    let sections = vec![section("quotes", &[("lighter", &["A.B"])]), section("bars", &[])];

    let error = CollectorConfig::from_sections(&sections).unwrap_err();

    assert_eq!(error, ConfigError::UnknownDataType { key: "bars".to_string() });
    assert_eq!(error.message(), "unknown data type bars");
}

#[test]
fn rejects_an_unknown_exchange() {
    let sections = vec![section("quotes", &[("lighter", &["A.B"]), ("kraken", &["A.B"])])];

    let error = CollectorConfig::from_sections(&sections).unwrap_err();

    assert_eq!(error, ConfigError::UnknownExchange { key: "kraken".to_string() });
    assert_eq!(error.message(), "unknown exchange kraken");
}

#[test]
fn merges_data_types_of_an_exchange_into_one_plan() {
    let plans = CollectorConfig::from_sections(&example()).unwrap().exchange_plans().unwrap();

    assert_eq!(
        plans.exchanges(),
        vec![Exchange::Binance, Exchange::Hyperliquid, Exchange::Lighter]
    );
    let lighter = plans.get(Exchange::Lighter).unwrap();
    assert!(lighter.subscribe_book_deltas && lighter.subscribe_quotes && lighter.subscribe_trades);
    assert_eq!(lighter.instruments.names(), &vec!["BTC-PERP.LIGHTER".to_string()]);
    let binance = plans.get(Exchange::Binance).unwrap();
    assert!(binance.subscribe_book_deltas && !binance.subscribe_quotes && !binance.subscribe_trades);
}

#[test]
fn merges_the_instruments_of_an_exchange() {
    let sections = vec![
        section("trades", &[("binance", &["C.X", "A.X"])]),
        section("quotes", &[("binance", &["B.X", "A.X"])]),
    ];

    let plans = CollectorConfig::from_sections(&sections).unwrap().exchange_plans().unwrap();

    assert_eq!(plans.exchanges(), vec![Exchange::Binance]);
    assert_eq!(
        plans.get(Exchange::Binance).unwrap().instruments.names(),
        &vec!["A.X".to_string(), "B.X".to_string(), "C.X".to_string()]
    );
    assert!(plans.get(Exchange::Lighter).is_none());
}

#[test]
fn rejects_an_exchange_without_instruments() {
    let sections = vec![
        section("trades", &[("lighter", &[]), ("hyperliquid", &[]), ("binance", &[])]),
        section("quotes", &[("binance", &["A.X"])]),
    ];

    let error = CollectorConfig::from_sections(&sections).unwrap().exchange_plans().unwrap_err();

    assert_eq!(error, ConfigError::NoInstruments { exchange: Exchange::Hyperliquid });
    assert_eq!(error.message(), "no instruments configured for exchange hyperliquid");
}

#[test]
fn rejects_a_configuration_without_subscriptions() {
    let error = CollectorConfig::from_sections(&vec![section("quotes", &[])])
        .unwrap()
        .exchange_plans()
        .unwrap_err();

    assert_eq!(error, ConfigError::NoSubscriptions);
    assert_eq!(error.message(), "no subscriptions configured");
}

#[test]
fn name_sets_are_ordered_as_those_of_the_standard_library() {
    let values = ["b", "a", "", "B", "ab", "a", "\u{e9}", "\u{1f600}", "\u{ffff}", "b"];
    let mut set = NameSet::new();
    let mut expected = BTreeSet::new();
    assert!(set.is_empty());
    for value in values {
        assert_eq!(set.insert(value.to_string()), expected.insert(value.to_string()));
    }
    assert!(!set.is_empty());
    assert_eq!(set.names(), &expected.into_iter().collect::<Vec<String>>());
    for a in values {
        for b in values {
            assert_eq!(text_before(a, b), a < b);
            assert_eq!(bytes_before(a.as_bytes(), b.as_bytes()), a.as_bytes() < b.as_bytes());
        }
    }
}

#[test]
fn clients_connect_to_the_live_networks() {
    assert_eq!(
        data_client_settings(Exchange::Binance),
        DataClientSettings::Binance {
            market: BinanceMarket::UsdMarginedFutures,
            network: Network::Live,
            encoding: BinanceEncoding::Json,
            api_key: None,
            api_secret: None,
        }
    );
    assert_eq!(
        data_client_settings(Exchange::Hyperliquid),
        DataClientSettings::Hyperliquid { network: Network::Live }
    );
    assert_eq!(
        data_client_settings(Exchange::Lighter),
        DataClientSettings::Lighter { network: Network::Live }
    );
}

#[test]
fn paths_have_defaults() {
    assert_eq!(config_path(None), "collector.yaml");
    assert_eq!(config_path(Some("x.yaml".to_string())), "x.yaml");
    assert_eq!(catalog_path(None), "./catalog/collector");
    assert_eq!(catalog_path(Some("/data".to_string())), "/data");
}

#[test]
fn records_into_local_files() {
    let settings = streaming_settings("/data".to_string());

    assert_eq!(settings.catalog_path, "/data");
    assert_eq!(settings.fs_protocol, "file");
    assert_eq!(settings.flush_interval_ms, 500);
    assert!(!settings.replace_existing);
    assert_eq!(settings.rotation, Rotation::EveryMinute);
    assert_eq!(node_names().trader_id, "COLLECTOR-001");
    assert_eq!(node_names().node_name, "DATA-COLLECTOR-001");
}

const EXAMPLE_YAML: &str = "
book_deltas:
  binance:
    - BTCUSDT-PERP.BINANCE
  hyperliquid:
    - BTC-USD-PERP.HYPERLIQUID
  lighter:
    - BTC-PERP.LIGHTER

quotes:
  lighter:
    - BTC-PERP.LIGHTER

trades:
  lighter:
    - BTC-PERP.LIGHTER
";

#[test]
fn reads_the_sections_of_a_yaml_text() {
    let config = CollectorConfig::from_yaml_str(EXAMPLE_YAML).unwrap();

    assert_eq!(config.requests, CollectorConfig::from_sections(&example()).unwrap().requests);
    let plans = config.exchange_plans().unwrap();
    assert_eq!(
        plans.exchanges(),
        vec![Exchange::Binance, Exchange::Hyperliquid, Exchange::Lighter]
    );
    let lighter = plans.get(Exchange::Lighter).unwrap();
    assert_eq!(lighter.instruments.names(), &vec!["BTC-PERP.LIGHTER".to_string()]);
    assert!(lighter.subscribe_book_deltas && lighter.subscribe_quotes && lighter.subscribe_trades);
}

#[test]
fn rejects_unknown_keys_of_a_yaml_text() {
    for (text, expected) in [
        ("bars: {binance: [A.B]}", ConfigError::UnknownDataType { key: "bars".to_string() }),
        ("quotes: {kraken: [A.B]}", ConfigError::UnknownExchange { key: "kraken".to_string() }),
    ] {
        match CollectorConfig::from_yaml_str(text) {
            Err(ReadConfigError::Config { error }) => assert_eq!(error, expected),
            other => panic!("{other:?}"),
        }
    }
}

#[test]
fn rejects_a_text_of_another_shape() {
    for text in [
        "quotes",
        "[quotes]",
        "quotes: {binance: A.B}",
        "quotes: {binance: [[A.B]]}",
        "quotes: [binance]",
        "quotes: {binance: [A.B], binance: [C.D]}",
        "quotes: {}\nquotes: {}",
        "quotes: {",
    ] {
        let result = CollectorConfig::from_yaml_str(text);
        assert!(matches!(result, Err(ReadConfigError::Yaml { .. })), "{text}: {result:?}");
    }
    assert_eq!(
        CollectorConfig::from_yaml_str("quotes: {").unwrap_err(),
        ReadConfigError::Yaml {
            source: serde_yaml::from_str::<serde_yaml::Value>("quotes: {").unwrap_err().to_string(),
        }
    );
}

#[test]
fn a_yaml_text_without_subscriptions_has_no_plans() {
    for text in ["", "{}", "~", "quotes: {}", "quotes:"] {
        let config = CollectorConfig::from_yaml_str(text).unwrap();
        assert_eq!(config.exchange_plans().unwrap_err(), ConfigError::NoSubscriptions);
    }
    for text in ["quotes: {lighter: []}", "quotes: {lighter: }"] {
        let config = CollectorConfig::from_yaml_str(text).unwrap();
        assert_eq!(
            config.exchange_plans().unwrap_err(),
            ConfigError::NoInstruments { exchange: Exchange::Lighter }
        );
    }
}
