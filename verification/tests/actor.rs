use collector::actor::client_id;
use collector::actor::request_instruments_for_subscription;
use collector::actor::subscription_plans;
use collector::actor::ActorAction;
use collector::actor::BookType;
use collector::actor::CollectorActor;
use collector::actor::PlanError;
use collector::actor::SubscriptionPlan;
use collector::config::Exchange;
use collector::identifiers::ClientId;
use collector::identifiers::InstrumentId;
use collector::names::NameSet;
use collector::plans::ExchangePlan;
use collector::plans::ExchangePlans;

fn names(values: &[&str]) -> NameSet {
    let mut set = NameSet::new();
    for value in values {
        set.insert(value.to_string());
    }
    set
}

fn id(symbol: &str, venue: &str) -> InstrumentId {
    InstrumentId {
        symbol: symbol.to_string(),
        venue: venue.to_string(),
    }
}

fn client(value: &str) -> ClientId {
    ClientId { value: value.to_string() }
}

fn subscription_plan_for_test(exchange: Exchange, plan: ExchangePlan) -> Result<SubscriptionPlan, PlanError> {
    let mut plans = ExchangePlans::new();
    plans.insert(exchange, plan);
    Ok(subscription_plans(&plans)?.into_iter().next().expect("missing subscription plan"))
}

#[test]
fn rejects_invalid_instrument_id_without_panicking() {
    let plan = ExchangePlan {
        instruments: names(&["BTCUSDT"]),
        subscribe_trades: true,
        ..Default::default()
    };

    let error = subscription_plan_for_test(Exchange::Binance, plan).unwrap_err();

    assert!(error.message().contains("BTCUSDT"));
    assert_eq!(error.message(), "invalid instrument id \"BTCUSDT\"");
}

#[test]
fn messages_escape_what_is_not_plain() {
    let plan = ExchangePlan {
        instruments: names(&["a\"b\n"]),
        ..Default::default()
    };

    let error = subscription_plan_for_test(Exchange::Lighter, plan).unwrap_err();

    assert_eq!(error.message(), format!("invalid instrument id {:?}", "a\"b\n"));
    let PlanError::InvalidInstrumentId { instrument, source } = error;
    assert_eq!(instrument, "a\"b\n");
    assert!(source.contains("missing '.' separator"));
    assert_eq!(
        source,
        "a\"b\n".parse::<nautilus_model::identifiers::InstrumentId>().unwrap_err().to_string()
    );
}

#[test]
fn instruments_must_have_a_symbol_and_an_ascii_venue() {
    for invalid in ["BTCUSDT", "", ".", "BTC.", ".BINANCE", " .BINANCE", "BTC. \t", "BTC.\u{e9}", "\u{3000}.X"] {
        let plan = ExchangePlan {
            instruments: names(&[invalid]),
            ..Default::default()
        };
        assert!(subscription_plan_for_test(Exchange::Binance, plan).is_err(), "{invalid:?}");
    }
    let plan = ExchangePlan {
        instruments: names(&["\u{e9}.b.c.VENUE", "X. Y"]),
        ..Default::default()
    };
    assert_eq!(
        subscription_plan_for_test(Exchange::Binance, plan).unwrap().instrument_ids,
        vec![id("X", " Y"), id("\u{e9}.b.c", "VENUE")]
    );
}

#[test]
fn clients_have_the_names_of_their_exchanges() {
    assert_eq!(client_id(Exchange::Binance), client("BINANCE"));
    assert_eq!(client_id(Exchange::Hyperliquid), client("HYPERLIQUID"));
    assert_eq!(client_id(Exchange::Lighter), client("LIGHTER"));
}

fn two_plans() -> ExchangePlans {
    let mut plans = ExchangePlans::new();
    plans.insert(
        Exchange::Lighter,
        ExchangePlan {
            instruments: names(&["BTC-PERP.LIGHTER"]),
            subscribe_quotes: true,
            ..Default::default()
        },
    );
    plans.insert(
        Exchange::Binance,
        ExchangePlan {
            instruments: names(&["ETH.Z", "BTC.Y", "ADA.Z"]),
            subscribe_book_deltas: true,
            subscribe_trades: true,
            ..Default::default()
        },
    );
    plans
}

#[test]
fn plans_follow_the_order_of_exchanges_and_instruments() {
    let planned = subscription_plans(&two_plans()).unwrap();

    assert_eq!(
        planned,
        vec![
            SubscriptionPlan {
                client_id: client("BINANCE"),
                instrument_ids: vec![id("ADA", "Z"), id("BTC", "Y"), id("ETH", "Z")],
                subscribe_book_deltas: true,
                subscribe_quotes: false,
                subscribe_trades: true,
            },
            SubscriptionPlan {
                client_id: client("LIGHTER"),
                instrument_ids: vec![id("BTC-PERP", "LIGHTER")],
                subscribe_book_deltas: false,
                subscribe_quotes: true,
                subscribe_trades: false,
            },
        ]
    );
}

#[test]
fn the_first_invalid_instrument_is_the_error() {
    let mut plans = two_plans();
    plans.insert(
        Exchange::Hyperliquid,
        ExchangePlan {
            instruments: names(&["z", "good.X", "a"]),
            ..Default::default()
        },
    );
    plans.insert(
        Exchange::Lighter,
        ExchangePlan {
            instruments: names(&["0"]),
            ..Default::default()
        },
    );

    let error = CollectorActor::from_exchange_plans(&plans).unwrap_err();

    let source = "a".parse::<nautilus_model::identifiers::InstrumentId>().unwrap_err().to_string();
    assert_eq!(error.message(), "invalid instrument id \"a\"");
    assert_eq!(
        error,
        PlanError::InvalidInstrumentId { instrument: "a".to_string(), source }
    );
}

fn book(symbol: &str, venue: &str) -> ActorAction {
    ActorAction::SubscribeBookDeltas {
        instrument_id: id(symbol, venue),
        book_type: BookType::L2Mbp,
        client_id: client("BINANCE"),
        managed: true,
    }
}

fn trades(symbol: &str, venue: &str) -> ActorAction {
    ActorAction::SubscribeTrades {
        instrument_id: id(symbol, venue),
        client_id: client("BINANCE"),
    }
}

fn request(venue: &str, client_id: &str) -> ActorAction {
    ActorAction::RequestInstruments {
        venue: venue.to_string(),
        client_id: Some(client(client_id)),
    }
}

#[test]
fn start_requests_each_venue_once_and_then_subscribes() {
    let actor = CollectorActor::from_exchange_plans(&two_plans()).unwrap();

    assert_eq!(
        actor.on_start(),
        vec![
            request("Y", "BINANCE"),
            request("Z", "BINANCE"),
            book("ADA", "Z"),
            trades("ADA", "Z"),
            book("BTC", "Y"),
            trades("BTC", "Y"),
            book("ETH", "Z"),
            trades("ETH", "Z"),
            request("LIGHTER", "LIGHTER"),
            ActorAction::SubscribeQuotes {
                instrument_id: id("BTC-PERP", "LIGHTER"),
                client_id: client("LIGHTER"),
            },
        ]
    );
}

#[test]
fn stop_ends_the_subscriptions_of_the_start() {
    let actor = CollectorActor::from_exchange_plans(&two_plans()).unwrap();

    let ends: Vec<ActorAction> = actor
        .on_start()
        .into_iter()
        .filter_map(|action| match action {
            ActorAction::SubscribeBookDeltas { instrument_id, client_id, .. } => {
                Some(ActorAction::UnsubscribeBookDeltas { instrument_id, client_id })
            }
            ActorAction::SubscribeQuotes { instrument_id, client_id } => {
                Some(ActorAction::UnsubscribeQuotes { instrument_id, client_id })
            }
            ActorAction::SubscribeTrades { instrument_id, client_id } => {
                Some(ActorAction::UnsubscribeTrades { instrument_id, client_id })
            }
            _ => None,
        })
        .collect();

    assert_eq!(actor.on_stop(), ends);
    assert_eq!(ends.len(), 7);
}

#[test]
fn an_actor_without_subscriptions_does_nothing() {
    let actor = CollectorActor::new(Vec::new());

    assert_eq!(actor.on_start(), Vec::new());
    assert_eq!(actor.on_stop(), Vec::new());
}

fn mixed_venues() -> SubscriptionPlan {
    SubscriptionPlan {
        client_id: client("LIGHTER"),
        instrument_ids: vec![
            id("BTC-PERP", "LIGHTER"),
            id("ETHUSDT-PERP", "BINANCE"),
            id("ETH-PERP", "LIGHTER"),
        ],
        subscribe_book_deltas: false,
        subscribe_quotes: false,
        subscribe_trades: false,
    }
}

#[test]
fn instruments_are_requested_at_the_given_client() {
    let x = client("X");

    assert_eq!(
        request_instruments_for_subscription(&mixed_venues(), Some(&x)),
        vec![request("BINANCE", "X"), request("LIGHTER", "X")]
    );
}

#[test]
fn instruments_are_requested_without_a_client() {
    let requested = |venue: &str| ActorAction::RequestInstruments {
        venue: venue.to_string(),
        client_id: None,
    };

    assert_eq!(
        request_instruments_for_subscription(&mixed_venues(), None),
        vec![requested("BINANCE"), requested("LIGHTER")]
    );
}
