//! How the data client of each exchange is set up.
use vstd::prelude::*;

use crate::config::Exchange;

verus! {

/// The network that a client connects to.
#[derive(Debug, Clone, Copy, PartialEq, Eq, Structural)]
pub enum Network {
    /// The network with real trading.
    Live,
    /// The network for tests.
    Test,
}

/// The markets of Binance.
#[derive(Debug, Clone, Copy, PartialEq, Eq, Structural)]
pub enum BinanceMarket {
    Spot,
    UsdMarginedFutures,
    CoinMarginedFutures,
}

/// The encoding of the market data of Binance.
#[derive(Debug, Clone, Copy, PartialEq, Eq, Structural)]
pub enum BinanceEncoding {
    Json,
    Sbe,
}

/// The settings of a data client. What is not named keeps the default of the
/// client.
#[derive(Debug, PartialEq, Eq)]
pub enum DataClientSettings {
    Binance {
        market: BinanceMarket,
        network: Network,
        encoding: BinanceEncoding,
        api_key: Option<String>,
        api_secret: Option<String>,
    },
    Hyperliquid { network: Network },
    Lighter { network: Network },
}

/// The settings of the data client of `exchange`: every client connects to the
/// live network, and Binance is read without credentials, as JSON, from the
/// futures that are margined in dollars.
pub fn data_client_settings(exchange: Exchange) -> (settings: DataClientSettings)
    ensures
        settings == match exchange {
            Exchange::Binance => DataClientSettings::Binance {
                market: BinanceMarket::UsdMarginedFutures,
                network: Network::Live,
                encoding: BinanceEncoding::Json,
                api_key: None,
                api_secret: None,
            },
            Exchange::Hyperliquid => DataClientSettings::Hyperliquid { network: Network::Live },
            Exchange::Lighter => DataClientSettings::Lighter { network: Network::Live },
        },
{
    match exchange {
        Exchange::Binance => DataClientSettings::Binance {
            market: BinanceMarket::UsdMarginedFutures,
            network: Network::Live,
            encoding: BinanceEncoding::Json,
            api_key: None,
            api_secret: None,
        },
        Exchange::Hyperliquid => DataClientSettings::Hyperliquid { network: Network::Live },
        Exchange::Lighter => DataClientSettings::Lighter { network: Network::Live },
    }
}

} // verus!
