//! Binance connector settings and symbol convention.
use vstd::prelude::*;
use vstd::string::StringExecFns;
use crate::exchange::Exchange;
use crate::exchange::symbols::{split_by_known_quote, split_known_quote};

verus! {

/// The Binance venue.
pub struct BinanceExchange {
    pub name: String,
    pub api_url: String,
    pub id: u32,
    pub enabled: bool,
}

impl BinanceExchange {
    /// The settings it is created with.
    pub open spec fn configured(&self) -> bool {
        &&& self.name@ == "Binance"@
        &&& self.api_url@ == "https://api.binance.com"@
        &&& self.id == 1
        &&& self.enabled
    }

    pub fn new() -> (r: Self)
        ensures
            r.configured(),
    {
        Self {
            name: String::from_str("Binance"),
            api_url: String::from_str("https://api.binance.com"),
            id: 1,
            enabled: true,
        }
    }
}

impl Exchange for BinanceExchange {
    open spec fn spec_name(&self) -> Seq<char> {
        self.name@
    }

    open spec fn spec_id(&self) -> u32 {
        self.id
    }

    open spec fn spec_enabled(&self) -> bool {
        self.enabled
    }

    fn name(&self) -> (r: &str) {
        self.name.as_str()
    }

    fn id(&self) -> (r: u32) {
        self.id
    }

    fn is_enabled(&self) -> (r: bool) {
        self.enabled
    }
}

/// Splits a Binance symbol: by known quote currency suffix, else in halves.
pub fn parse_symbol(symbol: &str) -> (r: (String, String))
    ensures
        (r.0@, r.1@) == split_known_quote(symbol@, seq!["USDT", "USDC", "BUSD", "BTC", "ETH", "BNB"]),
{
    let quotes: [&str; 6] = ["USDT", "USDC", "BUSD", "BTC", "ETH", "BNB"];
    assert(quotes@ =~= seq!["USDT", "USDC", "BUSD", "BTC", "ETH", "BNB"]);
    split_by_known_quote(symbol, quotes.as_slice())
}

} // verus!
