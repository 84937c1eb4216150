//! Bybit connector settings and symbol convention.
use vstd::prelude::*;
use vstd::string::StringExecFns;
use crate::exchange::Exchange;
use crate::exchange::symbols::{split_by_known_quote, split_known_quote};

verus! {

/// The Bybit venue.
pub struct BybitExchange {
    pub name: String,
    pub api_url: String,
    pub id: u32,
    pub enabled: bool,
}

impl BybitExchange {
    /// The settings it is created with.
    pub open spec fn configured(&self) -> bool {
        &&& self.name@ == "Bybit"@
        &&& self.api_url@ == "https://api.bybit.com"@
        &&& self.id == 2
        &&& self.enabled
    }

    pub fn new() -> (r: Self)
        ensures
            r.configured(),
    {
        Self {
            name: String::from_str("Bybit"),
            api_url: String::from_str("https://api.bybit.com"),
            id: 2,
            enabled: true,
        }
    }
}

impl Exchange for BybitExchange {
    open spec fn spec_name(&self) -> Seq<char> {
        self.name@
    }

    open spec fn spec_id(&self) -> u32 {
        self.id
    }

    open spec fn spec_enabled(&self) -> bool {
        self.enabled
    }

    fn name(&self) -> (r: &str) {
        self.name.as_str()
    }

    fn id(&self) -> (r: u32) {
        self.id
    }

    fn is_enabled(&self) -> (r: bool) {
        self.enabled
    }
}

/// Splits a Bybit symbol: by known quote currency suffix, else in halves.
pub fn parse_symbol(symbol: &str) -> (r: (String, String))
    ensures
        (r.0@, r.1@) == split_known_quote(symbol@, seq!["USDT", "USDC", "BTC", "ETH"]),
{
    let quotes: [&str; 4] = ["USDT", "USDC", "BTC", "ETH"];
    assert(quotes@ =~= seq!["USDT", "USDC", "BTC", "ETH"]);
    split_by_known_quote(symbol, quotes.as_slice())
}

} // verus!
