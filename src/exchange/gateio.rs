//! Connector settings and symbol convention of the GateIo exchange.
use vstd::prelude::*;
use vstd::string::StringExecFns;
use crate::exchange::Exchange;
use crate::exchange::symbols::{split_at_delimiter, split_by_delimiter};

verus! {

/// The GateIo exchange.
pub struct GateIoExchange {
    pub name: String,
    pub api_url: String,
    pub id: u32,
    pub enabled: bool,
}

impl GateIoExchange {
    /// The settings it is created with.
    pub open spec fn configured(&self) -> bool {
        &&& self.name@ == "Gate.io"@
        &&& self.api_url@ == "https://api.gateio.ws"@
        &&& self.id == 4
        &&& self.enabled
    }

    pub fn new() -> (r: Self)
        ensures
            r.configured(),
    {
        Self {
            name: String::from_str("Gate.io"),
            api_url: String::from_str("https://api.gateio.ws"),
            id: 4,
            enabled: true,
        }
    }
}

impl Exchange for GateIoExchange {
    open spec fn spec_name(&self) -> Seq<char> {
        self.name@
    }

    open spec fn spec_id(&self) -> u32 {
        self.id
    }

    open spec fn spec_enabled(&self) -> bool {
        self.enabled
    }

    fn name(&self) -> (r: &str) {
        self.name.as_str()
    }

    fn id(&self) -> (r: u32) {
        self.id
    }

    fn is_enabled(&self) -> (r: bool) {
        self.enabled
    }
}

/// Splits a Gate.io symbol around its first '_'.
pub fn parse_symbol(symbol: &str) -> (r: (String, String))
    ensures
        (r.0@, r.1@) == split_at_delimiter(symbol@, '_'),
{
    split_by_delimiter(symbol, '_')
}

} // verus!
