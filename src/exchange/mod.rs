//! The venues that supply quote batches, and the fixed registry of them.
use vstd::prelude::*;

pub mod binance;
pub mod bybit;
pub mod gateio;
pub mod kucoin;
pub mod symbols;

use self::binance::BinanceExchange;
use self::bybit::BybitExchange;
use self::gateio::GateIoExchange;
use self::kucoin::KucoinExchange;

verus! {

/// What a venue exposes besides fetching its quotes: a display name, an
/// identifier and an enabled flag.
pub trait Exchange {
    spec fn spec_name(&self) -> Seq<char>;

    spec fn spec_id(&self) -> u32;

    spec fn spec_enabled(&self) -> bool;

    fn name(&self) -> (r: &str)
        ensures
            r@ == self.spec_name(),
    ;

    fn id(&self) -> (r: u32)
        ensures
            r == self.spec_id(),
    ;

    fn is_enabled(&self) -> (r: bool)
        ensures
            r == self.spec_enabled(),
    ;
}

/// One venue of the registry.
pub enum AnyExchange {
    Binance(BinanceExchange),
    Bybit(BybitExchange),
    Kucoin(KucoinExchange),
    GateIo(GateIoExchange),
}

impl Exchange for AnyExchange {
    open spec fn spec_name(&self) -> Seq<char> {
        match self {
            AnyExchange::Binance(e) => e.spec_name(),
            AnyExchange::Bybit(e) => e.spec_name(),
            AnyExchange::Kucoin(e) => e.spec_name(),
            AnyExchange::GateIo(e) => e.spec_name(),
        }
    }

    open spec fn spec_id(&self) -> u32 {
        match self {
            AnyExchange::Binance(e) => e.spec_id(),
            AnyExchange::Bybit(e) => e.spec_id(),
            AnyExchange::Kucoin(e) => e.spec_id(),
            AnyExchange::GateIo(e) => e.spec_id(),
        }
    }

    open spec fn spec_enabled(&self) -> bool {
        match self {
            AnyExchange::Binance(e) => e.spec_enabled(),
            AnyExchange::Bybit(e) => e.spec_enabled(),
            AnyExchange::Kucoin(e) => e.spec_enabled(),
            AnyExchange::GateIo(e) => e.spec_enabled(),
        }
    }

    fn name(&self) -> (r: &str) {
        match self {
            AnyExchange::Binance(e) => e.name(),
            AnyExchange::Bybit(e) => e.name(),
            AnyExchange::Kucoin(e) => e.name(),
            AnyExchange::GateIo(e) => e.name(),
        }
    }

    fn id(&self) -> (r: u32) {
        match self {
            AnyExchange::Binance(e) => e.id(),
            AnyExchange::Bybit(e) => e.id(),
            AnyExchange::Kucoin(e) => e.id(),
            AnyExchange::GateIo(e) => e.id(),
        }
    }

    fn is_enabled(&self) -> (r: bool) {
        match self {
            AnyExchange::Binance(e) => e.is_enabled(),
            AnyExchange::Bybit(e) => e.is_enabled(),
            AnyExchange::Kucoin(e) => e.is_enabled(),
            AnyExchange::GateIo(e) => e.is_enabled(),
        }
    }
}

/// `e` is the registry's venue with identifier `id`, as created.
pub open spec fn is_venue(e: AnyExchange, id: u32) -> bool {
    match e {
        AnyExchange::Binance(v) => id == 1 && v.configured(),
        AnyExchange::Bybit(v) => id == 2 && v.configured(),
        AnyExchange::Kucoin(v) => id == 3 && v.configured(),
        AnyExchange::GateIo(v) => id == 4 && v.configured(),
    }
}

/// Every venue, in identifier order: Binance, Bybit, Kucoin, Gate.io.
pub fn get_all_exchanges() -> (r: Vec<AnyExchange>)
    ensures
        r@.len() == 4,
        forall|k: int| 0 <= k < 4 ==> is_venue(#[trigger] r@[k], (k + 1) as u32),
{
    let r = vec![
        AnyExchange::Binance(BinanceExchange::new()),
        AnyExchange::Bybit(BybitExchange::new()),
        AnyExchange::Kucoin(KucoinExchange::new()),
        AnyExchange::GateIo(GateIoExchange::new()),
    ];
    assert(is_venue(r@[0], 1) && is_venue(r@[1], 2) && is_venue(r@[2], 3) && is_venue(r@[3], 4));
    r
}

/// The venue with identifier `id`, if the registry has one.
pub fn get_exchange_by_id(id: u32) -> (r: Option<AnyExchange>)
    ensures
        r is Some <==> 1 <= id <= 4,
        r matches Some(e) ==> is_venue(e, id) && e.spec_id() == id,
{
    let mut exchanges = get_all_exchanges();
    let mut k: usize = 0;
    while k < exchanges.len()
        invariant
            exchanges@.len() == 4,
            forall|m: int| 0 <= m < 4 ==> is_venue(#[trigger] exchanges@[m], (m + 1) as u32),
            0 <= k <= 4,
            id < 1 || id > k,
        decreases 4 - k,
    {
        assert(is_venue(exchanges@[k as int], (k + 1) as u32));
        if exchanges[k].id() == id {
            return Some(exchanges.remove(k));
        }
        k = k + 1;
    }
    None
}

} // verus!
