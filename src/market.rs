//! The records that flow through a detection pass.
use vstd::prelude::*;
use crate::decimal::{parse_size, parse_units, price_of, size_of};

verus! {

/// Fixed-point units in one whole unit of a price or a size.
pub const PRICE_SCALE: u64 = 100_000_000;

/// Fixed-point units in one percent.
pub const PCT_SCALE: i128 = 1_000_000_000;

/// The largest price a quote can carry, in units of `1 / PRICE_SCALE`: about
/// 92 billion, so that every profit fits its integer type.
pub const MAX_PRICE: u64 = 9_223_372_036_854_775_807;

/// One venue's current market for one instrument.
///
/// Prices and sizes are in units of `1 / PRICE_SCALE`; the timestamp is in
/// epoch milliseconds.
#[derive(Clone, Debug)]
pub struct Ticker {
    pub symbol: String,
    pub base_currency: String,
    pub quote_currency: String,
    pub bid_price: u64,
    pub ask_price: u64,
    pub bid_qty: u64,
    pub ask_qty: u64,
    pub timestamp: u64,
}

/// One detected profitable cycle.
///
/// The three percentages are in units of `1 / PCT_SCALE` percent; the
/// timestamp is the detection time in epoch milliseconds.
#[derive(Clone, Debug)]
pub struct TriangularArbitrageOpportunity {
    pub id: String,
    pub exchange: String,
    pub path: String,
    pub pairs: String,
    pub gross_profit_percentage: i128,
    pub estimated_fees: i128,
    pub net_profit_percentage: i128,
    pub timestamp: i64,
}

/// Every ask price in the batch is positive, so that each conversion is
/// defined, and no bid exceeds `MAX_PRICE`.
pub open spec fn prices_valid(ts: Seq<Ticker>) -> bool {
    forall|i: int|
        0 <= i < ts.len() ==> #[trigger] ts[i].ask_price > 0 && ts[i].bid_price <= MAX_PRICE
}

/// The four numbers of a venue's quote, in fixed-point units, when all of them
/// are numbers, the prices fit, the ask is positive and neither price exceeds
/// `MAX_PRICE`. Sizes beyond `u64::MAX` units are held at `u64::MAX`.
pub open spec fn quote_numbers(
    bid: Seq<char>,
    ask: Seq<char>,
    bid_qty: Seq<char>,
    ask_qty: Seq<char>,
) -> Option<(u64, u64, u64, u64)> {
    match (price_of(bid), price_of(ask), size_of(bid_qty), size_of(ask_qty)) {
        (Some(b), Some(a), Some(bq), Some(aq)) => if 0 < a <= MAX_PRICE && b <= MAX_PRICE {
            Some((b, a, bq, aq))
        } else {
            None
        },
        _ => None,
    }
}

impl Ticker {
    /// A quote from the decimal fields of a venue's feed; `None` where a
    /// field is not a number, or a price lies outside what a quote holds (an
    /// ask below one unit of `1 / PRICE_SCALE`, a price above `MAX_PRICE`), so
    /// that such a record never reaches detection. Sizes are held at
    /// `u64::MAX` rather than dropping the quote.
    pub fn from_fields(
        symbol: String,
        base_currency: String,
        quote_currency: String,
        bid: &str,
        ask: &str,
        bid_qty: &str,
        ask_qty: &str,
        timestamp: u64,
    ) -> (r: Option<Ticker>)
        ensures
            match quote_numbers(bid@, ask@, bid_qty@, ask_qty@) {
                Some((b, a, bq, aq)) => r matches Some(t) && t.symbol == symbol
                    && t.base_currency == base_currency && t.quote_currency == quote_currency
                    && t.bid_price == b && t.ask_price == a && t.bid_qty == bq && t.ask_qty == aq
                    && t.timestamp == timestamp,
                None => r is None,
            },
    {
        let bid_price = parse_units(bid);
        let ask_price = parse_units(ask);
        let bid_size = parse_size(bid_qty);
        let ask_size = parse_size(ask_qty);
        match (bid_price, ask_price, bid_size, ask_size) {
            (Some(b), Some(a), Some(bq), Some(aq)) => {
                if a == 0 || a > MAX_PRICE || b > MAX_PRICE {
                    return None;
                }
                Some(
                    Ticker {
                        symbol,
                        base_currency,
                        quote_currency,
                        bid_price: b,
                        ask_price: a,
                        bid_qty: bq,
                        ask_qty: aq,
                        timestamp,
                    },
                )
            },
            _ => None,
        }
    }
}

} // verus!
