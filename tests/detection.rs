use crypto_arbitrage::detector::{rank_cycles, ArbitrageDetector};
use crypto_arbitrage::market::{
    Ticker, TriangularArbitrageOpportunity, MAX_PRICE, PCT_SCALE, PRICE_SCALE,
};
use crypto_arbitrage::profit::{buy_closing_profit, sell_closing_profit, ESTIMATED_FEES};
use crypto_arbitrage::ranking::{Closing, MAX_RESULTS};

fn price(x: f64) -> u64 {
    (x * PRICE_SCALE as f64).round() as u64
}

fn pct(x: f64) -> i128 {
    (x * PCT_SCALE as f64).round() as i128
}

fn ticker(symbol: &str, base: &str, quote: &str, bid: f64, ask: f64) -> Ticker {
    Ticker {
        symbol: symbol.to_string(),
        base_currency: base.to_string(),
        quote_currency: quote.to_string(),
        bid_price: price(bid),
        ask_price: price(ask),
        bid_qty: price(1.0),
        ask_qty: price(1.0),
        timestamp: 1_700_000_000_000,
    }
}

fn sell_closing_batch() -> Vec<Ticker> {
    vec![
        ticker("XY", "X", "Y", 0.99, 1.0),
        ticker("ZY", "Z", "Y", 0.99, 1.0),
        ticker("ZX", "Z", "X", 1.01, 1.02),
    ]
}

fn detect(ts: &[Ticker], min_profit: f64) -> Vec<TriangularArbitrageOpportunity> {
    ArbitrageDetector::find_triangular_opportunities(ts, "TestVenue", pct(min_profit))
}

fn assert_laws(r: &[TriangularArbitrageOpportunity], min_profit: i128) {
    assert!(r.len() <= 20);
    for o in r {
        assert!(o.net_profit_percentage > min_profit);
        assert_eq!(o.net_profit_percentage, o.gross_profit_percentage - o.estimated_fees);
        assert_eq!(o.estimated_fees, pct(0.3));
    }
    for w in r.windows(2) {
        assert!(w[0].net_profit_percentage >= w[1].net_profit_percentage);
    }
}

#[test]
fn sell_closing_cycle_is_reported() {
    let ts = sell_closing_batch();
    let r = detect(&ts, 0.5);
    assert_eq!(r.len(), 1);
    let o = &r[0];
    assert_eq!(o.gross_profit_percentage, pct(1.0));
    assert_eq!(o.estimated_fees, pct(0.3));
    assert_eq!(o.net_profit_percentage, pct(0.7));
    assert_eq!(o.exchange, "TestVenue");
    assert_eq!(o.path, "X → Y → Z → X");
    assert_eq!(o.pairs, "XY, ZY, ZX");
    assert_laws(&r, pct(0.5));
}

#[test]
fn buy_closing_cycle_is_reported() {
    let ts = vec![
        ticker("XY", "X", "Y", 0.98, 0.99),
        ticker("ZY", "Z", "Y", 0.98, 0.99),
        ticker("XZ", "X", "Z", 0.98, 0.99),
    ];
    let r = detect(&ts, 1.0);
    assert_eq!(r.len(), 1);
    let o = &r[0];
    assert_eq!(o.gross_profit_percentage, 3_061_015_213);
    assert_eq!(o.net_profit_percentage, 3_061_015_213 - 300_000_000);
    let exact = 100.0 / (0.99f64 * 0.99 * 0.99) - 100.0;
    assert!((o.gross_profit_percentage as f64 / PCT_SCALE as f64 - exact).abs() < 1e-9);
    assert!((o.gross_profit_percentage as f64 / PCT_SCALE as f64 - 3.0610).abs() < 0.001);
    assert!((o.net_profit_percentage as f64 / PCT_SCALE as f64 - 2.7610).abs() < 0.001);
    assert_eq!(o.path, "X → Y → Z → X");
    assert_eq!(o.pairs, "XY, ZY, XZ");
    assert_laws(&r, pct(1.0));
}

#[test]
fn batch_without_closing_leg_yields_nothing() {
    let ts = vec![
        ticker("XY", "X", "Y", 0.5, 0.5),
        ticker("ZY", "Z", "Y", 0.5, 0.5),
        ticker("WV", "W", "V", 0.5, 0.5),
    ];
    assert!(detect(&ts, -100.0).is_empty());
}

#[test]
fn empty_batch_yields_nothing() {
    assert!(detect(&[], 0.0).is_empty());
    assert!(rank_cycles(&[], 0).is_empty());
}

#[test]
fn threshold_rejects_cycle() {
    let ts = sell_closing_batch();
    assert!(detect(&ts, 1.0).is_empty());
    assert!(detect(&ts, 0.7).is_empty());
    assert_eq!(detect(&ts, 0.69).len(), 1);
}

fn many_cycles(n: usize) -> Vec<Ticker> {
    let mut ts = Vec::new();
    for t in 0..n {
        let x = format!("X{}", t);
        let y = format!("Y{}", t);
        let z = format!("Z{}", t);
        ts.push(ticker(&format!("{}{}", x, y), &x, &y, 0.99, 1.0));
        ts.push(ticker(&format!("{}{}", z, y), &z, &y, 0.99, 1.0));
        ts.push(ticker(&format!("{}{}", z, x), &z, &x, 1.01 + 0.001 * t as f64, 2.0));
    }
    ts
}

#[test]
fn results_are_truncated_to_cap() {
    let ts = many_cycles(30);
    let r = detect(&ts, 0.5);
    assert_eq!(r.len(), MAX_RESULTS);
    for (k, o) in r.iter().enumerate() {
        let t = 29 - k;
        assert_eq!(o.path, format!("X{t} → Y{t} → Z{t} → X{t}"));
        assert_eq!(o.gross_profit_percentage, pct(1.0) + pct(0.1) * t as i128);
        assert_eq!(o.net_profit_percentage, pct(0.7) + pct(0.1) * t as i128);
    }
    assert_laws(&r, pct(0.5));
}

#[test]
fn fewer_than_cap_are_all_returned() {
    let ts = many_cycles(5);
    let r = detect(&ts, 0.5);
    assert_eq!(r.len(), 5);
    assert_eq!(r[0].path, "X4 → Y4 → Z4 → X4");
    assert_eq!(r[4].path, "X0 → Y0 → Z0 → X0");
}

#[test]
fn equal_profits_keep_discovery_order() {
    let mut ts = sell_closing_batch();
    ts.push(ticker("AB", "A", "B", 0.99, 1.0));
    ts.push(ticker("CB", "C", "B", 0.99, 1.0));
    ts.push(ticker("CA", "C", "A", 1.01, 1.02));
    let r = detect(&ts, 0.5);
    assert_eq!(r.len(), 2);
    assert_eq!(r[0].net_profit_percentage, r[1].net_profit_percentage);
    assert_eq!(r[0].path, "X → Y → Z → X");
    assert_eq!(r[1].path, "A → B → C → A");
    let c = rank_cycles(&ts, pct(0.5));
    assert_eq!((c[0].first, c[0].second, c[0].third), (0, 1, 2));
    assert_eq!((c[1].first, c[1].second, c[1].third), (3, 4, 5));
}

#[test]
fn repeated_passes_agree() {
    let ts = many_cycles(12);
    let a = detect(&ts, 0.5);
    let b = detect(&ts, 0.5);
    assert_eq!(a.len(), b.len());
    for (x, y) in a.iter().zip(b.iter()) {
        assert_eq!(x.path, y.path);
        assert_eq!(x.gross_profit_percentage, y.gross_profit_percentage);
    }
    assert_ne!(a[0].id, b[0].id);
}

#[test]
fn identifiers_are_fresh_uuids() {
    let ts = many_cycles(3);
    let r = detect(&ts, 0.5);
    assert_eq!(r.len(), 3);
    for o in &r {
        assert_eq!(o.id.len(), 36);
        assert!(o.timestamp > 1_600_000_000_000);
    }
    assert_ne!(r[0].id, r[1].id);
    assert_ne!(r[1].id, r[2].id);
}

#[test]
fn reverse_symbol_takes_priority_over_forward() {
    let mut ts = sell_closing_batch();
    ts.push(ticker("XZ", "X", "Z", 0.5, 0.5));
    let c = rank_cycles(&ts, pct(0.5));
    assert_eq!(c.len(), 1);
    assert_eq!(c[0].closing, Closing::Sell);
    assert_eq!(c[0].third, 2);
}

#[test]
fn later_duplicate_symbol_wins() {
    let mut ts = sell_closing_batch();
    ts.push(ticker("ZX", "Z", "X", 1.02, 1.03));
    let r = detect(&ts, 0.5);
    assert_eq!(r.len(), 1);
    assert_eq!(r[0].gross_profit_percentage, pct(2.0));
    let c = rank_cycles(&ts, pct(0.5));
    assert_eq!(c[0].third, 3);
}

#[test]
fn profit_formulas() {
    assert_eq!(sell_closing_profit(price(1.0), price(1.0), price(1.01)), pct(1.0));
    assert_eq!(sell_closing_profit(price(2.0), price(0.5), price(1.0)), 0);
    assert_eq!(sell_closing_profit(price(1.0), price(1.0), 0), -pct(100.0));
    assert_eq!(buy_closing_profit(price(0.99), price(0.99), price(0.99)), 3_061_015_213);
    assert_eq!(buy_closing_profit(price(1.0), price(1.0), price(0.5)), pct(100.0));
    assert_eq!(buy_closing_profit(u64::MAX, u64::MAX, u64::MAX), -pct(100.0));
    assert_eq!(
        sell_closing_profit(1, 1, MAX_PRICE),
        10_000_000_000_000_000_000i128 * MAX_PRICE as i128 - pct(100.0)
    );
    assert_eq!(sell_closing_profit(3, 1, 1), 3_333_333_333_333_333_333 - pct(100.0));
    assert_eq!(sell_closing_profit(3, 1, 2), 6_666_666_666_666_666_667 - pct(100.0));
    assert_eq!(buy_closing_profit(price(3.0), price(1.0), price(1.0)), -66_666_666_667);
    assert_eq!(buy_closing_profit(price(1.5), price(1.0), price(1.0)), -33_333_333_333);
    assert_eq!(ESTIMATED_FEES, pct(0.3));
}
