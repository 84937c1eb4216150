use crypto_arbitrage::exchange::{binance, bybit, gateio, kucoin};
use crypto_arbitrage::exchange::{get_all_exchanges, get_exchange_by_id, AnyExchange, Exchange};

fn split(r: (String, String)) -> (String, String) {
    r
}

fn pair(a: &str, b: &str) -> (String, String) {
    (a.to_string(), b.to_string())
}

#[test]
fn binance_symbols() {
    assert_eq!(split(binance::parse_symbol("BTCUSDT")), pair("BTC", "USDT"));
    assert_eq!(split(binance::parse_symbol("ETHBUSD")), pair("ETH", "BUSD"));
    assert_eq!(split(binance::parse_symbol("ADABNB")), pair("ADA", "BNB"));
    assert_eq!(split(binance::parse_symbol("ETHBTC")), pair("ETH", "BTC"));
    assert_eq!(split(binance::parse_symbol("USDT")), pair("", "USDT"));
    assert_eq!(split(binance::parse_symbol("ABCDEFG")), pair("ABC", "DEFG"));
    assert_eq!(split(binance::parse_symbol("XYZ")), pair("XYZ", "USDT"));
    assert_eq!(split(binance::parse_symbol("")), pair("", "USDT"));
}

#[test]
fn bybit_symbols() {
    assert_eq!(split(bybit::parse_symbol("SOLUSDC")), pair("SOL", "USDC"));
    assert_eq!(split(bybit::parse_symbol("ADABNB")), pair("ADA", "BNB"));
    assert_eq!(split(bybit::parse_symbol("XRPBUSD")), pair("XRP", "BUSD"));
    assert_eq!(split(bybit::parse_symbol("AB")), pair("AB", "USDT"));
}

#[test]
fn kucoin_symbols() {
    assert_eq!(split(kucoin::parse_symbol("BTC-USDT")), pair("BTC", "USDT"));
    assert_eq!(split(kucoin::parse_symbol("A-B-C")), pair("A", "B-C"));
    assert_eq!(split(kucoin::parse_symbol("BTC_USDT")), pair("BTC_USDT", "USDT"));
    assert_eq!(split(kucoin::parse_symbol("-X")), pair("", "X"));
}

#[test]
fn gateio_symbols() {
    assert_eq!(split(gateio::parse_symbol("ETH_BTC")), pair("ETH", "BTC"));
    assert_eq!(split(gateio::parse_symbol("ETH_")), pair("ETH", ""));
    assert_eq!(split(gateio::parse_symbol("ETH-BTC")), pair("ETH-BTC", "USDT"));
}

#[test]
fn registry_lists_four_venues() {
    let all = get_all_exchanges();
    let names: Vec<&str> = all.iter().map(|e| e.name()).collect();
    assert_eq!(names, vec!["Binance", "Bybit", "Kucoin", "Gate.io"]);
    let ids: Vec<u32> = all.iter().map(|e| e.id()).collect();
    assert_eq!(ids, vec![1, 2, 3, 4]);
    assert!(all.iter().all(|e| e.is_enabled()));
}

#[test]
fn registry_lookup_by_id() {
    match get_exchange_by_id(3) {
        Some(AnyExchange::Kucoin(k)) => {
            assert_eq!(k.api_url, "https://api.kucoin.com");
            assert_eq!(k.name(), "Kucoin");
        }
        _ => panic!("venue 3 is Kucoin"),
    }
    assert_eq!(get_exchange_by_id(4).map(|e| e.id()), Some(4));
    assert!(get_exchange_by_id(0).is_none());
    assert!(get_exchange_by_id(5).is_none());
}

#[test]
fn venue_constructors() {
    let b = binance::BinanceExchange::new();
    assert_eq!((b.name.as_str(), b.api_url.as_str(), b.id, b.enabled), ("Binance", "https://api.binance.com", 1, true));
    let y = bybit::BybitExchange::new();
    assert_eq!((y.name.as_str(), y.id), ("Bybit", 2));
    let g = gateio::GateIoExchange::new();
    assert_eq!((g.name.as_str(), g.api_url.as_str(), g.id), ("Gate.io", "https://api.gateio.ws", 4));
}
