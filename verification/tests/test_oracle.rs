use wick::prediction_types::{OracleAsset, PriceData};
use wick::test_oracle::TestOracle;

fn other(s: &str) -> OracleAsset {
    OracleAsset::Other(s.to_string())
}

#[test]
fn empty_feed_has_no_price() {
    let o = TestOracle::new();
    assert_eq!(o.lastprice(&other("XLM")), None);
    assert_eq!(o.price(&other("XLM"), 5), None);
    assert_eq!(o.get_price(), (0, 0));
    assert_eq!(o.decimals(), 14);
}

#[test]
fn initialize_sets_default_price() {
    let mut o = TestOracle::new();
    o.initialize("admin".to_string(), 17_000_000_000_000, 1_000);
    let want = Some(PriceData { price: 17_000_000_000_000, timestamp: 1_000 });
    assert_eq!(o.lastprice(&other("BTC")), want);
    assert_eq!(o.lastprice(&OracleAsset::Stellar("G...".to_string())), want);
    // Any asked time gives the same answer.
    assert_eq!(o.price(&other("BTC"), 99), want);
    assert_eq!(o.get_price(), (17_000_000_000_000, 1_000));
}

#[test]
fn update_price_restamps() {
    let mut o = TestOracle::new();
    o.initialize("admin".to_string(), 1, 1_000);
    o.update_price(2, 1_060);
    assert_eq!(o.get_price(), (2, 1_060));
    assert_eq!(o.lastprice(&other("ETH")), Some(PriceData { price: 2, timestamp: 1_060 }));
}

#[test]
fn asset_price_overrides_default() {
    let mut o = TestOracle::new();
    o.initialize("admin".to_string(), 1, 1_000);
    o.update_asset_price("BTC".to_string(), 50, 1_100);
    assert_eq!(o.lastprice(&other("BTC")), Some(PriceData { price: 50, timestamp: 1_100 }));
    // Other assets still see the default price.
    assert_eq!(o.lastprice(&other("ETH")), Some(PriceData { price: 1, timestamp: 1_000 }));
    assert_eq!(o.get_price(), (1, 1_000));
    // A second update replaces the first.
    o.update_asset_price("BTC".to_string(), 51, 1_200);
    assert_eq!(o.price(&other("BTC"), 0), Some(PriceData { price: 51, timestamp: 1_200 }));
}

#[test]
fn xlm_update_also_moves_default() {
    let mut o = TestOracle::new();
    o.initialize("admin".to_string(), 1, 1_000);
    o.update_asset_price("XLM".to_string(), 13, 1_300);
    assert_eq!(o.get_price(), (13, 1_300));
    assert_eq!(o.lastprice(&other("SOL")), Some(PriceData { price: 13, timestamp: 1_300 }));
}

#[test]
fn asset_price_without_default() {
    let mut o = TestOracle::new();
    o.update_asset_price("BTC".to_string(), 7, 10);
    assert_eq!(o.lastprice(&other("BTC")), Some(PriceData { price: 7, timestamp: 10 }));
    assert_eq!(o.lastprice(&other("ETH")), None);
}

use wick::test_oracle::{AssetQuote, OracleParts};

#[test]
fn feed_parts_round_trip() {
    let mut o = TestOracle::new();
    o.initialize("admin".to_string(), 5, 100);
    o.update_asset_price("BTC".to_string(), 9, 110);
    let p = o.into_parts();
    assert_eq!(p.quotes.len(), 1);
    let o = TestOracle::from_parts(p).expect("saved storage loads back");
    assert_eq!(o.lastprice(&other("BTC")), Some(PriceData { price: 9, timestamp: 110 }));
    assert_eq!(o.get_price(), (5, 100));
}

#[test]
fn feed_parts_reject_duplicate_quotes() {
    let q = |p: i128| AssetQuote { asset: "BTC".to_string(), price: p, timestamp: 1 };
    let p = OracleParts { admin: None, price: None, timestamp: None, quotes: vec![q(1), q(2)] };
    assert!(TestOracle::from_parts(p).is_none());
}
