use market_feed::{OHLCModel, StockInformation, StockInformationCache};

fn candle(name: &str, open_micro: u64, interval: u64, ts: u64) -> OHLCModel {
    OHLCModel {
        stock_name: name.to_string(),
        price_open: open_micro,
        price_close: open_micro,
        min_price: open_micro,
        max_price: open_micro,
        volume: 1_000_000,
        trades: 1,
        timestamp: ts,
        stock_interval: interval,
    }
}

#[test]
fn window_stays_within_capacity() {
    let mut s = StockInformation::new();
    for i in 0..130u64 {
        s.add_ohlc(candle("NVDA", (i + 1) * 1_000_000, 1, i));
    }
    // capacity is 120: ten candles were evicted from the head
    assert_eq!(s.window_len(1), Some(120));
    assert_eq!(s.window_len(10), Some(0));
    assert_eq!(s.window_len(7), None);
    // the smallest remaining price is the 11th candle's
    assert_eq!(s.quantile(1, 0, 1), Some(11_000_000));
    // the largest is the 130th candle's
    assert_eq!(s.quantile(1, 1, 1), Some(130_000_000));
}

#[test]
fn unsupported_intervals_are_ignored() {
    let mut s = StockInformation::new();
    s.add_ohlc(candle("NVDA", 5_000_000, 7, 0));
    assert_eq!(s.window_len(1), Some(0));
    assert_eq!(s.window_len(10), Some(0));
    assert_eq!(s.window_len(60), Some(0));
    assert_eq!(s.window_len(300), Some(0));
    assert_eq!(s.window_len(600), Some(0));
}

#[test]
fn sma_matches_reference_recomputation() {
    let mut s = StockInformation::new();
    let prices = [3_000_000u64, 5_000_000, 10_000_000, 2_000_000];
    let mut reference: Vec<u64> = Vec::new();
    for (i, p) in prices.iter().enumerate() {
        s.add_ohlc(candle("NVDA", *p, 10, i as u64));
        reference.push(*p);
        let sum: u64 = reference.iter().sum();
        let expect = sum / reference.len() as u64;
        assert_eq!(s.sma(10), Some(expect));
    }
}

#[test]
fn ema_seeds_then_steps() {
    let mut s = StockInformation::new();
    s.add_ohlc(candle("NVDA", 100_000_000, 60, 0));
    // the first candle seeds the average
    assert_eq!(s.ema(60), Some(100_000_000));
    s.add_ohlc(candle("NVDA", 221_000_000, 60, 1));
    // (2 * 221e6 + 119 * 100e6) / 121
    let expect = (2u64 * 221_000_000 + 119 * 100_000_000) / 121;
    assert_eq!(s.ema(60), Some(expect));
}

#[test]
fn quantile_orders_window_prices() {
    let mut s = StockInformation::new();
    for (i, p) in [40u64, 10, 30, 20].iter().enumerate() {
        s.add_ohlc(candle("NVDA", p * 1_000_000, 300, i as u64));
    }
    assert_eq!(s.quantile(300, 0, 1), Some(10_000_000));
    assert_eq!(s.quantile(300, 1, 4), Some(20_000_000));
    assert_eq!(s.quantile(300, 1, 2), Some(30_000_000));
    assert_eq!(s.quantile(300, 1, 1), Some(40_000_000));
}

#[test]
fn end_to_end_two_records_through_the_cache() {
    let mut cache = StockInformationCache::new();
    let feed = "x;NVDA;100.0;101.5;99.0;102.0;500;12;1700000000000;1\n\
                x;NVDA;101.5;103.0;100.0;104.0;600;15;1700000010000;1\n";
    let last = cache.add_json(feed).unwrap();
    assert_eq!(last.stock_name, "NVDA");
    assert_eq!(last.price_open, 101_500_000);
    assert!(cache.has_key(&"NVDA".to_string()));

    // SMA on the open price: (100.0 + 101.5) / 2 = 100.75
    assert_eq!(cache.sma(&"NVDA".to_string(), 1), Some(100_750_000));
    // the median price lies between 100.0 and 103.0
    let q = cache.quantile(&"NVDA".to_string(), 1, 1, 2).unwrap();
    assert!(100_000_000 <= q && q <= 103_000_000);
    assert_eq!(q, 101_500_000);
    // unknown symbols and intervals yield nothing
    assert_eq!(cache.sma(&"AMD".to_string(), 1), None);
    assert_eq!(cache.sma(&"NVDA".to_string(), 2), None);
}

#[test]
fn invalid_lines_are_dropped_and_decoding_continues() {
    let mut cache = StockInformationCache::new();
    let feed = "garbage\n\
                x;NVDA;100.0;101.5;99.0;102.0;500;12;1700000000000;1\n\
                also;not;a;record\n";
    let last = cache.add_json(feed).unwrap();
    assert_eq!(last.stock_name, "NVDA");
    assert_eq!(cache.sma(&"NVDA".to_string(), 1), Some(100_000_000));
}

#[test]
fn no_valid_line_reports_an_error() {
    let mut cache = StockInformationCache::new();
    assert!(cache.add_json("").is_err());
    assert!(cache.add_json("garbage\n").is_err());
    // text without a newline holds no complete record
    assert!(cache
        .add_json("x;NVDA;100.0;101.5;99.0;102.0;500;12;1700000000000;1")
        .is_err());
    assert!(!cache.has_key(&"NVDA".to_string()));
}

#[test]
fn snapshot_renders_windows_with_sentinel() {
    let mut cache = StockInformationCache::new();
    let feed = "x;NVDA;100.0;101.5;99.0;102.0;500;12;1700000000000;1\n";
    let m = cache.add_json(feed).unwrap();
    let snap = cache.get_vec_of_stock(&"NVDA".to_string());
    assert_eq!(snap.len(), 2);
    assert_eq!(snap[0], m.to_string());
    assert_eq!(snap[1], "End of Update");
    // an untracked symbol has no snapshot at all
    let empty = cache.get_vec_of_stock(&"AMD".to_string());
    assert_eq!(empty.len(), 0);
}
