use market_feed::{AnalysisInfo, OHLCModel};

fn candle(close_micro: u64, volume_micro: u64, trades: u64) -> OHLCModel {
    OHLCModel {
        stock_name: "NVDA".to_string(),
        price_open: close_micro,
        price_close: close_micro,
        min_price: close_micro,
        max_price: close_micro,
        volume: volume_micro,
        trades,
        timestamp: 7,
        stock_interval: 1,
    }
}

#[test]
fn reset_renders_and_clears_counters() {
    let mut a = AnalysisInfo::new();
    a.set_stock_number(3);
    a.add_ohlc(&candle(2_000_000, 5_000_000, 4));
    a.add_ohlc(&candle(1_000_000, 1_000_000, 6));
    // market value: 2e6 * 5e6 + 1e6 * 1e6, in millionth-squared units
    let msg = a.reset(42);
    assert_eq!(
        msg,
        "{\"stock_n\": 3, \"trade_n\": 10, \"volume_n\": 6.000000, \
         \"market_v_n\": 11000000000000, \"timestamp\": 42}"
    );
    // counters cleared, stock count kept
    let msg2 = a.reset(43);
    assert_eq!(
        msg2,
        "{\"stock_n\": 3, \"trade_n\": 0, \"volume_n\": 0.000000, \
         \"market_v_n\": 0, \"timestamp\": 43}"
    );
}

#[test]
fn history_replays_in_order_with_sentinel() {
    let mut a = AnalysisInfo::new();
    let first = a.reset(1);
    let second = a.reset(2);
    let h = a.get_history();
    assert_eq!(h, vec![first, second, "End of Update".to_string()]);
}

#[test]
fn history_is_bounded() {
    let mut a = AnalysisInfo::new();
    for t in 0..130u64 {
        let _ = a.reset(t);
    }
    let h = a.get_history();
    // 120 kept messages plus the sentinel; the oldest ten were evicted
    assert_eq!(h.len(), 121);
    assert!(h[0].ends_with("\"timestamp\": 10}"));
    assert!(h[119].ends_with("\"timestamp\": 129}"));
}

#[test]
fn saturating_accumulation_does_not_wrap() {
    let mut a = AnalysisInfo::new();
    let big = candle(9_999_999_999_999_999, 9_999_999_999_999_999, u64::MAX);
    a.add_ohlc(&big);
    a.add_ohlc(&big);
    let msg = a.reset(0);
    // trades saturated at the counter's range
    assert!(msg.contains(&format!("\"trade_n\": {}", u64::MAX)));
}
