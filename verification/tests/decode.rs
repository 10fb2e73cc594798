use market_feed::{DecodeError, OHLCModel};

#[test]
fn decodes_a_full_record() {
    let rec = "x;NVDA;100.0;101.5;99.0;102.0;500;12;1700000000000;1";
    let m = OHLCModel::from_string(rec).unwrap();
    assert_eq!(m.stock_name, "NVDA");
    assert_eq!(m.price_open, 100_000_000);
    assert_eq!(m.price_close, 101_500_000);
    assert_eq!(m.min_price, 99_000_000);
    assert_eq!(m.max_price, 102_000_000);
    assert_eq!(m.volume, 500_000_000);
    assert_eq!(m.trades, 12);
    assert_eq!(m.timestamp, 1_700_000_000_000);
    assert_eq!(m.stock_interval, 1);
}

#[test]
fn decodes_with_trailing_newline() {
    let rec = "x;ABC;1;2;3;4;5;6;7;600\n";
    let m = OHLCModel::from_string(rec).unwrap();
    assert_eq!(m.stock_name, "ABC");
    assert_eq!(m.price_open, 1_000_000);
    assert_eq!(m.stock_interval, 600);
}

#[test]
fn decodes_fractional_precision() {
    // seven fractional digits overflow the fixed point and fail
    let rec = "x;A;0.000001;12.3456789;0.5;3.;7;1;2;1";
    assert_eq!(OHLCModel::from_string(rec).unwrap_err(), DecodeError::BadNumber);
    let rec = "x;A;0.000001;12.34567;0.5;3.;7;1;2;1";
    let m = OHLCModel::from_string(rec).unwrap();
    assert_eq!(m.price_open, 1);
    assert_eq!(m.price_close, 12_345_670);
    assert_eq!(m.min_price, 500_000);
    assert_eq!(m.max_price, 3_000_000);
}

#[test]
fn missing_fields_are_rejected() {
    assert_eq!(
        OHLCModel::from_string("x;NVDA;100.0").unwrap_err(),
        DecodeError::MissingField
    );
    assert_eq!(OHLCModel::from_string("").unwrap_err(), DecodeError::MissingField);
    assert_eq!(
        OHLCModel::from_string("x;NVDA;1;2;3;4;5;6;7").unwrap_err(),
        DecodeError::MissingField
    );
}

#[test]
fn malformed_numbers_are_rejected() {
    // a letter in a price field
    assert_eq!(
        OHLCModel::from_string("x;NVDA;abc;101.5;99.0;102.0;500;12;1;1").unwrap_err(),
        DecodeError::BadNumber
    );
    // a negative price
    assert_eq!(
        OHLCModel::from_string("x;NVDA;-5;101.5;99.0;102.0;500;12;1;1").unwrap_err(),
        DecodeError::BadNumber
    );
    // an empty price field
    assert_eq!(
        OHLCModel::from_string("x;NVDA;;101.5;99.0;102.0;500;12;1;1").unwrap_err(),
        DecodeError::BadNumber
    );
    // more than ten integer digits in a price
    assert_eq!(
        OHLCModel::from_string("x;NVDA;12345678901;101.5;99.0;102.0;500;12;1;1").unwrap_err(),
        DecodeError::BadNumber
    );
    // more than six fractional digits in a price
    assert_eq!(
        OHLCModel::from_string("x;NVDA;1.1234567;101.5;99.0;102.0;500;12;1;1").unwrap_err(),
        DecodeError::BadNumber
    );
    // a non-digit in the trade count
    assert_eq!(
        OHLCModel::from_string("x;NVDA;100.0;101.5;99.0;102.0;500;1x;1;1").unwrap_err(),
        DecodeError::BadNumber
    );
    // a dot in the timestamp
    assert_eq!(
        OHLCModel::from_string("x;NVDA;100.0;101.5;99.0;102.0;500;12;1.5;1").unwrap_err(),
        DecodeError::BadNumber
    );
}

#[test]
fn renders_exact_text() {
    let m = OHLCModel {
        stock_name: "NVDA".to_string(),
        price_open: 100_000_000,
        price_close: 101_500_000,
        min_price: 99_000_000,
        max_price: 102_000_000,
        volume: 500_000_000,
        trades: 12,
        timestamp: 1_700_000_000_000,
        stock_interval: 1,
    };
    assert_eq!(
        m.to_string(),
        "{\"stock_interval\": 1, \"name\": \"NVDA\", \"price_open\": 100.000000, \
         \"price_close\": 101.500000, \"min_price\": 99.000000, \"max_price\": 102.000000, \
         \"volume\": 500.000000, \"trades\": 12, \"timestamp\": 1700000000000}"
    );
}

#[test]
fn render_pads_fractional_digits() {
    let m = OHLCModel {
        stock_name: "A".to_string(),
        price_open: 1,
        price_close: 0,
        min_price: 10_000_001,
        max_price: 999_999,
        volume: 0,
        trades: 0,
        timestamp: 0,
        stock_interval: 600,
    };
    let s = m.to_string();
    assert!(s.contains("\"price_open\": 0.000001"));
    assert!(s.contains("\"price_close\": 0.000000"));
    assert!(s.contains("\"min_price\": 10.000001"));
    assert!(s.contains("\"max_price\": 0.999999"));
}

#[test]
fn decode_then_render_round_trips_text() {
    let rec = "x;NVDA;100.0;101.5;99.0;102.0;500;12;1700000000000;1";
    let m = OHLCModel::from_string(rec).unwrap();
    let n = OHLCModel::from_string(&format!(
        "ignored;{};100.000000;101.500000;99.000000;102.000000;500.000000;12;1700000000000;1",
        m.stock_name
    ))
    .unwrap();
    assert_eq!(m.to_string(), n.to_string());
}
