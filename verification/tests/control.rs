use market_feed::{lookup_value, parse_json};

#[test]
fn parses_a_subscription_message() {
    let pairs = parse_json("{\"stock\": \"NVDA\"}");
    assert_eq!(pairs, vec![("stock".to_string(), "NVDA".to_string())]);
    assert_eq!(
        lookup_value(&pairs, &"stock".to_string()),
        Some("NVDA".to_string())
    );
    assert_eq!(lookup_value(&pairs, &"other".to_string()), None);
}

#[test]
fn parses_multiple_pairs() {
    let pairs = parse_json("{a: 1, b: 2}");
    assert_eq!(
        pairs,
        vec![
            ("a".to_string(), "1".to_string()),
            ("b".to_string(), "2".to_string())
        ]
    );
}

#[test]
fn strips_whitespace_quotes_and_braces() {
    let pairs = parse_json("  {\n\t\"sto ck\" : \"D ata\" }");
    assert_eq!(pairs, vec![("stock".to_string(), "Data".to_string())]);
}

#[test]
fn last_duplicate_key_wins_on_lookup() {
    let pairs = parse_json("{a: 1, a: 2}");
    assert_eq!(pairs.len(), 2);
    assert_eq!(lookup_value(&pairs, &"a".to_string()), Some("2".to_string()));
}

#[test]
fn trailing_pair_without_terminator_counts() {
    let pairs = parse_json("stock:NVDA");
    assert_eq!(pairs, vec![("stock".to_string(), "NVDA".to_string())]);
}

#[test]
fn incomplete_pairs_are_dropped() {
    assert_eq!(parse_json(""), Vec::<(String, String)>::new());
    assert_eq!(parse_json("{}"), Vec::<(String, String)>::new());
    // a key with no value never becomes a pair
    assert_eq!(parse_json("stock:"), Vec::<(String, String)>::new());
}
