use liquidation_bot::price_feed::{
    decode_frame, frame_from_fields, parse_price, parse_product_id, subscribe_request_text,
    FrameOutcome,
};
use liquidation_bot::types::{CurrencyCode, Pair, PRICE_SCALE};

#[test]
fn test_parse_price_exact_values() {
    assert_eq!(parse_price("18300.00"), Some(18300 * PRICE_SCALE));
    assert_eq!(parse_price("20000"), Some(20000 * PRICE_SCALE));
    assert_eq!(parse_price("1.0"), Some(PRICE_SCALE));
    assert_eq!(parse_price("0.5"), Some(PRICE_SCALE / 2));
    assert_eq!(parse_price("0.00000001"), Some(1));
    // digits beyond the eighth place are truncated
    assert_eq!(parse_price("0.123456789"), Some(12_345_678));
}

#[test]
fn test_parse_price_rejects_other_shapes() {
    assert_eq!(parse_price(""), None);
    assert_eq!(parse_price("."), None);
    assert_eq!(parse_price("1."), None);
    assert_eq!(parse_price(".5"), None);
    assert_eq!(parse_price("1.2.3"), None);
    assert_eq!(parse_price("-5"), None);
    assert_eq!(parse_price("1e3"), None);
    assert_eq!(parse_price("12a4"), None);
}

#[test]
fn test_parse_product_id_recognized_pairs() {
    assert_eq!(
        parse_product_id("WBTC-USD"),
        Some(Pair(CurrencyCode::WBTC, CurrencyCode::USD))
    );
    // the exchange quotes wrapped ether under the plain ether code
    assert_eq!(
        parse_product_id("ETH-USD"),
        Some(Pair(CurrencyCode::WETH, CurrencyCode::USD))
    );
    assert_eq!(
        parse_product_id("DAI-USD"),
        Some(Pair(CurrencyCode::DAI, CurrencyCode::USD))
    );
    assert_eq!(
        parse_product_id("USDC-DAI"),
        Some(Pair(CurrencyCode::USDC, CurrencyCode::DAI))
    );
}

#[test]
fn test_parse_product_id_rejects_other_shapes() {
    assert_eq!(parse_product_id("XYZ-USD"), None);
    assert_eq!(parse_product_id("USD-XYZ"), None);
    assert_eq!(parse_product_id("WBTCUSD"), None);
    assert_eq!(parse_product_id("WBTC-USD-EXTRA"), None);
    assert_eq!(parse_product_id(""), None);
    assert_eq!(parse_product_id("-"), None);
}

#[test]
fn test_currency_code_from_str() {
    assert_eq!(CurrencyCode::from_str("DAI"), Ok(CurrencyCode::DAI));
    assert_eq!(CurrencyCode::from_str("USD"), Ok(CurrencyCode::USD));
    assert_eq!(CurrencyCode::from_str("USDC"), Ok(CurrencyCode::USDC));
    assert_eq!(CurrencyCode::from_str("WBTC"), Ok(CurrencyCode::WBTC));
    assert_eq!(CurrencyCode::from_str("ETH"), Ok(CurrencyCode::WETH));
    assert_eq!(CurrencyCode::from_str("WETH"), Err(()));
    assert_eq!(CurrencyCode::from_str("BTC"), Err(()));
    assert_eq!(CurrencyCode::from_str(""), Err(()));
}

#[test]
fn test_decode_frame_ticker() {
    let payload = "{\"type\":\"ticker\",\"product_id\":\"ETH-USD\",\"price\":\"1234.56\",\"sequence\":100}";
    match decode_frame(payload) {
        FrameOutcome::Tick(ticker) => {
            assert_eq!(ticker.pair, Pair(CurrencyCode::WETH, CurrencyCode::USD));
            assert_eq!(ticker.price, 1234 * PRICE_SCALE + 56_000_000);
        }
        other => panic!("expected a tick, got {:?}", other),
    }
}

#[test]
fn test_decode_frame_heartbeat() {
    let payload = "{\"type\":\"heartbeat\",\"sequence\":90,\"product_id\":\"ETH-USD\"}";
    assert_eq!(decode_frame(payload), FrameOutcome::Heartbeat);
}

#[test]
fn test_decode_frame_other_type_is_ignored() {
    let payload = "{\"type\":\"subscriptions\",\"channels\":[]}";
    assert_eq!(decode_frame(payload), FrameOutcome::Ignored);
}

#[test]
fn test_decode_frame_unknown_product_is_dropped() {
    // a recognized frame type with an unrecognized product id yields no
    // engine-visible event
    let payload = "{\"type\":\"ticker\",\"product_id\":\"XYZ-USD\",\"price\":\"10.0\"}";
    assert_eq!(decode_frame(payload), FrameOutcome::Malformed);
}

#[test]
fn test_decode_frame_bad_payloads() {
    assert_eq!(decode_frame("not json at all"), FrameOutcome::Malformed);
    assert_eq!(decode_frame("{}"), FrameOutcome::Malformed);
    assert_eq!(decode_frame("{\"type\":42}"), FrameOutcome::Malformed);
    // a ticker without a price cannot be forwarded
    assert_eq!(
        decode_frame("{\"type\":\"ticker\",\"product_id\":\"ETH-USD\"}"),
        FrameOutcome::Malformed
    );
    // a numeric (unquoted) price is not the documented encoding
    assert_eq!(
        decode_frame("{\"type\":\"ticker\",\"product_id\":\"ETH-USD\",\"price\":12.5}"),
        FrameOutcome::Malformed
    );
}

#[test]
fn test_frame_from_fields_directly() {
    assert_eq!(
        frame_from_fields(&None, &None, &None),
        FrameOutcome::Malformed
    );
    assert_eq!(
        frame_from_fields(&Some("heartbeat".to_string()), &None, &None),
        FrameOutcome::Heartbeat
    );
    assert_eq!(
        frame_from_fields(&Some("l2update".to_string()), &None, &None),
        FrameOutcome::Ignored
    );
    match frame_from_fields(
        &Some("ticker".to_string()),
        &Some("WBTC-USD".to_string()),
        &Some("20000".to_string()),
    ) {
        FrameOutcome::Tick(t) => {
            assert_eq!(t.pair, Pair(CurrencyCode::WBTC, CurrencyCode::USD));
            assert_eq!(t.price, 20000 * PRICE_SCALE);
        }
        other => panic!("expected a tick, got {:?}", other),
    }
}

#[test]
fn test_subscribe_request_text_is_valid_json() {
    let text = subscribe_request_text();
    let value: serde_json::Value = serde_json::from_str(text).unwrap();
    assert_eq!(value.get("type").unwrap().as_str().unwrap(), "subscribe");
    let channels = value.get("channels").unwrap().as_array().unwrap();
    assert_eq!(channels.len(), 2);
    assert_eq!(
        channels[0].get("name").unwrap().as_str().unwrap(),
        "heartbeat"
    );
    assert_eq!(channels[1].get("name").unwrap().as_str().unwrap(), "ticker");
}
