use arb_engine::decimal::Decimal;
use arb_engine::exchange::PairInfo;
use arb_engine::market::{
    chunk_symbols, depth_update_at, depth_update_now, lowercase_symbols, stream_symbol, ws_reaction, WsFrame,
    WsReaction,
};

fn names(v: &[&str]) -> Vec<String> {
    v.iter().map(|s| s.to_string()).collect()
}

#[test]
fn symbols_are_spread_over_connections_in_order() {
    let s = names(&["A", "B", "C", "D", "E"]);
    assert_eq!(chunk_symbols(&s, 2), vec![names(&["A", "B"]), names(&["C", "D"]), names(&["E"])]);
    assert_eq!(chunk_symbols(&s, 5), vec![s.clone()]);
    assert_eq!(chunk_symbols(&s, 9), vec![s.clone()]);
    assert_eq!(chunk_symbols(&s, 1).len(), 5);
    assert!(chunk_symbols(&s, 0).is_empty());
    assert!(chunk_symbols(&vec![], 3).is_empty());
}

#[test]
fn chunks_flatten_back_to_the_symbols() {
    let s: Vec<String> = (0..23).map(|i| format!("S{}", i)).collect();
    for per in 1..30 {
        let chunks = chunk_symbols(&s, per);
        let flat: Vec<String> = chunks.iter().flatten().cloned().collect();
        assert_eq!(flat, s);
        for (i, c) in chunks.iter().enumerate() {
            assert!(!c.is_empty() && c.len() <= per);
            if i + 1 < chunks.len() {
                assert_eq!(c.len(), per);
            }
        }
    }
}

#[test]
fn stream_names_give_upper_case_symbols() {
    assert_eq!(stream_symbol("btcusdt@depth20@100ms"), "BTCUSDT");
    assert_eq!(stream_symbol("ethbtc"), "ETHBTC");
    assert_eq!(stream_symbol("@depth"), "");
    assert_eq!(stream_symbol(""), "");
    assert_eq!(stream_symbol("straße@x"), "STRASSE");
}

#[test]
fn depth_messages_become_updates() {
    let bids = vec![[Decimal::new(105000, 0), Decimal::new(5, 1)]];
    let asks = vec![[Decimal::new(105001, 0), Decimal::new(7, 1)]];
    let u = depth_update_at("btcusdt@depth20@100ms", bids.clone(), asks.clone(), Some(1_700_000_000_000)).unwrap();
    assert_eq!(u.symbol, "BTCUSDT");
    assert_eq!(u.timestamp, 1_700_000_000_000);
    assert_eq!(u.bid_levels[0][0].mantissa(), 105000);
    assert_eq!(u.ask_levels[0][1].mantissa(), 7);
    assert!(depth_update_at("btcusdt@depth20", bids.clone(), asks.clone(), None).is_none());
    // milliseconds beyond 64 bits are cut to their low 64 bits
    let big = depth_update_at("x", vec![], vec![], Some((1u128 << 64) + 5)).unwrap();
    assert_eq!(big.timestamp, 5);
    let now = depth_update_now("ethbtc@depth20@100ms", bids, asks).unwrap();
    assert_eq!(now.symbol, "ETHBTC");
    assert!(now.timestamp > 1_600_000_000_000);
}

#[test]
fn frames_call_for_their_reactions() {
    assert_eq!(ws_reaction(WsFrame::Text), WsReaction::Publish);
    assert_eq!(ws_reaction(WsFrame::Ping), WsReaction::Pong);
    assert_eq!(ws_reaction(WsFrame::Other), WsReaction::FailUnexpected);
    assert_eq!(ws_reaction(WsFrame::Failed), WsReaction::FailError);
    assert_eq!(ws_reaction(WsFrame::Closed), WsReaction::Ignore);
}

#[test]
fn pair_symbols_are_lowercased_in_order() {
    let pair = |s: &str| PairInfo {
        symbol: s.to_string(),
        base_asset: String::new(),
        quote_asset: String::new(),
        filters: vec![],
    };
    assert_eq!(lowercase_symbols(&vec![pair("BTCUSDT"), pair("ETHBTC"), pair("1000SATSUSDT")]), vec![
        "btcusdt",
        "ethbtc",
        "1000satsusdt",
    ]);
    assert!(lowercase_symbols(&vec![]).is_empty());
}
