use arb_engine::decimal::Decimal;
use arb_engine::exchange::{Filter, PairInfo};
use arb_engine::graph::{init_graph, ArbitrageGraph, TokenPair};

fn pair(symbol: &str, base: &str, quote: &str) -> PairInfo {
    PairInfo {
        symbol: symbol.to_string(),
        base_asset: base.to_string(),
        quote_asset: quote.to_string(),
        filters: vec![Filter::LotSize {
            min_qty: Decimal::new(1, 5),
            max_qty: Decimal::new(9000, 0),
            step_size: Decimal::new(1, 5),
        }],
    }
}

fn btc_eth_usdt() -> Vec<PairInfo> {
    vec![
        pair("BTCUSDT", "BTC", "USDT"),
        pair("ETHUSDT", "ETH", "USDT"),
        pair("ETHBTC", "ETH", "BTC"),
    ]
}

#[test]
fn one_triangle_through_the_stablecoin() {
    let g = init_graph(vec!["USDT"], btc_eth_usdt());
    assert_eq!(g.triangles.len(), 1);
    let t = &g.triangles[0];
    assert_eq!(t.stablecoin, "USDT");
    assert_eq!(t.intermediate_token, "BTC");
    assert_eq!(t.target_token, "ETH");
    let symbols: Vec<&str> = t.pairs.iter().map(|p| p.symbol.as_str()).collect();
    assert_eq!(symbols, vec!["BTCUSDT", "ETHBTC", "ETHUSDT"]);
    assert_eq!(t.pairs[1].base, "ETH");
    assert_eq!(t.pairs[1].quote, "BTC");
}

#[test]
fn triangles_are_found_by_each_of_their_symbols() {
    let g = init_graph(vec!["USDT"], btc_eth_usdt());
    for s in ["BTCUSDT", "ETHBTC", "ETHUSDT"] {
        let found = g.get_triangles_by_symbol(s);
        assert_eq!(found.len(), 1, "{}", s);
        assert_eq!(found[0].target_token, "ETH");
    }
    assert!(g.get_triangles_by_symbol("XRPUSDT").is_empty());
}

#[test]
fn no_triangle_without_the_closing_pair() {
    let g = init_graph(vec!["USDT"], vec![pair("BTCUSDT", "BTC", "USDT"), pair("ETHUSDT", "ETH", "USDT")]);
    assert!(g.triangles.is_empty());
    assert!(g.get_triangles_by_symbol("BTCUSDT").is_empty());
}

#[test]
fn only_pairs_quoted_in_a_stablecoin_open_triangles() {
    // USDT is the base here, so nothing leaves USDT
    let g = init_graph(
        vec!["USDT"],
        vec![pair("USDTBTC", "USDT", "BTC"), pair("ETHUSDT", "ETH", "USDT"), pair("ETHBTC", "ETH", "BTC")],
    );
    assert!(g.triangles.is_empty());
}

#[test]
fn every_pair_of_tokens_quoted_in_the_stablecoin_is_tried_once() {
    let mut pairs = btc_eth_usdt();
    pairs.push(pair("BNBUSDT", "BNB", "USDT"));
    pairs.push(pair("BNBBTC", "BNB", "BTC"));
    pairs.push(pair("BNBETH", "BNB", "ETH"));
    let g = init_graph(vec!["USDT"], pairs);
    let cycles: Vec<(String, String)> = g
        .triangles
        .iter()
        .map(|t| (t.intermediate_token.clone(), t.target_token.clone()))
        .collect();
    assert_eq!(
        cycles,
        vec![
            ("BTC".to_string(), "ETH".to_string()),
            ("BTC".to_string(), "BNB".to_string()),
            ("ETH".to_string(), "BNB".to_string()),
        ]
    );
    assert_eq!(g.get_triangles_by_symbol("BNBUSDT").len(), 2);
    assert_eq!(g.get_triangles_by_symbol("BTCUSDT").len(), 2);
}

#[test]
fn building_step_by_step_matches_init_graph() {
    let mut g = ArbitrageGraph::new(vec!["USDT"]);
    for p in btc_eth_usdt() {
        g.add_token_pair(TokenPair::new(p));
    }
    assert!(g.triangles.is_empty());
    g.build_triangles();
    assert_eq!(g.triangles.len(), 1);
    assert_eq!(g.triangles[0].intermediate_token, "BTC");
}

#[test]
fn rebuilding_appends_to_the_symbol_index() {
    // the symbol index is not cleared by a rebuild, so a triangle is listed again
    let mut g = init_graph(vec!["USDT"], btc_eth_usdt());
    g.build_triangles();
    assert_eq!(g.triangles.len(), 1);
    assert_eq!(g.get_triangles_by_symbol("ETHBTC").len(), 2);
}

#[test]
fn two_stablecoins_give_triangles_through_each() {
    let mut pairs = btc_eth_usdt();
    pairs.push(pair("BTCUSDC", "BTC", "USDC"));
    pairs.push(pair("ETHUSDC", "ETH", "USDC"));
    let g = init_graph(vec!["USDT", "USDC"], pairs);
    assert_eq!(g.triangles.len(), 2);
    let mut stables: Vec<&str> = g.triangles.iter().map(|t| t.stablecoin.as_str()).collect();
    stables.sort();
    assert_eq!(stables, vec!["USDC", "USDT"]);
    assert_eq!(g.get_triangles_by_symbol("ETHBTC").len(), 2);
}

#[test]
fn token_pair_copies_the_pair_info() {
    let p = TokenPair::new(pair("ETHBTC", "ETH", "BTC"));
    assert_eq!(p.base, "ETH");
    assert_eq!(p.quote, "BTC");
    assert_eq!(p.symbol, "ETHBTC");
    assert_eq!(p.info.symbol, "ETHBTC");
    assert_eq!(p.info.filters.len(), 1);
}

#[test]
fn adding_aave_pairs_gives_one_triangle() {
    let mut g = ArbitrageGraph::new(vec!["USDT"]);
    assert!(g.triangles.is_empty());
    assert!(g.get_triangles_by_symbol("AAVEUSDT").is_empty());
    g.build_triangles();
    assert!(g.triangles.is_empty());
    for (s, b, q) in [("AAVEUSDT", "AAVE", "USDT"), ("AAVEBTC", "AAVE", "BTC"), ("BTCUSDT", "BTC", "USDT")] {
        g.add_token_pair(TokenPair::new(PairInfo {
            symbol: s.to_string(),
            base_asset: b.to_string(),
            quote_asset: q.to_string(),
            filters: vec![],
        }));
    }
    g.build_triangles();
    assert_eq!(g.triangles.len(), 1);
    let t = &g.triangles[0];
    assert_eq!((t.stablecoin.as_str(), t.intermediate_token.as_str(), t.target_token.as_str()), ("USDT", "AAVE", "BTC"));
    let symbols: Vec<&str> = t.pairs.iter().map(|p| p.symbol.as_str()).collect();
    assert_eq!(symbols, vec!["AAVEUSDT", "AAVEBTC", "BTCUSDT"]);
    assert!(g.symbol_positions_in_range("AAVEBTC"));
    assert!(g.symbol_positions_in_range("XRPUSDT"));
}
