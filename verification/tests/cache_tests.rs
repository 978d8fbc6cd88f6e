use arb_engine::cache::{
    cached_triangles, judge_plan, leg_levels, leg_symbols, leg_uses_bids, CacheEntry, PlanVerdict,
};
use arb_engine::decimal::Decimal;
use arb_engine::exchange::PairInfo;
use arb_engine::graph::{TokenPair, Triangle};
use arb_engine::math::PlanError;
use arb_engine::messages::{ArbitragePlan, DepthUpdate, Order};

fn update(symbol: &str, tag: i64) -> DepthUpdate {
    DepthUpdate {
        symbol: symbol.to_string(),
        bid_levels: vec![[Decimal::new(tag, 0), Decimal::new(1, 0)]],
        ask_levels: vec![[Decimal::new(tag + 1000, 0), Decimal::new(2, 0)]],
        timestamp: tag as u64,
    }
}

fn tag_of(levels: &[[Decimal; 2]]) -> i128 {
    levels[0][0].mantissa()
}

fn pair(symbol: &str, base: &str, quote: &str) -> TokenPair {
    TokenPair::new(PairInfo {
        symbol: symbol.to_string(),
        base_asset: base.to_string(),
        quote_asset: quote.to_string(),
        filters: vec![],
    })
}

fn triangle(b: &str, c: &str, middle: (&str, &str, &str)) -> Triangle {
    Triangle::new(
        "USDT".to_string(),
        b.to_string(),
        c.to_string(),
        pair(&format!("{}USDT", b), b, "USDT"),
        pair(middle.0, middle.1, middle.2),
        pair(&format!("{}USDT", c), c, "USDT"),
    )
}

#[test]
fn a_symbol_is_sent_once_until_released() {
    let mut e = CacheEntry::new();
    assert!(!e.in_flight);
    assert!(e.record_update(update("BTCUSDT", 1)));
    assert!(e.in_flight);
    assert!(!e.record_update(update("BTCUSDT", 2)));
    assert!(!e.record_update(update("BTCUSDT", 3)));
    e.release();
    assert!(!e.in_flight);
    assert!(e.record_update(update("BTCUSDT", 4)));
}

#[test]
fn the_ring_keeps_the_last_five_updates() {
    let mut e = CacheEntry::new();
    for tag in 1..=7 {
        e.record_update(update("BTCUSDT", tag));
    }
    // the oldest kept is the third; reading rotates through 3, 4, 5, 6, 7 and back
    let mut seen = Vec::new();
    for _ in 0..6 {
        seen.push(tag_of(&e.take_levels(true).unwrap()));
    }
    assert_eq!(seen, vec![3, 4, 5, 6, 7, 3]);
}

#[test]
fn take_levels_gives_bids_or_asks_of_the_oldest() {
    let mut e = CacheEntry::new();
    e.record_update(update("ETHBTC", 10));
    e.record_update(update("ETHBTC", 20));
    assert_eq!(tag_of(&e.take_levels(false).unwrap()), 1010);
    assert_eq!(tag_of(&e.take_levels(true).unwrap()), 20);
    assert_eq!(tag_of(&e.take_levels(true).unwrap()), 10);
    assert!(e.in_flight);
}

#[test]
fn nothing_to_read_from_an_empty_entry() {
    let mut e = CacheEntry::new();
    assert!(e.take_levels(true).is_none());
    assert!(e.take_levels(false).is_none());
}

#[test]
fn legs_read_the_side_they_trade() {
    // ETH is the base of the middle pair ETHBTC: the middle leg sells on the bids
    let sells = triangle("ETH", "BTC", ("ETHBTC", "ETH", "BTC"));
    assert!(!leg_uses_bids(&sells, 0));
    assert!(leg_uses_bids(&sells, 1));
    assert!(leg_uses_bids(&sells, 2));
    // BTC quotes ETHBTC: the middle leg buys ETH on the asks
    let buys = triangle("BTC", "ETH", ("ETHBTC", "ETH", "BTC"));
    assert!(!leg_uses_bids(&buys, 1));
    let mut e = CacheEntry::new();
    e.record_update(update("ETHBTC", 7));
    assert_eq!(tag_of(&leg_levels(&sells, 1, &mut e).unwrap()), 7);
    assert_eq!(tag_of(&leg_levels(&buys, 1, &mut e).unwrap()), 1007);
}

#[test]
fn leg_symbols_lists_each_symbol_once() {
    let t1 = triangle("BTC", "ETH", ("ETHBTC", "ETH", "BTC"));
    let t2 = triangle("BTC", "BNB", ("BNBBTC", "BNB", "BTC"));
    let symbols = leg_symbols(&vec![&t1, &t2]);
    assert_eq!(symbols, vec!["BTCUSDT", "ETHBTC", "ETHUSDT", "BNBBTC", "BNBUSDT"]);
    assert!(leg_symbols(&vec![]).is_empty());
}

#[test]
fn only_triangles_with_all_books_cached_are_kept() {
    let t1 = triangle("BTC", "ETH", ("ETHBTC", "ETH", "BTC"));
    let t2 = triangle("BTC", "BNB", ("BNBBTC", "BNB", "BTC"));
    let triangles = vec![&t1, &t2];
    let symbols = leg_symbols(&triangles);
    let present = vec![true, true, true, false, true];
    let kept = cached_triangles(&triangles, &symbols, &present);
    assert_eq!(kept.len(), 1);
    assert_eq!(kept[0].target_token, "ETH");
    let all = vec![true; 5];
    assert_eq!(cached_triangles(&triangles, &symbols, &all).len(), 2);
    let none = vec![false; 5];
    assert!(cached_triangles(&triangles, &symbols, &none).is_empty());
}

fn plan(profit: Decimal) -> ArbitragePlan {
    let order = |s: &str| Order {
        symbol: s.to_string(),
        price: Decimal::one(),
        amount: Decimal::one(),
        side: "BUY".to_string(),
    };
    ArbitragePlan { orders: [order("A"), order("B"), order("C")], profit_percent: profit, timestamp: 0 }
}

#[test]
fn plans_are_published_from_the_threshold_up() {
    let min = Decimal::new(5, 1);
    assert_eq!(judge_plan(&Ok(plan(Decimal::new(50, 2))), min), PlanVerdict::Publish);
    assert_eq!(judge_plan(&Ok(plan(Decimal::new(7, 0))), min), PlanVerdict::Publish);
    assert_eq!(judge_plan(&Ok(plan(Decimal::new(49, 2))), min), PlanVerdict::Unprofitable);
    assert_eq!(judge_plan(&Ok(plan(Decimal::new(-3, 0))), min), PlanVerdict::Unprofitable);
    assert_eq!(judge_plan(&Err(PlanError::ClockBeforeEpoch), min), PlanVerdict::Failed);
}
