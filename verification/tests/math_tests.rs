use arb_engine::decimal::Decimal;
use arb_engine::exchange::{Filter, PairInfo};
use arb_engine::graph::{TokenPair, Triangle};
use arb_engine::math::{
    calculate_buy_order_amounts, calculate_plan, calculate_plan_at, calculate_profit_percent,
    calculate_sell_order_amounts, calculate_triangle_amounts, construct_order, get_notional,
    get_step_size, try_calculate_plan, PlanError,
};
use std::str::FromStr;

fn d(s: &str) -> Decimal {
    let x = rust_decimal::Decimal::from_str(s).unwrap();
    Decimal::from_parts(x.mantissa(), x.scale()).unwrap()
}

fn rd(x: Decimal) -> rust_decimal::Decimal {
    rust_decimal::Decimal::from_i128_with_scale(x.mantissa(), x.scale())
}

fn lit(s: &str) -> rust_decimal::Decimal {
    rust_decimal::Decimal::from_str(s).unwrap()
}

fn pair_info(symbol: &str, base: &str, quote: &str, step: &str, min_qty: &str, max_qty: &str, min_notional: &str) -> PairInfo {
    PairInfo {
        symbol: symbol.to_string(),
        base_asset: base.to_string(),
        quote_asset: quote.to_string(),
        filters: vec![
            Filter::LotSize { min_qty: d(min_qty), max_qty: d(max_qty), step_size: d(step) },
            Filter::Notional {
                min_notional: d(min_notional),
                apply_min_to_market: true,
                max_notional: d("9000000.00000000"),
                apply_max_to_market: false,
                avg_price_mins: 5,
            },
        ],
    }
}

fn aave_triangle() -> Triangle {
    let info1 = pair_info("AAVEUSDT", "AAVE", "USDT", "0.00100000", "0.00100000", "900000.00000000", "5.00000000");
    let info2 = pair_info("AAVEBTC", "AAVE", "BTC", "0.00100000", "0.00100000", "92141578.00000000", "0.00010000");
    let info3 = pair_info("BTCUSDT", "BTC", "USDT", "0.00001000", "00001000", "9000.00000000", "5.00000000");
    Triangle::new(
        String::from("USDT"),
        String::from("AAVE"),
        String::from("BTC"),
        TokenPair::new(info1),
        TokenPair::new(info2),
        TokenPair::new(info3),
    )
}

fn prices(p: [(&str, &str); 3]) -> [Vec<[Decimal; 2]>; 3] {
    [vec![[d(p[0].0), d(p[0].1)]], vec![[d(p[1].0), d(p[1].1)]], vec![[d(p[2].0), d(p[2].1)]]]
}

#[test]
fn test_calculate_plan_buy_middle() {
    let triangle = aave_triangle();
    let prices = prices([("240", "200"), ("0.0024", "2000"), ("105000", "100")]);
    let fee = d("0.001");
    let amount = d("1000");
    let plan = calculate_plan(&triangle, prices, amount, fee);
    assert!(plan.is_ok());
    println!("{:?}", plan.unwrap());
}

#[test]
fn test_calculate_buy_order_amounts() {
    let usdt_amount = d("500");
    let btc_price = d("105000");
    let step_points = 5; // 0.00001
    let fee = d("0.001");
    let (order_amount, usdt_dust) = calculate_buy_order_amounts(usdt_amount, btc_price, step_points, fee);
    assert_eq!(rd(order_amount), lit("0.00476"));
    assert_eq!(rd(usdt_dust), lit("0.2"))
}

#[test]
fn buy_dust_is_the_unspent_quote_rounded() {
    // 1000 / 240 = 4.1666..., cut to 3 digits; 1000 - 4.166 * 240 = 0.16 is left
    let (order_amount, dust) = calculate_buy_order_amounts(d("1000"), d("240"), 3, d("0.001"));
    assert_eq!(rd(order_amount), lit("4.166"));
    assert_eq!(rd(dust), lit("0.16"));
    // 1 / 3 = 0.333..., cut to 2 digits; 1 - 0.33 * 3 = 0.01
    let (order_amount, dust) = calculate_buy_order_amounts(d("1"), d("3"), 2, d("0"));
    assert_eq!(rd(order_amount), lit("0.33"));
    assert_eq!(rd(dust), lit("0.01"));
    // a price that does not divide evenly leaves more than 8 digits: the dust is rounded
    let (order_amount, dust) = calculate_buy_order_amounts(d("1"), d("0.000000007"), 0, d("0"));
    assert_eq!(rd(order_amount), lit("142857142"));
    assert_eq!(rd(dust), lit("0.00000001"));
}

#[test]
fn sell_order_amounts_keep_dust() {
    let (order, quote, dust) = calculate_sell_order_amounts(d("0.00997881"), d("105000"), 5, d("0.001"));
    assert_eq!(rd(order), lit("0.00997"));
    assert_eq!(rd(quote), lit("1045.80315"));
    assert_eq!(rd(dust), lit("0.00000881"));
}

#[test]
fn triangle_amounts_with_sell_in_the_middle() {
    let ((o1, o2, o3), (da, db, dc), fin) = calculate_triangle_amounts(
        d("1000"),
        (d("240"), d("0.0024"), d("105000")),
        (3, 3, 5),
        d("0.001"),
        true,
    );
    assert_eq!(rd(o1), lit("4.166"));
    assert_eq!(rd(o2), lit("4.166"));
    assert_eq!(rd(o3), lit("0.00998"));
    assert_eq!(rd(da), lit("0.16"));
    assert_eq!(rd(db), lit("0"));
    assert_eq!(rd(dc), lit("0.0000084"));
    assert_eq!(rd(fin), lit("1046.8521"));
}

#[test]
fn triangle_amounts_with_buy_in_the_middle() {
    // USDT -> BTC (buy) -> ETH bought with BTC -> USDT
    let ((o1, o2, o3), _, fin) = calculate_triangle_amounts(
        d("1000"),
        (d("100000"), d("0.05"), d("5000")),
        (5, 4, 4),
        d("0"),
        false,
    );
    assert_eq!(rd(o1), lit("0.01"));
    assert_eq!(rd(o2), lit("0.2"));
    assert_eq!(rd(o3), lit("0.2"));
    assert_eq!(rd(fin), lit("1000"));
}

#[test]
fn profit_percent_formula() {
    assert_eq!(rd(calculate_profit_percent(d("1000"), d("1045.80315"))), lit("4.580315"));
    assert_eq!(rd(calculate_profit_percent(d("200"), d("190"))), lit("-5"));
}

#[test]
fn construct_order_refuses_small_volume() {
    let ok = construct_order("BTCUSDT".to_string(), d("100"), d("0.05"), "BUY".to_string(), d("5"));
    let o = ok.unwrap();
    assert_eq!(o.symbol, "BTCUSDT");
    assert_eq!(o.side, "BUY");
    assert_eq!(rd(o.amount), lit("0.05"));
    let err = construct_order("BTCUSDT".to_string(), d("100"), d("0.04"), "BUY".to_string(), d("5"));
    match err {
        Err(PlanError::BelowMinNotional { symbol, volume, min_notional }) => {
            assert_eq!(symbol, "BTCUSDT");
            assert_eq!(rd(volume), lit("4"));
            assert_eq!(rd(min_notional), lit("5"));
        }
        _ => panic!("expected a refusal"),
    }
}

#[test]
fn filters_give_step_and_notional() {
    let t = aave_triangle();
    assert_eq!(rd(get_step_size(&t.pairs[2]).unwrap()), lit("0.00001"));
    assert_eq!(rd(get_notional(&t.pairs[1]).unwrap()), lit("0.0001"));
    let bare = TokenPair::new(PairInfo {
        symbol: "XY".to_string(),
        base_asset: "X".to_string(),
        quote_asset: "Y".to_string(),
        filters: vec![Filter::MaxNumOrders { max_num_orders: 200 }],
    });
    assert!(get_step_size(&bare).is_none());
    assert!(get_notional(&bare).is_none());
}

#[test]
fn plan_orders_walk_the_triangle() {
    let t = aave_triangle();
    let p = prices([("240", "200"), ("0.0024", "2000"), ("105000", "100")]);
    let plan = calculate_plan_at(&t, p, d("1000"), d("0.001"), Some(1_700_000_000_123)).unwrap();
    let symbols: Vec<&str> = plan.orders.iter().map(|o| o.symbol.as_str()).collect();
    assert_eq!(symbols, vec!["AAVEUSDT", "AAVEBTC", "BTCUSDT"]);
    let sides: Vec<&str> = plan.orders.iter().map(|o| o.side.as_str()).collect();
    assert_eq!(sides, vec!["BUY", "SELL", "SELL"]);
    assert_eq!(rd(plan.orders[0].price), lit("240"));
    assert_eq!(rd(plan.orders[0].amount), lit("4.166"));
    assert_eq!(rd(plan.orders[1].amount), lit("4.166"));
    assert_eq!(rd(plan.orders[2].amount), lit("0.00998"));
    assert_eq!(rd(plan.profit_percent), lit("4.68521"));
    assert_eq!(plan.timestamp, 1_700_000_000_123);
}

#[test]
fn plan_refusals_and_clock() {
    let t = aave_triangle();
    // 10 USDT buys 0.041 AAVE: 0.041 * 0.0024 = 0.0000984 BTC is below the 0.0001 notional
    // of AAVEBTC
    let p = prices([("240", "200"), ("0.0024", "2000"), ("105000", "100")]);
    match calculate_plan_at(&t, p, d("10"), d("0.001"), Some(5)) {
        Err(PlanError::BelowMinNotional { symbol, .. }) => assert_eq!(symbol, "AAVEBTC"),
        _ => panic!("expected a refusal of the middle order"),
    }
    let p = prices([("240", "200"), ("0.0024", "2000"), ("105000", "100")]);
    assert!(matches!(
        calculate_plan_at(&t, p, d("1000"), d("0.001"), None),
        Err(PlanError::ClockBeforeEpoch)
    ));
}

#[test]
fn try_plan_reports_undefined_inputs() {
    let t = aave_triangle();
    let empty: [Vec<[Decimal; 2]>; 3] = [vec![], vec![[d("1"), d("1")]], vec![[d("1"), d("1")]]];
    assert!(try_calculate_plan(&t, empty, d("1000"), d("0.001")).is_none());
    let zero_price = prices([("0", "200"), ("0.0024", "2000"), ("105000", "100")]);
    assert!(try_calculate_plan(&t, zero_price, d("1000"), d("0.001")).is_none());
    let good = prices([("240", "200"), ("0.0024", "2000"), ("105000", "100")]);
    assert!(matches!(try_calculate_plan(&t, good, d("1000"), d("0.001")), Some(Ok(_))));
}

#[test]
fn sell_dust_stays_below_one_lot_step() {
    for (base, dp) in [("0.00997881", 5u32), ("4.1666666", 3), ("12", 2), ("0.0000099", 5)] {
        let (order, _, dust) = calculate_sell_order_amounts(d(base), d("105000"), dp, d("0.001"));
        assert_eq!(rd(order) + rd(dust), lit(base));
        assert!(rd(dust) >= lit("0"));
        assert!(rd(dust) < rust_decimal::Decimal::new(1, dp));
    }
}

#[test]
fn profit_follows_the_sign_of_the_gain() {
    assert_eq!(rd(calculate_profit_percent(d("1000"), d("1000"))), lit("0"));
    assert!(rd(calculate_profit_percent(d("1000"), d("1000.0001"))) > lit("0"));
    assert!(rd(calculate_profit_percent(d("1000"), d("999.9999"))) < lit("0"));
}
