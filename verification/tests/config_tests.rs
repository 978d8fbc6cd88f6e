use arb_engine::config::{parse_engine_settings, split_commas};
use arb_engine::observability::describe_metrics;

#[test]
fn stablecoins_are_split_on_commas() {
    assert_eq!(split_commas("USDT,USDC"), vec!["USDT", "USDC"]);
    assert_eq!(split_commas("USDT"), vec!["USDT"]);
    assert_eq!(split_commas(""), vec![""]);
    assert_eq!(split_commas("A,,B,"), vec!["A", "", "B", ""]);
    assert_eq!(split_commas(" FDUSD , €"), vec![" FDUSD ", " €"]);
}

#[test]
fn settings_parse_their_numbers() {
    let s = parse_engine_settings("0.5", "1000", "0.001", "USDT,USDC").unwrap();
    assert_eq!((s.min_profit_perc.mantissa(), s.min_profit_perc.scale()), (5, 1));
    assert_eq!((s.cycle_volume.mantissa(), s.cycle_volume.scale()), (1000, 0));
    assert_eq!((s.fee_percent.mantissa(), s.fee_percent.scale()), (1, 3));
    assert_eq!(s.stablecoins, vec!["USDT", "USDC"]);
    let neg = parse_engine_settings("-1.25", "1_000", "0", "").unwrap();
    assert_eq!((neg.min_profit_perc.mantissa(), neg.min_profit_perc.scale()), (-125, 2));
    assert_eq!(neg.cycle_volume.mantissa(), 1000);
    assert_eq!(neg.stablecoins, vec![""]);
}

#[test]
fn settings_refuse_text_that_is_no_number() {
    assert!(parse_engine_settings("abc", "1000", "0.001", "USDT").is_none());
    assert!(parse_engine_settings("0.5", "", "0.001", "USDT").is_none());
    assert!(parse_engine_settings("0.5", "1000", "0.1.1", "USDT").is_none());
}

#[test]
fn metrics_can_be_described_without_a_recorder() {
    describe_metrics();
}
