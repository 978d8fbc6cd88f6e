use arb_engine::decimal::Decimal;
use arb_engine::executor::{
    order_side, order_timeout_ms, plan_step, watch_step, OrderStatus, PlanAction, PlanEvent, Side,
    WatchAction, WatchEvent, WatchOutcome, POLL_INTERVAL_MS,
};
use arb_engine::messages::Order;

fn order(side: &str) -> Order {
    Order { symbol: "BTCUSDT".to_string(), price: Decimal::one(), amount: Decimal::one(), side: side.to_string() }
}

#[test]
fn only_buy_buys() {
    assert_eq!(order_side(&order("BUY")), Side::Buy);
    assert_eq!(order_side(&order("SELL")), Side::Sell);
    assert_eq!(order_side(&order("buy")), Side::Sell);
    assert_eq!(order_side(&order("")), Side::Sell);
}

#[test]
fn a_watch_queries_while_time_is_left() {
    assert_eq!(watch_step(WatchEvent::Started, 5000), WatchAction::ReadClock);
    assert_eq!(watch_step(WatchEvent::ClockRead { elapsed_ms: 4999 }, 5000), WatchAction::QueryStatus);
    assert_eq!(watch_step(WatchEvent::ClockRead { elapsed_ms: 5000 }, 5000), WatchAction::Cancel);
    assert_eq!(watch_step(WatchEvent::ClockRead { elapsed_ms: 0 }, 0), WatchAction::Cancel);
    assert_eq!(watch_step(WatchEvent::Slept, 5000), WatchAction::ReadClock);
}

#[test]
fn statuses_decide_the_watch() {
    let s = |status| watch_step(WatchEvent::StatusRead { status }, 5000);
    assert_eq!(s(OrderStatus::Filled), WatchAction::Finish { outcome: WatchOutcome::Filled });
    for open in [OrderStatus::New, OrderStatus::PendingNew, OrderStatus::PartiallyFilled] {
        assert_eq!(s(open), WatchAction::Sleep { millis: 200 });
    }
    for dead in [
        OrderStatus::Canceled,
        OrderStatus::PendingCancel,
        OrderStatus::Rejected,
        OrderStatus::Expired,
        OrderStatus::ExpiredInMatch,
    ] {
        assert_eq!(s(dead), WatchAction::Finish { outcome: WatchOutcome::UnexpectedStatus { status: dead } });
    }
    assert_eq!(POLL_INTERVAL_MS, 200);
}

#[test]
fn a_timed_out_order_is_cancelled() {
    assert_eq!(
        watch_step(WatchEvent::CancelSent { ok: true }, 5000),
        WatchAction::Finish { outcome: WatchOutcome::TimedOut }
    );
    assert_eq!(
        watch_step(WatchEvent::CancelSent { ok: false }, 5000),
        WatchAction::Finish { outcome: WatchOutcome::CancelFailed }
    );
    assert_eq!(order_timeout_ms(30), 30_000);
    assert_eq!(order_timeout_ms(0), 0);
    assert_eq!(order_timeout_ms(u64::MAX), (u64::MAX as u128) * 1000);
}

#[test]
fn legs_are_placed_in_order() {
    assert_eq!(plan_step(PlanEvent::Started), PlanAction::Place { leg: 0 });
    assert_eq!(
        plan_step(PlanEvent::Placed { leg: 0, status: OrderStatus::Filled }),
        PlanAction::Place { leg: 1 }
    );
    assert_eq!(
        plan_step(PlanEvent::Placed { leg: 1, status: OrderStatus::New }),
        PlanAction::Watch { leg: 1 }
    );
    assert_eq!(plan_step(PlanEvent::Watched { leg: 1 }), PlanAction::Place { leg: 2 });
    assert_eq!(plan_step(PlanEvent::Placed { leg: 2, status: OrderStatus::Filled }), PlanAction::Complete);
    assert_eq!(plan_step(PlanEvent::Watched { leg: 2 }), PlanAction::Complete);
}

#[test]
fn a_plan_run_walks_three_legs() {
    // a whole run: the second leg is watched until it fills
    let mut action = plan_step(PlanEvent::Started);
    let mut trace = Vec::new();
    loop {
        trace.push(action);
        action = match action {
            PlanAction::Place { leg } => {
                let status = if leg == 1 { OrderStatus::PartiallyFilled } else { OrderStatus::Filled };
                plan_step(PlanEvent::Placed { leg, status })
            }
            PlanAction::Watch { leg } => plan_step(PlanEvent::Watched { leg }),
            PlanAction::Complete => break,
        };
    }
    assert_eq!(
        trace,
        vec![
            PlanAction::Place { leg: 0 },
            PlanAction::Place { leg: 1 },
            PlanAction::Watch { leg: 1 },
            PlanAction::Place { leg: 2 },
            PlanAction::Complete,
        ]
    );
}
