//! The executor's decisions: the side of an order, how an order that was placed is
//! watched until it fills, times out or fails, and the order in which the legs of a plan
//! are placed.

use vstd::prelude::*;
use crate::messages::Order;

verus! {

/// The status of an order as the exchange reports it.
#[derive(Clone, Copy, Debug, PartialEq, Eq, Structural)]
pub enum OrderStatus {
    New,
    PendingNew,
    PartiallyFilled,
    Filled,
    Canceled,
    PendingCancel,
    Rejected,
    Expired,
    ExpiredInMatch,
}

/// What the exchange answers about an order: its symbol, its id and its status.
#[derive(Clone, Debug)]
pub struct OrderResp {
    pub symbol: String,
    pub order_id: u64,
    pub status: OrderStatus,
}

/// The side of an order on the exchange.
#[derive(Clone, Copy, Debug, PartialEq, Eq, Structural)]
pub enum Side {
    Buy,
    Sell,
}

/// An order is a buy exactly when its side reads "BUY"; any other text sells.
pub fn order_side(order: &Order) -> (r: Side)
    ensures
        r == (if order.side@ == "BUY"@ {
            Side::Buy
        } else {
            Side::Sell
        }),
{
    let buy = "BUY".to_string();
    if order.side == buy {
        Side::Buy
    } else {
        Side::Sell
    }
}

/// A status under which the order is still being worked: keep waiting for it.
pub open spec fn still_open(status: OrderStatus) -> bool {
    status == OrderStatus::PartiallyFilled || status == OrderStatus::New || status
        == OrderStatus::PendingNew
}

/// How long to wait between two queries of an open order, in milliseconds.
pub const POLL_INTERVAL_MS: u64 = 200;

/// What happened while an order was watched.
#[derive(Clone, Copy, Debug, PartialEq, Eq, Structural)]
pub enum WatchEvent {
    /// The watch begins.
    Started,
    /// The clock was read: `elapsed_ms` since the watch began.
    ClockRead { elapsed_ms: u128 },
    /// The exchange reported the order's status.
    StatusRead { status: OrderStatus },
    /// The pause between two queries is over.
    Slept,
    /// The order was cancelled (`ok`) or the cancel request failed.
    CancelSent { ok: bool },
}

/// How a watch ends.
#[derive(Clone, Copy, Debug, PartialEq, Eq, Structural)]
pub enum WatchOutcome {
    /// The order filled.
    Filled,
    /// The exchange reported a status under which the order will not fill.
    UnexpectedStatus { status: OrderStatus },
    /// The order ran out of time and was cancelled.
    TimedOut,
    /// The order ran out of time and the cancel request failed.
    CancelFailed,
}

/// What the watcher does next.
#[derive(Clone, Copy, Debug, PartialEq, Eq, Structural)]
pub enum WatchAction {
    ReadClock,
    QueryStatus,
    Sleep { millis: u64 },
    Cancel,
    Finish { outcome: WatchOutcome },
}

/// The next step of watching an order that may stay open for `timeout_ms`: while time is
/// left the order is queried; a fill ends the watch, an open order is queried again after
/// a pause, any other status fails it; once the time is up the order is cancelled.
pub fn watch_step(event: WatchEvent, timeout_ms: u128) -> (r: WatchAction)
    ensures
        r == (match event {
            WatchEvent::Started => WatchAction::ReadClock,
            WatchEvent::ClockRead { elapsed_ms } => if elapsed_ms < timeout_ms {
                WatchAction::QueryStatus
            } else {
                WatchAction::Cancel
            },
            WatchEvent::StatusRead { status } => if status == OrderStatus::Filled {
                WatchAction::Finish { outcome: WatchOutcome::Filled }
            } else if still_open(status) {
                WatchAction::Sleep { millis: POLL_INTERVAL_MS }
            } else {
                WatchAction::Finish { outcome: WatchOutcome::UnexpectedStatus { status } }
            },
            WatchEvent::Slept => WatchAction::ReadClock,
            WatchEvent::CancelSent { ok } => WatchAction::Finish {
                outcome: if ok {
                    WatchOutcome::TimedOut
                } else {
                    WatchOutcome::CancelFailed
                },
            },
        }),
{
    match event {
        WatchEvent::Started => WatchAction::ReadClock,
        WatchEvent::ClockRead { elapsed_ms } => {
            if elapsed_ms < timeout_ms {
                WatchAction::QueryStatus
            } else {
                WatchAction::Cancel
            }
        },
        WatchEvent::StatusRead { status } => {
            match status {
                OrderStatus::Filled => WatchAction::Finish { outcome: WatchOutcome::Filled },
                OrderStatus::PartiallyFilled | OrderStatus::New | OrderStatus::PendingNew => {
                    WatchAction::Sleep { millis: POLL_INTERVAL_MS }
                },
                _ => WatchAction::Finish { outcome: WatchOutcome::UnexpectedStatus { status } },
            }
        },
        WatchEvent::Slept => WatchAction::ReadClock,
        WatchEvent::CancelSent { ok } => {
            if ok {
                WatchAction::Finish { outcome: WatchOutcome::TimedOut }
            } else {
                WatchAction::Finish { outcome: WatchOutcome::CancelFailed }
            }
        },
    }
}

/// The time an order may stay open, in milliseconds, from the configured seconds.
pub fn order_timeout_ms(timeout_sec: u64) -> (r: u128)
    ensures
        r == timeout_sec * 1000,
{
    (timeout_sec as u128) * 1000
}

/// What happened while a plan was executed.
#[derive(Clone, Copy, Debug, PartialEq, Eq, Structural)]
pub enum PlanEvent {
    /// Execution begins.
    Started,
    /// Leg `leg` was placed and the exchange answered with `status`.
    Placed { leg: usize, status: OrderStatus },
    /// The watch of leg `leg` ended with a fill.
    Watched { leg: usize },
}

/// What the executor does next with a plan.
#[derive(Clone, Copy, Debug, PartialEq, Eq, Structural)]
pub enum PlanAction {
    /// Place the order of leg `leg`.
    Place { leg: usize },
    /// Watch the order of leg `leg` until it fills.
    Watch { leg: usize },
    /// All three legs filled.
    Complete,
}

/// The leg after `leg`, or the end of the plan.
pub open spec fn after_leg(leg: usize) -> PlanAction {
    if leg + 1 < 3 {
        PlanAction::Place { leg: (leg + 1) as usize }
    } else {
        PlanAction::Complete
    }
}

/// The legs are placed in order; a leg that did not fill at once is watched before the
/// next one is placed.
pub fn plan_step(event: PlanEvent) -> (r: PlanAction)
    requires
        event matches PlanEvent::Placed { leg, .. } ==> leg < 3,
        event matches PlanEvent::Watched { leg } ==> leg < 3,
    ensures
        r == (match event {
            PlanEvent::Started => PlanAction::Place { leg: 0 },
            PlanEvent::Placed { leg, status } => if status == OrderStatus::Filled {
                after_leg(leg)
            } else {
                PlanAction::Watch { leg }
            },
            PlanEvent::Watched { leg } => after_leg(leg),
        }),
{
    match event {
        PlanEvent::Started => PlanAction::Place { leg: 0 },
        PlanEvent::Placed { leg, status } => {
            if status == OrderStatus::Filled {
                next_leg(leg)
            } else {
                PlanAction::Watch { leg }
            }
        },
        PlanEvent::Watched { leg } => next_leg(leg),
    }
}

fn next_leg(leg: usize) -> (r: PlanAction)
    requires
        leg < 3,
    ensures
        r == after_leg(leg),
{
    if leg + 1 < 3 {
        PlanAction::Place { leg: leg + 1 }
    } else {
        PlanAction::Complete
    }
}

} // verus!
