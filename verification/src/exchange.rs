//! Trading-pair metadata as the exchange describes it (`/api/v3/exchangeInfo`).

use vstd::prelude::*;
use crate::decimal::Decimal;

verus! {

/// One trading rule of a pair.
#[derive(Clone, Copy, Debug)]
pub enum Filter {
    PriceFilter { min_price: Decimal, max_price: Decimal, tick_size: Decimal },
    LotSize { min_qty: Decimal, max_qty: Decimal, step_size: Decimal },
    IcebergParts { limit: u32 },
    MarketLotSize { min_qty: Decimal, max_qty: Decimal, step_size: Decimal },
    TrailingDelta {
        min_trailing_above_delta: u32,
        max_trailing_above_delta: u32,
        min_trailing_below_delta: u32,
        max_trailing_below_delta: u32,
    },
    PercentPriceBySide {
        bid_multiplier_up: Decimal,
        bid_multiplier_down: Decimal,
        ask_multiplier_up: Decimal,
        ask_multiplier_down: Decimal,
        avg_price_mins: u32,
    },
    Notional {
        min_notional: Decimal,
        apply_min_to_market: bool,
        max_notional: Decimal,
        apply_max_to_market: bool,
        avg_price_mins: u32,
    },
    MaxNumOrders { max_num_orders: u32 },
    MaxNumAlgoOrders { max_num_algo_orders: u32 },
    MaxPosition { max_position: Decimal },
}

/// A trading pair: `symbol` trades `base_asset` against `quote_asset`.
#[derive(Clone, Debug)]
pub struct PairInfo {
    pub symbol: String,
    pub base_asset: String,
    pub quote_asset: String,
    pub filters: Vec<Filter>,
}

impl View for PairInfo {
    type V = (Seq<char>, Seq<char>, Seq<char>, Seq<Filter>);

    open spec fn view(&self) -> Self::V {
        (self.symbol@, self.base_asset@, self.quote_asset@, self.filters@)
    }
}

/// The step size of the first `LOT_SIZE` filter, if any.
pub open spec fn first_step_size(filters: Seq<Filter>) -> Option<Decimal>
    decreases filters.len(),
{
    if filters.len() == 0 {
        None
    } else {
        match filters[0] {
            Filter::LotSize { step_size, .. } => Some(step_size),
            _ => first_step_size(filters.drop_first()),
        }
    }
}

/// The minimal notional of the first `NOTIONAL` filter, if any.
pub open spec fn first_min_notional(filters: Seq<Filter>) -> Option<Decimal>
    decreases filters.len(),
{
    if filters.len() == 0 {
        None
    } else {
        match filters[0] {
            Filter::Notional { min_notional, .. } => Some(min_notional),
            _ => first_min_notional(filters.drop_first()),
        }
    }
}

/// A copy of a list of filters, equal to it element by element.
pub fn copy_filters(filters: &Vec<Filter>) -> (r: Vec<Filter>)
    ensures
        r@ == filters@,
{
    let mut r: Vec<Filter> = Vec::new();
    let mut i: usize = 0;
    while i < filters.len()
        invariant
            i <= filters.len(),
            r@ == filters@.take(i as int),
        decreases filters.len() - i,
    {
        r.push(filters[i]);
        i = i + 1;
        assert(r@ =~= filters@.take(i as int));
    }
    assert(filters@.take(filters.len() as int) =~= filters@);
    r
}

impl PairInfo {
    /// A copy equal to `self` field by field.
    pub fn copy(&self) -> (r: PairInfo)
        ensures
            r@ == self@,
    {
        let filters = copy_filters(&self.filters);
        PairInfo {
            symbol: self.symbol.clone(),
            base_asset: self.base_asset.clone(),
            quote_asset: self.quote_asset.clone(),
            filters,
        }
    }
}

} // verus!
