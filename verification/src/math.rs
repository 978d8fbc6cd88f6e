//! The arithmetic of one pass around a triangle: how much each order buys or sells,
//! what dust is left, the final amount and the profit, and the plan of three orders.

use vstd::prelude::*;
use crate::decimal::{
    abs, aligned, lemma_aligned_order, lemma_truncation_law, lemma_aligned_values, lemma_pow10_positive, lemma_truncation_bounds, checked_div, checked_mul, checked_sub, div_m, less_than, mul_m, normalize,
    normalize_model, pow10, pow10_i64, rd_checked_div, rd_checked_mul, rd_checked_sub, round_dp,
    round_dp_model, same_value, spec_truncate_to_dp, sub_m, trunc, truncate_defined,
    truncated, truncation_exact, value_lt, Decimal, DecimalExt, MAX_MANTISSA,
};
use crate::exchange::{first_min_notional, first_step_size, Filter};
use crate::graph::{TokenPair, Triangle};
use crate::messages::{ArbitragePlan, Order};

verus! {

/// Why no plan was made.
#[derive(Debug)]
pub enum PlanError {
    /// The order on `symbol` would trade `volume` of the quote asset, below the pair's
    /// minimal notional.
    BelowMinNotional { symbol: String, volume: Decimal, min_notional: Decimal },
    /// The system clock reads a time before the Unix epoch.
    ClockBeforeEpoch,
}

/// The amount of base asset that `q` of quote pays for at `price`: `q / price`.
pub open spec fn buy_base(q: (int, nat), price: (int, nat)) -> (int, nat) {
    div_m(q, price)
}

/// `o` is `x` cut toward zero to `dp` digits: it is the truncation of `x` to `dp` places,
/// and, where the steps of the cut are exact, the whole number `truncated(x, dp)` of steps
/// `10^-dp` (so `o * 10^dp` is an integer).
pub open spec fn cut_to(o: (int, nat), x: (int, nat), dp: nat) -> bool {
    &&& Some(o) == spec_truncate_to_dp(x, dp)
    &&& truncation_exact(x, dp) ==> same_value(o, (truncated(x, dp), dp))
}

/// `x` truncated to `dp` digits, where the truncation is defined.
pub open spec fn trunc_m(x: (int, nat), dp: nat) -> (int, nat) {
    spec_truncate_to_dp(x, dp).unwrap()
}

/// No step of a buy overflows or divides by zero.
pub open spec fn buy_defined(q: (int, nat), price: (int, nat), dp: nat) -> bool {
    &&& rd_checked_div(q, price) is Some
    &&& truncate_defined(buy_base(q, price), dp)
    &&& rd_checked_mul(trunc_m(buy_base(q, price), dp), price) is Some
    &&& rd_checked_sub(q, mul_m(trunc_m(buy_base(q, price), dp), price)) is Some
}

/// The order amount of a buy (the base that `q` pays for, cut to the lot step) and the
/// quote left unspent (`q - order * price`), rounded to 8 digits.
pub open spec fn buy_amounts(q: (int, nat), price: (int, nat), dp: nat) -> ((int, nat), (int, nat)) {
    let order = trunc_m(buy_base(q, price), dp);
    (order, round_dp_model(sub_m(q, mul_m(order, price)), 8))
}

/// `1.0 - fee`, at the scale of the literal `1.0`.
pub open spec fn sell_keep(fee: (int, nat)) -> (int, nat) {
    sub_m((10int, 1nat), fee)
}

/// No step of a sell overflows.
pub open spec fn sell_defined(base: (int, nat), price: (int, nat), dp: nat, fee: (int, nat)) -> bool {
    &&& truncate_defined(base, dp)
    &&& rd_checked_mul(trunc_m(base, dp), price) is Some
    &&& rd_checked_sub((10int, 1nat), fee) is Some
    &&& rd_checked_mul(mul_m(trunc_m(base, dp), price), sell_keep(fee)) is Some
    &&& rd_checked_sub(base, trunc_m(base, dp)) is Some
}

/// The order amount of a sell (the base cut to the lot step), the quote received, fees
/// taken and rounded to 8 digits, and the base left over.
pub open spec fn sell_amounts(base: (int, nat), price: (int, nat), dp: nat, fee: (int, nat)) -> (
    (int, nat),
    (int, nat),
    (int, nat),
) {
    let order = trunc_m(base, dp);
    (
        order,
        round_dp_model(mul_m(mul_m(order, price), sell_keep(fee)), 8),
        sub_m(base, order),
    )
}

/// The second leg: a sell of B when B is the base of the middle pair, else a buy of C.
pub open spec fn leg2_defined(b_amount: (int, nat), price: (int, nat), dp: nat, fee: (int, nat), b_is_base: bool) -> bool {
    if b_is_base {
        sell_defined(b_amount, price, dp, fee)
    } else {
        buy_defined(b_amount, price, dp)
    }
}

/// The middle order amount, the amount of C obtained and the dust of B.
pub open spec fn leg2_amounts(b_amount: (int, nat), price: (int, nat), dp: nat, fee: (int, nat), b_is_base: bool) -> (
    (int, nat),
    (int, nat),
    (int, nat),
) {
    if b_is_base {
        sell_amounts(b_amount, price, dp, fee)
    } else {
        let (order, dust) = buy_amounts(b_amount, price, dp);
        (order, order, dust)
    }
}

pub open spec fn triangle_defined(
    amount: (int, nat),
    prices: ((int, nat), (int, nat), (int, nat)),
    dps: (nat, nat, nat),
    fee: (int, nat),
    b_is_base: bool,
) -> bool {
    let o1 = buy_amounts(amount, prices.0, dps.0).0;
    let c = leg2_amounts(o1, prices.1, dps.1, fee, b_is_base).1;
    &&& buy_defined(amount, prices.0, dps.0)
    &&& leg2_defined(o1, prices.1, dps.1, fee, b_is_base)
    &&& sell_defined(c, prices.2, dps.2, fee)
}

/// The three order amounts, the three dusts and the final amount of the stablecoin.
pub open spec fn triangle_amounts(
    amount: (int, nat),
    prices: ((int, nat), (int, nat), (int, nat)),
    dps: (nat, nat, nat),
    fee: (int, nat),
    b_is_base: bool,
) -> (((int, nat), (int, nat), (int, nat)), ((int, nat), (int, nat), (int, nat)), (int, nat)) {
    let (o1, dust_a) = buy_amounts(amount, prices.0, dps.0);
    let (o2, c, dust_b) = leg2_amounts(o1, prices.1, dps.1, fee, b_is_base);
    let (o3, fin, dust_c) = sell_amounts(c, prices.2, dps.2, fee);
    ((o1, o2, o3), (dust_a, dust_b, dust_c), fin)
}

pub open spec fn profit_defined(amount: (int, nat), final_amount: (int, nat)) -> bool {
    &&& rd_checked_sub(final_amount, amount) is Some
    &&& rd_checked_div(sub_m(final_amount, amount), amount) is Some
    &&& rd_checked_mul(div_m(sub_m(final_amount, amount), amount), (1000int, 1nat)) is Some
}

/// `(final - amount) / amount * 100.0`.
pub open spec fn profit_percent(amount: (int, nat), final_amount: (int, nat)) -> (int, nat) {
    mul_m(div_m(sub_m(final_amount, amount), amount), (1000int, 1nat))
}

/// The truncation of a decimal can be carried out.
pub fn truncate_defined_check(x: Decimal, dp: u32) -> (r: bool)
    ensures
        r == truncate_defined(x@, dp as nat),
{
    if dp > 18 {
        return false;
    }
    let scale_factor = Decimal::new(pow10_i64(dp), 0);
    match checked_mul(x, scale_factor) {
        Some(scaled) => checked_div(trunc(scaled), scale_factor).is_some(),
        None => false,
    }
}

/// A buy can be computed without overflow or division by zero.
pub fn buy_defined_check(q: Decimal, price: Decimal, dp: u32) -> (r: bool)
    ensures
        r == buy_defined(q@, price@, dp as nat),
{
    let base = match checked_div(q, price) {
        Some(x) => x,
        None => return false,
    };
    if !truncate_defined_check(base, dp) {
        return false;
    }
    let order = base.truncate_to_dp(dp);
    let spent = match checked_mul(order, price) {
        Some(x) => x,
        None => return false,
    };
    checked_sub(q, spent).is_some()
}

/// A sell can be computed without overflow.
pub fn sell_defined_check(base: Decimal, price: Decimal, dp: u32, fee: Decimal) -> (r: bool)
    ensures
        r == sell_defined(base@, price@, dp as nat, fee@),
{
    if !truncate_defined_check(base, dp) {
        return false;
    }
    let order = base.truncate_to_dp(dp);
    let gross = match checked_mul(order, price) {
        Some(x) => x,
        None => return false,
    };
    let keep = match checked_sub(Decimal::new(10, 1), fee) {
        Some(x) => x,
        None => return false,
    };
    checked_mul(gross, keep).is_some() && checked_sub(base, order).is_some()
}

/// Buys base for `quote_amount` of quote at `price`: the order amount is the base that
/// the quote pays for, cut to `step_dp` digits (the lot step), and the quote left unspent
/// is the dust, rounded to 8 digits. The fee is not taken from a buy; `_fee_percent` is
/// kept so that buys and sells are called alike.
pub fn calculate_buy_order_amounts(
    quote_amount: Decimal,
    price: Decimal,
    step_dp: u32,
    _fee_percent: Decimal,
) -> (r: (Decimal, Decimal))
    requires
        buy_defined(quote_amount@, price@, step_dp as nat),
    ensures
        (r.0@, r.1@) == buy_amounts(quote_amount@, price@, step_dp as nat),
        cut_to(r.0@, div_m(quote_amount@, price@), step_dp as nat),
        ({
            let base = buy_base(quote_amount@, price@);
            truncation_exact(base, step_dp as nat) ==> same_value(
                r.0@,
                (truncated(base, step_dp as nat), step_dp as nat),
            )
        }),
{
    let base_amount = checked_div(quote_amount, price).unwrap();
    let order_amount = base_amount.truncate_to_dp(step_dp);
    let spent = checked_mul(order_amount, price).unwrap();
    let quote_dust = round_dp(checked_sub(quote_amount, spent).unwrap(), 8);
    (order_amount, quote_dust)
}

/// What is left of `b` after `o`, its cut to `dp` digits, is taken away lies in
/// `[0, 10^-dp)`.
proof fn lemma_dust_below_step(b: (int, nat), o: (int, nat), d: (int, nat), dp: nat)
    requires
        b.0 >= 0,
        same_value(o, (truncated(b, dp), dp)),
        same_value(d, (aligned(b, o).0 - aligned(b, o).1, aligned(b, o).2)),
    ensures
        0 <= d.0,
        d.0 * pow10(dp) < pow10(d.1),
{
    let t = truncated(b, dp);
    let (x, y, s) = aligned(b, o);
    let dd = pow10(dp);
    let bb = pow10(b.1);
    let oo = pow10(o.1);
    let ss = pow10(s);
    let de = pow10(d.1);
    lemma_pow10_positive(dp);
    lemma_pow10_positive(b.1);
    lemma_pow10_positive(o.1);
    lemma_pow10_positive(s);
    lemma_pow10_positive(d.1);
    lemma_aligned_values(b, o);
    lemma_truncation_bounds(b, dp);
    let n = b.0 * dd;
    assert(n >= 0) by (nonlinear_arith)
        requires
            n == b.0 * dd,
            b.0 >= 0,
            dd >= 1,
    ;
    let e = n - t * bb;
    assert(0 <= e < bb);
    // (x - y) * dd * bb * oo == ss * oo * e, so (x - y) * dd * bb == ss * e
    let xb = x * bb;
    let yo = y * oo;
    let od = o.0 * dd;
    assert(x * dd * bb * oo == (xb) * (dd * oo)) by (nonlinear_arith)
        requires
            xb == x * bb,
    ;
    assert(y * dd * bb * oo == (yo) * (dd * bb)) by (nonlinear_arith)
        requires
            yo == y * oo,
    ;
    assert((b.0 * ss) * (dd * oo) == ss * oo * (b.0 * dd)) by (nonlinear_arith);
    assert((o.0 * ss) * (dd * bb) == ss * bb * (od)) by (nonlinear_arith)
        requires
            od == o.0 * dd,
    ;
    assert(ss * bb * (t * oo) == ss * oo * (t * bb)) by (nonlinear_arith);
    let lhs = (x - y) * dd * bb;
    assert(lhs * oo == x * dd * bb * oo - y * dd * bb * oo) by (nonlinear_arith)
        requires
            lhs == (x - y) * dd * bb,
    ;
    assert(ss * oo * (b.0 * dd) - ss * oo * (t * bb) == (ss * e) * oo) by (nonlinear_arith)
        requires
            e == b.0 * dd - t * bb,
    ;
    assert(oo * lhs == oo * (ss * e)) by (nonlinear_arith)
        requires
            lhs * oo == (ss * e) * oo,
    ;
    vstd::arithmetic::mul::lemma_mul_equality_converse(oo, lhs, ss * e);
    assert((x - y) * dd * bb == ss * e);
    assert(x - y >= 0) by (nonlinear_arith)
        requires
            (x - y) * dd * bb == ss * e,
            e >= 0,
            ss >= 1,
            dd >= 1,
            bb >= 1,
    ;
    assert((x - y) * dd < ss) by (nonlinear_arith)
        requires
            (x - y) * dd * bb == ss * e,
            e < bb,
            ss >= 1,
            bb >= 1,
    ;
    assert(0 <= d.0) by (nonlinear_arith)
        requires
            d.0 * ss == (x - y) * de,
            x - y >= 0,
            ss >= 1,
            de >= 1,
    ;
    assert(d.0 * dd < de) by (nonlinear_arith)
        requires
            d.0 * ss == (x - y) * de,
            (x - y) * dd < ss,
            ss >= 1,
            de >= 1,
            dd >= 1,
    ;
}

/// Sells `base_amount` at `price`: the order amount is the base cut to `step_dp` digits,
/// the quote received is taken net of fees and rounded to 8 digits, and the uncut rest
/// of the base is the dust.
pub fn calculate_sell_order_amounts(
    base_amount: Decimal,
    price: Decimal,
    step_dp: u32,
    fee_percent: Decimal,
) -> (r: (Decimal, Decimal, Decimal))
    requires
        sell_defined(base_amount@, price@, step_dp as nat, fee_percent@),
    ensures
        (r.0@, r.1@, r.2@) == sell_amounts(base_amount@, price@, step_dp as nat, fee_percent@),
        cut_to(r.0@, base_amount@, step_dp as nat),
        r.2@ == sub_m(base_amount@, r.0@),
        truncation_exact(base_amount@, step_dp as nat) ==> same_value(
            r.0@,
            (truncated(base_amount@, step_dp as nat), step_dp as nat),
        ),
        ({
            let (x, y, s) = aligned(base_amount@, r.0@);
            -MAX_MANTISSA <= x <= MAX_MANTISSA && -MAX_MANTISSA <= y <= MAX_MANTISSA
                && -MAX_MANTISSA <= x - y <= MAX_MANTISSA
        }) ==> same_value(r.2@, (aligned(base_amount@, r.0@).0 - aligned(base_amount@, r.0@).1, aligned(base_amount@, r.0@).2)),
        ({
            let (x, y, s) = aligned(base_amount@, r.0@);
            &&& truncation_exact(base_amount@, step_dp as nat)
            &&& base_amount@.0 >= 0
            &&& -MAX_MANTISSA <= x <= MAX_MANTISSA && -MAX_MANTISSA <= y <= MAX_MANTISSA
            &&& -MAX_MANTISSA <= x - y <= MAX_MANTISSA
        }) ==> 0 <= r.2@.0 && r.2@.0 * pow10(step_dp as nat) < pow10(r.2@.1),
{
    let order_amount = base_amount.truncate_to_dp(step_dp);
    let gross = checked_mul(order_amount, price).unwrap();
    let keep = checked_sub(Decimal::new(10, 1), fee_percent).unwrap();
    let quote_amount = round_dp(checked_mul(gross, keep).unwrap(), 8);
    let base_dust = checked_sub(base_amount, order_amount).unwrap();
    proof {
        let (x, y, s) = aligned(base_amount@, order_amount@);
        if truncation_exact(base_amount@, step_dp as nat) && base_amount@.0 >= 0 && -MAX_MANTISSA
            <= x <= MAX_MANTISSA && -MAX_MANTISSA <= y <= MAX_MANTISSA && -MAX_MANTISSA <= x - y
            <= MAX_MANTISSA {
            lemma_dust_below_step(base_amount@, order_amount@, base_dust@, step_dp as nat);
        }
    }
    (order_amount, quote_amount, base_dust)
}

/// The amounts of the three orders around a triangle starting with `amount` of the
/// stablecoin: buy B, then sell B for C (when B is the base of the middle pair) or buy C
/// with B, then sell C for the stablecoin.
pub fn calculate_triangle_amounts(
    amount: Decimal,
    prices: (Decimal, Decimal, Decimal),
    step_dps: (u32, u32, u32),
    fee_percent: Decimal,
    b_is_base: bool,
) -> (r: ((Decimal, Decimal, Decimal), (Decimal, Decimal, Decimal), Decimal))
    requires
        triangle_defined(
            amount@,
            (prices.0@, prices.1@, prices.2@),
            (step_dps.0 as nat, step_dps.1 as nat, step_dps.2 as nat),
            fee_percent@,
            b_is_base,
        ),
    ensures
        (((r.0).0@, (r.0).1@, (r.0).2@), ((r.1).0@, (r.1).1@, (r.1).2@), r.2@) == triangle_amounts(
            amount@,
            (prices.0@, prices.1@, prices.2@),
            (step_dps.0 as nat, step_dps.1 as nat, step_dps.2 as nat),
            fee_percent@,
            b_is_base,
        ),
        cut_to((r.0).0@, div_m(amount@, prices.0@), step_dps.0 as nat),
        cut_to(
            (r.0).1@,
            if b_is_base {
                (r.0).0@
            } else {
                div_m((r.0).0@, prices.1@)
            },
            step_dps.1 as nat,
        ),
        exists|c: (int, nat)|
            {
                &&& cut_to((r.0).2@, c, step_dps.2 as nat)
                &&& (r.1).2@ == sub_m(c, (r.0).2@)
                &&& !b_is_base ==> c == (r.0).1@
                &&& truncation_exact(c, step_dps.2 as nat) ==> abs((r.0).2@.0) * pow10(c.1) <= abs(c.0)
                    * pow10((r.0).2@.1)
            },
{
    let (order1_amount, token_a_dust) = calculate_buy_order_amounts(
        amount,
        prices.0,
        step_dps.0,
        fee_percent,
    );
    let token_b_amount = order1_amount;
    let order2_amount;
    let token_c_amount;
    let token_b_dust;
    if b_is_base {
        let (o, c, d) = calculate_sell_order_amounts(
            token_b_amount,
            prices.1,
            step_dps.1,
            fee_percent,
        );
        order2_amount = o;
        token_c_amount = c;
        token_b_dust = d;
    } else {
        let (o, d) = calculate_buy_order_amounts(token_b_amount, prices.1, step_dps.1, fee_percent);
        order2_amount = o;
        token_b_dust = d;
        token_c_amount = o;
    }
    let (order3_amount, final_amount, token_c_dust) = calculate_sell_order_amounts(
        token_c_amount,
        prices.2,
        step_dps.2,
        fee_percent,
    );
    proof {
        let c = token_c_amount@;
        if truncation_exact(c, step_dps.2 as nat) {
            lemma_truncation_law(c, order3_amount@, step_dps.2 as nat);
        }
        assert(cut_to(order3_amount@, c, step_dps.2 as nat));
    }
    (
        (order1_amount, order2_amount, order3_amount),
        (token_a_dust, token_b_dust, token_c_dust),
        final_amount,
    )
}

/// The triangle amounts can be computed without overflow or division by zero.
pub fn triangle_defined_check(
    amount: Decimal,
    prices: (Decimal, Decimal, Decimal),
    step_dps: (u32, u32, u32),
    fee_percent: Decimal,
    b_is_base: bool,
) -> (r: bool)
    ensures
        r == triangle_defined(
            amount@,
            (prices.0@, prices.1@, prices.2@),
            (step_dps.0 as nat, step_dps.1 as nat, step_dps.2 as nat),
            fee_percent@,
            b_is_base,
        ),
{
    if !buy_defined_check(amount, prices.0, step_dps.0) {
        return false;
    }
    let (o1, _) = calculate_buy_order_amounts(amount, prices.0, step_dps.0, fee_percent);
    let c;
    if b_is_base {
        if !sell_defined_check(o1, prices.1, step_dps.1, fee_percent) {
            return false;
        }
        let (_, got, _) = calculate_sell_order_amounts(o1, prices.1, step_dps.1, fee_percent);
        c = got;
    } else {
        if !buy_defined_check(o1, prices.1, step_dps.1) {
            return false;
        }
        let (o2, _) = calculate_buy_order_amounts(o1, prices.1, step_dps.1, fee_percent);
        c = o2;
    }
    sell_defined_check(c, prices.2, step_dps.2, fee_percent)
}

/// Where the stake is positive and the stake and the final amount fit in 96 bits at their
/// common scale, the profit is not negative when the final amount is at least the stake,
/// and not positive when it is at most the stake (the division may round a tiny profit to
/// zero, so the strict signs are not owed).
pub open spec fn profit_has_sign_of_gain(amount: (int, nat), final_amount: (int, nat), profit: (int, nat)) -> bool {
    let (x, y, s) = aligned(final_amount, amount);
    (amount.0 > 0 && -MAX_MANTISSA <= x <= MAX_MANTISSA && -MAX_MANTISSA <= y <= MAX_MANTISSA
        && -MAX_MANTISSA <= x - y <= MAX_MANTISSA) ==> (!value_lt(final_amount, amount) ==> profit.0 >= 0)
        && (!value_lt(amount, final_amount) ==> profit.0 <= 0)
}

/// The profit in percent of ending with `final_amount` after starting with `amount`.
pub fn calculate_profit_percent(amount: Decimal, final_amount: Decimal) -> (r: Decimal)
    requires
        profit_defined(amount@, final_amount@),
    ensures
        r@ == profit_percent(amount@, final_amount@),
        profit_has_sign_of_gain(amount@, final_amount@, r@),
{
    let gain = checked_sub(final_amount, amount).unwrap();
    let ratio = checked_div(gain, amount).unwrap();
    let r = checked_mul(ratio, Decimal::new(1000, 1)).unwrap();
    proof {
        let (x, y, s) = aligned(final_amount@, amount@);
        if amount@.0 > 0 && -MAX_MANTISSA <= x <= MAX_MANTISSA && -MAX_MANTISSA <= y <= MAX_MANTISSA
            && -MAX_MANTISSA <= x - y <= MAX_MANTISSA {
            lemma_aligned_order(final_amount@, amount@);
            lemma_pow10_positive(s);
            lemma_pow10_positive(gain@.1);
            let g = gain@.0;
            assert(g * pow10(s) == (x - y) * pow10(gain@.1));
            assert(x >= y ==> g >= 0) by (nonlinear_arith)
                requires
                    g * pow10(s) == (x - y) * pow10(gain@.1),
                    pow10(s) >= 1,
                    pow10(gain@.1) >= 1,
            ;
            assert(x <= y ==> g <= 0) by (nonlinear_arith)
                requires
                    g * pow10(s) == (x - y) * pow10(gain@.1),
                    pow10(s) >= 1,
                    pow10(gain@.1) >= 1,
            ;
            assert(g >= 0 ==> g * amount@.0 >= 0) by (nonlinear_arith)
                requires
                    amount@.0 > 0,
            ;
            assert(g <= 0 ==> g * amount@.0 <= 0) by (nonlinear_arith)
                requires
                    amount@.0 > 0,
            ;
            assert(ratio@.0 >= 0 ==> ratio@.0 * 1000 >= 0);
            assert(ratio@.0 <= 0 ==> ratio@.0 * 1000 <= 0);
        }
    }
    r
}

pub fn profit_defined_check(amount: Decimal, final_amount: Decimal) -> (r: bool)
    ensures
        r == profit_defined(amount@, final_amount@),
{
    let gain = match checked_sub(final_amount, amount) {
        Some(x) => x,
        None => return false,
    };
    let ratio = match checked_div(gain, amount) {
        Some(x) => x,
        None => return false,
    };
    checked_mul(ratio, Decimal::new(1000, 1)).is_some()
}

/// The step size of the pair's first `LOT_SIZE` filter.
pub fn get_step_size(pair: &TokenPair) -> (r: Option<Decimal>)
    ensures
        r == first_step_size(pair.info.filters@),
{
    let filters = &pair.info.filters;
    let mut i: usize = 0;
    assert(filters@.skip(0) =~= filters@);
    while i < filters.len()
        invariant
            i <= filters@.len(),
            filters@ == pair.info.filters@,
            first_step_size(filters@) == first_step_size(filters@.skip(i as int)),
        decreases filters.len() - i,
    {
        assert(filters@.skip(i as int).drop_first() =~= filters@.skip(i + 1));
        assert(filters@.skip(i as int)[0] == filters@[i as int]);
        let f = filters[i];
        match f {
            Filter::LotSize { step_size, .. } => {
                return Some(step_size);
            },
            _ => {},
        }
        i = i + 1;
    }
    None
}

/// The minimal notional of the pair's first `NOTIONAL` filter.
pub fn get_notional(pair: &TokenPair) -> (r: Option<Decimal>)
    ensures
        r == first_min_notional(pair.info.filters@),
{
    let filters = &pair.info.filters;
    let mut i: usize = 0;
    assert(filters@.skip(0) =~= filters@);
    while i < filters.len()
        invariant
            i <= filters@.len(),
            filters@ == pair.info.filters@,
            first_min_notional(filters@) == first_min_notional(filters@.skip(i as int)),
        decreases filters.len() - i,
    {
        assert(filters@.skip(i as int).drop_first() =~= filters@.skip(i + 1));
        assert(filters@.skip(i as int)[0] == filters@[i as int]);
        let f = filters[i];
        match f {
            Filter::Notional { min_notional, .. } => {
                return Some(min_notional);
            },
            _ => {},
        }
        i = i + 1;
    }
    None
}

/// An order of `amount` at `price`, refused when its volume `amount * price` is below
/// `min_notional`.
pub fn construct_order(
    symbol: String,
    price: Decimal,
    amount: Decimal,
    side: String,
    min_notional: Decimal,
) -> (r: Result<Order, PlanError>)
    requires
        rd_checked_mul(amount@, price@) is Some,
    ensures
        r is Ok <==> !value_lt(mul_m(amount@, price@), min_notional@),
        r matches Ok(o) ==> o.symbol@ == symbol@ && o.price@ == price@ && o.amount@ == amount@
            && o.side@ == side@,
        r matches Err(e) ==> e matches PlanError::BelowMinNotional { symbol: s, volume: v, min_notional: m }
            && s@ == symbol@ && v@ == mul_m(amount@, price@) && m@ == min_notional@,
{
    let volume = checked_mul(amount, price).unwrap();
    if less_than(volume, min_notional) {
        return Err(PlanError::BelowMinNotional { symbol, volume, min_notional });
    }
    Ok(Order { symbol, price, amount, side })
}

/// The number of digits of the lot step of a pair (the scale of its normalized step size).
pub open spec fn step_dp_of(pair: TokenPair) -> nat {
    normalize_model(first_step_size(pair.info.filters@).unwrap()@).1
}

/// The minimal notional of a pair.
pub open spec fn notional_of(pair: TokenPair) -> (int, nat) {
    first_min_notional(pair.info.filters@).unwrap()@
}

/// B is the base of the first two pairs, so the middle order sells B.
pub open spec fn middle_sells(t: Triangle) -> bool {
    t.intermediate_token@ == t.pairs[0].base@ && t.intermediate_token@ == t.pairs[1].base@
}

/// The price of the first level of the book of leg `i`.
pub open spec fn top_price(prices: [Vec<[Decimal; 2]>; 3], i: int) -> (int, nat) {
    prices[i][0][0]@
}

pub open spec fn plan_prices(prices: [Vec<[Decimal; 2]>; 3]) -> ((int, nat), (int, nat), (int, nat)) {
    (top_price(prices, 0), top_price(prices, 1), top_price(prices, 2))
}

pub open spec fn plan_dps(t: Triangle) -> (nat, nat, nat) {
    (step_dp_of(t.pairs[0]), step_dp_of(t.pairs[1]), step_dp_of(t.pairs[2]))
}

/// The amounts of a plan.
pub open spec fn plan_amounts(
    t: Triangle,
    prices: [Vec<[Decimal; 2]>; 3],
    amount: (int, nat),
    fee: (int, nat),
) -> (((int, nat), (int, nat), (int, nat)), ((int, nat), (int, nat), (int, nat)), (int, nat)) {
    triangle_amounts(amount, plan_prices(prices), plan_dps(t), fee, middle_sells(t))
}

/// The amount of the order of leg `i`.
pub open spec fn leg_amount(
    t: Triangle,
    prices: [Vec<[Decimal; 2]>; 3],
    amount: (int, nat),
    fee: (int, nat),
    i: int,
) -> (int, nat) {
    let o = plan_amounts(t, prices, amount, fee).0;
    if i == 0 {
        o.0
    } else if i == 1 {
        o.1
    } else {
        o.2
    }
}

/// The volume (amount times price) of the order of leg `i`.
pub open spec fn leg_volume(
    t: Triangle,
    prices: [Vec<[Decimal; 2]>; 3],
    amount: (int, nat),
    fee: (int, nat),
    i: int,
) -> (int, nat) {
    mul_m(leg_amount(t, prices, amount, fee, i), top_price(prices, i))
}

/// The order of leg `i` is below its pair's minimal notional.
pub open spec fn leg_too_small(
    t: Triangle,
    prices: [Vec<[Decimal; 2]>; 3],
    amount: (int, nat),
    fee: (int, nat),
    i: int,
) -> bool {
    value_lt(leg_volume(t, prices, amount, fee, i), notional_of(t.pairs[i]))
}

/// A plan can be computed: every book has a level, every pair has a lot step and a
/// minimal notional, and no step of the arithmetic overflows or divides by zero.
pub open spec fn plan_defined(
    t: Triangle,
    prices: [Vec<[Decimal; 2]>; 3],
    amount: (int, nat),
    fee: (int, nat),
) -> bool {
    &&& forall|i: int| 0 <= i < 3 ==> prices[i]@.len() > 0
    &&& forall|i: int| 0 <= i < 3 ==> first_step_size(t.pairs[i].info.filters@) is Some
    &&& forall|i: int| 0 <= i < 3 ==> first_min_notional(t.pairs[i].info.filters@) is Some
    &&& triangle_defined(amount, plan_prices(prices), plan_dps(t), fee, middle_sells(t))
    &&& profit_defined(amount, plan_amounts(t, prices, amount, fee).2)
    &&& forall|i: int|
        0 <= i < 3 ==> rd_checked_mul(leg_amount(t, prices, amount, fee, i), top_price(prices, i)) is Some
}

/// The order of leg `i` of a plan.
pub open spec fn is_leg_order(
    o: Order,
    t: Triangle,
    prices: [Vec<[Decimal; 2]>; 3],
    amount: (int, nat),
    fee: (int, nat),
    i: int,
) -> bool {
    &&& o.symbol@ == t.pairs[i].symbol@
    &&& o.price@ == top_price(prices, i)
    &&& o.amount@ == leg_amount(t, prices, amount, fee, i)
    &&& o.side@ == (if i == 0 {
        "BUY"@
    } else if i == 2 {
        "SELL"@
    } else if middle_sells(t) {
        "SELL"@
    } else {
        "BUY"@
    })
}

/// The refusal of the order of leg `i`.
pub open spec fn is_leg_refusal(
    e: PlanError,
    t: Triangle,
    prices: [Vec<[Decimal; 2]>; 3],
    amount: (int, nat),
    fee: (int, nat),
    i: int,
) -> bool {
    e matches PlanError::BelowMinNotional { symbol, volume, min_notional }
        && symbol@ == t.pairs[i].symbol@ && volume@ == leg_volume(t, prices, amount, fee, i)
        && min_notional@ == notional_of(t.pairs[i])
}

/// What a plan computation returns when the clock read `now_millis`: the three orders
/// when none is below its minimal notional, else the refusal of the first that is.
pub open spec fn plan_outcome(
    r: Result<ArbitragePlan, PlanError>,
    t: Triangle,
    prices: [Vec<[Decimal; 2]>; 3],
    amount: (int, nat),
    fee: (int, nat),
    now_millis: Option<u128>,
) -> bool {
    &&& r is Ok <==> (!leg_too_small(t, prices, amount, fee, 0) && !leg_too_small(
        t,
        prices,
        amount,
        fee,
        1,
    ) && !leg_too_small(t, prices, amount, fee, 2) && now_millis is Some)
    &&& r matches Ok(plan) ==> {
        &&& is_leg_order(plan.orders[0], t, prices, amount, fee, 0)
        &&& is_leg_order(plan.orders[1], t, prices, amount, fee, 1)
        &&& is_leg_order(plan.orders[2], t, prices, amount, fee, 2)
        &&& plan.profit_percent@ == profit_percent(amount, plan_amounts(t, prices, amount, fee).2)
        &&& plan.timestamp == now_millis.unwrap() as u64
    }
    &&& r matches Err(e) ==> if leg_too_small(t, prices, amount, fee, 0) {
        is_leg_refusal(e, t, prices, amount, fee, 0)
    } else if leg_too_small(t, prices, amount, fee, 1) {
        is_leg_refusal(e, t, prices, amount, fee, 1)
    } else if leg_too_small(t, prices, amount, fee, 2) {
        is_leg_refusal(e, t, prices, amount, fee, 2)
    } else {
        e is ClockBeforeEpoch
    }
}

/// The number of digits of a pair's lot step.
fn step_dp(pair: &TokenPair) -> (r: u32)
    requires
        first_step_size(pair.info.filters@) is Some,
    ensures
        r == step_dp_of(*pair),
{
    normalize(get_step_size(pair).unwrap()).scale()
}

/// What a plan is made of: order `i` trades pair `i` of the triangle at the price of the
/// first (best) level of book `i`; the first order buys B, the last sells C, the middle one
/// sells B when B is the base of the first two pairs and buys C otherwise; and each amount is
/// cut to the digits of its own pair's lot step: the first from what the stake buys, the
/// middle from the B the first order bought (or what it buys), the last from the C obtained
/// (the middle order's amount when it bought C).
pub open spec fn plan_follows_books(p: ArbitragePlan, t: Triangle, prices: [Vec<[Decimal; 2]>; 3], amount: (int, nat)) -> bool {
    let sells = t.intermediate_token@ == t.pairs[0].base@ && t.intermediate_token@ == t.pairs[1].base@;
    &&& forall|i: int|
        0 <= i < 3 ==> {
            &&& (#[trigger] p.orders[i]).symbol@ == t.pairs[i].symbol@
            &&& p.orders[i].price@ == prices[i][0][0]@
            &&& exists|x: (int, nat)| cut_to(p.orders[i].amount@, x, step_dp_of(t.pairs[i]))
        }
    &&& p.orders[0].side@ == "BUY"@
    &&& p.orders[1].side@ == (if sells {
        "SELL"@
    } else {
        "BUY"@
    })
    &&& p.orders[2].side@ == "SELL"@
    &&& cut_to(p.orders[0].amount@, div_m(amount, prices[0][0][0]@), step_dp_of(t.pairs[0]))
    &&& cut_to(
        p.orders[1].amount@,
        if sells {
            p.orders[0].amount@
        } else {
            div_m(p.orders[0].amount@, prices[1][0][0]@)
        },
        step_dp_of(t.pairs[1]),
    )
    &&& exists|c: (int, nat)|
        cut_to(p.orders[2].amount@, c, step_dp_of(t.pairs[2])) && (!sells ==> c == p.orders[1].amount@)
}

/// The plan of three orders around `triangle` starting with `amount` of the stablecoin,
/// at the first level of each book, stamped `now_millis` (milliseconds since the epoch,
/// `None` where the clock reads before the epoch).
pub fn calculate_plan_at(
    triangle: &Triangle,
    prices: [Vec<[Decimal; 2]>; 3],
    amount: Decimal,
    fee: Decimal,
    now_millis: Option<u128>,
) -> (r: Result<ArbitragePlan, PlanError>)
    requires
        plan_defined(*triangle, prices, amount@, fee@),
    ensures
        plan_outcome(r, *triangle, prices, amount@, fee@, now_millis),
        r matches Ok(p) ==> profit_has_sign_of_gain(
            amount@,
            plan_amounts(*triangle, prices, amount@, fee@).2,
            p.profit_percent@,
        ),
        r matches Ok(p) ==> plan_follows_books(p, *triangle, prices, amount@),
{
    let ghost books = prices;
    let prices = (prices[0][0][0], prices[1][0][0], prices[2][0][0]);
    let step_dps = (step_dp(&triangle.pairs[0]), step_dp(&triangle.pairs[1]), step_dp(&triangle.pairs[2]));
    let b_is_base = triangle.intermediate_token == triangle.pairs[0].base
        && triangle.intermediate_token == triangle.pairs[1].base;
    let middle_side = if b_is_base {
        "SELL".to_string()
    } else {
        "BUY".to_string()
    };
    let (orders_amounts, _dusts, final_amount) = calculate_triangle_amounts(
        amount,
        prices,
        step_dps,
        fee,
        b_is_base,
    );
    let profit_percent = calculate_profit_percent(amount, final_amount);
    let not1 = get_notional(&triangle.pairs[0]).unwrap();
    let not2 = get_notional(&triangle.pairs[1]).unwrap();
    let not3 = get_notional(&triangle.pairs[2]).unwrap();
    let order_1 = construct_order(
        triangle.pairs[0].symbol.clone(),
        prices.0,
        orders_amounts.0,
        "BUY".to_string(),
        not1,
    )?;
    let order_2 = construct_order(
        triangle.pairs[1].symbol.clone(),
        prices.1,
        orders_amounts.1,
        middle_side,
        not2,
    )?;
    let order_3 = construct_order(
        triangle.pairs[2].symbol.clone(),
        prices.2,
        orders_amounts.2,
        "SELL".to_string(),
        not3,
    )?;
    let timestamp = match now_millis {
        Some(ms) => ms as u64,
        None => return Err(PlanError::ClockBeforeEpoch),
    };
    let plan = ArbitragePlan { orders: [order_1, order_2, order_3], profit_percent, timestamp };
    proof {
        assert(plan.orders[2].amount@ == orders_amounts.2@);
        assert(plan.orders[1].amount@ == orders_amounts.1@);
        assert(plan.orders[0].amount@ == orders_amounts.0@);
        assert(step_dps.2 as nat == step_dp_of(triangle.pairs[2]));
        assert(exists|c: (int, nat)|
            {
                &&& cut_to(orders_amounts.2@, c, step_dps.2 as nat)
                &&& _dusts.2@ == sub_m(c, orders_amounts.2@)
                &&& !b_is_base ==> c == orders_amounts.1@
                &&& truncation_exact(c, step_dps.2 as nat) ==> abs(orders_amounts.2@.0) * pow10(c.1) <= abs(c.0)
                    * pow10(orders_amounts.2@.1)
            });
        let c = choose|c: (int, nat)|
            {
                &&& cut_to(orders_amounts.2@, c, step_dps.2 as nat)
                &&& _dusts.2@ == sub_m(c, orders_amounts.2@)
                &&& !b_is_base ==> c == orders_amounts.1@
                &&& truncation_exact(c, step_dps.2 as nat) ==> abs(orders_amounts.2@.0) * pow10(c.1) <= abs(c.0)
                    * pow10(orders_amounts.2@.1)
            };
        assert(cut_to(plan.orders[0].amount@, div_m(amount@, books[0][0][0]@), step_dp_of(triangle.pairs[0])));
        assert(cut_to(plan.orders[2].amount@, c, step_dp_of(triangle.pairs[2])));
        assert forall|i: int| 0 <= i < 3 implies {
            &&& (#[trigger] plan.orders[i]).symbol@ == triangle.pairs[i].symbol@
            &&& plan.orders[i].price@ == books[i][0][0]@
            &&& exists|x: (int, nat)| cut_to(plan.orders[i].amount@, x, step_dp_of(triangle.pairs[i]))
        } by {
            if i == 0 {
                assert(cut_to(plan.orders[0].amount@, div_m(amount@, books[0][0][0]@), step_dp_of(triangle.pairs[0])));
            } else if i == 1 {
                let x = if b_is_base {
                    orders_amounts.0@
                } else {
                    div_m(orders_amounts.0@, books[1][0][0]@)
                };
                assert(cut_to(plan.orders[1].amount@, x, step_dp_of(triangle.pairs[1])));
            } else {
                assert(cut_to(plan.orders[2].amount@, c, step_dp_of(triangle.pairs[2])));
            }
        }
        assert(plan_follows_books(plan, *triangle, books, amount@));
    }
    Ok(plan)
}

/// Reads the clock with `std::time::SystemTime::now` and gives the time since the Unix
/// epoch in milliseconds (`Duration::as_millis`), or `None` where the clock reads before
/// the epoch. Nothing is stated of the value: it is the time.
#[verifier::external_body]
pub(crate) fn unix_time_millis() -> Option<u128> {
    match std::time::SystemTime::now().duration_since(std::time::UNIX_EPOCH) {
        Ok(elapsed) => Some(elapsed.as_millis()),
        Err(_) => None,
    }
}

/// The plan of three orders around `triangle` starting with `amount` of the stablecoin,
/// stamped with the current time.
pub fn calculate_plan(
    triangle: &Triangle,
    prices: [Vec<[Decimal; 2]>; 3],
    amount: Decimal,
    fee: Decimal,
) -> (r: Result<ArbitragePlan, PlanError>)
    requires
        plan_defined(*triangle, prices, amount@, fee@),
    ensures
        exists|now_millis: Option<u128>| plan_outcome(r, *triangle, prices, amount@, fee@, now_millis),
        r matches Ok(p) ==> plan_follows_books(p, *triangle, prices, amount@),
        r matches Ok(p) ==> profit_has_sign_of_gain(
            amount@,
            plan_amounts(*triangle, prices, amount@, fee@).2,
            p.profit_percent@,
        ),
{
    let now = unix_time_millis();
    calculate_plan_at(triangle, prices, amount, fee, now)
}

/// Whether a plan can be computed for these inputs (see `plan_defined`).
pub fn plan_defined_check(
    triangle: &Triangle,
    prices: &[Vec<[Decimal; 2]>; 3],
    amount: Decimal,
    fee: Decimal,
) -> (r: bool)
    ensures
        r == plan_defined(*triangle, *prices, amount@, fee@),
{
    if prices[0].len() == 0 || prices[1].len() == 0 || prices[2].len() == 0 {
        return false;
    }
    if get_step_size(&triangle.pairs[0]).is_none() || get_step_size(&triangle.pairs[1]).is_none()
        || get_step_size(&triangle.pairs[2]).is_none() {
        return false;
    }
    if get_notional(&triangle.pairs[0]).is_none() || get_notional(&triangle.pairs[1]).is_none()
        || get_notional(&triangle.pairs[2]).is_none() {
        return false;
    }
    assert(forall|i: int| 0 <= i < 3 ==> prices[i]@.len() > 0) by {
        assert(prices[0]@.len() > 0 && prices[1]@.len() > 0 && prices[2]@.len() > 0);
    }
    assert(forall|i: int| 0 <= i < 3 ==> first_step_size(triangle.pairs[i].info.filters@) is Some);
    assert(forall|i: int| 0 <= i < 3 ==> first_min_notional(triangle.pairs[i].info.filters@) is Some);
    let top = (prices[0][0][0], prices[1][0][0], prices[2][0][0]);
    let step_dps = (step_dp(&triangle.pairs[0]), step_dp(&triangle.pairs[1]), step_dp(&triangle.pairs[2]));
    let b_is_base = triangle.intermediate_token == triangle.pairs[0].base
        && triangle.intermediate_token == triangle.pairs[1].base;
    if !triangle_defined_check(amount, top, step_dps, fee, b_is_base) {
        return false;
    }
    let (orders_amounts, _dusts, final_amount) = calculate_triangle_amounts(
        amount,
        top,
        step_dps,
        fee,
        b_is_base,
    );
    if !profit_defined_check(amount, final_amount) {
        return false;
    }
    let ok0 = checked_mul(orders_amounts.0, top.0).is_some();
    let ok1 = checked_mul(orders_amounts.1, top.1).is_some();
    let ok2 = checked_mul(orders_amounts.2, top.2).is_some();
    assert((forall|i: int|
        0 <= i < 3 ==> rd_checked_mul(leg_amount(*triangle, *prices, amount@, fee@, i), top_price(*prices, i)) is Some)
        <==> (ok0 && ok1 && ok2)) by {
        assert(leg_amount(*triangle, *prices, amount@, fee@, 0) == orders_amounts.0@);
        assert(leg_amount(*triangle, *prices, amount@, fee@, 1) == orders_amounts.1@);
        assert(leg_amount(*triangle, *prices, amount@, fee@, 2) == orders_amounts.2@);
    }
    ok0 && ok1 && ok2
}

/// The plan for these inputs, or `None` where computing it would overflow, divide by
/// zero, or find an empty book or a pair without lot step or minimal notional.
pub fn try_calculate_plan(
    triangle: &Triangle,
    prices: [Vec<[Decimal; 2]>; 3],
    amount: Decimal,
    fee: Decimal,
) -> (r: Option<Result<ArbitragePlan, PlanError>>)
    ensures
        r is Some <==> plan_defined(*triangle, prices, amount@, fee@),
        r matches Some(res) ==> exists|now_millis: Option<u128>|
            plan_outcome(res, *triangle, prices, amount@, fee@, now_millis),
        r matches Some(Ok(p)) ==> plan_follows_books(p, *triangle, prices, amount@),
{
    if plan_defined_check(triangle, &prices, amount, fee) {
        Some(calculate_plan(triangle, prices, amount, fee))
    } else {
        None
    }
}

/// Where the cut of `x` to `dp` digits is exact, the cut amount lies on the lot grid of
/// step `10^-dp`: the amount times `10^dp` is a whole number.
pub proof fn law_cut_amount_on_lot_grid(o: (int, nat), x: (int, nat), dp: nat)
    requires
        cut_to(o, x, dp),
        truncation_exact(x, dp),
    ensures
        (o.0 * pow10(dp)) % pow10(o.1) == 0,
{
    let t = truncated(x, dp);
    lemma_pow10_positive(o.1);
    assert(o.0 * pow10(dp) == t * pow10(o.1));
    vstd::arithmetic::div_mod::lemma_mod_multiples_basic(t, pow10(o.1));
}

/// The amounts around a triangle, `r` as `calculate_triangle_amounts` gives them: the first
/// order is what the stake buys at the first price, cut to the first lot step; the middle
/// order is the B bought (when B is the base of the middle pair) or the C that B buys, cut to
/// the second lot step; the last order is the C obtained cut to the third lot step, and its
/// dust is what of that C is left. When the middle order buys C, the C obtained is exactly
/// the middle order's amount, so the last order sells no more C than the middle one bought.
pub proof fn law_last_leg_sells_the_c_obtained(
    amount: (int, nat),
    prices: ((int, nat), (int, nat), (int, nat)),
    dps: (nat, nat, nat),
    fee: (int, nat),
    b_is_base: bool,
    r: (((int, nat), (int, nat), (int, nat)), ((int, nat), (int, nat), (int, nat)), (int, nat)),
)
    requires
        triangle_defined(amount, prices, dps, fee, b_is_base),
        r == triangle_amounts(amount, prices, dps, fee, b_is_base),
    ensures
        Some(r.0.0) == spec_truncate_to_dp(div_m(amount, prices.0), dps.0),
        Some(r.0.1) == spec_truncate_to_dp(
            if b_is_base {
                r.0.0
            } else {
                div_m(r.0.0, prices.1)
            },
            dps.1,
        ),
        exists|c: (int, nat)|
            {
                &&& Some(r.0.2) == spec_truncate_to_dp(c, dps.2)
                &&& r.1.2 == sub_m(c, r.0.2)
                &&& !b_is_base ==> c == r.0.1
            },
        !b_is_base ==> Some(r.0.2) == spec_truncate_to_dp(r.0.1, dps.2) && r.1.2 == sub_m(r.0.1, r.0.2),
{
    let o1 = buy_amounts(amount, prices.0, dps.0).0;
    let c = leg2_amounts(o1, prices.1, dps.1, fee, b_is_base).1;
    assert(Some(r.0.2) == spec_truncate_to_dp(c, dps.2));
    assert(r.1.2 == sub_m(c, r.0.2));
}

/// Every order of a plan trades its own pair of the triangle at the price of the first
/// (best) level of its own book: order `i` is on `pairs[i]` at `prices[i][0][0]`.
pub proof fn law_plan_orders_at_top_of_books(
    r: Result<ArbitragePlan, PlanError>,
    t: Triangle,
    prices: [Vec<[Decimal; 2]>; 3],
    amount: (int, nat),
    fee: (int, nat),
    now_millis: Option<u128>,
)
    requires
        plan_defined(t, prices, amount, fee),
        plan_outcome(r, t, prices, amount, fee, now_millis),
    ensures
        r matches Ok(p) ==> forall|i: int|
            0 <= i < 3 ==> (#[trigger] p.orders[i]).symbol@ == t.pairs[i].symbol@ && p.orders[i].price@
                == prices[i][0][0]@,
{
    if let Ok(p) = r {
        assert forall|i: int| 0 <= i < 3 implies (#[trigger] p.orders[i]).symbol@ == t.pairs[i].symbol@
            && p.orders[i].price@ == prices[i][0][0]@ by {
            assert(is_leg_order(p.orders[i], t, prices, amount, fee, i));
        }
    }
}

/// Every order amount of a plan is cut to the digits of the lot step of its own pair
/// (`step_dp_of(pairs[i])`): the first from what the stake buys at the first top price, the
/// middle from the B the first order bought (when the middle order sells B) or the C that it
/// buys at the second top price, the last from the C obtained, which is the middle order's
/// amount when the middle order bought C.
pub proof fn law_plan_amounts_cut_to_own_lot_steps(
    r: Result<ArbitragePlan, PlanError>,
    t: Triangle,
    prices: [Vec<[Decimal; 2]>; 3],
    amount: (int, nat),
    fee: (int, nat),
    now_millis: Option<u128>,
)
    requires
        plan_defined(t, prices, amount, fee),
        plan_outcome(r, t, prices, amount, fee, now_millis),
    ensures
        r matches Ok(p) ==> {
            let sells = t.intermediate_token@ == t.pairs[0].base@ && t.intermediate_token@ == t.pairs[1].base@;
            &&& Some(p.orders[0].amount@) == spec_truncate_to_dp(
                div_m(amount, prices[0][0][0]@),
                step_dp_of(t.pairs[0]),
            )
            &&& Some(p.orders[1].amount@) == spec_truncate_to_dp(
                if sells {
                    p.orders[0].amount@
                } else {
                    div_m(p.orders[0].amount@, prices[1][0][0]@)
                },
                step_dp_of(t.pairs[1]),
            )
            &&& exists|c: (int, nat)|
                Some(p.orders[2].amount@) == spec_truncate_to_dp(c, step_dp_of(t.pairs[2])) && (!sells ==> c
                    == p.orders[1].amount@)
        },
{
    if let Ok(p) = r {
        assert(is_leg_order(p.orders[0], t, prices, amount, fee, 0));
        assert(is_leg_order(p.orders[1], t, prices, amount, fee, 1));
        assert(is_leg_order(p.orders[2], t, prices, amount, fee, 2));
        let tp = plan_prices(prices);
        let dps = plan_dps(t);
        let sells = middle_sells(t);
        law_last_leg_sells_the_c_obtained(
            amount,
            tp,
            dps,
            fee,
            sells,
            triangle_amounts(amount, tp, dps, fee, sells),
        );
        let o1 = buy_amounts(amount, tp.0, dps.0).0;
        let c = leg2_amounts(o1, tp.1, dps.1, fee, sells).1;
        assert(Some(p.orders[2].amount@) == spec_truncate_to_dp(c, step_dp_of(t.pairs[2])));
    }
}

} // verus!
