//! Fixed-point decimals as exchanged with the exchange: a 96-bit signed mantissa and
//! a scale of at most 28 digits. The arithmetic itself is done by `rust_decimal`; this
//! module holds the value as plain integers, states what each operation returns and
//! builds the truncation to a lot step on top of it.

use vstd::prelude::*;

verus! {

/// Largest magnitude of a mantissa (2^96 - 1).
pub const MAX_MANTISSA: i128 = 79228162514264337593543950335;

/// Largest number of digits after the decimal point.
pub const MAX_SCALE: u32 = 28;

/// 10 to the power `n`.
pub open spec fn pow10(n: nat) -> int
    decreases n,
{
    if n == 0 {
        1
    } else {
        10 * pow10((n - 1) as nat)
    }
}

/// A decimal as a pair (mantissa, scale); its value is mantissa / 10^scale.
pub open spec fn model_wf(d: (int, nat)) -> bool {
    -MAX_MANTISSA <= d.0 <= MAX_MANTISSA && d.1 <= MAX_SCALE
}

/// Two decimals denote the same rational number.
pub open spec fn same_value(a: (int, nat), b: (int, nat)) -> bool {
    a.0 * pow10(b.1) == b.0 * pow10(a.1)
}

/// The value of `a` is strictly below the value of `b`.
pub open spec fn value_lt(a: (int, nat), b: (int, nat)) -> bool {
    a.0 * pow10(b.1) < b.0 * pow10(a.1)
}

/// Integer division that rounds toward zero.
pub open spec fn tdiv(m: int, d: int) -> int {
    if m >= 0 {
        m / d
    } else {
        -((-m) / d)
    }
}

pub open spec fn abs(m: int) -> int {
    if m < 0 {
        -m
    } else {
        m
    }
}

/// The integer part of `a`, toward zero, at scale 0.
pub open spec fn trunc_model(a: (int, nat)) -> (int, nat) {
    (tdiv(a.0, pow10(a.1)), 0)
}

/// `a` rounded to `dp` digits after the point, halves to the even neighbour; a value
/// with at most `dp` digits is returned as it is.
pub open spec fn round_dp_model(a: (int, nat), dp: nat) -> (int, nat) {
    if a.1 <= dp {
        a
    } else {
        let p = pow10((a.1 - dp) as nat);
        let q = abs(a.0) / p;
        let r = abs(a.0) % p;
        let q2 = if r > p / 2 || (r == p / 2 && q % 2 == 1) {
            q + 1
        } else {
            q
        };
        (if a.0 < 0 {
            -q2
        } else {
            q2
        }, dp)
    }
}

/// `a` with trailing zero digits after the point removed; zero becomes (0, 0).
pub open spec fn normalize_model(a: (int, nat)) -> (int, nat)
    decreases a.1,
{
    if a.0 == 0 {
        (0, 0)
    } else if a.1 > 0 && a.0 % 10 == 0 {
        normalize_model((a.0 / 10, (a.1 - 1) as nat))
    } else {
        a
    }
}

/// A decimal number: `mantissa / 10^scale`, with `|mantissa| < 2^96` and `scale <= 28`.
#[derive(Clone, Copy, Debug)]
pub struct Decimal {
    mantissa: i128,
    scale: u32,
}

pub open spec fn opt_model(d: Option<Decimal>) -> Option<(int, nat)> {
    match d {
        Some(x) => Some(x@),
        None => None,
    }
}

impl View for Decimal {
    type V = (int, nat);

    closed spec fn view(&self) -> (int, nat) {
        (self.mantissa as int, self.scale as nat)
    }
}

impl Decimal {
    #[verifier::type_invariant]
    closed spec fn inv(self) -> bool {
        -MAX_MANTISSA <= self.mantissa <= MAX_MANTISSA && self.scale <= MAX_SCALE
    }

    /// Every decimal is within the representable range.
    pub fn lemma_wf(&self)
        ensures
            model_wf(self@),
    {
        proof {
            use_type_invariant(self);
        }
    }

    /// The decimal `mantissa / 10^scale`, or `None` where it is not representable.
    pub fn from_parts(mantissa: i128, scale: u32) -> (r: Option<Decimal>)
        ensures
            r is Some <==> model_wf((mantissa as int, scale as nat)),
            r matches Some(d) ==> d@ == (mantissa as int, scale as nat),
    {
        if -MAX_MANTISSA <= mantissa && mantissa <= MAX_MANTISSA && scale <= MAX_SCALE {
            Some(Decimal { mantissa, scale })
        } else {
            None
        }
    }

    /// The decimal `num / 10^scale`.
    pub fn new(num: i64, scale: u32) -> (r: Decimal)
        requires
            scale <= MAX_SCALE,
        ensures
            r@ == (num as int, scale as nat),
    {
        Decimal { mantissa: num as i128, scale }
    }

    pub fn zero() -> (r: Decimal)
        ensures
            r@ == (0int, 0nat),
    {
        Decimal { mantissa: 0, scale: 0 }
    }

    pub fn one() -> (r: Decimal)
        ensures
            r@ == (1int, 0nat),
    {
        Decimal { mantissa: 1, scale: 0 }
    }

    pub fn mantissa(&self) -> (r: i128)
        ensures
            r == self@.0,
    {
        self.mantissa
    }

    pub fn scale(&self) -> (r: u32)
        ensures
            r == self@.1,
    {
        self.scale
    }
}

/// What `rust_decimal::Decimal::checked_sub` returns for the two operands.
pub uninterp spec fn rd_checked_sub(a: (int, nat), b: (int, nat)) -> Option<(int, nat)>;

/// What `rust_decimal::Decimal::checked_mul` returns for the two operands.
pub uninterp spec fn rd_checked_mul(a: (int, nat), b: (int, nat)) -> Option<(int, nat)>;

/// What `rust_decimal::Decimal::checked_div` returns for the two operands.
pub uninterp spec fn rd_checked_div(a: (int, nat), b: (int, nat)) -> Option<(int, nat)>;

/// The difference computed by `checked_sub`, where there is one.
pub open spec fn sub_m(a: (int, nat), b: (int, nat)) -> (int, nat) {
    rd_checked_sub(a, b).unwrap()
}

/// The product computed by `checked_mul`, where there is one.
pub open spec fn mul_m(a: (int, nat), b: (int, nat)) -> (int, nat) {
    rd_checked_mul(a, b).unwrap()
}

/// The quotient computed by `checked_div`, where there is one.
pub open spec fn div_m(a: (int, nat), b: (int, nat)) -> (int, nat) {
    rd_checked_div(a, b).unwrap()
}

/// Both operands brought to the larger of their scales.
pub open spec fn aligned(a: (int, nat), b: (int, nat)) -> (int, int, nat) {
    if a.1 >= b.1 {
        (a.0, b.0 * pow10((a.1 - b.1) as nat), a.1)
    } else {
        (a.0 * pow10((b.1 - a.1) as nat), b.0, b.1)
    }
}

/// Calls `rust_decimal::Decimal::checked_sub`. Its result is named; where both operands,
/// brought to the larger scale, and their difference fit in 96 bits, the source computes the
/// difference without rounding, which the contract states. Nothing is said of the rounded
/// results.
#[verifier::external_body]
pub(crate) fn checked_sub(a: Decimal, b: Decimal) -> (r: Option<Decimal>)
    ensures
        opt_model(r) == rd_checked_sub(a@, b@),
        r matches Some(x) ==> model_wf(x@),
        ({
            let (x, y, s) = aligned(a@, b@);
            -MAX_MANTISSA <= x <= MAX_MANTISSA && -MAX_MANTISSA <= y <= MAX_MANTISSA
                && -MAX_MANTISSA <= x - y <= MAX_MANTISSA
        }) ==> (r is Some && same_value(
            r.unwrap()@,
            (aligned(a@, b@).0 - aligned(a@, b@).1, aligned(a@, b@).2),
        )),
{
    let x = rust_decimal::Decimal::from_i128_with_scale(a.mantissa, a.scale);
    let y = rust_decimal::Decimal::from_i128_with_scale(b.mantissa, b.scale);
    match x.checked_sub(y) {
        Some(z) => Some(Decimal { mantissa: z.mantissa(), scale: z.scale() }),
        None => None,
    }
}

/// Calls `rust_decimal::Decimal::checked_mul`. Its result is named. The source returns zero
/// (scale 0) when an operand is zero, the plain product of two non-zero operands when it
/// fits in 96 bits with a scale of at most 28, and, when the right operand is `10^k` with
/// `k` at most the left operand's scale, a value equal to the product (only zero digits are
/// dropped). More generally, where the product drops to 96 bits by removing at most
/// `a.scale + b.scale` trailing zero digits, its rescaling (`Buf24::rescale`, which drops the
/// fewest digits that make it fit) is exact. The product's sign is the operands' (rounding
/// may give zero). Nothing more is said of the rounded results.
#[verifier::external_body]
pub(crate) fn checked_mul(a: Decimal, b: Decimal) -> (r: Option<Decimal>)
    ensures
        opt_model(r) == rd_checked_mul(a@, b@),
        r matches Some(x) ==> model_wf(x@),
        a@.0 == 0 || b@.0 == 0 ==> opt_model(r) == Some((0int, 0nat)),
        a@.0 != 0 && b@.0 != 0 && a@.1 + b@.1 <= MAX_SCALE && -MAX_MANTISSA <= a@.0 * b@.0
            <= MAX_MANTISSA ==> opt_model(r) == Some((a@.0 * b@.0, a@.1 + b@.1)),
        r matches Some(x) ==> (a@.0 * b@.0 >= 0 ==> x@.0 >= 0) && (a@.0 * b@.0 <= 0 ==> x@.0 <= 0),
        forall|k: nat|
            k <= 18 && k <= a@.1 && b@ == (#[trigger] pow10(k), 0nat) ==> (r is Some
                && same_value(r.unwrap()@, (a@.0 * b@.0, a@.1 + b@.1))),
        forall|j: nat|
            j <= a@.1 + b@.1 && a@.1 + b@.1 <= MAX_SCALE && (a@.0 * b@.0) % #[trigger] pow10(j) == 0
                && -MAX_MANTISSA <= (a@.0 * b@.0) / pow10(j) <= MAX_MANTISSA ==> (r is Some && same_value(
                r.unwrap()@,
                (a@.0 * b@.0, a@.1 + b@.1),
            )),
{
    let x = rust_decimal::Decimal::from_i128_with_scale(a.mantissa, a.scale);
    let y = rust_decimal::Decimal::from_i128_with_scale(b.mantissa, b.scale);
    match x.checked_mul(y) {
        Some(z) => Some(Decimal { mantissa: z.mantissa(), scale: z.scale() }),
        None => None,
    }
}

/// Calls `rust_decimal::Decimal::checked_div`. Its result is named. The source gives `None`
/// for a zero divisor and zero (scale 0) for a zero dividend; an integer (scale 0) divided
/// by `10^k` with `k <= 18` comes out exact: the long division of its 32- and 64-bit divisor
/// paths scales the quotient only while it fits, and the exact quotient `a / 10^k` fits.
/// The quotient's sign is the operands' (rounding may give zero). Larger divisors and the
/// rounded results are not stated.
#[verifier::external_body]
pub(crate) fn checked_div(a: Decimal, b: Decimal) -> (r: Option<Decimal>)
    ensures
        opt_model(r) == rd_checked_div(a@, b@),
        r matches Some(x) ==> model_wf(x@),
        b@.0 == 0 ==> r is None,
        a@.0 == 0 && b@.0 != 0 ==> opt_model(r) == Some((0int, 0nat)),
        r matches Some(x) ==> (a@.0 * b@.0 >= 0 ==> x@.0 >= 0) && (a@.0 * b@.0 <= 0 ==> x@.0 <= 0),
        forall|k: nat|
            k <= 18 && a@.1 == 0 && b@ == (#[trigger] pow10(k), 0nat) ==> (r is Some && same_value(
                r.unwrap()@,
                (a@.0, k),
            )),
{
    let x = rust_decimal::Decimal::from_i128_with_scale(a.mantissa, a.scale);
    let y = rust_decimal::Decimal::from_i128_with_scale(b.mantissa, b.scale);
    match x.checked_div(y) {
        Some(z) => Some(Decimal { mantissa: z.mantissa(), scale: z.scale() }),
        None => None,
    }
}

/// What `rust_decimal::Decimal::from_str` gives for a text, as (mantissa, scale).
pub uninterp spec fn decimal_from_text(s: Seq<char>) -> Option<(int, nat)>;

/// `<rust_decimal::Decimal as FromStr>::from_str`: the number written in `s`, or `None`
/// where `s` is no number. The grammar and its rounding are named, not stated.
#[verifier::external_body]
pub(crate) fn parse_decimal(s: &str) -> (r: Option<Decimal>)
    ensures
        match r {
            Some(d) => decimal_from_text(s@) == Some(d@),
            None => decimal_from_text(s@) is None,
        },
        r matches Some(d) ==> model_wf(d@),
{
    match <rust_decimal::Decimal as core::str::FromStr>::from_str(s) {
        Ok(d) => Some(Decimal { mantissa: d.mantissa(), scale: d.scale() }),
        Err(_) => None,
    }
}

/// Calls `rust_decimal::Decimal::trunc`: the integer part toward zero, at scale 0.
#[verifier::external_body]
pub(crate) fn trunc(a: Decimal) -> (r: Decimal)
    ensures
        r@ == trunc_model(a@),
{
    let x = rust_decimal::Decimal::from_i128_with_scale(a.mantissa, a.scale);
    let z = x.trunc();
    Decimal { mantissa: z.mantissa(), scale: z.scale() }
}

/// Calls `rust_decimal::Decimal::round_dp`: rounding to `dp` digits, halves to even.
#[verifier::external_body]
pub(crate) fn round_dp(a: Decimal, dp: u32) -> (r: Decimal)
    ensures
        r@ == round_dp_model(a@, dp as nat),
{
    let x = rust_decimal::Decimal::from_i128_with_scale(a.mantissa, a.scale);
    let z = x.round_dp(dp);
    Decimal { mantissa: z.mantissa(), scale: z.scale() }
}

/// Calls `rust_decimal::Decimal::normalize`: trailing zeros after the point removed.
#[verifier::external_body]
pub(crate) fn normalize(a: Decimal) -> (r: Decimal)
    ensures
        r@ == normalize_model(a@),
{
    let x = rust_decimal::Decimal::from_i128_with_scale(a.mantissa, a.scale);
    let z = x.normalize();
    Decimal { mantissa: z.mantissa(), scale: z.scale() }
}

/// Calls `<` of `rust_decimal::Decimal`, which compares the values.
#[verifier::external_body]
pub(crate) fn less_than(a: Decimal, b: Decimal) -> (r: bool)
    ensures
        r == value_lt(a@, b@),
{
    let x = rust_decimal::Decimal::from_i128_with_scale(a.mantissa, a.scale);
    let y = rust_decimal::Decimal::from_i128_with_scale(b.mantissa, b.scale);
    x < y
}

/// `x` cut (toward zero) to `dp` digits after the point, computed as
/// `trunc(x * 10^dp) / 10^dp`; `None` where a step overflows.
pub open spec fn spec_truncate_to_dp(x: (int, nat), dp: nat) -> Option<(int, nat)> {
    let f = (pow10(dp), 0nat);
    match rd_checked_mul(x, f) {
        Some(p) => rd_checked_div(trunc_model(p), f),
        None => None,
    }
}

/// The truncation can be carried out: `10^dp` fits in an `i64` and no step overflows.
pub open spec fn truncate_defined(x: (int, nat), dp: nat) -> bool {
    dp <= 18 && spec_truncate_to_dp(x, dp) is Some
}

pub proof fn lemma_pow10_positive(n: nat)
    ensures
        pow10(n) >= 1,
    decreases n,
{
    if n > 0 {
        lemma_pow10_positive((n - 1) as nat);
    }
}

pub proof fn lemma_pow10_monotone(a: nat, b: nat)
    requires
        a <= b,
    ensures
        pow10(a) <= pow10(b),
    decreases b,
{
    if a < b {
        lemma_pow10_monotone(a, (b - 1) as nat);
        lemma_pow10_positive((b - 1) as nat);
    }
}

proof fn lemma_pow10_18()
    ensures
        pow10(18) == 1000000000000000000,
{
    reveal_with_fuel(pow10, 19);
}

/// `10^n` as an `i64`.
pub fn pow10_i64(n: u32) -> (r: i64)
    requires
        n <= 18,
    ensures
        r == pow10(n as nat),
{
    let mut r: i64 = 1;
    let mut i: u32 = 0;
    while i < n
        invariant
            i <= n <= 18,
            r == pow10(i as nat),
        decreases n - i,
    {
        proof {
            lemma_pow10_monotone((i + 1) as nat, 18);
            lemma_pow10_18();
            assert(pow10((i + 1) as nat) == 10 * pow10(i as nat));
            lemma_pow10_positive(i as nat);
        }
        r = r * 10;
        i = i + 1;
    }
    r
}

/// The conditions under which the steps of a truncation are exact: at most 18 digits, and
/// `x * 10^dp` representable: either `dp` is within the scale of `x`, or the value
/// `x * 10^dp` (the mantissa times `10^(dp - scale)`) fits in 96 bits.
pub open spec fn truncation_exact(x: (int, nat), dp: nat) -> bool {
    &&& dp <= 18
    &&& (dp <= x.1 || -MAX_MANTISSA <= x.0 * pow10((dp - x.1) as nat) <= MAX_MANTISSA)
}

/// The digits of `x` cut toward zero to `dp` places, as an integer count of `10^-dp`:
/// `x` cut to `dp` digits is `truncated(x, dp) / 10^dp`.
pub open spec fn truncated(x: (int, nat), dp: nat) -> int {
    tdiv(x.0 * pow10(dp), pow10(x.1))
}

/// Two equal values have the same integer part.
pub proof fn lemma_same_value_floor(p: (int, nat), q: (int, nat))
    requires
        same_value(p, q),
        q.0 >= 0,
    ensures
        p.0 >= 0,
        p.0 / pow10(p.1) == q.0 / pow10(q.1),
{
    let pp = pow10(p.1);
    let qq = pow10(q.1);
    lemma_pow10_positive(p.1);
    lemma_pow10_positive(q.1);
    assert(p.0 * qq == q.0 * pp);
    assert(p.0 >= 0) by (nonlinear_arith)
        requires
            p.0 * qq == q.0 * pp,
            q.0 >= 0,
            pp >= 1,
            qq >= 1,
    ;
    let a = p.0 / pp;
    let r = p.0 % pp;
    vstd::arithmetic::div_mod::lemma_fundamental_div_mod(p.0, pp);
    assert(p.0 == pp * a + r && 0 <= r < pp);
    let s = q.0 - a * qq;
    assert(s * pp == r * qq && 0 <= s < qq) by (nonlinear_arith)
        requires
            p.0 * qq == q.0 * pp,
            p.0 == pp * a + r,
            0 <= r < pp,
            s == q.0 - a * qq,
            pp >= 1,
            qq >= 1,
    ;
    vstd::arithmetic::div_mod::lemma_fundamental_div_mod_converse(q.0, qq, a, s);
}

/// `10^(a + b) = 10^a * 10^b`.
pub proof fn lemma_pow10_add(a: nat, b: nat)
    ensures
        pow10(a + b) == pow10(a) * pow10(b),
    decreases b,
{
    if b > 0 {
        lemma_pow10_add(a, (b - 1) as nat);
        assert(pow10(a + b) == 10 * pow10((a + b - 1) as nat));
        assert((a + b - 1) as nat == a + (b - 1) as nat);
        assert(pow10(a) * pow10(b) == pow10(a) * (10 * pow10((b - 1) as nat)));
        assert(pow10(a) * (10 * pow10((b - 1) as nat)) == 10 * (pow10(a) * pow10((b - 1) as nat)))
            by (nonlinear_arith);
    }
}

/// Both operands brought to the common scale keep their values.
pub proof fn lemma_aligned_values(a: (int, nat), b: (int, nat))
    ensures
        aligned(a, b).0 * pow10(a.1) == a.0 * pow10(aligned(a, b).2),
        aligned(a, b).1 * pow10(b.1) == b.0 * pow10(aligned(a, b).2),
        aligned(a, b).2 == if a.1 >= b.1 { a.1 } else { b.1 },
{
    if a.1 >= b.1 {
        let k = (a.1 - b.1) as nat;
        lemma_pow10_add(k, b.1);
        assert(k + b.1 == a.1);
        assert(b.0 * pow10(k) * pow10(b.1) == b.0 * (pow10(k) * pow10(b.1))) by (nonlinear_arith);
    } else {
        let k = (b.1 - a.1) as nat;
        lemma_pow10_add(k, a.1);
        assert(k + a.1 == b.1);
        assert(a.0 * pow10(k) * pow10(a.1) == a.0 * (pow10(k) * pow10(a.1))) by (nonlinear_arith);
    }
}

/// Brought to a common scale, two values compare as their mantissas do.
pub proof fn lemma_aligned_order(a: (int, nat), b: (int, nat))
    ensures
        (aligned(a, b).0 < aligned(a, b).1) == value_lt(a, b),
        (aligned(a, b).1 < aligned(a, b).0) == value_lt(b, a),
{
    lemma_aligned_values(a, b);
    let (x, y, s) = aligned(a, b);
    let pa = pow10(a.1);
    let pb = pow10(b.1);
    let ps = pow10(s);
    lemma_pow10_positive(a.1);
    lemma_pow10_positive(b.1);
    lemma_pow10_positive(s);
    assert((x < y) == (a.0 * pb < b.0 * pa)) by (nonlinear_arith)
        requires
            x * pa == a.0 * ps,
            y * pb == b.0 * ps,
            pa >= 1,
            pb >= 1,
            ps >= 1,
    ;
    assert((y < x) == (b.0 * pa < a.0 * pb)) by (nonlinear_arith)
        requires
            x * pa == a.0 * ps,
            y * pb == b.0 * ps,
            pa >= 1,
            pb >= 1,
            ps >= 1,
    ;
}

/// Two equal values have the same integer part toward zero.
pub proof fn lemma_same_value_tdiv(p: (int, nat), q: (int, nat))
    requires
        same_value(p, q),
    ensures
        tdiv(p.0, pow10(p.1)) == tdiv(q.0, pow10(q.1)),
{
    lemma_pow10_positive(p.1);
    lemma_pow10_positive(q.1);
    if q.0 >= 0 {
        lemma_same_value_floor(p, q);
    } else {
        let np = (-p.0, p.1);
        let nq = (-q.0, q.1);
        assert(same_value(np, nq)) by (nonlinear_arith)
            requires
                p.0 * pow10(q.1) == q.0 * pow10(p.1),
                np.0 == -p.0,
                nq.0 == -q.0,
                np.1 == p.1,
                nq.1 == q.1,
        ;
        lemma_same_value_floor(np, nq);
        if p.0 == 0 {
            assert(0int / pow10(p.1) == 0);
        }
    }
}

/// Cutting toward zero moves a value by less than one step `10^-dp`, never away from
/// zero, and never across it: with `n = x * 10^dp` (at scale `x.1`) and `t` the cut,
/// `|n - t * 10^x.1| < 10^x.1`, `|t| * 10^x.1 <= |n|`, and `t` has the sign of `x` or is 0.
pub proof fn lemma_truncation_bounds(x: (int, nat), dp: nat)
    ensures
        ({
            let n = x.0 * pow10(dp);
            let t = truncated(x, dp);
            &&& abs(n - t * pow10(x.1)) < pow10(x.1)
            &&& abs(t) * pow10(x.1) <= abs(n)
            &&& x.0 >= 0 ==> t >= 0
            &&& x.0 <= 0 ==> t <= 0
        }),
{
    let n = x.0 * pow10(dp);
    let p = pow10(x.1);
    lemma_pow10_positive(x.1);
    lemma_pow10_positive(dp);
    assert(x.0 >= 0 ==> n >= 0) by (nonlinear_arith)
        requires
            n == x.0 * pow10(dp),
            pow10(dp) >= 1,
    ;
    assert(x.0 <= 0 ==> n <= 0) by (nonlinear_arith)
        requires
            n == x.0 * pow10(dp),
            pow10(dp) >= 1,
    ;
    if n >= 0 {
        vstd::arithmetic::div_mod::lemma_fundamental_div_mod(n, p);
        let q = n / p;
        let r = n % p;
        assert(q >= 0) by (nonlinear_arith)
            requires
                n == p * q + r,
                0 <= r < p,
                n >= 0,
        ;
        assert(n - q * p == r) by (nonlinear_arith)
            requires
                n == p * q + r,
        ;
        assert(abs(q) * p <= abs(n)) by (nonlinear_arith)
            requires
                n == p * q + r,
                0 <= r,
                q >= 0,
                n >= 0,
        ;
    } else {
        let m = -n;
        vstd::arithmetic::div_mod::lemma_fundamental_div_mod(m, p);
        let q = m / p;
        let r = m % p;
        assert(q >= 0) by (nonlinear_arith)
            requires
                m == p * q + r,
                0 <= r < p,
                m >= 0,
        ;
        assert(n - (-q) * p == -r) by (nonlinear_arith)
            requires
                m == p * q + r,
                m == -n,
        ;
        assert(abs(-q) * p <= abs(n)) by (nonlinear_arith)
            requires
                m == p * q + r,
                0 <= r,
                q >= 0,
                m == -n,
        ;
    }
}

/// Cutting again changes nothing: a value with at most `dp` digits (equal to `t / 10^dp`)
/// cut to `dp` digits gives `t` back.
pub proof fn lemma_truncation_idempotent(r: (int, nat), t: int, dp: nat)
    requires
        same_value(r, (t, dp)),
    ensures
        truncated(r, dp) == t,
{
    let a = pow10(dp);
    let b = pow10(r.1);
    lemma_pow10_positive(dp);
    lemma_pow10_positive(r.1);
    assert(same_value((r.0 * a, r.1), (t * a, dp))) by (nonlinear_arith)
        requires
            r.0 * a == t * b,
            a == pow10(dp),
            b == pow10(r.1),
    ;
    lemma_same_value_tdiv((r.0 * a, r.1), (t * a, dp));
    if t >= 0 {
        vstd::arithmetic::div_mod::lemma_div_multiples_vanish(t, a);
        assert(t * a == a * t) by (nonlinear_arith);
        assert(t * a >= 0) by (nonlinear_arith)
            requires
                t >= 0,
                a >= 1,
        ;
    } else {
        vstd::arithmetic::div_mod::lemma_div_multiples_vanish(-t, a);
        assert((-t) * a == a * (-t)) by (nonlinear_arith);
        assert(-(t * a) == (-t) * a) by (nonlinear_arith);
        assert(t * a < 0) by (nonlinear_arith)
            requires
                t < 0,
                a >= 1,
        ;
    }
}

/// The law of cutting `x` to `dp` digits, stated of any `r` equal to the cut (as
/// `truncate_to_dp` gives it): `|x - r| < 10^-dp`, `|r| <= |x|`, `r` is zero or has the
/// sign of `x`, and cutting `r` again gives the same digits.
pub proof fn lemma_truncation_law(x: (int, nat), r: (int, nat), dp: nat)
    requires
        same_value(r, (truncated(x, dp), dp)),
    ensures
        abs(x.0 * pow10(r.1) - r.0 * pow10(x.1)) * pow10(dp) < pow10(x.1) * pow10(r.1),
        abs(r.0) * pow10(x.1) <= abs(x.0) * pow10(r.1),
        x.0 >= 0 ==> r.0 >= 0,
        x.0 <= 0 ==> r.0 <= 0,
        truncated(r, dp) == truncated(x, dp),
{
    let t = truncated(x, dp);
    let dd = pow10(dp);
    let xx = pow10(x.1);
    let rr = pow10(r.1);
    lemma_pow10_positive(dp);
    lemma_pow10_positive(x.1);
    lemma_pow10_positive(r.1);
    lemma_truncation_bounds(x, dp);
    lemma_truncation_idempotent(r, t, dp);
    let n = x.0 * dd;
    assert(r.0 * dd == t * rr);
    // |n - t * xx| < xx, times rr
    let diff = x.0 * rr - r.0 * xx;
    assert(diff * dd == (n - t * xx) * rr) by (nonlinear_arith)
        requires
            diff == x.0 * rr - r.0 * xx,
            n == x.0 * dd,
            r.0 * dd == t * rr,
    ;
    assert(abs(diff) * dd == abs(n - t * xx) * rr) by (nonlinear_arith)
        requires
            diff * dd == (n - t * xx) * rr,
            dd >= 1,
            rr >= 1,
    ;
    assert(abs(n - t * xx) * rr < xx * rr) by (nonlinear_arith)
        requires
            abs(n - t * xx) < xx,
            rr >= 1,
    ;
    // |t| * xx <= |n|, times rr
    assert(abs(r.0) * dd == abs(t) * rr) by (nonlinear_arith)
        requires
            r.0 * dd == t * rr,
            dd >= 1,
            rr >= 1,
    ;
    assert(abs(r.0) * xx * dd <= abs(x.0) * rr * dd) by (nonlinear_arith)
        requires
            abs(r.0) * dd == abs(t) * rr,
            abs(t) * xx <= abs(n),
            n == x.0 * dd,
            dd >= 1,
            rr >= 1,
            xx >= 1,
    ;
    assert(abs(r.0) * xx <= abs(x.0) * rr) by (nonlinear_arith)
        requires
            abs(r.0) * xx * dd <= abs(x.0) * rr * dd,
            dd >= 1,
    ;
    assert(x.0 >= 0 ==> r.0 >= 0) by (nonlinear_arith)
        requires
            r.0 * dd == t * rr,
            x.0 >= 0 ==> t >= 0,
            dd >= 1,
            rr >= 1,
    ;
    assert(x.0 <= 0 ==> r.0 <= 0) by (nonlinear_arith)
        requires
            r.0 * dd == t * rr,
            x.0 <= 0 ==> t <= 0,
            dd >= 1,
            rr >= 1,
    ;
}

/// Cutting a decimal to a number of digits after the point.
pub trait DecimalExt: View<V = (int, nat)> + Sized {
    /// `self` cut toward zero to `dp` digits after the point.
    fn truncate_to_dp(&self, dp: u32) -> (r: Decimal)
        requires
            truncate_defined(self@, dp as nat),
        ensures
            Some(r@) == spec_truncate_to_dp(self@, dp as nat),
            truncation_exact(self@, dp as nat) ==> same_value(r@, (truncated(self@, dp as nat), dp as nat)),
    ;
}

impl DecimalExt for Decimal {
    fn truncate_to_dp(&self, dp: u32) -> (r: Decimal) {
        let scale_factor = Decimal::new(pow10_i64(dp), 0);
        let scaled = checked_mul(*self, scale_factor).unwrap();
        let whole = trunc(scaled);
        let quotient = checked_div(whole, scale_factor);
        let r = quotient.unwrap();
        proof {
            if truncation_exact(self@, dp as nat) {
                let x = self@;
                let exact = (x.0 * pow10(dp as nat), x.1);
                lemma_pow10_positive(dp as nat);
                assert(pow10(dp as nat) * 1 == pow10(dp as nat));
                assert(scale_factor@ == (pow10(dp as nat), 0nat));
                use_type_invariant(self);
                if x.0 == 0 {
                    assert(exact.0 == 0);
                    assert(scaled@ == (0int, 0nat));
                    assert(same_value(scaled@, exact));
                } else if !(dp <= x.1) {
                    let k = (dp - x.1) as nat;
                    lemma_pow10_add(k, x.1);
                    lemma_pow10_positive(x.1);
                    assert(k + x.1 == dp);
                    let p = pow10(x.1);
                    let m = x.0 * pow10(k);
                    assert(x.0 * pow10(dp as nat) == m * p) by (nonlinear_arith)
                        requires
                            pow10(dp as nat) == pow10(k) * p,
                            m == x.0 * pow10(k),
                    ;
                    vstd::arithmetic::div_mod::lemma_mod_multiples_basic(m, p);
                    vstd::arithmetic::div_mod::lemma_div_multiples_vanish(m, p);
                    assert(m * p == p * m) by (nonlinear_arith);
                    assert((x.0 * pow10(dp as nat)) % pow10(x.1) == 0);
                    assert((x.0 * pow10(dp as nat)) / pow10(x.1) == m);
                    assert(x.0 * pow10(dp as nat) == x.0 * scale_factor@.0);
                    assert(same_value(scaled@, exact));
                } else {
                    assert(same_value(scaled@, (x.0 * pow10(dp as nat), x.1 + 0nat)));
                    assert(same_value(scaled@, exact));
                }
                lemma_same_value_tdiv(scaled@, exact);
                assert(whole@ == (truncated(x, dp as nat), 0nat));
                assert(quotient is Some && same_value(quotient.unwrap()@, (whole@.0, dp as nat)));
            }
        }
        r
    }
}

} // verus!
