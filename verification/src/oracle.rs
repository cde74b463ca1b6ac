use crate::bignat::{big_add, big_div, big_div_rem, big_mul, digits_value, BigNat};
use crate::fraction::{
    div_exact, lemma_same_ratio_order, lt_exact, mul_exact, same_ratio, sub_exact, Fraction,
};
use vstd::arithmetic::div_mod::*;
use vstd::prelude::*;

verus! {

/// Milli-basis points in a whole: the X7 scale.
pub const MPS: u64 = 10_000_000;

/// The one way an oracle formula can be undefined.
#[derive(Debug, Clone, Copy, PartialEq, Eq)]
pub enum OracleError {
    DivisionByZero,
}

/// 2^96, the Q96 fixed-point scale.
pub open spec fn q96_value() -> nat {
    0x1_0000_0000_0000_0000_0000_0000nat
}

/// 2^192, the scale of a Q96 amount times a Q96 ratio.
pub open spec fn q192_value() -> nat {
    0x1_0000_0000_0000_0000_0000_0000_0000_0000_0000_0000_0000_0000nat
}

/// `n / d` rounded up.
pub open spec fn ceil_div_value(n: nat, d: nat) -> nat {
    if n % d == 0 {
        n / d
    } else {
        n / d + 1
    }
}

/// The numerator of the currency raised at the clearing tick, over the
/// denominator `q96_value() * remaining_mps`: the total currency of the
/// step less what the demand above the price takes, floored at zero and
/// capped at what the demand at the price can pay.
pub open spec fn clearing_currency_numerator(
    remaining_supply: nat,
    demand_at_price: nat,
    demand_above_price: nat,
    price: nat,
    delta_mps: nat,
    remaining_mps: nat,
) -> nat {
    let scale = q96_value() * (remaining_mps as nat);
    let total = remaining_supply * price * delta_mps;
    let above = demand_above_price * delta_mps * scale;
    let cap = demand_at_price * delta_mps * scale;
    let complement: nat = if above < total {
        (total - above) as nat
    } else {
        0
    };
    if complement < cap {
        complement
    } else {
        cap
    }
}

/// Equal rationals have equal floors and are integers together.
pub proof fn lemma_same_ratio_floor(n1: nat, d1: nat, n2: nat, d2: nat)
    requires
        same_ratio(n1, d1, n2, d2),
        d1 > 0,
        d2 > 0,
    ensures
        n1 / d1 == n2 / d2,
        (n1 % d1 == 0) == (n2 % d2 == 0),
        ceil_div_value(n1, d1) == ceil_div_value(n2, d2),
{
    let q: nat = n1 / d1;
    lemma_fundamental_div_mod(n1 as int, d1 as int);
    assert(n1 == q * d1 + n1 % d1) by (nonlinear_arith)
        requires
            n1 == d1 * (n1 / d1) + n1 % d1,
            q == n1 / d1,
    ;
    lemma_same_ratio_order(n1, d1, n2, d2, q);
    lemma_same_ratio_order(n1, d1, n2, d2, q + 1);
    assert((q + 1) * d1 == q * d1 + d1) by (nonlinear_arith);
    assert((q + 1) * d2 == q * d2 + d2) by (nonlinear_arith);
    lemma_fundamental_div_mod_converse(n2 as int, d2 as int, q as int, n2 - q * d2);
}

/// 2^96.
pub fn q96() -> (r: BigNat)
    ensures
        r@ == q96_value(),
{
    let ds: Vec<u32> = vec![0, 0, 0, 1];
    let r = BigNat::from_digits(ds);
    proof {
        reveal_with_fuel(digits_value, 5);
        assert(ds@.drop_first() =~= seq![0u32, 0, 1]);
        assert(ds@.drop_first().drop_first() =~= seq![0u32, 1]);
        assert(ds@.drop_first().drop_first().drop_first() =~= seq![1u32]);
        assert(seq![1u32].drop_first() =~= Seq::<u32>::empty());
    }
    r
}

/// 2^192.
fn q192() -> (r: BigNat)
    ensures
        r@ == q192_value(),
{
    let ds: Vec<u32> = vec![0, 0, 0, 0, 0, 0, 1];
    let r = BigNat::from_digits(ds);
    proof {
        reveal_with_fuel(digits_value, 2);
        let s1 = seq![1u32];
        let s2 = seq![0u32, 1];
        let s3 = seq![0u32, 0, 1];
        let s4 = seq![0u32, 0, 0, 1];
        let s5 = seq![0u32, 0, 0, 0, 1];
        let s6 = seq![0u32, 0, 0, 0, 0, 1];
        assert(s1.drop_first() =~= Seq::<u32>::empty());
        assert(s2.drop_first() =~= s1);
        assert(s3.drop_first() =~= s2);
        assert(s4.drop_first() =~= s3);
        assert(s5.drop_first() =~= s4);
        assert(s6.drop_first() =~= s5);
        assert(ds@.drop_first() =~= s6);
        assert(digits_value(s1) == 1);
        assert(digits_value(s2) == 0x1_0000_0000nat);
        assert(digits_value(s3) == 0x1_0000_0000_0000_0000nat);
        assert(digits_value(s4) == 0x1_0000_0000_0000_0000_0000_0000nat);
        assert(digits_value(s5) == 0x1_0000_0000_0000_0000_0000_0000_0000_0000nat);
        assert(digits_value(s6) == 0x1_0000_0000_0000_0000_0000_0000_0000_0000_0000_0000nat);
    }
    r
}

/// The integer `value` as an exact rational.
pub fn rat_from_biguint(value: &BigNat) -> (r: Fraction)
    ensures
        r@ == (value@, 1nat),
{
    Fraction::from_integer(value.copy())
}

/// The integer `value` as an exact rational.
pub fn rat_from_u64(value: u64) -> (r: Fraction)
    ensures
        r@ == (value as nat, 1nat),
{
    Fraction::from_integer(BigNat::from_u64(value))
}

/// The exact rational rounded down.
pub fn floor_to_biguint(value: &Fraction) -> (r: BigNat)
    ensures
        r@ == value@.0 / value@.1,
{
    proof {
        use_type_invariant(&value);
    }
    big_div(&value.numer(), &value.denom())
}

/// The exact rational rounded up.
pub fn ceil_to_biguint(value: &Fraction) -> (r: BigNat)
    ensures
        r@ == ceil_div_value(value@.0, value@.1),
{
    proof {
        use_type_invariant(&value);
    }
    let numerator = value.numer();
    let denominator = value.denom();
    let (quotient, remainder) = big_div_rem(&numerator, &denominator);
    if remainder.is_zero() {
        quotient
    } else {
        big_add(&quotient, &BigNat::from_u64(1))
    }
}

/// `numerator / denominator` rounded up; an error for a zero denominator.
pub fn ceil_div(numerator: BigNat, denominator: BigNat) -> (r: Result<BigNat, OracleError>)
    ensures
        r is Err <==> denominator@ == 0,
        r matches Ok(q) ==> q@ == ceil_div_value(numerator@, denominator@),
{
    if denominator.is_zero() {
        return Err(OracleError::DivisionByZero);
    }
    let (quotient, remainder) = big_div_rem(&numerator, &denominator);
    Ok(
        if remainder.is_zero() {
            quotient
        } else {
            big_add(&quotient, &BigNat::from_u64(1))
        },
    )
}

/// The demand that clears the remaining supply at `price_q96` over the
/// remaining steps: `supply * price / (2^96 * remaining_mps)`, exactly.
pub fn required_demand_exact(
    remaining_supply_q96x7: &BigNat,
    price_q96: &BigNat,
    remaining_mps: u64,
) -> (r: Result<Fraction, OracleError>)
    ensures
        r is Err <==> remaining_mps == 0,
        r matches Ok(f) ==> f.represents(
            remaining_supply_q96x7@ * price_q96@,
            q96_value() * (remaining_mps as nat),
        ),
{
    if remaining_mps == 0 {
        return Err(OracleError::DivisionByZero);
    }
    let ghost s = remaining_supply_q96x7@;
    let ghost p = price_q96@;
    let ghost m = remaining_mps as nat;
    let ghost q = q96_value();
    let supply = rat_from_biguint(remaining_supply_q96x7);
    let price = rat_from_biguint(price_q96);
    let numerator = mul_exact(&supply, &price, Ghost(s), Ghost(1), Ghost(p), Ghost(1));
    let scale = rat_from_biguint(&q96());
    let mps = rat_from_u64(remaining_mps);
    let denominator = mul_exact(&scale, &mps, Ghost(q), Ghost(1), Ghost(m), Ghost(1));
    assert(q * m > 0) by (nonlinear_arith)
        requires
            q > 0,
            m > 0,
    ;
    let r = div_exact(&numerator, &denominator, Ghost(s * p), Ghost(1), Ghost(q * m), Ghost(1));
    Ok(r)
}

/// The required demand rounded up.
pub fn required_demand_ceiling(
    remaining_supply_q96x7: &BigNat,
    price_q96: &BigNat,
    remaining_mps: u64,
) -> (r: Result<BigNat, OracleError>)
    ensures
        r is Err <==> remaining_mps == 0,
        r matches Ok(c) ==> c@ == ceil_div_value(
            remaining_supply_q96x7@ * price_q96@,
            q96_value() * (remaining_mps as nat),
        ),
{
    let exact = required_demand_exact(remaining_supply_q96x7, price_q96, remaining_mps)?;
    proof {
        use_type_invariant(&exact);
    }
    proof {
        assert(q96_value() * (remaining_mps as nat) > 0) by (nonlinear_arith)
            requires
                remaining_mps > 0,
        ;
        lemma_same_ratio_floor(
            exact@.0,
            exact@.1,
            remaining_supply_q96x7@ * price_q96@,
            q96_value() * (remaining_mps as nat),
        );
    }
    Ok(ceil_to_biguint(&exact))
}

/// Whether `demand_q96` reaches the exact required demand.
pub fn can_clear_ideal(
    demand_q96: &BigNat,
    remaining_supply_q96x7: &BigNat,
    price_q96: &BigNat,
    remaining_mps: u64,
) -> (r: Result<bool, OracleError>)
    ensures
        r is Err <==> remaining_mps == 0,
        r matches Ok(b) ==> b == (demand_q96@ * (q96_value() * (remaining_mps as nat))
            >= remaining_supply_q96x7@ * price_q96@),
{
    let required = required_demand_exact(remaining_supply_q96x7, price_q96, remaining_mps)?;
    let demand = rat_from_biguint(demand_q96);
    let ghost n = remaining_supply_q96x7@ * price_q96@;
    let ghost d = q96_value() * (remaining_mps as nat);
    assert(d > 0) by (nonlinear_arith)
        requires
            d == q96_value() * (remaining_mps as nat),
            remaining_mps > 0,
    ;
    let below = lt_exact(&demand, &required, Ghost(demand_q96@), Ghost(1), Ghost(n), Ghost(d));
    Ok(!below)
}

/// The price at which `demand_q96` exactly clears the remaining supply:
/// `demand * remaining_mps * 2^96 / supply`.
pub fn price_ceiling_exact(
    demand_q96: &BigNat,
    remaining_supply_q96x7: &BigNat,
    remaining_mps: u64,
) -> (r: Result<Fraction, OracleError>)
    ensures
        r is Err <==> remaining_supply_q96x7@ == 0,
        r matches Ok(f) ==> f.represents(
            demand_q96@ * (remaining_mps as nat) * q96_value(),
            remaining_supply_q96x7@,
        ),
{
    if remaining_supply_q96x7.is_zero() {
        return Err(OracleError::DivisionByZero);
    }
    let ghost dm = demand_q96@;
    let ghost m = remaining_mps as nat;
    let ghost q = q96_value();
    let ghost s = remaining_supply_q96x7@;
    let demand = rat_from_biguint(demand_q96);
    let mps = rat_from_u64(remaining_mps);
    let dm_m = mul_exact(&demand, &mps, Ghost(dm), Ghost(1), Ghost(m), Ghost(1));
    let scale = rat_from_biguint(&q96());
    let numerator = mul_exact(&dm_m, &scale, Ghost(dm * m), Ghost(1), Ghost(q), Ghost(1));
    let supply = rat_from_biguint(remaining_supply_q96x7);
    let r = div_exact(&numerator, &supply, Ghost(dm * m * q), Ghost(1), Ghost(s), Ghost(1));
    Ok(r)
}

/// The price implied by the demand, rounded up.
pub fn price_ceiling(
    demand_q96: &BigNat,
    remaining_supply_q96x7: &BigNat,
    remaining_mps: u64,
) -> (r: Result<BigNat, OracleError>)
    ensures
        r is Err <==> remaining_supply_q96x7@ == 0,
        r matches Ok(c) ==> c@ == ceil_div_value(
            demand_q96@ * (remaining_mps as nat) * q96_value(),
            remaining_supply_q96x7@,
        ),
{
    let exact = price_ceiling_exact(demand_q96, remaining_supply_q96x7, remaining_mps)?;
    proof {
        use_type_invariant(&exact);
    }
    proof {
        lemma_same_ratio_floor(
            exact@.0,
            exact@.1,
            demand_q96@ * (remaining_mps as nat) * q96_value(),
            remaining_supply_q96x7@,
        );
    }
    Ok(ceil_to_biguint(&exact))
}

/// The currency raised at the clearing tick over `delta_mps` steps, exactly:
/// the step's share of the supply valued at the price, less what the
/// demand above the price spends, floored at zero and capped at what the
/// demand at the price can spend.
pub fn currency_raised_at_clearing_tick_exact(
    remaining_supply_q96x7: &BigNat,
    demand_at_price_q96: &BigNat,
    demand_above_price_q96: &BigNat,
    price_q96: &BigNat,
    delta_mps: u64,
    remaining_mps: u64,
) -> (r: Result<Fraction, OracleError>)
    ensures
        r is Err <==> remaining_mps == 0,
        r matches Ok(f) ==> f.represents(
            clearing_currency_numerator(
                remaining_supply_q96x7@,
                demand_at_price_q96@,
                demand_above_price_q96@,
                price_q96@,
                delta_mps as nat,
                remaining_mps as nat,
            ),
            q96_value() * (remaining_mps as nat),
        ),
{
    if remaining_mps == 0 {
        return Err(OracleError::DivisionByZero);
    }
    let ghost s = remaining_supply_q96x7@;
    let ghost t = demand_at_price_q96@;
    let ghost a = demand_above_price_q96@;
    let ghost p = price_q96@;
    let ghost dl = delta_mps as nat;
    let ghost m = remaining_mps as nat;
    let ghost q = q96_value();
    let ghost total_n = s * p * dl;
    let ghost scale_n = q * m;
    assert(scale_n > 0) by (nonlinear_arith)
        requires
            scale_n == q * m,
            q > 0,
            m > 0,
    ;

    let supply = rat_from_biguint(remaining_supply_q96x7);
    let price = rat_from_biguint(price_q96);
    let delta = rat_from_u64(delta_mps);
    let supply_price = mul_exact(&supply, &price, Ghost(s), Ghost(1), Ghost(p), Ghost(1));
    let numerator = mul_exact(&supply_price, &delta, Ghost(s * p), Ghost(1), Ghost(dl), Ghost(1));
    let scale = rat_from_biguint(&q96());
    let mps = rat_from_u64(remaining_mps);
    let denominator = mul_exact(&scale, &mps, Ghost(q), Ghost(1), Ghost(m), Ghost(1));
    let total_currency = div_exact(
        &numerator,
        &denominator,
        Ghost(total_n),
        Ghost(1),
        Ghost(scale_n),
        Ghost(1),
    );
    let above_demand = rat_from_biguint(demand_above_price_q96);
    let currency_above = mul_exact(&above_demand, &delta, Ghost(a), Ghost(1), Ghost(dl), Ghost(1));
    let at_demand = rat_from_biguint(demand_at_price_q96);
    let max_at_price = mul_exact(&at_demand, &delta, Ghost(t), Ghost(1), Ghost(dl), Ghost(1));

    let ghost above_n = a * dl * scale_n;
    let ghost comp_n: nat = if above_n < total_n {
        (total_n - above_n) as nat
    } else {
        0
    };
    let complement = if lt_exact(
        &currency_above,
        &total_currency,
        Ghost(a * dl),
        Ghost(1),
        Ghost(total_n),
        Ghost(scale_n),
    ) {
        sub_exact(
            &total_currency,
            &currency_above,
            Ghost(total_n),
            Ghost(scale_n),
            Ghost(a * dl),
            Ghost(1),
        )
    } else {
        rat_from_biguint(&BigNat::zero())
    };
    assert(complement.represents(comp_n, scale_n));

    let ghost cap_n = t * dl * scale_n;
    if lt_exact(&complement, &max_at_price, Ghost(comp_n), Ghost(scale_n), Ghost(t * dl), Ghost(1)) {
        Ok(complement)
    } else {
        proof {
            use_type_invariant(&max_at_price);
        }
        assert(max_at_price.represents(cap_n, scale_n)) by (nonlinear_arith)
            requires
                max_at_price@.0 * 1 == (t * dl) * max_at_price@.1,
                cap_n == t * dl * scale_n,
        ;
        Ok(max_at_price)
    }
}

/// The currency raised at the clearing tick, rounded up.
pub fn currency_raised_at_clearing_tick_ceiling(
    remaining_supply_q96x7: &BigNat,
    demand_at_price_q96: &BigNat,
    demand_above_price_q96: &BigNat,
    price_q96: &BigNat,
    delta_mps: u64,
    remaining_mps: u64,
) -> (r: Result<BigNat, OracleError>)
    ensures
        r is Err <==> remaining_mps == 0,
        r matches Ok(c) ==> c@ == ceil_div_value(
            clearing_currency_numerator(
                remaining_supply_q96x7@,
                demand_at_price_q96@,
                demand_above_price_q96@,
                price_q96@,
                delta_mps as nat,
                remaining_mps as nat,
            ),
            q96_value() * (remaining_mps as nat),
        ),
{
    let exact = currency_raised_at_clearing_tick_exact(
        remaining_supply_q96x7,
        demand_at_price_q96,
        demand_above_price_q96,
        price_q96,
        delta_mps,
        remaining_mps,
    )?;
    proof {
        use_type_invariant(&exact);
    }
    proof {
        assert(q96_value() * (remaining_mps as nat) > 0) by (nonlinear_arith)
            requires
                remaining_mps > 0,
        ;
        lemma_same_ratio_floor(
            exact@.0,
            exact@.1,
            clearing_currency_numerator(
                remaining_supply_q96x7@,
                demand_at_price_q96@,
                demand_above_price_q96@,
                price_q96@,
                delta_mps as nat,
                remaining_mps as nat,
            ),
            q96_value() * (remaining_mps as nat),
        );
    }
    Ok(ceil_to_biguint(&exact))
}

/// A Q96/X7 value as the public view shows it: divided by `2^96 * MPS`,
/// rounded down.
pub fn public_view_floor(value_q96x7: &BigNat) -> (r: BigNat)
    ensures
        r@ == value_q96x7@ / (q96_value() * (MPS as nat)),
{
    let scale = big_mul(&q96(), &BigNat::from_u64(MPS));
    big_div(value_q96x7, &scale)
}

/// The currency a fully filled bid spends over `cumulative_mps_delta` of
/// `mps_remaining` steps, rounded up.
pub fn full_fill_currency_ceiling(
    amount_q96: &BigNat,
    cumulative_mps_delta: u64,
    mps_remaining: u64,
) -> (r: Result<BigNat, OracleError>)
    ensures
        r is Err <==> mps_remaining == 0,
        r matches Ok(c) ==> c@ == ceil_div_value(
            amount_q96@ * (cumulative_mps_delta as nat),
            mps_remaining as nat,
        ),
{
    ceil_div(
        big_mul(amount_q96, &BigNat::from_u64(cumulative_mps_delta)),
        BigNat::from_u64(mps_remaining),
    )
}

/// The tokens a fully filled bid receives, rounded down:
/// `amount * cumulative_mps_per_price_delta / (2^192 * mps_remaining)`.
pub fn full_fill_tokens_floor(
    amount_q96: &BigNat,
    cumulative_mps_per_price_delta: &BigNat,
    mps_remaining: u64,
) -> (r: Result<BigNat, OracleError>)
    ensures
        r is Err <==> mps_remaining == 0,
        r matches Ok(t) ==> t@ == amount_q96@ * cumulative_mps_per_price_delta@ / (q192_value()
            * (mps_remaining as nat)),
{
    let denominator = big_mul(&q192(), &BigNat::from_u64(mps_remaining));
    if denominator.is_zero() {
        assert(mps_remaining == 0) by (nonlinear_arith)
            requires
                q192_value() * (mps_remaining as nat) == 0,
                q192_value() > 0,
        ;
        return Err(OracleError::DivisionByZero);
    }
    Ok(big_div(&big_mul(amount_q96, cumulative_mps_per_price_delta), &denominator))
}

/// The currency a partially filled bid spends at the clearing tick,
/// rounded up: `amount * currency_raised / (tick_demand * mps_remaining)`.
pub fn partial_fill_currency_ceiling(
    amount_q96: &BigNat,
    tick_demand_q96: &BigNat,
    currency_raised_at_clearing_q96x7: &BigNat,
    mps_remaining: u64,
) -> (r: Result<BigNat, OracleError>)
    ensures
        r is Err <==> tick_demand_q96@ * (mps_remaining as nat) == 0,
        r matches Ok(c) ==> c@ == ceil_div_value(
            amount_q96@ * currency_raised_at_clearing_q96x7@,
            tick_demand_q96@ * (mps_remaining as nat),
        ),
{
    ceil_div(
        big_mul(amount_q96, currency_raised_at_clearing_q96x7),
        big_mul(tick_demand_q96, &BigNat::from_u64(mps_remaining)),
    )
}

/// The tokens a partially filled bid receives, rounded down: the currency
/// it spends, rounded down, divided by its maximum price, rounded down.
pub fn partial_fill_tokens_floor(
    amount_q96: &BigNat,
    max_price_q96: &BigNat,
    tick_demand_q96: &BigNat,
    currency_raised_at_clearing_q96x7: &BigNat,
    mps_remaining: u64,
) -> (r: Result<BigNat, OracleError>)
    ensures
        r is Err <==> (tick_demand_q96@ * (mps_remaining as nat) == 0 || max_price_q96@ == 0),
        r matches Ok(t) ==> t@ == amount_q96@ * currency_raised_at_clearing_q96x7@ / (
        tick_demand_q96@ * (mps_remaining as nat)) / max_price_q96@,
{
    let denominator = big_mul(tick_demand_q96, &BigNat::from_u64(mps_remaining));
    if denominator.is_zero() || max_price_q96.is_zero() {
        return Err(OracleError::DivisionByZero);
    }
    let currency_floor = big_div(
        &big_mul(amount_q96, currency_raised_at_clearing_q96x7),
        &denominator,
    );
    Ok(big_div(&currency_floor, max_price_q96))
}

} // verus!
