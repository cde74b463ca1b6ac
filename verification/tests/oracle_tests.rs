use cca_oracle::bignat::BigNat;
use cca_oracle::codec::{encode_uint256, parse_biguint};
use cca_oracle::fraction::Fraction;
use cca_oracle::oracle::{
    can_clear_ideal, ceil_div, ceil_to_biguint, currency_raised_at_clearing_tick_ceiling,
    currency_raised_at_clearing_tick_exact, floor_to_biguint, full_fill_currency_ceiling,
    full_fill_tokens_floor, partial_fill_currency_ceiling, partial_fill_tokens_floor,
    price_ceiling, price_ceiling_exact, public_view_floor, q96, rat_from_biguint, rat_from_u64,
    required_demand_ceiling, required_demand_exact, OracleError, MPS,
};
use num_bigint::BigUint;
use num_traits::{One, Zero};

fn to_nat(value: &BigUint) -> BigNat {
    BigNat::from_digits(value.to_u32_digits())
}

fn big(value: &BigNat) -> BigUint {
    BigUint::new(value.digits())
}

fn bu(value: u128) -> BigUint {
    BigUint::from(value)
}

fn q96_big() -> BigUint {
    BigUint::one() << 96_u32
}

fn ceil_big(fraction: &Fraction) -> BigUint {
    big(&ceil_to_biguint(fraction))
}

fn floor_big(fraction: &Fraction) -> BigUint {
    big(&floor_to_biguint(fraction))
}

// ---------------------------------------------------------------------
// Unit tests of the oracle formulas
// ---------------------------------------------------------------------

#[test]
fn required_demand_rounds_up_from_exact_rational() {
    let supply = big(&q96()) * BigUint::from(21_u8);
    let exact = required_demand_exact(&to_nat(&supply), &to_nat(&BigUint::from(5_u8)), 2).unwrap();
    assert_eq!(floor_big(&exact), BigUint::from(52_u8));
    assert_eq!(
        big(&required_demand_ceiling(&to_nat(&supply), &to_nat(&BigUint::from(5_u8)), 2).unwrap()),
        BigUint::from(53_u8)
    );
}

#[test]
fn clearability_matches_exact_threshold() {
    let supply = BigUint::from(21_u8);
    let price = BigUint::from(5_u8);
    let required = big(&required_demand_ceiling(&to_nat(&supply), &to_nat(&price), 2).unwrap());
    assert!(!can_clear_ideal(
        &to_nat(&(required.clone() - BigUint::one())),
        &to_nat(&supply),
        &to_nat(&price),
        2
    )
    .unwrap());
    assert!(can_clear_ideal(&to_nat(&required), &to_nat(&supply), &to_nat(&price), 2).unwrap());
}

#[test]
fn public_view_projection_floors() {
    let scale = big(&q96()) * BigUint::from(MPS);
    assert_eq!(
        big(&public_view_floor(&to_nat(&(scale.clone() * BigUint::from(7_u8) - BigUint::one())))),
        BigUint::from(6_u8)
    );
}

#[test]
fn bid_accounting_projection_directions_are_explicit() {
    assert_eq!(
        big(&full_fill_currency_ceiling(&to_nat(&BigUint::from(101_u8)), 3, 7).unwrap()),
        BigUint::from(44_u8)
    );
    let c_mps_per_price = (BigUint::one() << 192_u32) * BigUint::from(11_u8) + BigUint::from(5_u8);
    assert_eq!(
        big(&full_fill_tokens_floor(&to_nat(&BigUint::from(101_u8)), &to_nat(&c_mps_per_price), 7)
            .unwrap()),
        BigUint::from(158_u8)
    );
}

// ---------------------------------------------------------------------
// Laws on sample values
// ---------------------------------------------------------------------

#[test]
fn required_demand_is_monotone_in_price_samples() {
    let samples: [(u128, u128, u128, u64); 5] = [
        (1, 1, 2, 1),
        (21, 5, 6, 2),
        (q96_sample(3), 7, 7, 9_999),
        (u128::MAX / 1_000_000, 1, u128::MAX / 1_000_000, MPS),
        (123_456_789, 1_000_000_007, 1_000_000_008, 17),
    ];
    for (supply, low, high, mps) in samples {
        let required_low = big(&required_demand_ceiling(&to_nat(&bu(supply)), &to_nat(&bu(low)), mps).unwrap());
        let required_high =
            big(&required_demand_ceiling(&to_nat(&bu(supply)), &to_nat(&bu(high)), mps).unwrap());
        assert!(required_low <= required_high);
    }
}

fn q96_sample(k: u128) -> u128 {
    k << 96
}

#[test]
fn can_clear_turns_true_at_required_demand_samples() {
    let samples: [(u128, u128, u64); 4] =
        [(1, 1, 1), (21, 5, 2), (u128::MAX / 1_000_000, 3, MPS), (q96_sample(5), 11, 4)];
    for (supply, price, mps) in samples {
        let required = big(&required_demand_ceiling(&to_nat(&bu(supply)), &to_nat(&bu(price)), mps).unwrap());
        if required > BigUint::zero() {
            assert!(!can_clear_ideal(
                &to_nat(&(required.clone() - BigUint::one())),
                &to_nat(&bu(supply)),
                &to_nat(&bu(price)),
                mps
            )
            .unwrap());
        }
        assert!(can_clear_ideal(&to_nat(&required), &to_nat(&bu(supply)), &to_nat(&bu(price)), mps).unwrap());
    }
}

#[test]
fn can_clear_matches_implied_price() {
    // demand 7, supply 5, mps 3: the implied price is 21 * 2^96 / 5.
    let demand = to_nat(&bu(7));
    let supply = to_nat(&bu(5));
    let implied_floor = floor_big(&price_ceiling_exact(&demand, &supply, 3).unwrap());
    assert!(can_clear_ideal(&demand, &supply, &to_nat(&implied_floor), 3).unwrap());
    assert!(!can_clear_ideal(&demand, &supply, &to_nat(&(implied_floor + BigUint::one())), 3).unwrap());
}

#[test]
fn ceiling_and_floor_bracket_the_exact_value() {
    let exact = required_demand_exact(&to_nat(&bu(21)), &to_nat(&q96_big()), 2).unwrap();
    // 21 * 2^96 / (2^96 * 2) = 21 / 2
    assert_eq!(floor_big(&exact), bu(10));
    assert_eq!(ceil_big(&exact), bu(11));
    let whole = rat_from_u64(7);
    assert_eq!(floor_big(&whole), bu(7));
    assert_eq!(ceil_big(&whole), bu(7));
}

#[test]
fn clearing_currency_is_capped() {
    let q = q96_big();
    let supply = q.clone() * bu(100);
    let price = q.clone() * bu(2);
    // total currency = 100 * 2 * 3 / 10 = 60 (in Q96 units)
    let capped = currency_raised_at_clearing_tick_ceiling(
        &to_nat(&supply),
        &to_nat(&(q.clone() * bu(5))),
        &to_nat(&(q.clone() * bu(10))),
        &to_nat(&price),
        3,
        10,
    )
    .unwrap();
    assert_eq!(big(&capped), q.clone() * bu(15));
    let complement = currency_raised_at_clearing_tick_ceiling(
        &to_nat(&supply),
        &to_nat(&(q.clone() * bu(100))),
        &to_nat(&(q.clone() * bu(10))),
        &to_nat(&price),
        3,
        10,
    )
    .unwrap();
    assert_eq!(big(&complement), q.clone() * bu(30));
    let nothing_left = currency_raised_at_clearing_tick_ceiling(
        &to_nat(&supply),
        &to_nat(&(q.clone() * bu(100))),
        &to_nat(&(q.clone() * bu(20))),
        &to_nat(&price),
        3,
        10,
    )
    .unwrap();
    assert_eq!(big(&nothing_left), bu(0));
}

fn clearing_currency_value(args: &[BigUint; 4], delta: u64, mps: u64) -> (BigUint, BigUint) {
    let exact = currency_raised_at_clearing_tick_exact(
        &to_nat(&args[0]),
        &to_nat(&args[1]),
        &to_nat(&args[2]),
        &to_nat(&args[3]),
        delta,
        mps,
    )
    .unwrap();
    (big(&exact.numer()), big(&exact.denom()))
}

#[test]
fn clearing_currency_is_monotone_samples() {
    let q = q96_big();
    // supply, demand at price, demand above price, price
    let base = [q.clone() * bu(100), q.clone() * bu(40), q.clone() * bu(10), q.clone() * bu(2)];
    let (n0, d0) = clearing_currency_value(&base, 3, 10);
    let mut moved = Vec::new();
    let mut more_supply = base.clone();
    more_supply[0] = q.clone() * bu(130);
    moved.push(clearing_currency_value(&more_supply, 3, 10));
    let mut more_at = base.clone();
    more_at[1] = q.clone() * bu(90);
    moved.push(clearing_currency_value(&more_at, 3, 10));
    let mut less_above = base.clone();
    less_above[2] = q.clone() * bu(4);
    moved.push(clearing_currency_value(&less_above, 3, 10));
    let mut more_price = base.clone();
    more_price[3] = q.clone() * bu(3);
    moved.push(clearing_currency_value(&more_price, 3, 10));
    moved.push(clearing_currency_value(&base, 5, 10));
    moved.push(clearing_currency_value(&base, 3, 7));
    for (n, d) in moved {
        assert!(n0.clone() * d.clone() <= n * d0.clone());
    }
}

#[test]
fn clearing_currency_rounds_up_fractions() {
    // supply 7, price 3 (Q96), delta 1, remaining 2: total = 21/2
    let exact = currency_raised_at_clearing_tick_exact(
        &to_nat(&bu(7)),
        &to_nat(&bu(100)),
        &to_nat(&bu(0)),
        &to_nat(&(q96_big() * bu(3))),
        1,
        2,
    )
    .unwrap();
    assert_eq!(big(&exact.numer()), bu(21));
    assert_eq!(big(&exact.denom()), bu(2));
    let ceiling = currency_raised_at_clearing_tick_ceiling(
        &to_nat(&bu(7)),
        &to_nat(&bu(100)),
        &to_nat(&bu(0)),
        &to_nat(&(q96_big() * bu(3))),
        1,
        2,
    )
    .unwrap();
    assert_eq!(big(&ceiling), bu(11));
}

#[test]
fn partial_fill_tokens_within_currency() {
    // amount 101, currency 55, tick demand 7, mps 3, max price 4
    let currency =
        big(&partial_fill_currency_ceiling(&to_nat(&bu(101)), &to_nat(&bu(7)), &to_nat(&bu(55)), 3).unwrap());
    assert_eq!(currency, bu(265));
    let tokens = big(
        &partial_fill_tokens_floor(&to_nat(&bu(101)), &to_nat(&bu(4)), &to_nat(&bu(7)), &to_nat(&bu(55)), 3)
            .unwrap(),
    );
    assert_eq!(tokens, bu(66));
    assert!(tokens * bu(4) <= currency);
}

#[test]
fn encoded_word_reads_back() {
    let values = [bu(0), bu(1125), q96_big() * bu(21), (BigUint::one() << 256_u32) - BigUint::one()];
    for value in values {
        let text = encode_uint256(&to_nat(&value)).unwrap();
        assert_eq!(text.len(), 66);
        assert_eq!(big(&parse_biguint(&text).unwrap()), value);
    }
}

// ---------------------------------------------------------------------
// Exact values, edge cases and errors
// ---------------------------------------------------------------------

#[test]
fn q96_is_two_to_the_96() {
    assert_eq!(big(&q96()), q96_big());
    assert_eq!(q96().digits(), vec![0, 0, 0, 1]);
}

#[test]
fn rationals_from_integers() {
    let from_big = rat_from_biguint(&to_nat(&bu(12345678901234567890123)));
    assert_eq!(big(&from_big.numer()), bu(12345678901234567890123));
    assert_eq!(big(&from_big.denom()), bu(1));
    let from_small = rat_from_u64(u64::MAX);
    assert_eq!(big(&from_small.numer()), bu(u64::MAX as u128));
    assert_eq!(big(&from_small.denom()), bu(1));
}

#[test]
fn exact_required_demand_is_reduced() {
    // 6 * 2^96 / (2^96 * 4) = 3/2
    let exact = required_demand_exact(&to_nat(&bu(6)), &to_nat(&q96_big()), 4).unwrap();
    assert_eq!(big(&exact.numer()), bu(3));
    assert_eq!(big(&exact.denom()), bu(2));
}

#[test]
fn ceil_div_rounds_up_and_rejects_zero() {
    assert_eq!(big(&ceil_div(to_nat(&bu(10)), to_nat(&bu(5))).unwrap()), bu(2));
    assert_eq!(big(&ceil_div(to_nat(&bu(11)), to_nat(&bu(5))).unwrap()), bu(3));
    assert_eq!(big(&ceil_div(to_nat(&bu(0)), to_nat(&bu(5))).unwrap()), bu(0));
    assert_eq!(ceil_div(to_nat(&bu(11)), to_nat(&bu(0))), Err(OracleError::DivisionByZero));
}

#[test]
fn zero_remaining_mps_is_an_error() {
    assert_eq!(
        required_demand_exact(&to_nat(&bu(1)), &to_nat(&bu(1)), 0).err(),
        Some(OracleError::DivisionByZero)
    );
    assert_eq!(
        required_demand_ceiling(&to_nat(&bu(1)), &to_nat(&bu(1)), 0).err(),
        Some(OracleError::DivisionByZero)
    );
    assert_eq!(
        can_clear_ideal(&to_nat(&bu(1)), &to_nat(&bu(1)), &to_nat(&bu(1)), 0),
        Err(OracleError::DivisionByZero)
    );
    assert_eq!(
        currency_raised_at_clearing_tick_ceiling(
            &to_nat(&bu(1)),
            &to_nat(&bu(1)),
            &to_nat(&bu(1)),
            &to_nat(&bu(1)),
            1,
            0
        ),
        Err(OracleError::DivisionByZero)
    );
    assert_eq!(
        full_fill_currency_ceiling(&to_nat(&bu(1)), 1, 0),
        Err(OracleError::DivisionByZero)
    );
    assert_eq!(
        full_fill_tokens_floor(&to_nat(&bu(1)), &to_nat(&bu(1)), 0),
        Err(OracleError::DivisionByZero)
    );
}

#[test]
fn zero_supply_or_demand_is_an_error() {
    assert_eq!(
        price_ceiling(&to_nat(&bu(1)), &to_nat(&bu(0)), 1),
        Err(OracleError::DivisionByZero)
    );
    assert!(price_ceiling_exact(&to_nat(&bu(1)), &to_nat(&bu(0)), 1).is_err());
    assert_eq!(
        partial_fill_currency_ceiling(&to_nat(&bu(1)), &to_nat(&bu(0)), &to_nat(&bu(1)), 1),
        Err(OracleError::DivisionByZero)
    );
    assert_eq!(
        partial_fill_tokens_floor(&to_nat(&bu(1)), &to_nat(&bu(0)), &to_nat(&bu(1)), &to_nat(&bu(1)), 1),
        Err(OracleError::DivisionByZero)
    );
    assert_eq!(
        partial_fill_tokens_floor(&to_nat(&bu(1)), &to_nat(&bu(1)), &to_nat(&bu(1)), &to_nat(&bu(1)), 0),
        Err(OracleError::DivisionByZero)
    );
}

#[test]
fn price_ceiling_rounds_up() {
    // 7 * 3 * 2^96 / 5
    let expected_floor = q96_big() * bu(21) / bu(5);
    assert_eq!(
        big(&price_ceiling(&to_nat(&bu(7)), &to_nat(&bu(5)), 3).unwrap()),
        expected_floor + BigUint::one()
    );
    assert_eq!(big(&price_ceiling(&to_nat(&bu(5)), &to_nat(&bu(5)), 3).unwrap()), q96_big() * bu(3));
}

#[test]
fn full_fill_tokens_floor_divides_by_q192() {
    let per_price = (BigUint::one() << 192_u32) * bu(3);
    assert_eq!(big(&full_fill_tokens_floor(&to_nat(&bu(10)), &to_nat(&per_price), 2).unwrap()), bu(15));
}

#[test]
fn public_view_floor_of_exact_multiple() {
    let scale = q96_big() * BigUint::from(MPS);
    assert_eq!(big(&public_view_floor(&to_nat(&(scale.clone() * bu(7))))), bu(7));
    assert_eq!(big(&public_view_floor(&to_nat(&bu(0)))), bu(0));
}

#[test]
fn encode_uint256_pads_to_a_word() {
    let zero = encode_uint256(&to_nat(&bu(0))).unwrap();
    assert_eq!(zero, format!("0x{}", "0".repeat(64)));
    let small = encode_uint256(&to_nat(&bu(1125))).unwrap();
    assert_eq!(small, format!("0x{}0465", "0".repeat(60)));
    let max = encode_uint256(&to_nat(&((BigUint::one() << 256_u32) - BigUint::one()))).unwrap();
    assert_eq!(max, format!("0x{}", "f".repeat(64)));
    assert_eq!(encode_uint256(&to_nat(&(BigUint::one() << 256_u32))), None);
}

#[test]
fn parse_biguint_reads_decimal_and_hex() {
    assert_eq!(big(&parse_biguint("123").unwrap()), bu(123));
    assert_eq!(big(&parse_biguint("0x1f").unwrap()), bu(31));
    assert_eq!(big(&parse_biguint("0xFF").unwrap()), bu(255));
    assert_eq!(big(&parse_biguint("+5").unwrap()), bu(5));
    assert_eq!(big(&parse_biguint("1_000").unwrap()), bu(1000));
    assert_eq!(big(&parse_biguint("0x+ff").unwrap()), bu(255));
    assert_eq!(big(&parse_biguint("0").unwrap()), bu(0));
    assert!(parse_biguint("").is_err());
    assert!(parse_biguint("0x").is_err());
    assert!(parse_biguint("12a").is_err());
    assert!(parse_biguint("_1").is_err());
    assert!(parse_biguint("++1").is_err());
    assert!(parse_biguint("-1").is_err());
}

#[test]
fn bignat_digits_are_normalized() {
    let n = BigNat::from_digits(vec![5, 0, 0]);
    assert_eq!(n.digits(), vec![5]);
    assert!(BigNat::from_digits(vec![0, 0]).is_zero());
    assert_eq!(BigNat::from_u64(0).digits(), Vec::<u32>::new());
    assert_eq!(BigNat::from_u64(1 << 32).digits(), vec![0, 1]);
    assert_eq!(big(&BigNat::from_u64(u64::MAX)), bu(u64::MAX as u128));
    assert_eq!(big(&BigNat::zero()), bu(0));
    assert!(!BigNat::from_u64(7).is_zero());
    assert_eq!(big(&BigNat::from_u64(7).copy()), bu(7));
}
