use crate::codec::{
    be_bytes, be_value, char_digit, digit_chars_value, has_hex_prefix, hex_digit, hex_of_bytes,
    parsed_biguint, pow256, radix_text_valid, radix_text_value, strip_plus, uint256_hex,
};
use crate::oracle::{ceil_div_value, clearing_currency_numerator, q96_value};
use vstd::arithmetic::div_mod::*;
use vstd::arithmetic::mul::*;
use vstd::prelude::*;

verus! {

/// The ceiling of `n / d` is the least multiple count that covers `n`:
/// `c * d` is at least `n` and less than `n + d`.
pub proof fn law_ceil_div_is_least_cover(n: nat, d: nat)
    requires
        d > 0,
    ensures
        n <= ceil_div_value(n, d) * d,
        ceil_div_value(n, d) * d < n + d,
        n / d <= ceil_div_value(n, d) <= n / d + 1,
        (n / d) * d <= n,
{
    lemma_fundamental_div_mod(n as int, d as int);
    let q = n / d;
    assert(n == q * d + n % d) by (nonlinear_arith)
        requires
            n == d * (n / d) + n % d,
            q == n / d,
    ;
    assert((q + 1) * d == q * d + d) by (nonlinear_arith);
}

/// Rounding up the required demand keeps its order in the price: a higher
/// price never needs less demand.
pub proof fn law_required_demand_monotone_in_price(
    remaining_supply: nat,
    price_low: nat,
    price_high: nat,
    remaining_mps: nat,
)
    requires
        price_low <= price_high,
        remaining_mps > 0,
    ensures
        ceil_div_value(remaining_supply * price_low, q96_value() * remaining_mps)
            <= ceil_div_value(remaining_supply * price_high, q96_value() * remaining_mps),
{
    let d = q96_value() * remaining_mps;
    assert(d > 0) by (nonlinear_arith)
        requires
            d == q96_value() * remaining_mps,
            remaining_mps > 0,
    ;
    let na = remaining_supply * price_low;
    let nb = remaining_supply * price_high;
    lemma_mul_inequality(price_low as int, price_high as int, remaining_supply as int);
    assert(na <= nb) by (nonlinear_arith)
        requires
            price_low * remaining_supply <= price_high * remaining_supply,
            na == remaining_supply * price_low,
            nb == remaining_supply * price_high,
    ;
    law_ceil_div_is_least_cover(na, d);
    law_ceil_div_is_least_cover(nb, d);
    let ca = ceil_div_value(na, d);
    let cb = ceil_div_value(nb, d);
    if ca > cb {
        assert(ca * d >= (cb + 1) * d) by (nonlinear_arith)
            requires
                ca >= cb + 1,
        ;
        assert((cb + 1) * d == cb * d + d) by (nonlinear_arith);
    }
}

/// A demand clears the remaining supply at a price exactly when it is at
/// least the required demand rounded up: one unit below it never clears,
/// and the rounded-up value always does.
pub proof fn law_can_clear_iff_at_least_required_demand(
    demand: nat,
    remaining_supply: nat,
    price: nat,
    remaining_mps: nat,
)
    requires
        remaining_mps > 0,
    ensures
        (demand * (q96_value() * remaining_mps) >= remaining_supply * price) == (demand
            >= ceil_div_value(remaining_supply * price, q96_value() * remaining_mps)),
{
    let d = q96_value() * remaining_mps;
    let n = remaining_supply * price;
    assert(d > 0) by (nonlinear_arith)
        requires
            d == q96_value() * remaining_mps,
            remaining_mps > 0,
    ;
    law_ceil_div_is_least_cover(n, d);
    let c = ceil_div_value(n, d);
    if demand >= c {
        assert(demand * d >= c * d) by (nonlinear_arith)
            requires
                demand >= c,
        ;
    } else {
        assert(demand * d <= (c - 1) * d) by (nonlinear_arith)
            requires
                demand + 1 <= c,
        ;
        assert((c - 1) * d == c * d - d) by (nonlinear_arith);
    }
}

/// A demand clears the remaining supply at a price exactly when the price
/// is at most the price that the demand implies, rounded down.
pub proof fn law_can_clear_iff_price_within_implied_price(
    demand: nat,
    remaining_supply: nat,
    price: nat,
    remaining_mps: nat,
)
    requires
        remaining_supply > 0,
    ensures
        (demand * (q96_value() * remaining_mps) >= remaining_supply * price) == (price <= demand
            * remaining_mps * q96_value() / remaining_supply),
{
    let x = demand * remaining_mps * q96_value();
    assert(demand * (q96_value() * remaining_mps) == x) by (nonlinear_arith)
        requires
            x == demand * remaining_mps * q96_value(),
    ;
    assert(remaining_supply * price == price * remaining_supply) by (nonlinear_arith);
    law_ceil_div_is_least_cover(x, remaining_supply);
    let f = x / remaining_supply;
    lemma_fundamental_div_mod(x as int, remaining_supply as int);
    if price <= f {
        assert(price * remaining_supply <= f * remaining_supply) by (nonlinear_arith)
            requires
                price <= f,
        ;
    } else {
        assert(price * remaining_supply >= (f + 1) * remaining_supply) by (nonlinear_arith)
            requires
                price >= f + 1,
        ;
        lemma_mod_bound(x as int, remaining_supply as int);
        assert((f + 1) * remaining_supply == remaining_supply * f + remaining_supply)
            by (nonlinear_arith);
        assert(x < (f + 1) * remaining_supply);
    }
}

/// The currency raised at the clearing tick never exceeds what the demand
/// at the price can pay (the clearing-tick cap) nor the step's total
/// currency, and is one of the two bounds: the cap, or the total less
/// what the demand above the price takes (floored at zero).
pub proof fn law_clearing_currency_capped(
    remaining_supply: nat,
    demand_at_price: nat,
    demand_above_price: nat,
    price: nat,
    delta_mps: nat,
    remaining_mps: nat,
)
    ensures
        clearing_currency_numerator(
            remaining_supply,
            demand_at_price,
            demand_above_price,
            price,
            delta_mps,
            remaining_mps,
        ) <= demand_at_price * delta_mps * (q96_value() * remaining_mps),
        clearing_currency_numerator(
            remaining_supply,
            demand_at_price,
            demand_above_price,
            price,
            delta_mps,
            remaining_mps,
        ) <= remaining_supply * price * delta_mps,
{
}

/// The currency raised at the clearing tick, as the exact rational
/// `clearing_currency_numerator(..) / (2^96 * remaining_mps)`, grows with the
/// remaining supply, the demand at the price, the price and the step's
/// `delta_mps`, and shrinks as the demand above the price or the remaining
/// mps (kept above zero) grows: the second value, whose arguments are each
/// moved that way (or left alone), is at least the first.
pub proof fn law_clearing_currency_monotone(
    remaining_supply: nat,
    demand_at_price: nat,
    demand_above_price: nat,
    price: nat,
    delta_mps: nat,
    remaining_mps: nat,
    remaining_supply2: nat,
    demand_at_price2: nat,
    demand_above_price2: nat,
    price2: nat,
    delta_mps2: nat,
    remaining_mps2: nat,
)
    requires
        remaining_supply <= remaining_supply2,
        demand_at_price <= demand_at_price2,
        demand_above_price2 <= demand_above_price,
        price <= price2,
        delta_mps <= delta_mps2,
        0 < remaining_mps2 <= remaining_mps,
    ensures
        clearing_currency_numerator(
            remaining_supply,
            demand_at_price,
            demand_above_price,
            price,
            delta_mps,
            remaining_mps,
        ) * (q96_value() * remaining_mps2) <= clearing_currency_numerator(
            remaining_supply2,
            demand_at_price2,
            demand_above_price2,
            price2,
            delta_mps2,
            remaining_mps2,
        ) * (q96_value() * remaining_mps),
{
    let q = q96_value();
    let (s1, t1, a1, p1, d1, m1) = (
        remaining_supply,
        demand_at_price,
        demand_above_price,
        price,
        delta_mps,
        remaining_mps,
    );
    let (s2, t2, a2, p2, d2, m2) = (
        remaining_supply2,
        demand_at_price2,
        demand_above_price2,
        price2,
        delta_mps2,
        remaining_mps2,
    );
    let k1 = q * m1;
    let k2 = q * m2;
    let total1 = s1 * p1 * d1;
    let total2 = s2 * p2 * d2;
    let above1 = a1 * d1 * k1;
    let above2 = a2 * d2 * k2;
    let cap1 = t1 * d1 * k1;
    let cap2 = t2 * d2 * k2;
    let comp1: nat = if above1 < total1 {
        (total1 - above1) as nat
    } else {
        0
    };
    let comp2: nat = if above2 < total2 {
        (total2 - above2) as nat
    } else {
        0
    };
    let n1 = clearing_currency_numerator(s1, t1, a1, p1, d1, m1);
    let n2 = clearing_currency_numerator(s2, t2, a2, p2, d2, m2);
    assert(n1 == if comp1 < cap1 { comp1 } else { cap1 });
    assert(n2 == if comp2 < cap2 { comp2 } else { cap2 });

    // The caps: t1*d1 <= t2*d2, and k1*k2 is common.
    assert(t1 * d1 <= t2 * d2) by (nonlinear_arith)
        requires
            t1 <= t2,
            d1 <= d2,
    ;
    assert(cap1 * k2 <= cap2 * k1) by (nonlinear_arith)
        requires
            cap1 == t1 * d1 * k1,
            cap2 == t2 * d2 * k2,
            t1 * d1 <= t2 * d2,
    ;

    // The complements: per unit of delta, y = s * p - a * k.
    if comp1 > 0 {
        let y1: int = s1 * p1 - a1 * k1;
        let y2: int = s2 * p2 - a2 * k2;
        assert(total1 - above1 == d1 * y1) by (nonlinear_arith)
            requires
                total1 == s1 * p1 * d1,
                above1 == a1 * d1 * k1,
                y1 == s1 * p1 - a1 * k1,
        ;
        assert(total2 - above2 == d2 * y2) by (nonlinear_arith)
            requires
                total2 == s2 * p2 * d2,
                above2 == a2 * d2 * k2,
                y2 == s2 * p2 - a2 * k2,
        ;
        assert(d1 > 0 && y1 > 0) by (nonlinear_arith)
            requires
                d1 * y1 > 0,
                d1 >= 0,
        ;
        assert(s1 * p1 <= s2 * p2) by (nonlinear_arith)
            requires
                s1 <= s2,
                p1 <= p2,
        ;
        assert(y1 * m2 <= y2 * m1) by (nonlinear_arith)
            requires
                y1 == s1 * p1 - a1 * (q * m1),
                y2 == s2 * p2 - a2 * (q * m2),
                s1 * p1 <= s2 * p2,
                a2 <= a1,
                m2 <= m1,
                q > 0,
                m2 > 0,
        ;
        assert(y2 > 0) by (nonlinear_arith)
            requires
                y1 * m2 <= y2 * m1,
                y1 > 0,
                m2 > 0,
                m1 > 0,
        ;
        assert(d1 * y1 * m2 <= d2 * y2 * m1) by (nonlinear_arith)
            requires
                y1 * m2 <= y2 * m1,
                y1 > 0,
                m2 > 0,
                d1 <= d2,
                d1 > 0,
        ;
        assert(comp1 * k2 <= comp2 * k1) by (nonlinear_arith)
            requires
                comp1 == d1 * y1,
                comp2 == d2 * y2,
                d1 * y1 * m2 <= d2 * y2 * m1,
                k1 == q * m1,
                k2 == q * m2,
                q > 0,
        ;
    }
    assert(comp1 * k2 <= comp2 * k1);

    // The smaller of two bounds keeps the order of both.
    assert(n1 * k2 <= n2 * k1) by (nonlinear_arith)
        requires
            comp1 * k2 <= comp2 * k1,
            cap1 * k2 <= cap2 * k1,
            n1 == if comp1 < cap1 { comp1 } else { cap1 },
            n2 == if comp2 < cap2 { comp2 } else { cap2 },
            k1 >= 0,
            k2 >= 0,
    ;
}

/// A partially filled bid's tokens, valued at its maximum price, never
/// exceed the currency that it spends; and rounding the currency down and
/// then dividing by the maximum price is one division by
/// `tick_demand * mps_remaining * max_price`.
pub proof fn law_partial_fill_tokens_within_currency(
    amount: nat,
    max_price: nat,
    tick_demand: nat,
    currency_raised: nat,
    mps_remaining: nat,
)
    requires
        tick_demand * mps_remaining > 0,
        max_price > 0,
    ensures
        (amount * currency_raised / (tick_demand * mps_remaining) / max_price) * max_price
            <= ceil_div_value(amount * currency_raised, tick_demand * mps_remaining),
        amount * currency_raised / (tick_demand * mps_remaining) / max_price == amount
            * currency_raised / (tick_demand * mps_remaining * max_price),
{
    let n = amount * currency_raised;
    let d = tick_demand * mps_remaining;
    let f = n / d;
    law_ceil_div_is_least_cover(n, d);
    law_ceil_div_is_least_cover(f, max_price);
    lemma_div_denominator(n as int, d as int, max_price as int);
}

/// The hexadecimal text of bytes, read as a base-16 number, is the number
/// that the bytes stand for.
pub proof fn lemma_hex_text_value(bs: Seq<u8>)
    ensures
        digit_chars_value(hex_of_bytes(bs), 16) == be_value(bs),
        hex_of_bytes(bs).len() == 2 * bs.len(),
        forall|i: int|
            0 <= i < hex_of_bytes(bs).len() ==> #[trigger] char_digit(hex_of_bytes(bs)[i]) < 16
                && hex_of_bytes(bs)[i] != '_' && hex_of_bytes(bs)[i] != '+' && is_lower_hex_char(
                hex_of_bytes(bs)[i],
            ),
    decreases bs.len(),
{
    if bs.len() > 0 {
        let t = hex_of_bytes(bs.drop_last());
        let b = bs.last() as nat;
        let hi = hex_digit(b / 16);
        let lo = hex_digit(b % 16);
        lemma_hex_text_value(bs.drop_last());
        lemma_hex_digit(b / 16);
        lemma_hex_digit(b % 16);
        let u = t + seq![hi, lo];
        assert(u.drop_last() =~= t.push(hi));
        assert(u.drop_last().drop_last() =~= t);
        assert(hex_of_bytes(bs) == u);
        assert(u.last() == lo);
        assert(u.drop_last().last() == hi);
        assert(digit_chars_value(u, 16) == digit_chars_value(u.drop_last(), 16) * 16 + char_digit(
            lo,
        ));
        assert(digit_chars_value(u.drop_last(), 16) == digit_chars_value(t, 16) * 16 + char_digit(
            hi,
        ));
        let x = digit_chars_value(t, 16);
        assert(b == (b / 16) * 16 + b % 16) by (nonlinear_arith);
        assert((x * 16 + b / 16) * 16 + b % 16 == x * 256 + b) by (nonlinear_arith)
            requires
                b == (b / 16) * 16 + b % 16,
        ;
        assert forall|i: int| 0 <= i < u.len() implies #[trigger] char_digit(u[i]) < 16 && u[i]
            != '_' && u[i] != '+' && is_lower_hex_char(u[i]) by {
            if i < t.len() {
                assert(u[i] == t[i]);
            }
        }
    }
}

/// The hexadecimal digit of `d < 16` reads back as `d`.
pub proof fn lemma_hex_digit(d: nat)
    requires
        d < 16,
    ensures
        char_digit(hex_digit(d)) == d,
        hex_digit(d) != '_',
        hex_digit(d) != '+',
        is_lower_hex_char(hex_digit(d)),
{
    let table = seq!['0', '1', '2', '3', '4', '5', '6', '7', '8', '9', 'a', 'b', 'c', 'd', 'e', 'f'];
    assert(hex_digit(d) == table[d as int]);
}

/// The 32 big-endian bytes of a number below 2^256 stand for it.
pub proof fn law_uint256_word_stands_for_value(v: nat)
    requires
        v < pow256(32),
    ensures
        be_value(be_bytes(v, 32)) == v,
{
    lemma_be_bytes_of_value(v, 32);
}

/// The `n` low bytes of a number below 256^n stand for it.
pub proof fn lemma_be_bytes_of_value(v: nat, n: nat)
    requires
        v < pow256(n),
    ensures
        be_value(be_bytes(v, n)) == v,
        be_bytes(v, n).len() == n,
    decreases n,
{
    if n > 0 {
        lemma_fundamental_div_mod(v as int, 256);
        assert(v / 256 < pow256((n - 1) as nat)) by (nonlinear_arith)
            requires
                v < 256 * pow256((n - 1) as nat),
                v == 256 * (v / 256) + v % 256,
                v % 256 >= 0,
        ;
        lemma_be_bytes_of_value(v / 256, (n - 1) as nat);
        let bs = be_bytes(v, n);
        assert(bs.drop_last() =~= be_bytes(v / 256, (n - 1) as nat));
    }
}

/// What the encoder writes, the integer reader reads back: the `uint256`
/// text of a number below 2^256 has the `0x` prefix, is valid
/// hexadecimal after it, and stands for the number.
pub proof fn law_encoded_word_reads_back(v: nat)
    requires
        v < pow256(32),
    ensures
        has_hex_prefix(uint256_hex(v)),
        radix_text_valid(uint256_hex(v).skip(2), 16),
        radix_text_value(uint256_hex(v).skip(2), 16) == v,
{
    let bs = be_bytes(v, 32);
    lemma_be_bytes_of_value(v, 32);
    lemma_hex_text_value(bs);
    let text = uint256_hex(v);
    let digits = hex_of_bytes(bs);
    assert(text.skip(2) =~= digits);
    assert(digits.len() == 64);
    assert(char_digit(digits[0]) < 16);
    assert(strip_plus(digits) == digits);
    assert forall|i: int| 0 <= i < digits.len() implies digits[i] == '_' || char_digit(digits[i])
        < 16 by {
        assert(char_digit(digits[i]) < 16);
    }
}

/// A lowercase hexadecimal digit character.
pub open spec fn is_lower_hex_char(c: char) -> bool {
    ('0' <= c && c <= '9') || ('a' <= c && c <= 'f')
}

/// A decimal digit character.
pub open spec fn is_decimal_char(c: char) -> bool {
    '0' <= c && c <= '9'
}

/// A hexadecimal digit character, in either case.
pub open spec fn is_hex_char(c: char) -> bool {
    ('0' <= c && c <= '9') || ('a' <= c && c <= 'f') || ('A' <= c && c <= 'F')
}

/// The value of a hexadecimal digit character.
pub open spec fn hex_char_value(c: char) -> nat {
    if '0' <= c && c <= '9' {
        (c as int - '0' as int) as nat
    } else if 'a' <= c && c <= 'f' {
        (c as int - 'a' as int + 10) as nat
    } else {
        (c as int - 'A' as int + 10) as nat
    }
}

/// The `uint256` text of a number below 2^256 is one ABI word: 66
/// characters, `0x` and then exactly 64 lowercase hexadecimal digits (the 32
/// bytes, leading zero bytes included), which the integer reader reads
/// back as the number.
pub proof fn law_uint256_text_is_one_word(v: nat)
    requires
        v < pow256(32),
    ensures
        pow256(32) == 0x1_0000_0000_0000_0000_0000_0000_0000_0000_0000_0000_0000_0000_0000_0000_0000_0000nat,
        uint256_hex(v).len() == 66,
        uint256_hex(v)[0] == '0',
        uint256_hex(v)[1] == 'x',
        forall|i: int| 2 <= i < 66 ==> #[trigger] is_lower_hex_char(uint256_hex(v)[i]),
        parsed_biguint(uint256_hex(v)) == Some(v),
{
    reveal_with_fuel(pow256, 33);
    law_encoded_word_reads_back(v);
    let bs = be_bytes(v, 32);
    lemma_be_bytes_of_value(v, 32);
    lemma_hex_text_value(bs);
    let text = uint256_hex(v);
    let digits = hex_of_bytes(bs);
    assert(text.skip(2) =~= digits);
    assert forall|i: int| 2 <= i < 66 implies #[trigger] is_lower_hex_char(text[i]) by {
        assert(text[i] == digits[i - 2]);
        assert(char_digit(digits[i - 2]) < 16);
    }
}

/// Decimal digit text, with no prefix, is nonempty decimal text of
/// num-bigint's grammar, and not hexadecimal.
proof fn lemma_decimal_text(s: Seq<char>)
    requires
        s.len() > 0,
        forall|i: int| 0 <= i < s.len() ==> #[trigger] is_decimal_char(s[i]),
    ensures
        !has_hex_prefix(s),
        strip_plus(s) == s,
        radix_text_valid(s, 10),
{
    assert(is_decimal_char(s[0]));
    if s.len() >= 2 {
        assert(is_decimal_char(s[1]));
    }
    assert forall|i: int| 0 <= i < s.len() implies s[i] == '_' || char_digit(s[i]) < 10 by {
        assert(is_decimal_char(s[i]));
    }
}

/// Text made only of decimal digits is read in base ten, whatever its
/// length: one digit is its own value, and appending a digit multiplies the
/// value by ten and adds the digit.
pub proof fn law_decimal_text_reads_in_base_ten(s: Seq<char>, c: char)
    requires
        s.len() > 0,
        forall|i: int| 0 <= i < s.len() ==> #[trigger] is_decimal_char(s[i]),
        is_decimal_char(c),
    ensures
        parsed_biguint(seq![c]) == Some((c as int - '0' as int) as nat),
        parsed_biguint(s) is Some,
        parsed_biguint(s.push(c)) == Some(
            10 * parsed_biguint(s).unwrap() + (c as int - '0' as int) as nat,
        ),
{
    let one = seq![c];
    let longer = s.push(c);
    lemma_decimal_text(s);
    assert forall|i: int| 0 <= i < one.len() implies #[trigger] is_decimal_char(one[i]) by {}
    lemma_decimal_text(one);
    assert forall|i: int| 0 <= i < longer.len() implies #[trigger] is_decimal_char(longer[i]) by {
        if i < s.len() {
            assert(longer[i] == s[i]);
        }
    }
    lemma_decimal_text(longer);
    assert(longer.drop_last() =~= s);
    assert(one.drop_last() =~= Seq::<char>::empty());
    assert(digit_chars_value(longer, 10) == digit_chars_value(s, 10) * 10 + char_digit(c));
    assert(digit_chars_value(one, 10) == digit_chars_value(Seq::<char>::empty(), 10) * 10
        + char_digit(c));
}

/// Hexadecimal digits after a `0x` prefix, in either case.
proof fn lemma_hex_text(h: Seq<char>)
    requires
        h.len() > 0,
        forall|i: int| 0 <= i < h.len() ==> #[trigger] is_hex_char(h[i]),
    ensures
        has_hex_prefix(seq!['0', 'x'] + h),
        (seq!['0', 'x'] + h).skip(2) == h,
        strip_plus(h) == h,
        radix_text_valid(h, 16),
        char_digit(h.last()) == hex_char_value(h.last()),
        h.last() != '_',
{
    assert((seq!['0', 'x'] + h).skip(2) =~= h);
    assert(is_hex_char(h[0]));
    assert(is_hex_char(h[h.len() - 1]));
    assert forall|i: int| 0 <= i < h.len() implies h[i] == '_' || char_digit(h[i]) < 16 by {
        assert(is_hex_char(h[i]));
    }
}

/// Text after a `0x` prefix is read in base sixteen: one hexadecimal digit
/// is its own value, and appending a digit multiplies the value by sixteen
/// and adds the digit.
pub proof fn law_hex_text_reads_in_base_sixteen(h: Seq<char>, c: char)
    requires
        h.len() > 0,
        forall|i: int| 0 <= i < h.len() ==> #[trigger] is_hex_char(h[i]),
        is_hex_char(c),
    ensures
        parsed_biguint(seq!['0', 'x', c]) == Some(hex_char_value(c)),
        parsed_biguint(seq!['0', 'x'] + h) is Some,
        parsed_biguint(seq!['0', 'x'] + h.push(c)) == Some(
            16 * parsed_biguint(seq!['0', 'x'] + h).unwrap() + hex_char_value(c),
        ),
{
    let one = seq![c];
    let longer = h.push(c);
    lemma_hex_text(h);
    assert forall|i: int| 0 <= i < one.len() implies #[trigger] is_hex_char(one[i]) by {}
    lemma_hex_text(one);
    assert(seq!['0', 'x'] + one =~= seq!['0', 'x', c]);
    assert forall|i: int| 0 <= i < longer.len() implies #[trigger] is_hex_char(longer[i]) by {
        if i < h.len() {
            assert(longer[i] == h[i]);
        }
    }
    lemma_hex_text(longer);
    assert(longer.drop_last() =~= h);
    assert(one.drop_last() =~= Seq::<char>::empty());
    assert(digit_chars_value(longer, 16) == digit_chars_value(h, 16) * 16 + char_digit(c));
    assert(digit_chars_value(one, 16) == digit_chars_value(Seq::<char>::empty(), 16) * 16
        + char_digit(c));
}

} // verus!
