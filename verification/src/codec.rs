use crate::bignat::BigNat;
use num_bigint::{BigUint, ParseBigIntError};
use num_traits::Num;
use vstd::arithmetic::div_mod::*;
use vstd::prelude::*;
use vstd::string::{StrSliceExecFns, StringExecFns};

verus! {

// ---------------------------------------------------------------------
// Big-endian bytes and their hexadecimal text
// ---------------------------------------------------------------------

/// The number that big-endian base-256 digits stand for.
pub open spec fn be_value(bs: Seq<u8>) -> nat
    decreases bs.len(),
{
    if bs.len() == 0 {
        0
    } else {
        be_value(bs.drop_last()) * 256 + bs.last() as nat
    }
}

/// 256^n.
pub open spec fn pow256(n: nat) -> nat
    decreases n,
{
    if n == 0 {
        1
    } else {
        256 * pow256((n - 1) as nat)
    }
}

/// The `n` low bytes of `v`, big-endian.
pub open spec fn be_bytes(v: nat, n: nat) -> Seq<u8>
    decreases n,
{
    if n == 0 {
        Seq::empty()
    } else {
        be_bytes(v / 256, (n - 1) as nat).push((v % 256) as u8)
    }
}

/// The lowercase hexadecimal digit for `d < 16`.
pub open spec fn hex_digit(d: nat) -> char {
    seq!['0', '1', '2', '3', '4', '5', '6', '7', '8', '9', 'a', 'b', 'c', 'd', 'e', 'f'][d as int]
}

/// Each byte as two lowercase hexadecimal digits, in order.
pub open spec fn hex_of_bytes(bs: Seq<u8>) -> Seq<char>
    decreases bs.len(),
{
    if bs.len() == 0 {
        Seq::empty()
    } else {
        hex_of_bytes(bs.drop_last()) + seq![
            hex_digit(bs.last() as nat / 16),
            hex_digit(bs.last() as nat % 16),
        ]
    }
}

/// The ABI text of a `uint256`: `0x` and the 32 big-endian bytes in hexadecimal.
pub open spec fn uint256_hex(v: nat) -> Seq<char> {
    seq!['0', 'x'] + hex_of_bytes(be_bytes(v, 32))
}

/// Two hexadecimal digits per byte.
pub proof fn lemma_hex_of_bytes_len(bs: Seq<u8>)
    ensures
        hex_of_bytes(bs).len() == 2 * bs.len(),
    decreases bs.len(),
{
    if bs.len() > 0 {
        lemma_hex_of_bytes_len(bs.drop_last());
    }
}

pub proof fn lemma_pow256_positive(n: nat)
    ensures
        pow256(n) > 0,
    decreases n,
{
    if n > 0 {
        lemma_pow256_positive((n - 1) as nat);
    }
}

pub proof fn lemma_pow256_monotone(a: nat, b: nat)
    requires
        a <= b,
    ensures
        pow256(a) <= pow256(b),
    decreases b,
{
    if a < b {
        lemma_pow256_monotone(a, (b - 1) as nat);
        lemma_pow256_positive((b - 1) as nat);
    }
}

/// `n` bytes stand for less than 256^n.
pub proof fn lemma_be_value_upper(bs: Seq<u8>)
    ensures
        be_value(bs) < pow256(bs.len()),
    decreases bs.len(),
{
    if bs.len() > 0 {
        lemma_be_value_upper(bs.drop_last());
    }
}

/// Bytes with a nonzero leading byte stand for at least 256^(n-1).
pub proof fn lemma_be_value_lower(bs: Seq<u8>)
    requires
        bs.len() > 0,
        bs[0] != 0,
    ensures
        be_value(bs) >= pow256((bs.len() - 1) as nat),
    decreases bs.len(),
{
    if bs.len() > 1 {
        assert(bs.drop_last()[0] == bs[0]);
        lemma_be_value_lower(bs.drop_last());
    } else {
        assert(bs.drop_last().len() == 0);
    }
}

/// Leading zero bytes do not change the value.
pub proof fn lemma_be_value_leading_zeros(zs: Seq<u8>, bs: Seq<u8>)
    requires
        forall|i: int| 0 <= i < zs.len() ==> zs[i] == 0,
    ensures
        be_value(zs + bs) == be_value(bs),
    decreases bs.len() + zs.len(),
{
    if bs.len() == 0 {
        assert(zs + bs =~= zs);
        if zs.len() > 0 {
            lemma_be_value_leading_zeros(zs.drop_last(), bs);
            assert(zs.drop_last() + bs =~= zs.drop_last());
        }
    } else {
        assert((zs + bs).drop_last() =~= zs + bs.drop_last());
        lemma_be_value_leading_zeros(zs, bs.drop_last());
    }
}

/// `n` bytes are the `n` low bytes of the number that they stand for.
pub proof fn lemma_be_bytes_unique(bs: Seq<u8>)
    ensures
        bs =~= be_bytes(be_value(bs), bs.len()),
    decreases bs.len(),
{
    if bs.len() > 0 {
        let v = be_value(bs);
        let x = be_value(bs.drop_last());
        lemma_be_bytes_unique(bs.drop_last());
        lemma_fundamental_div_mod_converse(v as int, 256, x as int, bs.last() as int);
        assert(bs =~= bs.drop_last().push(bs.last()));
    }
}

/// The big-endian bytes of `a`, by num-bigint's `BigUint::to_bytes_be`.
/// The contract claims what its source shows: the bytes stand for `a`,
/// there is at least one, and the leading byte is not zero unless it is
/// the only one (zero gives `[0]`).
#[verifier::external_body]
fn biguint_to_bytes_be(a: &BigNat) -> (r: Vec<u8>)
    ensures
        be_value(r@) == a@,
        r@.len() >= 1,
        r@.len() > 1 ==> r@[0] != 0,
{
    BigUint::new(a.digits.clone()).to_bytes_be()
}

/// The lowercase hexadecimal digit of `d < 16` as text.
fn hex_digit_str(d: u8) -> (r: &'static str)
    requires
        d < 16,
    ensures
        r@ == seq![hex_digit(d as nat)],
{
    match d {
        0 => {
            proof {
                reveal_strlit("0");
            }
            "0"
        },
        1 => {
            proof {
                reveal_strlit("1");
            }
            "1"
        },
        2 => {
            proof {
                reveal_strlit("2");
            }
            "2"
        },
        3 => {
            proof {
                reveal_strlit("3");
            }
            "3"
        },
        4 => {
            proof {
                reveal_strlit("4");
            }
            "4"
        },
        5 => {
            proof {
                reveal_strlit("5");
            }
            "5"
        },
        6 => {
            proof {
                reveal_strlit("6");
            }
            "6"
        },
        7 => {
            proof {
                reveal_strlit("7");
            }
            "7"
        },
        8 => {
            proof {
                reveal_strlit("8");
            }
            "8"
        },
        9 => {
            proof {
                reveal_strlit("9");
            }
            "9"
        },
        10 => {
            proof {
                reveal_strlit("a");
            }
            "a"
        },
        11 => {
            proof {
                reveal_strlit("b");
            }
            "b"
        },
        12 => {
            proof {
                reveal_strlit("c");
            }
            "c"
        },
        13 => {
            proof {
                reveal_strlit("d");
            }
            "d"
        },
        14 => {
            proof {
                reveal_strlit("e");
            }
            "e"
        },
        _ => {
            proof {
                reveal_strlit("f");
            }
            "f"
        },
    }
}

/// The byte as two lowercase hexadecimal digits, as `{:02x}` formats it.
fn hex_byte(b: u8) -> (r: String)
    ensures
        r@ == seq![hex_digit(b as nat / 16), hex_digit(b as nat % 16)],
{
    let mut r = String::new();
    r.append(hex_digit_str(b / 16));
    r.append(hex_digit_str(b % 16));
    r
}

/// The ABI encoding of `value` as a `uint256` word in hexadecimal text;
/// `None` when it does not fit in 256 bits.
pub fn encode_uint256(value: &BigNat) -> (r: Option<String>)
    ensures
        r is None <==> value@ >= pow256(32),
        r matches Some(s) ==> s@ == uint256_hex(value@),
        r matches Some(s) ==> s@.len() == 66,
{
    let bytes = biguint_to_bytes_be(value);
    if bytes.len() > 32 {
        proof {
            lemma_be_value_lower(bytes@);
            lemma_pow256_monotone(32, (bytes@.len() - 1) as nat);
        }
        return None;
    }
    let pad: usize = 32 - bytes.len();
    let mut padded: Vec<u8> = Vec::new();
    for i in 0..pad
        invariant
            padded@.len() == i,
            forall|j: int| 0 <= j < i ==> padded@[j] == 0,
    {
        padded.push(0);
    }
    let ghost zeros = padded@;
    let n = bytes.len();
    for i in 0..n
        invariant
            n == bytes@.len(),
            padded@ =~= zeros + bytes@.subrange(0, i as int),
    {
        padded.push(bytes[i]);
    }
    proof {
        assert(bytes@.subrange(0, n as int) =~= bytes@);
        lemma_be_value_leading_zeros(zeros, bytes@);
        lemma_be_bytes_unique(padded@);
        lemma_be_value_upper(bytes@);
        lemma_pow256_monotone(bytes@.len(), 32);
    }
    let mut out = String::from_str("0x");
    proof {
        reveal_strlit("0x");
    }
    for i in 0..32usize
        invariant
            padded@.len() == 32,
            out@ =~= seq!['0', 'x'] + hex_of_bytes(padded@.subrange(0, i as int)),
    {
        let pair = hex_byte(padded[i]);
        out.append(pair.as_str());
        proof {
            let next = padded@.subrange(0, i + 1);
            assert(next.drop_last() =~= padded@.subrange(0, i as int));
        }
    }
    proof {
        assert(padded@.subrange(0, 32) =~= padded@);
        lemma_hex_of_bytes_len(padded@);
    }
    Some(out)
}

// ---------------------------------------------------------------------
// Integer text in a radix
// ---------------------------------------------------------------------

/// One leading `+` is dropped, unless a second `+` follows it.
pub open spec fn strip_plus(s: Seq<char>) -> Seq<char> {
    if s.len() > 0 && s[0] == '+' && !(s.len() > 1 && s[1] == '+') {
        s.drop_first()
    } else {
        s
    }
}

/// The value of an ASCII letter or digit as a digit (`a`/`A` is ten);
/// 255 for any other character.
pub open spec fn char_digit(c: char) -> nat {
    if '0' <= c && c <= '9' {
        (c as int - '0' as int) as nat
    } else if 'a' <= c && c <= 'z' {
        (c as int - 'a' as int + 10) as nat
    } else if 'A' <= c && c <= 'Z' {
        (c as int - 'A' as int + 10) as nat
    } else {
        255
    }
}

/// Text that num-bigint reads as a number in `radix`: after an optional
/// `+`, a digit below the radix, then digits below the radix and `_`
/// separators.
pub open spec fn radix_text_valid(s: Seq<char>, radix: nat) -> bool {
    let t = strip_plus(s);
    &&& t.len() > 0
    &&& t[0] != '_'
    &&& forall|i: int| 0 <= i < t.len() ==> t[i] == '_' || char_digit(t[i]) < radix
}

/// The value of digits in `radix`, most significant first, `_` skipped.
pub open spec fn digit_chars_value(t: Seq<char>, radix: nat) -> nat
    decreases t.len(),
{
    if t.len() == 0 {
        0
    } else if t.last() == '_' {
        digit_chars_value(t.drop_last(), radix)
    } else {
        digit_chars_value(t.drop_last(), radix) * radix + char_digit(t.last())
    }
}

/// The number that valid text stands for in `radix`.
pub open spec fn radix_text_value(s: Seq<char>, radix: nat) -> nat {
    digit_chars_value(strip_plus(s), radix)
}

/// Text that starts with `0x`.
pub open spec fn has_hex_prefix(s: Seq<char>) -> bool {
    s.len() >= 2 && s[0] == '0' && s[1] == 'x'
}

/// num-bigint's error for text that is not a number, carried through as it is.
#[verifier::external_type_specification]
#[verifier::external_body]
pub struct ExParseBigIntError(ParseBigIntError);

/// num-bigint's `Num::from_str_radix` for `BigUint`, which panics on a
/// radix outside 2..=36 (left out by `requires`). The contract claims what
/// its source shows: it succeeds exactly on `radix_text_valid` text, with
/// the value `radix_text_value`. Which of its two error kinds an error is
/// (empty text or an invalid digit) is left unsaid.
#[verifier::external_body]
fn biguint_from_str_radix(text: &str, radix: u32) -> (r: Result<BigNat, ParseBigIntError>)
    requires
        2 <= radix <= 36,
    ensures
        r is Ok <==> radix_text_valid(text@, radix as nat),
        r matches Ok(n) ==> n@ == radix_text_value(text@, radix as nat),
{
    match BigUint::from_str_radix(text, radix) {
        Ok(n) => Ok(BigNat { digits: n.to_u32_digits() }),
        Err(e) => Err(e),
    }
}

/// The number that `parse_biguint` reads from command-line text: hexadecimal
/// after a `0x` prefix, else decimal; `None` for text that is not a number.
pub open spec fn parsed_biguint(s: Seq<char>) -> Option<nat> {
    if has_hex_prefix(s) {
        if radix_text_valid(s.skip(2), 16) {
            Some(radix_text_value(s.skip(2), 16))
        } else {
            None
        }
    } else {
        if radix_text_valid(s, 10) {
            Some(radix_text_value(s, 10))
        } else {
            None
        }
    }
}

/// A command-line integer: hexadecimal after a `0x` prefix, else decimal.
pub fn parse_biguint(input: &str) -> (r: Result<BigNat, ParseBigIntError>)
    ensures
        r is Ok <==> parsed_biguint(input@) is Some,
        r matches Ok(n) ==> parsed_biguint(input@) == Some(n@),
        has_hex_prefix(input@) ==> (r is Ok <==> radix_text_valid(input@.skip(2), 16)),
        has_hex_prefix(input@) ==> (r matches Ok(n) ==> n@ == radix_text_value(
            input@.skip(2),
            16,
        )),
        !has_hex_prefix(input@) ==> (r is Ok <==> radix_text_valid(input@, 10)),
        !has_hex_prefix(input@) ==> (r matches Ok(n) ==> n@ == radix_text_value(input@, 10)),
{
    let n = input.unicode_len();
    if n >= 2 && input.get_char(0) == '0' && input.get_char(1) == 'x' {
        let digits = input.substring_char(2, n);
        assert(digits@ =~= input@.skip(2));
        biguint_from_str_radix(digits, 16)
    } else {
        biguint_from_str_radix(input, 10)
    }
}

} // verus!
