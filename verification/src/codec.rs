//! The counter codec: positional digit vectors over a radix.
//!
//! A candidate is named by a linear index and held as a vector of digits,
//! least significant first. The codec turns an index into its digits, digits
//! back into the index, and adds two digit vectors with carry, so that a worker
//! can reach its own candidate from the start of its batch with small
//! fixed-width arithmetic only.

use vstd::arithmetic::div_mod::*;
use vstd::arithmetic::mul::*;
use vstd::arithmetic::power::*;
use vstd::prelude::*;

verus! {

/// A candidate as little-endian digits: position 0 is the least significant.
pub type DigitVector = Vec<u32>;

/// The digit of `index` at `position` in base `radix`.
pub open spec fn digit_at(index: int, radix: int, position: nat) -> int {
    (index / pow(radix, position)) % radix
}

/// The `length` low digits of `index` in base `radix`, least significant first.
pub open spec fn digits_of(index: int, radix: int, length: nat) -> Seq<u32> {
    Seq::new(length, |i: int| digit_at(index, radix, i as nat) as u32)
}

/// The number that a digit vector stands for.
pub open spec fn digits_value(digits: Seq<u32>, radix: int) -> int
    decreases digits.len(),
{
    if digits.len() == 0 {
        0
    } else {
        digits[0] as int + radix * digits_value(digits.drop_first(), radix)
    }
}

/// Every digit is below the radix.
pub open spec fn digits_in_range(digits: Seq<u32>, radix: int) -> bool {
    forall|i: int| 0 <= i < digits.len() ==> (#[trigger] digits[i]) < radix
}

proof fn lemma_pow_succ(radix: int, e: nat)
    ensures
        pow(radix, e + 1) == radix * pow(radix, e),
{
    reveal(pow);
}

/// The digit at the next position is the digit at this position of the
/// quotient by the radix.
proof fn lemma_digit_shift(index: int, radix: int, position: nat)
    requires
        0 <= index,
        1 <= radix,
    ensures
        digit_at(index, radix, position + 1) == digit_at(index / radix, radix, position),
        digit_at(index, radix, 0) == index % radix,
{
    lemma_pow0(radix);
    lemma_pow_succ(radix, position);
    lemma_pow_positive(radix, position);
    lemma_div_denominator(index, radix, pow(radix, position));
}

proof fn lemma_digits_of_unfold(index: int, radix: int, length: nat)
    requires
        0 <= index,
        1 <= radix,
        1 <= length,
    ensures
        digits_of(index, radix, length) == seq![(index % radix) as u32] + digits_of(
            index / radix,
            radix,
            (length - 1) as nat,
        ),
{
    let whole = digits_of(index, radix, length);
    let split = seq![(index % radix) as u32] + digits_of(index / radix, radix, (length - 1) as nat);
    assert forall|i: int| 0 <= i < length implies whole[i] == split[i] by {
        if i == 0 {
            lemma_digit_shift(index, radix, 0);
        } else {
            lemma_digit_shift(index, radix, (i - 1) as nat);
        }
    }
    assert(whole =~= split);
}

/// The digits of an index are below the radix.
pub proof fn lemma_digits_of_in_range(index: int, radix: int, length: nat)
    requires
        1 <= radix <= u32::MAX,
    ensures
        digits_in_range(digits_of(index, radix, length), radix),
{
    assert forall|i: int| 0 <= i < length implies (#[trigger] digits_of(index, radix, length)[i])
        < radix by {
        lemma_mod_bound(index / pow(radix, i as nat), radix);
    }
}

/// The digits of an index stand for the index, reduced modulo
/// `radix^length`.
pub proof fn lemma_value_of_digits(index: int, radix: int, length: nat)
    requires
        0 <= index,
        1 <= radix <= u32::MAX,
    ensures
        digits_value(digits_of(index, radix, length), radix) == index % pow(radix, length),
    decreases length,
{
    if length == 0 {
        lemma_pow0(radix);
    } else {
        let rest = (length - 1) as nat;
        let digits = digits_of(index, radix, length);
        lemma_digits_of_unfold(index, radix, length);
        lemma_mod_bound(index, radix);
        lemma_div_pos_is_pos(index, radix);
        assert(digits[0] == index % radix);
        assert(digits.drop_first() =~= digits_of(index / radix, radix, rest));
        lemma_value_of_digits(index / radix, radix, rest);
        lemma_pow_positive(radix, rest);
        lemma_mod_breakdown(index, radix, pow(radix, rest));
        lemma_pow_succ(radix, rest);
    }
}

/// A digit vector with every digit below the radix stands for a number below
/// `radix^length`.
pub proof fn lemma_value_bounds(digits: Seq<u32>, radix: int)
    requires
        1 <= radix,
        digits_in_range(digits, radix),
    ensures
        0 <= digits_value(digits, radix) < pow(radix, digits.len()),
    decreases digits.len(),
{
    if digits.len() == 0 {
        lemma_pow0(radix);
    } else {
        let rest = digits.drop_first();
        assert forall|i: int| 0 <= i < rest.len() implies (#[trigger] rest[i]) < radix by {
            assert(rest[i] == digits[i + 1]);
        }
        lemma_value_bounds(rest, radix);
        lemma_pow_succ(radix, rest.len());
        let upper = pow(radix, rest.len());
        let tail = digits_value(rest, radix);
        assert(0 <= radix * tail && radix * tail + radix <= radix * upper) by (nonlinear_arith)
            requires
                1 <= radix,
                0 <= tail < upper,
        ;
    }
}

/// Taking the digits of the number that a digit vector stands for gives the
/// vector back.
pub proof fn lemma_digits_of_value(digits: Seq<u32>, radix: int)
    requires
        1 <= radix,
        digits_in_range(digits, radix),
    ensures
        digits_of(digits_value(digits, radix), radix, digits.len()) == digits,
    decreases digits.len(),
{
    if digits.len() == 0 {
        assert(digits_of(digits_value(digits, radix), radix, 0) =~= digits);
    } else {
        let rest = digits.drop_first();
        assert forall|i: int| 0 <= i < rest.len() implies (#[trigger] rest[i]) < radix by {
            assert(rest[i] == digits[i + 1]);
        }
        lemma_value_bounds(rest, radix);
        lemma_value_bounds(digits, radix);
        let value = digits_value(digits, radix);
        let tail = digits_value(rest, radix);
        assert(value == tail * radix + digits[0]) by {
            lemma_mul_is_commutative(tail, radix);
        }
        lemma_fundamental_div_mod_converse(value, radix, tail, digits[0] as int);
        lemma_digits_of_unfold(value, radix, digits.len());
        lemma_digits_of_value(rest, radix);
        assert(seq![digits[0]] + rest =~= digits);
    }
}

/// The low digits of an index depend only on the index modulo
/// `radix^length`.
pub proof fn lemma_digits_of_mod(index: int, radix: int, length: nat)
    requires
        0 <= index,
        1 <= radix <= u32::MAX,
    ensures
        digits_of(index % pow(radix, length), radix, length) == digits_of(index, radix, length),
{
    let digits = digits_of(index, radix, length);
    lemma_digits_of_in_range(index, radix, length);
    lemma_value_of_digits(index, radix, length);
    lemma_digits_of_value(digits, radix);
}

/// Two indices that agree modulo `radix^length` have the same low digits.
pub proof fn lemma_digits_of_congruent(x: int, y: int, radix: int, length: nat)
    requires
        0 <= x,
        0 <= y,
        1 <= radix <= u32::MAX,
        x % pow(radix, length) == y % pow(radix, length),
    ensures
        digits_of(x, radix, length) == digits_of(y, radix, length),
{
    lemma_digits_of_mod(x, radix, length);
    lemma_digits_of_mod(y, radix, length);
}

/// Appending a digit at the top adds that digit times `radix^length`.
proof fn lemma_value_push(digits: Seq<u32>, top: u32, radix: int)
    ensures
        digits_value(digits.push(top), radix) == digits_value(digits, radix) + top * pow(
            radix,
            digits.len(),
        ),
    decreases digits.len(),
{
    let longer = digits.push(top);
    if digits.len() == 0 {
        lemma_pow0(radix);
        assert(longer.drop_first() =~= Seq::<u32>::empty());
        assert(digits_value(longer.drop_first(), radix) == 0);
        assert(radix * 0 == 0);
    } else {
        let rest = digits.drop_first();
        assert(longer.drop_first() =~= rest.push(top));
        lemma_value_push(rest, top, radix);
        lemma_pow_succ(radix, rest.len());
        let tail = digits_value(rest, radix);
        let unit = pow(radix, rest.len());
        assert(radix * (tail + top * unit) == radix * tail + top * (radix * unit))
            by (nonlinear_arith);
    }
}

/// Dropping low digits never makes the value larger.
proof fn lemma_value_ge_suffix(digits: Seq<u32>, radix: int, from: int)
    requires
        1 <= radix,
        0 <= from <= digits.len(),
    ensures
        0 <= digits_value(digits.skip(from), radix) <= digits_value(digits, radix),
    decreases from,
{
    if from == 0 {
        assert(digits.skip(0) =~= digits);
        lemma_value_nonnegative(digits, radix);
    } else {
        let rest = digits.drop_first();
        lemma_value_ge_suffix(rest, radix, from - 1);
        assert(rest.skip(from - 1) =~= digits.skip(from));
        let tail = digits_value(rest, radix);
        assert(radix * tail >= tail) by (nonlinear_arith)
            requires
                1 <= radix,
                0 <= tail,
        ;
    }
}

proof fn lemma_value_nonnegative(digits: Seq<u32>, radix: int)
    requires
        1 <= radix,
    ensures
        0 <= digits_value(digits, radix),
    decreases digits.len(),
{
    if digits.len() > 0 {
        lemma_value_nonnegative(digits.drop_first(), radix);
        let tail = digits_value(digits.drop_first(), radix);
        assert(radix * tail >= 0) by (nonlinear_arith)
            requires
                1 <= radix,
                0 <= tail,
        ;
    }
}

/// The `length` low digits of `index` in base `radix`: `index mod radix`, then
/// the same of the quotient, position by position. An index of `radix^length`
/// or more loses its high part.
pub fn to_digits(index: u128, radix: u32, length: usize) -> (digits: DigitVector)
    requires
        radix >= 2,
    ensures
        digits@ == digits_of(index as int, radix as int, length as nat),
        digits_in_range(digits@, radix as int),
{
    let mut digits: Vec<u32> = Vec::new();
    let mut rest: u128 = index;
    let mut i: usize = 0;
    proof {
        lemma_pow0(radix as int);
    }
    while i < length
        invariant
            radix >= 2,
            i <= length,
            digits@.len() == i,
            rest as int == (index as int) / pow(radix as int, i as nat),
            forall|j: int|
                0 <= j < i ==> (#[trigger] digits@[j]) as int == digit_at(
                    index as int,
                    radix as int,
                    j as nat,
                ),
        decreases length - i,
    {
        let digit: u32 = (rest % (radix as u128)) as u32;
        proof {
            lemma_pow_succ(radix as int, i as nat);
            lemma_pow_positive(radix as int, i as nat);
            lemma_div_denominator(index as int, pow(radix as int, i as nat), radix as int);
            lemma_mul_is_commutative(pow(radix as int, i as nat), radix as int);
        }
        digits.push(digit);
        rest = rest / (radix as u128);
        i += 1;
    }
    proof {
        assert(digits@ =~= digits_of(index as int, radix as int, length as nat));
        lemma_digits_of_in_range(index as int, radix as int, length as nat);
    }
    digits
}

/// The number that a digit vector stands for, or `None` where it does not fit
/// in 128 bits.
pub fn from_digits(digits: &[u32], radix: u32) -> (value: Option<u128>)
    requires
        radix >= 2,
    ensures
        match value {
            Some(v) => v as int == digits_value(digits@, radix as int),
            None => digits_value(digits@, radix as int) > u128::MAX,
        },
{
    let mut acc: u128 = 0;
    let mut k: usize = digits.len();
    assert(digits@.skip(k as int) =~= Seq::<u32>::empty());
    while k > 0
        invariant
            radix >= 2,
            k <= digits.len(),
            acc as int == digits_value(digits@.skip(k as int), radix as int),
        decreases k,
    {
        proof {
            let here = digits@.skip(k - 1);
            assert(here.len() > 0);
            assert(here.drop_first() =~= digits@.skip(k as int));
            assert(here[0] == digits@[k - 1]);
            assert(digits_value(here, radix as int) == digits@[k - 1] + (radix as int) * (
            acc as int));
            lemma_mul_is_commutative(radix as int, acc as int);
            lemma_value_ge_suffix(digits@, radix as int, k - 1);
        }
        let scaled: u128 = match acc.checked_mul(radix as u128) {
            Some(v) => v,
            None => {
                return None;
            },
        };
        acc = match scaled.checked_add(digits[k - 1] as u128) {
            Some(v) => v,
            None => {
                return None;
            },
        };
        k -= 1;
    }
    assert(digits@.skip(0) =~= digits@);
    Some(acc)
}

/// The sum of two digit vectors of one length, position by position with the
/// carry handed upward. A carry out of the top position is dropped: the sum is
/// taken modulo `radix^length`.
pub fn add_with_carry(a: &[u32], b: &[u32], radix: u32) -> (sum: DigitVector)
    requires
        radix >= 2,
        a@.len() == b@.len(),
        digits_in_range(a@, radix as int),
        digits_in_range(b@, radix as int),
    ensures
        sum@ == digits_of(
            digits_value(a@, radix as int) + digits_value(b@, radix as int),
            radix as int,
            a@.len(),
        ),
        digits_in_range(sum@, radix as int),
        digits_value(sum@, radix as int) == (digits_value(a@, radix as int) + digits_value(
            b@,
            radix as int,
        )) % pow(radix as int, a@.len()),
{
    let ghost r: int = radix as int;
    let mut sum: Vec<u32> = Vec::new();
    let mut carry: u32 = 0;
    let mut i: usize = 0;
    proof {
        lemma_pow0(r);
        assert(a@.take(0) =~= Seq::<u32>::empty());
        assert(b@.take(0) =~= Seq::<u32>::empty());
    }
    while i < a.len()
        invariant
            radix >= 2,
            r == radix as int,
            i <= a.len(),
            a@.len() == b@.len(),
            digits_in_range(a@, r),
            digits_in_range(b@, r),
            carry <= 1,
            sum@.len() == i,
            digits_in_range(sum@, r),
            digits_value(a@.take(i as int), r) + digits_value(b@.take(i as int), r)
                == digits_value(sum@, r) + carry * pow(r, i as nat),
        decreases a.len() - i,
    {
        let ghost before = sum@;
        let ghost carry_in: int = carry as int;
        let mut digit: u64 = a[i] as u64 + b[i] as u64 + carry as u64;
        if digit >= radix as u64 {
            digit = digit - radix as u64;
            carry = 1;
        } else {
            carry = 0;
        }
        sum.push(digit as u32);
        proof {
            let unit = pow(r, i as nat);
            let x: int = a@[i as int] as int;
            let y: int = b@[i as int] as int;
            let d: int = digit as int;
            let c: int = carry as int;
            assert(a@.take(i + 1) =~= a@.take(i as int).push(a@[i as int]));
            assert(b@.take(i + 1) =~= b@.take(i as int).push(b@[i as int]));
            lemma_value_push(a@.take(i as int), a@[i as int], r);
            lemma_value_push(b@.take(i as int), b@[i as int], r);
            lemma_value_push(before, digit as u32, r);
            lemma_pow_succ(r, i as nat);
            assert(x + y + carry_in == d + c * r);
            assert(x * unit + y * unit + carry_in * unit == d * unit + c * (r * unit))
                by (nonlinear_arith)
                requires
                    x + y + carry_in == d + c * r,
            ;
            assert forall|j: int| 0 <= j < sum@.len() implies (#[trigger] sum@[j]) < r by {
                if j < i {
                    assert(sum@[j] == before[j]);
                }
            }
        }
        i += 1;
    }
    proof {
        let total = digits_value(a@, r) + digits_value(b@, r);
        let modulus = pow(r, a@.len());
        assert(a@.take(i as int) =~= a@);
        assert(b@.take(i as int) =~= b@);
        lemma_value_bounds(sum@, r);
        lemma_value_nonnegative(a@, r);
        lemma_value_nonnegative(b@, r);
        lemma_pow_positive(r, a@.len());
        lemma_mul_is_commutative(carry as int, modulus);
        lemma_fundamental_div_mod_converse(
            total,
            modulus,
            carry as int,
            digits_value(sum@, r),
        );
        lemma_digits_of_value(sum@, r);
        lemma_digits_of_mod(total, r, a@.len());
    }
    sum
}

/// The eight low base-62 digits of an index, least significant first.
pub fn to_base62_digits(idx: u128) -> (d: [u32; 8])
    ensures
        d@ == digits_of(idx as int, 62, 8),
{
    let mut d: [u32; 8] = [0u32; 8];
    let mut rest: u128 = idx;
    let mut i: usize = 0;
    proof {
        lemma_pow0(62);
    }
    while i < 8
        invariant
            i <= 8,
            rest as int == (idx as int) / pow(62, i as nat),
            forall|j: int| 0 <= j < i ==> (#[trigger] d@[j]) as int == digit_at(idx as int, 62, j as nat),
        decreases 8 - i,
    {
        proof {
            lemma_pow_succ(62, i as nat);
            lemma_pow_positive(62, i as nat);
            lemma_div_denominator(idx as int, pow(62, i as nat), 62);
            lemma_mul_is_commutative(pow(62, i as nat), 62);
        }
        d[i] = (rest % 62u128) as u32;
        rest = rest / 62u128;
        i += 1;
    }
    assert(d@ =~= digits_of(idx as int, 62, 8));
    d
}

/// Decoding the digits of an index gives the index back, for every index
/// inside the space.
pub proof fn lemma_codec_round_trip(index: int, radix: int, length: nat)
    requires
        2 <= radix <= u32::MAX,
        0 <= index < pow(radix, length),
    ensures
        digits_value(digits_of(index, radix, length), radix) == index,
{
    lemma_value_of_digits(index, radix, length);
    lemma_small_mod(index as nat, pow(radix, length) as nat);
}

/// Adding the digits of two indices with carry gives the digits of their sum,
/// wherever the sum is still inside the space.
pub proof fn lemma_carry_correct(a: int, b: int, radix: int, length: nat)
    requires
        2 <= radix <= u32::MAX,
        0 <= a,
        0 <= b,
        a + b < pow(radix, length),
    ensures
        digits_of(
            digits_value(digits_of(a, radix, length), radix) + digits_value(
                digits_of(b, radix, length),
                radix,
            ),
            radix,
            length,
        ) == digits_of(a + b, radix, length),
{
    lemma_codec_round_trip(a, radix, length);
    lemma_codec_round_trip(b, radix, length);
}

} // verus!
