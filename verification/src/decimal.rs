//! Decimal numbers in text.

use vstd::arithmetic::power::{lemma_pow0, lemma_pow1, lemma_pow_adds, pow};
use vstd::prelude::*;

verus! {

/// The number that decimal digits stand for, the first being the most significant.
pub open spec fn decimal_value(digits: Seq<u8>) -> int
    decreases digits.len(),
{
    if digits.len() == 0 {
        0
    } else {
        decimal_value(digits.drop_last()) * 10 + (digits.last() - 48)
    }
}

/// Whether no byte stands before the digit 0. Bytes after the digit 9 pass, with
/// values above 9.
pub open spec fn no_byte_below_zero(digits: Seq<u8>) -> bool {
    forall|i: int| 0 <= i < digits.len() ==> #[trigger] digits[i] >= 48
}

/// A prefix of digits stands for no more than the whole.
pub proof fn lemma_decimal_prefix(digits: Seq<u8>, i: int)
    requires
        no_byte_below_zero(digits),
        0 <= i <= digits.len(),
    ensures
        0 <= decimal_value(digits.take(i)) <= decimal_value(digits),
    decreases digits.len(),
{
    if digits.len() > 0 {
        let front = digits.drop_last();
        assert(digits.last() == digits[digits.len() - 1]);
        assert(forall|j: int| 0 <= j < front.len() ==> front[j] == digits[j]);
        if i < digits.len() {
            lemma_decimal_prefix(front, i);
            assert(front.take(i) =~= digits.take(i));
        } else {
            lemma_decimal_prefix(front, i - 1);
            assert(front.take(i - 1) =~= front);
            assert(digits.take(i) =~= digits);
        }
    } else {
        assert(digits.take(i) =~= digits);
    }
}

/// Reads digits as a number.
pub fn parse_u32(bytes: &[u8]) -> (n: u32)
    requires
        no_byte_below_zero(bytes@),
        decimal_value(bytes@) <= u32::MAX,
    ensures
        n == decimal_value(bytes@),
{
    let mut n: u32 = 0;
    let mut i: usize = 0;
    while i < bytes.len()
        invariant
            i <= bytes@.len(),
            no_byte_below_zero(bytes@),
            decimal_value(bytes@) <= u32::MAX,
            n == decimal_value(bytes@.take(i as int)),
        decreases bytes@.len() - i,
    {
        proof {
            lemma_decimal_prefix(bytes@, i + 1);
            assert(bytes@.take(i + 1).drop_last() =~= bytes@.take(i as int));
        }
        n = n * 10 + (bytes[i] - 48) as u32;
        i += 1;
    }
    assert(bytes@.take(i as int) =~= bytes@);
    n
}

/// The digits of a number, without leading zeros.
pub open spec fn decimal_text(n: nat) -> Seq<char>
    decreases n,
{
    if n < 10 {
        seq![(48 + n) as char]
    } else {
        decimal_text(n / 10).push((48 + n % 10) as char)
    }
}

/// No digits stand for 0, and one more digit at the end makes ten times the number and
/// the digit.
pub proof fn digits_are_read_from_the_left(digits: Seq<u8>, b: u8)
    ensures
        decimal_value(Seq::empty()) == 0,
        decimal_value(digits.push(b)) == 10 * decimal_value(digits) + (b - 48),
{
    assert(digits.push(b).drop_last() =~= digits);
}

/// The number of two runs of digits, one after the other: the first is moved up by as
/// many places as the second has.
pub proof fn digits_have_places(front: Seq<u8>, back: Seq<u8>)
    ensures
        decimal_value(front + back) == decimal_value(front) * pow(10, back.len())
            + decimal_value(back),
    decreases back.len(),
{
    if back.len() == 0 {
        assert(front + back =~= front);
        lemma_pow0(10);
    } else {
        let less = back.drop_last();
        digits_have_places(front, less);
        assert((front + back).drop_last() =~= front + less);
        lemma_pow1(10);
        lemma_pow_adds(10, less.len(), 1);
        let v = decimal_value(front);
        let p = pow(10, less.len());
        assert(pow(10, back.len()) == p * 10);
        assert((v * p) * 10 == v * (p * 10)) by (nonlinear_arith);
    }
}

/// `parse_u32` reads digits from the left: nothing is 0, and one more digit at the end
/// makes ten times the number and the digit.
pub proof fn parse_u32_reads_from_the_left(front: &[u8], whole: &[u8], n: u32, m: u32)
    requires
        call_ensures(parse_u32, (front,), n),
        call_ensures(parse_u32, (whole,), m),
        whole@.len() == front@.len() + 1,
        whole@.take(front@.len() as int) == front@,
    ensures
        front@.len() == 0 ==> n == 0,
        m == 10 * n + (whole@[front@.len() as int] - 48),
{
    assert(whole@.drop_last() =~= front@);
}

/// `parse_u32` can be called on digits of a number that fits.
pub proof fn parse_u32_takes_digits(bytes: &[u8])
    requires
        bytes@.len() <= 9,
        forall|i: int| 0 <= i < bytes@.len() ==> 48 <= #[trigger] bytes@[i] <= 57,
    ensures
        call_requires(parse_u32, (bytes,)),
{
    lemma_decimal_below(bytes@, 9);
}

/// Up to nine digits stand for less than a thousand million.
proof fn lemma_decimal_below(digits: Seq<u8>, n: nat)
    requires
        digits.len() <= n <= 9,
        forall|i: int| 0 <= i < digits.len() ==> 48 <= #[trigger] digits[i] <= 57,
    ensures
        0 <= decimal_value(digits) < pow(10, n),
        pow(10, n) <= 1000000000,
    decreases n,
{
    if n == 0 {
        lemma_pow0(10);
    } else {
        lemma_pow1(10);
        lemma_pow_adds(10, (n - 1) as nat, 1);
        assert(pow(10, 9) == 1000000000) by {
            reveal_with_fuel(pow, 10);
        }
        vstd::arithmetic::power::lemma_pow_increases(10, n, 9);
        if digits.len() > 0 {
            let front = digits.drop_last();
            assert(forall|i: int| 0 <= i < front.len() ==> front[i] == digits[i]);
            assert(digits.last() == digits[digits.len() - 1]);
            lemma_decimal_below(front, (n - 1) as nat);
        } else {
            vstd::arithmetic::power::lemma_pow_positive(10, n);
        }
    }
}

/// The digits written for a number are read as that number again, and only 0 is written
/// with a leading 0.
pub proof fn written_numbers_are_read_again(n: nat, bytes: Seq<u8>)
    requires
        bytes.len() == decimal_text(n).len(),
        forall|i: int| 0 <= i < bytes.len() ==> #[trigger] bytes[i] == decimal_text(n)[i] as int,
    ensures
        decimal_value(bytes) == n,
        forall|i: int| 0 <= i < bytes.len() ==> 48 <= #[trigger] bytes[i] <= 57,
        bytes.len() >= 1,
        n > 0 ==> bytes[0] != 48,
    decreases n,
{
    let front = bytes.drop_last();
    assert(bytes.last() == bytes[bytes.len() - 1]);
    if n < 10 {
        assert(decimal_value(front) == 0);
        assert(bytes[0] == 48 + n);
    } else {
        assert(forall|i: int| 0 <= i < front.len() ==> front[i] == bytes[i]);
        written_numbers_are_read_again(n / 10, front);
        assert(bytes.last() == 48 + n % 10);
    }
}

} // verus!
