//! Scores: the numbers that candidates are ranked by.
//!
//! A score is a binary64 number other than a NaN, held as its bits. Ordering
//! and printing are done on the bits, in integer arithmetic.

use crate::number::{
    all_digits, decimal, digit_char, digits_value, is_digit, lemma_decimal,
    lemma_digits_are_decimal, push_decimal,
};
use vstd::arithmetic::power2::{
    lemma2_to64, lemma_pow2_adds, lemma_pow2_strictly_increases, lemma_pow2_unfold, pow2,
};
use vstd::prelude::*;

verus! {

/// The bits without the sign.
pub open spec fn magnitude(bits: u64) -> nat {
    if bits < 0x8000_0000_0000_0000 {
        bits as nat
    } else {
        (bits - 0x8000_0000_0000_0000) as nat
    }
}

/// The bits of a number that is not a NaN.
pub open spec fn is_number(bits: u64) -> bool {
    magnitude(bits) <= 0x7ff0_0000_0000_0000
}

/// An integer that orders the bits as the numbers are ordered. Both zeros have
/// the key zero.
pub open spec fn key_of(bits: u64) -> int {
    if bits < 0x8000_0000_0000_0000 {
        magnitude(bits) as int
    } else {
        -(magnitude(bits) as int)
    }
}

/// One candidate's score.
#[derive(Clone, Copy, Debug, PartialEq, Eq, Structural)]
pub struct Score {
    bits: u64,
}

impl View for Score {
    type V = u64;

    closed spec fn view(&self) -> u64 {
        self.bits
    }
}

impl Score {
    /// Where the score stands in the order of all scores.
    pub open spec fn key(self) -> int {
        key_of(self@)
    }

    /// The score with the given bits, or `None` for the bits of a NaN.
    pub fn from_bits(bits: u64) -> (r: Option<Score>)
        ensures
            r is Some <==> is_number(bits),
            r matches Some(s) ==> s@ == bits,
    {
        let m: u64 = if bits < 0x8000_0000_0000_0000 {
            bits
        } else {
            bits - 0x8000_0000_0000_0000
        };
        if m <= 0x7ff0_0000_0000_0000 {
            Some(Score { bits })
        } else {
            None
        }
    }

    pub fn to_bits(self) -> (r: u64)
        ensures
            r == self@,
    {
        self.bits
    }

    fn rank_key(self) -> (r: i64)
        ensures
            r == self.key(),
    {
        if self.bits < 0x8000_0000_0000_0000 {
            self.bits as i64
        } else {
            -((self.bits - 0x8000_0000_0000_0000) as i64)
        }
    }

    /// Whether this score is at least another one.
    pub fn at_least(self, other: Score) -> (r: bool)
        ensures
            r == (self.key() >= other.key()),
    {
        self.rank_key() >= other.rank_key()
    }

    /// Whether the score is a zero: no match.
    pub fn is_zero(self) -> (r: bool)
        ensures
            r == (self.key() == 0),
    {
        self.rank_key() == 0
    }

    /// Whether the score is greater than zero.
    pub fn is_positive(self) -> (r: bool)
        ensures
            r == (self.key() > 0),
    {
        self.rank_key() > 0
    }
}

// ---------------------------------------------------------------------------
// Printing with nine decimals
// ---------------------------------------------------------------------------

/// The integer significand of a finite number.
pub open spec fn significand(bits: u64) -> nat {
    let m = magnitude(bits);
    if m < 0x10_0000_0000_0000 {
        m
    } else {
        m % 0x10_0000_0000_0000 + 0x10_0000_0000_0000
    }
}

/// The power of two that the significand is multiplied by.
pub open spec fn exponent(bits: u64) -> int {
    let m = magnitude(bits);
    if m < 0x10_0000_0000_0000 {
        -1074
    } else {
        m / 0x10_0000_0000_0000 - 1075
    }
}

/// The integer nearest to `a / b`, the even one of two that are as near.
pub open spec fn nearest(a: nat, b: nat) -> nat {
    let q = a / b;
    let r = a % b;
    if 2 * r < b || (2 * r == b && q % 2 == 0) {
        q
    } else {
        q + 1
    }
}

/// The number of billionths nearest to the magnitude of a finite number.
pub open spec fn billionths(bits: u64) -> nat {
    if exponent(bits) >= 0 {
        significand(bits) * pow2(exponent(bits) as nat) * 1_000_000_000
    } else {
        nearest(significand(bits) * 1_000_000_000, pow2((-exponent(bits)) as nat))
    }
}

/// The last `k` digits of the numeral of `n`, with zeros in front.
pub open spec fn last_digits(n: nat, k: nat) -> Seq<char>
    decreases k,
{
    if k == 0 {
        Seq::empty()
    } else {
        last_digits(n / 10, (k - 1) as nat).push(digit_char(n % 10))
    }
}

/// The sign that is printed: also that of a negative zero.
pub open spec fn sign_text(bits: u64) -> Seq<char> {
    if bits < 0x8000_0000_0000_0000 {
        Seq::empty()
    } else {
        seq!['-']
    }
}

/// A number of billionths as units, a point and nine decimals.
pub open spec fn point_nine(n: nat) -> Seq<char> {
    decimal(n / 1_000_000_000).push('.') + last_digits(n % 1_000_000_000, 9)
}

/// A score with nine decimals, rounded to the nearest, halves to even.
pub open spec fn nine_decimals(bits: u64) -> Seq<char> {
    if magnitude(bits) == 0x7ff0_0000_0000_0000 {
        sign_text(bits) + "inf"@
    } else {
        sign_text(bits) + point_nine(billionths(bits))
    }
}

/// Two to the power of `k`, for the exponents that a division needs.
fn two_to(k: u32) -> (r: u128)
    requires
        k <= 85,
    ensures
        r == pow2(k as nat),
        r > 0,
{
    proof {
        lemma2_to64();
        lemma_pow2_adds(64, 21);
    }
    let mut r: u128 = 1;
    let mut i: u32 = 0;
    while i < k
        invariant
            i <= k <= 85,
            pow2(85) == 0x1_0000_0000_0000_0000 * 0x20_0000,
            r == pow2(i as nat),
            r > 0,
        decreases k - i,
    {
        i += 1;
        proof {
            lemma_pow2_unfold(i as nat);
            if i < 85 {
                lemma_pow2_strictly_increases(i as nat, 85);
            }
        }
        r = r * 2;
    }
    r
}

/// The nearest number of billionths where the exponent is negative.
fn small_billionths(m: u64, k: u32) -> (r: u128)
    requires
        m < 0x20_0000_0000_0000,
        1 <= k,
    ensures
        r == nearest((m * 1_000_000_000) as nat, pow2(k as nat)),
        r <= m * 1_000_000_000 + 1,
{
    let a: u128 = (m as u128) * 1_000_000_000;
    if k > 85 {
        proof {
            lemma2_to64();
            lemma_pow2_adds(64, 21);
            lemma_pow2_strictly_increases(85, k as nat);
            vstd::arithmetic::div_mod::lemma_basic_div(a as int, pow2(k as nat) as int);
            vstd::arithmetic::div_mod::lemma_small_mod(a as nat, pow2(k as nat));
        }
        return 0;
    }
    let b = two_to(k);
    let q: u128 = a / b;
    let r: u128 = a % b;
    proof {
        vstd::arithmetic::div_mod::lemma_fundamental_div_mod(a as int, b as int);
        assert(q <= a) by (nonlinear_arith)
            requires
                a == b * q + r,
                b >= 1,
                r >= 0,
                q >= 0,
        ;
        lemma2_to64();
        lemma_pow2_adds(64, 21);
        if k < 85 {
            lemma_pow2_strictly_increases(k as nat, 85);
        }
    }
    if 2 * r < b || (2 * r == b && q % 2 == 0) {
        q
    } else {
        q + 1
    }
}

/// Doubles the number that the first `n` of some digits denote, and adds a
/// carry.
fn doubled(d: &Vec<char>, n: usize, carry: u8) -> (r: Vec<char>)
    requires
        n <= d@.len(),
        all_digits(d@),
        carry <= 1,
    ensures
        all_digits(r@),
        digits_value(r@) == 2 * digits_value(d@.take(n as int)) + carry,
        n > 0 && d@[0] != '0' ==> r@.len() > 0 && r@[0] != '0',
        n == 0 ==> r@.len() == carry && (carry == 1 ==> r@ == seq!['1']),
    decreases n,
{
    if n == 0 {
        let mut r: Vec<char> = Vec::new();
        if carry == 1 {
            r.push('1');
            assert(r@.drop_last() == Seq::<char>::empty());
            assert(digits_value(r@.drop_last()) == 0);
            assert(r@ =~= seq!['1']);
        }
        return r;
    }
    assert(is_digit(d@[n - 1]));
    let low: u8 = ((d[n - 1] as u32) - 0x30) as u8 * 2 + carry;
    let mut r = doubled(d, n - 1, low / 10);
    let ghost before = r@;
    r.push((0x30 + low % 10) as char);
    proof {
        assert(d@.take(n as int).drop_last() == d@.take(n - 1));
        assert(r@.drop_last() == before);
        assert(is_digit(r@.last()));
        assert forall|i: int| 0 <= i < r@.len() implies is_digit(#[trigger] r@[i]) by {
            if i < before.len() {
                assert(is_digit(before[i]));
            }
        }
        if n == 1 {
            assert(d@.take(0) == Seq::<char>::empty());
            if d@[0] != '0' {
                vstd::utf8::char_u32_cast(d@[0], d@[0] as u32);
                assert(low >= 2);
                if low >= 10 {
                    assert(r@[0] == '1');
                } else {
                    assert(r@[0] as u32 == 0x30 + low);
                }
            }
        } else {
            assert(before.len() > 0 ==> r@[0] == before[0]);
        }
    }
    r
}

/// Appends the last nine digits of a numeral.
fn push_last_digits(out: &mut String, n: u64, k: u32)
    ensures
        final(out)@ == old(out)@ + last_digits(n as nat, k as nat),
    decreases k,
{
    let ghost start = out@;
    if k > 0 {
        push_last_digits(out, n / 10, k - 1);
        out.push((0x30 + (n % 10) as u8) as char);
    }
    assert(out@ =~= start + last_digits(n as nat, k as nat));
}

/// The numeral of `m` times two to the power of `e`.
fn large_numeral(m: u64, e: u32) -> (r: Vec<char>)
    requires
        m > 0,
    ensures
        r@ == decimal(m as nat * pow2(e as nat)),
{
    let mut start = String::new();
    push_decimal(&mut start, m as u128);
    assert(start@ =~= decimal(m as nat));
    let mut r = crate::text::chars_of(start.as_str());
    let mut i: u32 = 0;
    proof {
        lemma_decimal(m as nat);
        lemma2_to64();
        assert(m as nat * pow2(0) == m);
    }
    while i < e
        invariant
            i <= e,
            r@.len() >= 1,
            r@[0] != '0',
            all_digits(r@),
            digits_value(r@) == m as nat * pow2(i as nat),
        decreases e - i,
    {
        let n = r.len();
        assert(r@.take(n as int) == r@);
        r = doubled(&r, n, 0);
        proof {
            lemma_pow2_unfold((i + 1) as nat);
            assert(2 * (m as nat * pow2(i as nat)) == m as nat * (2 * pow2(i as nat)))
                by (nonlinear_arith);
        }
        i += 1;
    }
    proof {
        lemma_digits_are_decimal(r@);
    }
    r
}

impl Score {
    /// The score as text with nine decimals.
    pub fn to_text(self) -> (r: String)
        ensures
            r@ == nine_decimals(self@),
    {
        let bits: u64 = self.bits;
        let mut out = String::new();
        let m: u64 = if bits < 0x8000_0000_0000_0000 {
            bits
        } else {
            out.push('-');
            bits - 0x8000_0000_0000_0000
        };
        assert(out@ =~= sign_text(bits));
        assert(m == magnitude(bits));
        if m == 0x7ff0_0000_0000_0000 {
            out.push_str("inf");
            return out;
        }
        let (sig, e): (u64, i32) = if m < 0x10_0000_0000_0000 {
            (m, -1074)
        } else {
            (
                m % 0x10_0000_0000_0000 + 0x10_0000_0000_0000,
                (m / 0x10_0000_0000_0000) as i32 - 1075,
            )
        };
        assert(sig == significand(bits) && e == exponent(bits));
        let ghost sign = out@;
        if e >= 0 {
            let units = large_numeral(sig, e as u32);
            let units = crate::text::string_of(units.as_slice());
            out.push_str(units.as_str());
            out.push('.');
            push_last_digits(&mut out, 0, 9);
            proof {
                let n = significand(bits) * pow2(e as nat);
                assert((n * 1_000_000_000) / 1_000_000_000 == n);
                assert((n * 1_000_000_000) % 1_000_000_000 == 0);
                assert(out@ =~= sign + point_nine(billionths(bits)));
            }
        } else {
            let n = small_billionths(sig, (-e) as u32);
            push_decimal(&mut out, n / 1_000_000_000);
            out.push('.');
            push_last_digits(&mut out, (n % 1_000_000_000) as u64, 9);
            assert(out@ =~= sign + point_nine(billionths(bits)));
        }
        out
    }
}

// ---------------------------------------------------------------------------
// Laws
// ---------------------------------------------------------------------------

/// Scores are ordered as binary64 numbers are: without the sign bit by their
/// bits, with it the other way round, every negative number below every
/// positive one, and the two zeros alike.
pub proof fn law_scores_are_ordered_as_numbers(a: u64, b: u64)
    ensures
        a < 0x8000_0000_0000_0000 && b < 0x8000_0000_0000_0000 ==> (key_of(a) < key_of(b) <==> a
            < b),
        a >= 0x8000_0000_0000_0000 && b >= 0x8000_0000_0000_0000 ==> (key_of(a) < key_of(b) <==> a
            > b),
        a >= 0x8000_0000_0000_0000 && b < 0x8000_0000_0000_0000 ==> key_of(a) <= key_of(b),
        a >= 0x8000_0000_0000_0000 && b < 0x8000_0000_0000_0000 ==> (key_of(a) == key_of(b) <==> a
            == 0x8000_0000_0000_0000 && b == 0),
        key_of(a) == 0 <==> a == 0 || a == 0x8000_0000_0000_0000,
        key_of(a) > 0 <==> 0 < a < 0x8000_0000_0000_0000,
{
}

/// The quotient that is printed is off by at most a half, and where it is off by
/// a half it is even.
pub proof fn law_quotients_are_rounded_to_the_nearest(a: nat, b: nat)
    requires
        b > 0,
    ensures
        2 * (nearest(a, b) * b) <= 2 * a + b,
        2 * a <= 2 * (nearest(a, b) * b) + b,
        2 * (nearest(a, b) * b) == 2 * a + b || 2 * a == 2 * (nearest(a, b) * b) + b ==> nearest(
            a,
            b,
        ) % 2 == 0,
{
    let q = a / b;
    let r = a % b;
    vstd::arithmetic::div_mod::lemma_fundamental_div_mod(a as int, b as int);
    vstd::arithmetic::div_mod::lemma_mod_bound(a as int, b as int);
    assert(a == q * b + r) by (nonlinear_arith)
        requires
            a == b * q + r,
    ;
    assert((q + 1) * b == q * b + b) by (nonlinear_arith);
}

/// What is printed of a finite score reads back as its billionths: the units,
/// a point, and nine decimals.
pub proof fn law_printed_scores_read_back(bits: u64)
    requires
        magnitude(bits) != 0x7ff0_0000_0000_0000,
    ensures
        ({
            let sign = if bits < 0x8000_0000_0000_0000 {
                Seq::<char>::empty()
            } else {
                seq!['-']
            };
            let n = billionths(bits);
            exists|decimals: Seq<char>|
                nine_decimals(bits) == sign + (decimal(n / 1_000_000_000).push('.') + decimals)
                    && decimals.len() == 9 && #[trigger] all_digits(decimals) && digits_value(
                    decimals,
                ) == n % 1_000_000_000
        }),
{
    let n = billionths(bits);
    let decimals = last_digits(n % 1_000_000_000, 9);
    lemma_last_digits_value(n % 1_000_000_000, 9);
    lemma_ten_pow();
    assert(n % 1_000_000_000 < vstd::arithmetic::power::pow(10, 9));
    assert(all_digits(decimals));
}

proof fn lemma_ten_pow()
    ensures
        vstd::arithmetic::power::pow(10, 9) == 1_000_000_000,
{
    reveal(vstd::arithmetic::power::pow);
    reveal_with_fuel(vstd::arithmetic::power::pow, 10);
}

proof fn lemma_last_digits_value(n: nat, k: nat)
    ensures
        last_digits(n, k).len() == k,
        all_digits(last_digits(n, k)),
        n < vstd::arithmetic::power::pow(10, k) ==> digits_value(last_digits(n, k)) == n,
    decreases k,
{
    reveal(vstd::arithmetic::power::pow);
    if k > 0 {
        let m = (k - 1) as nat;
        lemma_last_digits_value(n / 10, m);
        let front = last_digits(n / 10, m);
        let all = last_digits(n, k);
        assert(all.drop_last() =~= front);
        assert forall|i: int| 0 <= i < all.len() implies is_digit(#[trigger] all[i]) by {
            if i < front.len() {
                assert(all[i] == front[i]);
            }
        }
        assert(vstd::arithmetic::power::pow(10, k) == 10 * vstd::arithmetic::power::pow(10, m));
        if n < vstd::arithmetic::power::pow(10, k) {
            assert(n / 10 < vstd::arithmetic::power::pow(10, m));
            assert(digits_value(all) == digits_value(front) * 10 + n % 10);
        }
    }
}

/// The value of a finite score is that of its binary64 fields: with the biased
/// exponent `e` and the fraction `f`, what is printed are the billionths nearest
/// to `(2^52 + f) * 2^(e - 1075)`, or to `f * 2^-1074` where `e` is zero.
pub proof fn law_billionths_follow_the_binary64_fields(bits: u64, e: nat, f: nat)
    requires
        bits % 0x8000_0000_0000_0000 == e * 0x10_0000_0000_0000 + f,
        f < 0x10_0000_0000_0000,
        e < 2047,
    ensures
        e == 0 ==> 2 * (billionths(bits) * pow2(1074)) <= 2 * (f * 1_000_000_000) + pow2(1074),
        e == 0 ==> 2 * (f * 1_000_000_000) <= 2 * (billionths(bits) * pow2(1074)) + pow2(1074),
        0 < e < 1075 ==> 2 * (billionths(bits) * pow2((1075 - e) as nat)) <= 2 * ((
        0x10_0000_0000_0000 + f) * 1_000_000_000) + pow2((1075 - e) as nat),
        0 < e < 1075 ==> 2 * ((0x10_0000_0000_0000 + f) * 1_000_000_000) <= 2 * (billionths(bits)
            * pow2((1075 - e) as nat)) + pow2((1075 - e) as nat),
        e >= 1075 ==> billionths(bits) == (0x10_0000_0000_0000 + f) * pow2((e - 1075) as nat)
            * 1_000_000_000,
{
    let m = magnitude(bits);
    assert(m == e * 0x10_0000_0000_0000 + f);
    assert(m / 0x10_0000_0000_0000 == e && m % 0x10_0000_0000_0000 == f);
    vstd::arithmetic::power2::lemma_pow2_pos(1074);
    if e == 0 {
        law_quotients_are_rounded_to_the_nearest(f * 1_000_000_000, pow2(1074));
    } else if e < 1075 {
        vstd::arithmetic::power2::lemma_pow2_pos((1075 - e) as nat);
        law_quotients_are_rounded_to_the_nearest(
            (0x10_0000_0000_0000 + f) * 1_000_000_000,
            pow2((1075 - e) as nat),
        );
    }
}

} // verus!
