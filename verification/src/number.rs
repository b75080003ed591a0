//! Decimal numerals: how numbers are written into text and read from it.

use vstd::prelude::*;
use vstd::slice::slice_subrange;

verus! {

/// The character of a decimal digit.
pub open spec fn digit_char(d: nat) -> char {
    (0x30 + d) as char
}

/// The decimal numeral of a number, without leading zeros.
pub open spec fn decimal(n: nat) -> Seq<char>
    decreases n,
{
    if n < 10 {
        seq![digit_char(n)]
    } else {
        decimal(n / 10).push(digit_char(n % 10))
    }
}

/// The decimal numeral of an integer, with a minus sign where it is negative.
pub open spec fn signed_decimal(i: int) -> Seq<char> {
    if i < 0 {
        seq!['-'] + decimal((-i) as nat)
    } else {
        decimal(i as nat)
    }
}

fn digit(d: u8) -> (c: char)
    requires
        d < 10,
    ensures
        c == digit_char(d as nat),
{
    (0x30 + d) as char
}

/// Appends the numeral of `n`.
pub fn push_decimal(out: &mut String, n: u128)
    ensures
        final(out)@ == old(out)@ + decimal(n as nat),
    decreases n,
{
    let ghost start = out@;
    if n >= 10 {
        push_decimal(out, n / 10);
        out.push(digit((n % 10) as u8));
        assert(out@ =~= start + decimal(n as nat));
    } else {
        out.push(digit(n as u8));
        assert(out@ =~= start + decimal(n as nat));
    }
}

/// Appends the numeral of `i`.
pub fn push_signed(out: &mut String, i: i64)
    ensures
        final(out)@ == old(out)@ + signed_decimal(i as int),
{
    let ghost start = out@;
    if i < 0 {
        out.push('-');
        push_decimal(out, (-(i as i128)) as u128);
        assert(out@ =~= start + signed_decimal(i as int));
    } else {
        push_decimal(out, i as u128);
    }
}

/// A decimal digit.
pub open spec fn is_digit(c: char) -> bool {
    0x30 <= (c as u32) <= 0x39
}

pub open spec fn all_digits(s: Seq<char>) -> bool {
    forall|i: int| 0 <= i < s.len() ==> is_digit(#[trigger] s[i])
}

/// The number that a row of digits denotes.
pub open spec fn digits_value(s: Seq<char>) -> nat
    decreases s.len(),
{
    if s.len() == 0 {
        0
    } else {
        digits_value(s.drop_last()) * 10 + ((s.last() as u32) - 0x30) as nat
    }
}

/// A numeral without the plus sign that may stand before it.
pub open spec fn unsigned_part(s: Seq<char>) -> Seq<char> {
    if s.len() > 0 && s[0] == '+' {
        s.drop_first()
    } else {
        s
    }
}

/// The number that a text denotes to `str::parse` for an unsigned type with
/// the greatest value `max`: at least one digit, digits alone behind an
/// optional plus sign, and a value within the type.
pub open spec fn parsed(s: Seq<char>, max: nat) -> Option<nat> {
    let d = unsigned_part(s);
    if d.len() > 0 && all_digits(d) && digits_value(d) <= max {
        Some(digits_value(d))
    } else {
        None
    }
}

proof fn lemma_value_grows(s: Seq<char>, k: int)
    requires
        0 <= k <= s.len(),
        all_digits(s),
    ensures
        digits_value(s.take(k)) <= digits_value(s),
    decreases s.len() - k,
{
    if k < s.len() {
        assert(s.take(k + 1).drop_last() == s.take(k));
        assert(is_digit(s[k]));
        lemma_value_grows(s, k + 1);
    } else {
        assert(s.take(k) == s);
    }
}

/// A numeral has digits alone, has at least one, and denotes its number.
pub proof fn lemma_decimal(n: nat)
    ensures
        decimal(n).len() >= 1,
        all_digits(decimal(n)),
        digits_value(decimal(n)) == n,
        n > 0 ==> decimal(n)[0] != '0',
    decreases n,
{
    if n < 10 {
        let s = decimal(n);
        assert(s.drop_last() == Seq::<char>::empty());
        assert(is_digit(s[0]));
        assert(digits_value(s.drop_last()) == 0);
    } else {
        lemma_decimal(n / 10);
        let s = decimal(n);
        assert(s.drop_last() == decimal(n / 10));
        assert forall|i: int| 0 <= i < s.len() implies is_digit(#[trigger] s[i]) by {
            if i < s.len() - 1 {
                assert(is_digit(decimal(n / 10)[i]));
            }
        }
    }
}

/// Reading a numeral gives back the number that was written.
pub proof fn law_numerals_read_back(n: nat, max: nat)
    requires
        n <= max,
    ensures
        parsed(decimal(n), max) == Some(n),
{
    lemma_decimal(n);
    assert(is_digit(decimal(n)[0]));
    assert(unsigned_part(decimal(n)) == decimal(n));
}

/// A row of digits that does not begin with a zero is the numeral of its
/// value.
pub proof fn lemma_digits_are_decimal(s: Seq<char>)
    requires
        s.len() >= 1,
        all_digits(s),
        s[0] != '0' || s.len() == 1,
    ensures
        decimal(digits_value(s)) == s,
        s[0] != '0' ==> digits_value(s) > 0,
    decreases s.len(),
{
    let d = s.last();
    assert(is_digit(s[s.len() - 1]));
    let low = ((d as u32) - 0x30) as nat;
    assert(digit_char(low) == d) by {
        vstd::utf8::char_u32_cast(d, d as u32);
    }
    if s.len() == 1 {
        assert(digits_value(s.drop_last()) == 0);
        assert(decimal(digits_value(s)) =~= s);
    } else {
        let init = s.drop_last();
        assert forall|i: int| 0 <= i < init.len() implies is_digit(#[trigger] init[i]) by {
            assert(is_digit(s[i]));
        }
        lemma_digits_are_decimal(init);
        let v = digits_value(s);
        assert(v == digits_value(init) * 10 + low);
        assert(v / 10 == digits_value(init));
        assert(v % 10 == low);
        assert(decimal(v) =~= s);
    }
}

/// Reads an unsigned numeral.
pub fn parse_u64(s: &[char], max: u64) -> (r: Option<u64>)
    ensures
        match r {
            Some(v) => parsed(s@, max as nat) == Some(v as nat),
            None => parsed(s@, max as nat) is None,
        },
{
    let d: &[char] = if s.len() > 0 && s[0] == '+' {
        slice_subrange(s, 1, s.len())
    } else {
        s
    };
    assert(d@ =~= unsigned_part(s@));
    if d.len() == 0 {
        return None;
    }
    let mut acc: u128 = 0;
    let mut i: usize = 0;
    assert(d@.take(0) == Seq::<char>::empty());
    while i < d.len()
        invariant
            i <= d@.len(),
            d@ == unsigned_part(s@),
            d@.len() > 0,
            acc <= max,
            acc == digits_value(d@.take(i as int)),
            forall|j: int| 0 <= j < i ==> is_digit(#[trigger] d@[j]),
        decreases d@.len() - i,
    {
        let c: u32 = d[i] as u32;
        if c < 0x30 || c > 0x39 {
            assert(!is_digit(d@[i as int]));
            return None;
        }
        acc = acc * 10 + (c - 0x30) as u128;
        assert(d@.take(i + 1).drop_last() == d@.take(i as int));
        i += 1;
        if acc > max as u128 {
            proof {
                if all_digits(d@) {
                    lemma_value_grows(d@, i as int);
                }
            }
            return None;
        }
    }
    assert(d@.take(i as int) == d@);
    Some(acc as u64)
}

/// `str::parse` to `usize`.
pub fn parse_usize(s: &[char]) -> (r: Option<usize>)
    ensures
        match r {
            Some(v) => parsed(s@, usize::MAX as nat) == Some(v as nat),
            None => parsed(s@, usize::MAX as nat) is None,
        },
{
    match parse_u64(s, usize::MAX as u64) {
        Some(v) => Some(v as usize),
        None => None,
    }
}

/// `str::parse` to `u8`.
pub fn parse_u8(s: &[char]) -> (r: Option<u8>)
    ensures
        match r {
            Some(v) => parsed(s@, 255) == Some(v as nat),
            None => parsed(s@, 255) is None,
        },
{
    match parse_u64(s, 255) {
        Some(v) => Some(v as u8),
        None => None,
    }
}

/// What holds anything but digits behind an optional plus sign is no number.
pub proof fn law_other_texts_are_no_numbers(s: Seq<char>, max: nat, i: int)
    ensures
        s.len() == 0 ==> parsed(s, max) is None,
        s == seq!['+'] ==> parsed(s, max) is None,
        0 <= i < s.len() && !('0' <= s[i] && s[i] <= '9') && !(i == 0 && s[i] == '+')
            ==> parsed(s, max) is None,
{
    if 0 <= i < s.len() && !('0' <= s[i] && s[i] <= '9') && !(i == 0 && s[i] == '+') {
        vstd::utf8::char_u32_cast(s[i], s[i] as u32);
        let d = unsigned_part(s);
        if s[0] == '+' {
            assert(d[i - 1] == s[i]);
        } else {
            assert(d[i] == s[i]);
        }
    }
}

/// A plus sign and zeros at the front do not change a number, and a number
/// beyond the limit is none.
pub proof fn law_signs_and_zeros_do_not_count(n: nat, max: nat)
    ensures
        n <= max ==> parsed(decimal(n), max) == Some(n),
        n <= max ==> parsed(seq!['+'] + decimal(n), max) == Some(n),
        n <= max ==> parsed(seq!['0'] + decimal(n), max) == Some(n),
        n > max ==> parsed(decimal(n), max) is None,
{
    let d = decimal(n);
    lemma_decimal(n);
    assert(is_digit(d[0]));
    assert(unsigned_part(d) == d);
    assert((seq!['+'] + d).drop_first() =~= d);
    assert(unsigned_part(seq!['+'] + d) =~= d);
    let z = seq!['0'] + d;
    lemma_zero_in_front(d);
    assert forall|i: int| 0 <= i < z.len() implies is_digit(#[trigger] z[i]) by {
        if i > 0 {
            assert(z[i] == d[i - 1]);
        }
    }
    assert(unsigned_part(z) == z);
}

proof fn lemma_zero_in_front(d: Seq<char>)
    ensures
        digits_value(seq!['0'] + d) == digits_value(d),
    decreases d.len(),
{
    let z = seq!['0'] + d;
    if d.len() > 0 {
        lemma_zero_in_front(d.drop_last());
        assert(z.drop_last() =~= seq!['0'] + d.drop_last());
        assert(z.last() == d.last());
    } else {
        assert(z.drop_last() =~= Seq::<char>::empty());
        assert(digits_value(z.drop_last()) == 0);
    }
}

/// The numeral of a digit is the digit; ten times a number and a digit has the
/// digit behind the numeral of the number.
pub proof fn law_numerals_are_decimal(a: nat, d: nat)
    requires
        d < 10,
    ensures
        decimal(d) == seq!["0123456789"@[d as int]],
        a > 0 ==> decimal(10 * a + d) == decimal(a).push("0123456789"@[d as int]),
        signed_decimal(a as int) == decimal(a),
        a > 0 ==> signed_decimal(-(a as int)) == seq!['-'] + decimal(a),
{
    reveal_strlit("0123456789");
    assert(digit_char(d) == "0123456789"@[d as int]);
    assert((10 * a + d) / 10 == a);
    assert((10 * a + d) % 10 == d);
}

} // verus!
