//! Text over characters and bytes: the few operations on strings that the
//! rest of the crate is written with, each with its meaning on sequences.

use vstd::prelude::*;
use vstd::slice::slice_subrange;
use vstd::utf8::{decode_utf8, encode_scalar, encode_utf8, is_ascii_chars, valid_utf8};

verus! {

// ---------------------------------------------------------------------------
// Standard library items that carry no contract of their own
// ---------------------------------------------------------------------------

/// `String::push` appends one character.
pub assume_specification[ String::push ](s: &mut String, c: char)
    ensures
        final(s)@ == old(s)@.push(c),
;

/// `String::push_str` appends a whole string slice.
pub assume_specification[ String::push_str ](s: &mut String, other: &str)
    ensures
        final(s)@ == old(s)@ + other@,
;

/// `String::pop` removes the last character and returns it, or returns `None`
/// on an empty string.
pub assume_specification[ String::pop ](s: &mut String) -> (r: Option<char>)
    ensures
        old(s)@.len() == 0 ==> r is None && final(s)@ == old(s)@,
        old(s)@.len() > 0 ==> r == Some(old(s)@.last()) && final(s)@ == old(s)@.drop_last(),
;

/// What `char::to_lowercase` yields for a character.
pub uninterp spec fn lowercase_of(c: char) -> Seq<char>;

/// What `char::to_uppercase` yields for a character.
pub uninterp spec fn uppercase_of(c: char) -> Seq<char>;

/// What `char::is_uppercase` answers for a character.
pub uninterp spec fn has_uppercase(c: char) -> bool;

/// What `str::to_lowercase` makes of a text.
pub uninterp spec fn lowercase_text(s: Seq<char>) -> Seq<char>;

/// What `String::from_utf8_lossy` makes of bytes.
pub uninterp spec fn lossy_text(bytes: Seq<u8>) -> Seq<char>;

/// The 32 capital letters of the Russian alphabet without the letter io.
pub open spec fn is_ru_capital(c: char) -> bool {
    0x0410 <= c as u32 <= 0x042f
}

/// The 32 small letters of the Russian alphabet without the letter io.
pub open spec fn is_ru_small(c: char) -> bool {
    0x0430 <= c as u32 <= 0x044f
}

/// `char::to_lowercase`, collected: one or more characters. On ASCII it agrees
/// with `to_ascii_lowercase`; on the Russian letters it follows the one-to-one
/// mapping of the Unicode Character Database.
#[verifier::external_body]
pub(crate) fn lowercase_chars(c: char) -> (r: Vec<char>)
    ensures
        r@ == lowercase_of(c),
        r@.len() >= 1,
        (c as u32) < 0x80 ==> r@ == seq![ascii_lower_char(c)],
        is_ru_capital(c) ==> r@ == seq![((c as u32) + 0x20) as char],
        is_ru_small(c) ==> r@ == seq![c],
{
    c.to_lowercase().collect()
}

/// `char::to_uppercase`, collected: one or more characters. On ASCII it agrees
/// with `to_ascii_uppercase`.
#[verifier::external_body]
pub(crate) fn uppercase_chars(c: char) -> (r: Vec<char>)
    ensures
        r@ == uppercase_of(c),
        r@.len() >= 1,
        (c as u32) < 0x80 ==> r@ == seq![ascii_upper_char(c)],
{
    c.to_uppercase().collect()
}

/// `char::is_uppercase`: the Unicode property `Uppercase`. Among ASCII these
/// are the letters `A` to `Z`, among the Russian letters the capitals.
pub assume_specification[ char::is_uppercase ](c: char) -> (r: bool)
    ensures
        r == has_uppercase(c),
        (c as u32) < 0x80 ==> r == ('A' <= c && c <= 'Z'),
        is_ru_capital(c) ==> r,
        is_ru_small(c) ==> !r,
;

/// `str::to_lowercase`. On ASCII text it agrees with `to_ascii_lowercase`.
pub assume_specification[ str::to_lowercase ](s: &str) -> (r: String)
    ensures
        r@ == lowercase_text(s@),
        is_ascii_chars(s@) ==> r@ == ascii_lower_text(s@),
;

/// `String::from_utf8_lossy`: valid UTF-8 comes back as the text that it
/// encodes.
#[verifier::external_body]
pub(crate) fn utf8_lossy(bytes: &[u8]) -> (r: String)
    ensures
        r@ == lossy_text(bytes@),
        valid_utf8(bytes@) ==> r@ == decode_utf8(bytes@),
{
    String::from_utf8_lossy(bytes).into_owned()
}

// ---------------------------------------------------------------------------
// Character classes
// ---------------------------------------------------------------------------

/// The Unicode property `White_Space`, which `str::trim` goes by.
pub open spec fn white_space(c: char) -> bool {
    let u = c as u32;
    ||| 0x09 <= u <= 0x0d
    ||| u == 0x20
    ||| u == 0x85
    ||| u == 0xa0
    ||| u == 0x1680
    ||| 0x2000 <= u <= 0x200a
    ||| u == 0x2028
    ||| u == 0x2029
    ||| u == 0x202f
    ||| u == 0x205f
    ||| u == 0x3000
}

pub fn is_white_space(c: char) -> (r: bool)
    ensures
        r == white_space(c),
{
    let u: u32 = c as u32;
    (0x09 <= u && u <= 0x0d) || u == 0x20 || u == 0x85 || u == 0xa0 || u == 0x1680 || (0x2000 <= u
        && u <= 0x200a) || u == 0x2028 || u == 0x2029 || u == 0x202f || u == 0x205f || u == 0x3000
}

/// The control characters: the general category `Cc`.
pub open spec fn control(c: char) -> bool {
    (c as u32) < 0x20 || 0x7f <= (c as u32) <= 0x9f
}

pub fn is_control(c: char) -> (r: bool)
    ensures
        r == control(c),
{
    let u: u32 = c as u32;
    u < 0x20 || (0x7f <= u && u <= 0x9f)
}

/// A final byte of an escape sequence, as a character.
pub open spec fn final_char(c: char) -> bool {
    0x40 <= (c as u32) <= 0x7e
}

pub fn is_final_char(c: char) -> (r: bool)
    ensures
        r == final_char(c),
{
    let u: u32 = c as u32;
    0x40 <= u && u <= 0x7e
}

pub open spec fn ascii_lower(b: u8) -> u8 {
    if 0x41 <= b <= 0x5a {
        (b + 0x20) as u8
    } else {
        b
    }
}

pub fn to_ascii_lower(b: u8) -> (r: u8)
    ensures
        r == ascii_lower(b),
{
    if 0x41 <= b && b <= 0x5a {
        b + 0x20
    } else {
        b
    }
}

pub open spec fn ascii_lower_char(c: char) -> char {
    if 'A' <= c && c <= 'Z' {
        ((c as u32) + 0x20) as char
    } else {
        c
    }
}

pub open spec fn ascii_upper_char(c: char) -> char {
    if 'a' <= c && c <= 'z' {
        ((c as u32) - 0x20) as char
    } else {
        c
    }
}

pub open spec fn ascii_lower_text(s: Seq<char>) -> Seq<char> {
    s.map_values(|c: char| ascii_lower_char(c))
}

pub fn to_ascii_lower_char(c: char) -> (r: char)
    ensures
        r == ascii_lower_char(c),
{
    if 'A' <= c && c <= 'Z' {
        ((c as u8) + 0x20) as char
    } else {
        c
    }
}

// ---------------------------------------------------------------------------
// Strings, characters and bytes
// ---------------------------------------------------------------------------

/// The characters of a string.
pub fn chars_of(s: &str) -> (v: Vec<char>)
    ensures
        v@ == s@,
{
    let mut v: Vec<char> = Vec::new();
    for c in it: s.chars()
        invariant
            v@ == s@.take(it.index() as int),
            it.seq() == s@,
    {
        v.push(c);
        assert(s@.take(it.index() as int + 1) == s@.take(it.index() as int).push(c));
    }
    assert(s@.take(s@.len() as int) == s@);
    v
}

/// The string made of some characters.
pub fn string_of(chars: &[char]) -> (s: String)
    ensures
        s@ == chars@,
{
    let mut s = String::new();
    let mut i: usize = 0;
    while i < chars.len()
        invariant
            i <= chars@.len(),
            s@ == chars@.take(i as int),
        decreases chars@.len() - i,
    {
        s.push(chars[i]);
        assert(chars@.take(i + 1) == chars@.take(i as int).push(chars@[i as int]));
        i += 1;
    }
    assert(chars@.take(i as int) == chars@);
    s
}

/// Encoding distributes over concatenation.
pub proof fn lemma_encode_concat(a: Seq<char>, b: Seq<char>)
    ensures
        encode_utf8(a + b) == encode_utf8(a) + encode_utf8(b),
    decreases a.len(),
{
    if a.len() == 0 {
        assert(a + b == b);
        assert(encode_utf8(a) + encode_utf8(b) == encode_utf8(b));
    } else {
        assert((a + b).drop_first() == a.drop_first() + b);
        lemma_encode_concat(a.drop_first(), b);
        assert(encode_utf8(a + b) == encode_scalar(a[0] as u32) + encode_utf8(
            a.drop_first() + b,
        ));
        assert(encode_utf8(a + b) == encode_utf8(a) + encode_utf8(b));
    }
}

/// Encoding one more character.
pub proof fn lemma_encode_push(a: Seq<char>, c: char)
    ensures
        encode_utf8(a.push(c)) == encode_utf8(a) + encode_scalar(c as u32),
{
    let one = seq![c];
    assert(a.push(c) == a + one);
    lemma_encode_concat(a, one);
    assert(one.drop_first() == Seq::<char>::empty());
    assert(encode_utf8(one.drop_first()) == Seq::<u8>::empty());
    assert(encode_utf8(one) == encode_scalar(c as u32));
}

/// How many bytes encode a character.
pub open spec fn char_bytes(c: char) -> nat {
    encode_scalar(c as u32).len()
}

/// `char::len_utf8`.
pub fn count_char_bytes(c: char) -> (n: usize)
    ensures
        n == char_bytes(c),
        1 <= n <= 4,
{
    let u: u32 = c as u32;
    if u < 0x80 {
        1
    } else if u < 0x800 {
        2
    } else if u < 0x10000 {
        3
    } else {
        4
    }
}

/// A text has at least as many bytes as characters.
pub proof fn lemma_encode_len(s: Seq<char>)
    ensures
        s.len() <= encode_utf8(s).len(),
    decreases s.len(),
{
    if s.len() > 0 {
        lemma_encode_len(s.drop_first());
    }
}

proof fn lemma_scalar_bytes(v: u32)
    by (bit_vector)
    ensures
        0 <= v <= 0x7f ==> (v & 0x7F) as u8 == v,
        0xC0 <= (0xC0u8 | ((v >> 6) & 0x1F) as u8) <= 0xDF,
        0xE0 <= (0xE0u8 | ((v >> 12) & 0x0F) as u8) <= 0xEF,
        0xF0 <= (0xF0u8 | ((v >> 18) & 0x7) as u8),
        0x80 <= (0x80u8 | (v & 0x3F) as u8) <= 0xBF,
        0x80 <= (0x80u8 | ((v >> 6) & 0x3F) as u8) <= 0xBF,
        0x80 <= (0x80u8 | ((v >> 12) & 0x3F) as u8) <= 0xBF,
{
}

/// The bytes of a character: the first tells how many there are, and no other
/// byte can be taken for a first one.
pub proof fn lemma_char_bytes(c: char)
    ensures
        1 <= char_bytes(c) <= 4,
        (c as u32) < 0x80 ==> encode_scalar(c as u32) == seq![c as u8],
        (c as u32) >= 0x80 ==> char_bytes(c) >= 2,
        char_bytes(c) == 1 ==> encode_scalar(c as u32)[0] == c as u8 && (c as u8) < 0x80,
        char_bytes(c) == 2 ==> 0xC0 <= encode_scalar(c as u32)[0] <= 0xDF,
        char_bytes(c) == 3 ==> 0xE0 <= encode_scalar(c as u32)[0] <= 0xEF,
        char_bytes(c) == 4 ==> 0xF0 <= encode_scalar(c as u32)[0],
        forall|j: int|
            1 <= j < char_bytes(c) ==> 0x80 <= #[trigger] encode_scalar(c as u32)[j] <= 0xBF,
{
    lemma_scalar_bytes(c as u32);
    if (c as u32) < 0x80 {
        assert(encode_scalar(c as u32) =~= seq![c as u8]);
    }
}

/// An ASCII byte occurs in the encoding of a text only where its character
/// occurs in the text.
pub proof fn lemma_encode_avoids(s: Seq<char>, c: char)
    requires
        (c as u32) < 0x80,
        !s.contains(c),
    ensures
        !encode_utf8(s).contains(c as u8),
    decreases s.len(),
{
    if s.len() > 0 {
        let rest = s.drop_first();
        assert forall|i: int| 0 <= i < rest.len() implies rest[i] != c by {
            assert(s.contains(s[i + 1]));
        }
        lemma_encode_avoids(rest, c);
        let v = s[0] as u32;
        lemma_scalar_bytes(v);
        assert(s.contains(s[0]));
        vstd::utf8::char_u32_cast(c, c as u32);
        vstd::utf8::char_u32_cast(s[0], v);
        let head = encode_scalar(v);
        let all = encode_utf8(s);
        assert forall|i: int| 0 <= i < all.len() implies all[i] != c as u8 by {
            if i >= head.len() {
                assert(encode_utf8(rest).contains(encode_utf8(rest)[i - head.len()]));
            } else {
                assert(all[i] == head[i]);
            }
        }
    }
}

/// Two texts with the same bytes are the same text.
pub proof fn lemma_encode_injective(a: Seq<char>, b: Seq<char>)
    requires
        encode_utf8(a) == encode_utf8(b),
    ensures
        a == b,
{
    vstd::utf8::encode_utf8_decode_utf8(a);
    vstd::utf8::encode_utf8_decode_utf8(b);
}

/// The offset of a character of a text, or of its end.
pub open spec fn is_boundary(s: Seq<char>, at: int) -> bool {
    exists|k: int| 0 <= k <= s.len() && #[trigger] encode_utf8(s.take(k)).len() == at
}

/// Longer fronts of a text take at least as many bytes.
pub proof fn lemma_boundary_grows(s: Seq<char>, j: int, k: int)
    requires
        0 <= j <= k <= s.len(),
    ensures
        encode_utf8(s.take(j)).len() <= encode_utf8(s.take(k)).len(),
{
    assert(s.take(k) == s.take(j) + s.subrange(j, k));
    lemma_encode_concat(s.take(j), s.subrange(j, k));
}

/// Whether a byte offset falls on a character of a text or on its end.
pub fn falls_on_boundary(s: &[char], at: usize) -> (r: bool)
    requires
        at <= usize::MAX - 4,
    ensures
        r == is_boundary(s@, at as int),
{
    let mut k: usize = 0;
    let mut sum: usize = 0;
    assert(encode_utf8(s@.take(0)).len() == 0);
    while k < s.len() && sum < at
        invariant
            k <= s@.len(),
            at <= usize::MAX - 4,
            sum == encode_utf8(s@.take(k as int)).len(),
            forall|j: int| 0 <= j < k ==> #[trigger] encode_utf8(s@.take(j)).len() < at,
        decreases s@.len() - k,
    {
        assert(s@.take(k + 1) == s@.take(k as int).push(s@[k as int]));
        proof {
            lemma_encode_push(s@.take(k as int), s@[k as int]);
        }
        sum += count_char_bytes(s[k]);
        k += 1;
    }
    proof {
        if sum != at && is_boundary(s@, at as int) {
            let j = choose|j: int|
                0 <= j <= s@.len() && #[trigger] encode_utf8(s@.take(j)).len() == at;
            if j >= k {
                lemma_boundary_grows(s@, k as int, j);
            }
        }
    }
    sum == at
}

/// Whether two byte strings are equal.
pub fn bytes_eq(a: &[u8], b: &[u8]) -> (r: bool)
    ensures
        r == (a@ == b@),
{
    if a.len() != b.len() {
        return false;
    }
    let mut i: usize = 0;
    while i < a.len()
        invariant
            i <= a@.len(),
            a@.len() == b@.len(),
            forall|j: int| 0 <= j < i ==> a@[j] == b@[j],
        decreases a@.len() - i,
    {
        if a[i] != b[i] {
            return false;
        }
        i += 1;
    }
    assert(a@ =~= b@);
    true
}

/// Whether two strings are equal.
pub fn str_eq(a: &str, b: &str) -> (r: bool)
    ensures
        r == (a@ == b@),
{
    let r = bytes_eq(a.as_bytes(), b.as_bytes());
    proof {
        if r {
            lemma_encode_injective(a@, b@);
        }
    }
    r
}

/// Whether some characters spell a string.
pub fn chars_are(a: &[char], b: &str) -> (r: bool)
    ensures
        r == (a@ == b@),
{
    let word = chars_of(b);
    if a.len() != word.len() {
        return false;
    }
    let mut i: usize = 0;
    while i < a.len()
        invariant
            i <= a@.len(),
            word@ == b@,
            a@.len() == b@.len(),
            forall|j: int| 0 <= j < i ==> a@[j] == b@[j],
        decreases a@.len() - i,
    {
        if a[i] != word[i] {
            return false;
        }
        i += 1;
    }
    assert(a@ =~= b@);
    true
}

/// Whether a text begins with a prefix.
pub open spec fn starts_with<T>(s: Seq<T>, prefix: Seq<T>) -> bool {
    prefix.len() <= s.len() && s.take(prefix.len() as int) == prefix
}

pub fn chars_start_with(s: &[char], prefix: &[char]) -> (r: bool)
    ensures
        r == starts_with(s@, prefix@),
{
    if prefix.len() > s.len() {
        return false;
    }
    let mut i: usize = 0;
    while i < prefix.len()
        invariant
            i <= prefix@.len(),
            prefix@.len() <= s@.len(),
            forall|j: int| 0 <= j < i ==> s@[j] == prefix@[j],
        decreases prefix@.len() - i,
    {
        if s[i] != prefix[i] {
            assert(s@.take(prefix@.len() as int)[i as int] != prefix@[i as int]);
            return false;
        }
        i += 1;
    }
    assert(s@.take(prefix@.len() as int) =~= prefix@);
    true
}

/// Whether a text ends with a suffix.
pub open spec fn ends_with<T>(s: Seq<T>, suffix: Seq<T>) -> bool {
    suffix.len() <= s.len() && s.skip(s.len() - suffix.len()) == suffix
}

pub fn chars_end_with(s: &[char], suffix: &[char]) -> (r: bool)
    ensures
        r == ends_with(s@, suffix@),
{
    if suffix.len() > s.len() {
        return false;
    }
    let from: usize = s.len() - suffix.len();
    let mut i: usize = 0;
    while i < suffix.len()
        invariant
            i <= suffix@.len(),
            suffix@.len() <= s@.len(),
            from == s@.len() - suffix@.len(),
            s@.len() <= usize::MAX,
            forall|j: int| 0 <= j < i ==> s@[from + j] == suffix@[j],
        decreases suffix@.len() - i,
    {
        if s[from + i] != suffix[i] {
            assert(s@.skip(from as int)[i as int] != suffix@[i as int]);
            return false;
        }
        i += 1;
    }
    assert(s@.skip(from as int) =~= suffix@);
    true
}

/// Whether a text holds another one somewhere.
pub open spec fn contains_text(s: Seq<char>, part: Seq<char>) -> bool {
    exists|i: int| 0 <= i <= s.len() && #[trigger] starts_with(s.skip(i), part)
}

pub fn chars_contain(s: &[char], part: &[char]) -> (r: bool)
    ensures
        r == contains_text(s@, part@),
{
    let mut i: usize = 0;
    while i <= s.len()
        invariant
            i <= s@.len() + 1,
            forall|j: int| 0 <= j < i ==> !#[trigger] starts_with(s@.skip(j), part@),
        decreases s@.len() + 1 - i,
    {
        let rest = slice_subrange(s, i, s.len());
        assert(rest@ == s@.skip(i as int));
        if chars_start_with(rest, part) {
            return true;
        }
        if i == s.len() {
            return false;
        }
        i += 1;
    }
    false
}

// ---------------------------------------------------------------------------
// Trimming
// ---------------------------------------------------------------------------

/// A text without the white space at its front.
pub open spec fn trim_front(s: Seq<char>) -> Seq<char>
    decreases s.len(),
{
    if s.len() > 0 && white_space(s[0]) {
        trim_front(s.drop_first())
    } else {
        s
    }
}

/// A text without the white space at its back.
pub open spec fn trim_back(s: Seq<char>) -> Seq<char>
    decreases s.len(),
{
    if s.len() > 0 && white_space(s.last()) {
        trim_back(s.drop_last())
    } else {
        s
    }
}

/// A text without the white space around it.
pub open spec fn trimmed(s: Seq<char>) -> Seq<char> {
    trim_back(trim_front(s))
}

/// `str::trim` on characters.
pub fn trim<'a>(s: &'a [char]) -> (r: &'a [char])
    ensures
        r@ == trimmed(s@),
{
    let mut i: usize = 0;
    assert(s@.skip(0) == s@);
    while i < s.len() && is_white_space(s[i])
        invariant
            i <= s@.len(),
            trim_front(s@) == trim_front(s@.skip(i as int)),
        decreases s@.len() - i,
    {
        assert(s@.skip(i as int).drop_first() == s@.skip(i + 1));
        i += 1;
    }
    let ghost t = s@.skip(i as int);
    assert(i < s@.len() ==> t[0] == s@[i as int]);
    assert(trim_front(s@) == t);
    let mut j: usize = s.len();
    assert(s@.subrange(i as int, j as int) == t);
    while i < j && is_white_space(s[j - 1])
        invariant
            i <= j <= s@.len(),
            trim_back(t) == trim_back(s@.subrange(i as int, j as int)),
        decreases j - i,
    {
        assert(s@.subrange(i as int, j as int).drop_last() == s@.subrange(i as int, j - 1));
        j -= 1;
    }
    let r = slice_subrange(s, i, j);
    assert(i < j ==> r@.last() == s@[j - 1]);
    r
}

/// A text without the copies of one character at its front.
pub open spec fn strip_front(s: Seq<char>, c: char) -> Seq<char>
    decreases s.len(),
{
    if s.len() > 0 && s[0] == c {
        strip_front(s.drop_first(), c)
    } else {
        s
    }
}

/// A text without the copies of one character at its back.
pub open spec fn strip_back(s: Seq<char>, c: char) -> Seq<char>
    decreases s.len(),
{
    if s.len() > 0 && s.last() == c {
        strip_back(s.drop_last(), c)
    } else {
        s
    }
}

/// `str::trim_start_matches` with a character.
pub fn strip_front_char<'a>(s: &'a [char], c: char) -> (r: &'a [char])
    ensures
        r@ == strip_front(s@, c),
{
    let mut i: usize = 0;
    assert(s@.skip(0) == s@);
    while i < s.len() && s[i] == c
        invariant
            i <= s@.len(),
            strip_front(s@, c) == strip_front(s@.skip(i as int), c),
        decreases s@.len() - i,
    {
        assert(s@.skip(i as int).drop_first() == s@.skip(i + 1));
        i += 1;
    }
    let r = slice_subrange(s, i, s.len());
    assert(r@ == s@.skip(i as int));
    assert(i < s@.len() ==> r@[0] == s@[i as int]);
    r
}

/// `str::trim_end_matches` with a character.
pub fn strip_back_char<'a>(s: &'a [char], c: char) -> (r: &'a [char])
    ensures
        r@ == strip_back(s@, c),
{
    let mut j: usize = s.len();
    assert(s@.take(j as int) == s@);
    while 0 < j && s[j - 1] == c
        invariant
            j <= s@.len(),
            strip_back(s@, c) == strip_back(s@.take(j as int), c),
        decreases j,
    {
        assert(s@.take(j as int).drop_last() == s@.take(j - 1));
        j -= 1;
    }
    let r = slice_subrange(s, 0, j);
    assert(r@ == s@.take(j as int));
    assert(0 < j ==> r@.last() == s@[j - 1]);
    r
}

// ---------------------------------------------------------------------------
// Splitting
// ---------------------------------------------------------------------------

/// The pieces of a text between the occurrences of a separator. There is
/// always at least one.
pub open spec fn pieces(s: Seq<char>, sep: char) -> Seq<Seq<char>>
    decreases s.len(),
{
    if s.len() == 0 {
        seq![Seq::<char>::empty()]
    } else {
        let before = pieces(s.drop_last(), sep);
        if s.last() == sep {
            before.push(Seq::<char>::empty())
        } else {
            before.drop_last().push(before.last().push(s.last()))
        }
    }
}

/// The texts that some slices of characters spell.
pub open spec fn texts_of(v: Seq<&[char]>) -> Seq<Seq<char>> {
    v.map_values(|p: &[char]| p@)
}

/// `str::split` with a character.
pub fn split<'a>(s: &'a [char], sep: char) -> (r: Vec<&'a [char]>)
    ensures
        texts_of(r@) == pieces(s@, sep),
        r@.len() >= 1,
{
    let mut r: Vec<&'a [char]> = Vec::new();
    let mut start: usize = 0;
    let mut i: usize = 0;
    assert(s@.take(0) == Seq::<char>::empty());
    assert(s@.subrange(0, 0) == Seq::<char>::empty());
    assert(pieces(s@.take(0), sep) =~= texts_of(r@).push(s@.subrange(0, 0)));
    while i < s.len()
        invariant
            start <= i <= s@.len(),
            pieces(s@.take(i as int), sep) == texts_of(r@).push(
                s@.subrange(start as int, i as int),
            ),
        decreases s@.len() - i,
    {
        let ghost before = pieces(s@.take(i as int), sep);
        assert(s@.take(i + 1).drop_last() == s@.take(i as int));
        assert(s@.take(i + 1).last() == s@[i as int]);
        let ghost seen = texts_of(r@);
        if s[i] == sep {
            let piece = slice_subrange(s, start, i);
            r.push(piece);
            start = i + 1;
            assert(texts_of(r@) =~= seen.push(piece@));
            assert(s@.subrange(start as int, i + 1) == Seq::<char>::empty());
        } else {
            assert(before.drop_last() == seen);
            assert(s@.subrange(start as int, i + 1) == s@.subrange(start as int, i as int).push(
                s@[i as int],
            ));
        }
        i += 1;
    }
    let piece = slice_subrange(s, start, i);
    let ghost seen = texts_of(r@);
    r.push(piece);
    assert(texts_of(r@) =~= seen.push(piece@));
    assert(s@.take(i as int) == s@);
    r
}

/// The position of the first occurrence of a character, or the length of the
/// text.
pub open spec fn first_at(s: Seq<char>, c: char) -> int
    decreases s.len(),
{
    if s.len() == 0 || s[0] == c {
        0
    } else {
        1 + first_at(s.drop_first(), c)
    }
}

pub proof fn lemma_first_at(s: Seq<char>, c: char, n: int)
    requires
        0 <= n <= s.len(),
        forall|j: int| 0 <= j < n ==> s[j] != c,
        n < s.len() ==> s[n] == c,
    ensures
        first_at(s, c) == n,
    decreases s.len(),
{
    if n > 0 {
        assert(s[0] != c);
        lemma_first_at(s.drop_first(), c, n - 1);
    }
}

pub fn find_char(s: &[char], c: char) -> (r: usize)
    ensures
        r == first_at(s@, c),
        r <= s@.len(),
        r < s@.len() ==> s@[r as int] == c,
        forall|j: int| 0 <= j < r ==> s@[j] != c,
{
    let mut i: usize = 0;
    while i < s.len() && s[i] != c
        invariant
            i <= s@.len(),
            forall|j: int| 0 <= j < i ==> s@[j] != c,
        decreases s@.len() - i,
    {
        i += 1;
    }
    proof {
        lemma_first_at(s@, c, i as int);
    }
    i
}

/// A line without the carriage return that belonged to its line ending.
pub open spec fn without_cr(line: Seq<char>) -> Seq<char> {
    if line.len() > 0 && line.last() == '\r' {
        line.drop_last()
    } else {
        line
    }
}

/// The lines of a text: what stands between the line ends, without them. A
/// line end after the last line opens no further line.
pub open spec fn lines_of(s: Seq<char>) -> Seq<Seq<char>> {
    let p = pieces(s, '\n');
    let ended = p.drop_last().map_values(|line: Seq<char>| without_cr(line));
    if p.last().len() == 0 {
        ended
    } else {
        ended.push(p.last())
    }
}

/// `str::lines` on characters.
pub fn lines<'a>(s: &'a [char]) -> (r: Vec<&'a [char]>)
    ensures
        texts_of(r@) == lines_of(s@),
{
    let p = split(s, '\n');
    let ghost all = pieces(s@, '\n');
    let ghost ended = all.drop_last().map_values(|line: Seq<char>| without_cr(line));
    let last: usize = p.len() - 1;
    let mut r: Vec<&'a [char]> = Vec::new();
    let mut i: usize = 0;
    assert(texts_of(r@) =~= ended.take(0));
    while i < last
        invariant
            last == p@.len() - 1,
            i <= last,
            texts_of(p@) == all,
            ended == all.drop_last().map_values(|line: Seq<char>| without_cr(line)),
            texts_of(r@) == ended.take(i as int),
        decreases last - i,
    {
        let line: &'a [char] = p[i];
        assert(line@ == all[i as int]);
        let n = line.len();
        let line: &'a [char] = if n > 0 && line[n - 1] == '\r' {
            slice_subrange(line, 0, n - 1)
        } else {
            line
        };
        assert(line@ =~= without_cr(all[i as int]));
        let ghost seen = texts_of(r@);
        r.push(line);
        assert(texts_of(r@) =~= seen.push(line@));
        assert(ended.take(i + 1) =~= ended.take(i as int).push(ended[i as int]));
        i += 1;
    }
    assert(ended.take(last as int) =~= ended);
    let tail: &'a [char] = p[last];
    assert(tail@ == all.last());
    if tail.len() > 0 {
        let ghost seen = texts_of(r@);
        r.push(tail);
        assert(texts_of(r@) =~= seen.push(tail@));
    }
    r
}

// ---------------------------------------------------------------------------
// Laws
// ---------------------------------------------------------------------------

/// A text without the separator is one piece.
pub proof fn law_one_piece(s: Seq<char>, sep: char)
    requires
        !s.contains(sep),
    ensures
        pieces(s, sep) == seq![s],
    decreases s.len(),
{
    if s.len() > 0 {
        let front = s.drop_last();
        assert forall|i: int| 0 <= i < front.len() implies front[i] != sep by {
            assert(s.contains(s[i]));
        }
        law_one_piece(front, sep);
        assert(s.contains(s[s.len() - 1]));
        assert(front.push(s.last()) =~= s);
        assert(pieces(s, sep) =~= seq![s]);
    } else {
        assert(s =~= Seq::<char>::empty());
    }
}

proof fn lemma_pieces_len(s: Seq<char>, sep: char)
    ensures
        pieces(s, sep).len() >= 1,
    decreases s.len(),
{
    if s.len() > 0 {
        lemma_pieces_len(s.drop_last(), sep);
    }
}

/// A separator between two texts parts their pieces.
pub proof fn law_a_separator_parts_the_pieces(a: Seq<char>, sep: char, b: Seq<char>)
    ensures
        pieces(a.push(sep) + b, sep) == pieces(a, sep) + pieces(b, sep),
    decreases b.len(),
{
    let s = a.push(sep) + b;
    if b.len() == 0 {
        assert(s =~= a.push(sep));
        assert(s.drop_last() =~= a);
        assert(pieces(s, sep) =~= pieces(a, sep) + pieces(b, sep));
    } else {
        let front = b.drop_last();
        assert(s.drop_last() =~= a.push(sep) + front);
        assert(s.last() == b.last());
        law_a_separator_parts_the_pieces(a, sep, front);
        lemma_pieces_len(front, sep);
        let (x, y) = (pieces(a, sep), pieces(front, sep));
        assert((x + y).drop_last() =~= x + y.drop_last());
        assert((x + y).last() == y.last());
        assert(pieces(s, sep) =~= x + pieces(b, sep));
    }
}

/// What is trimmed away is white space, and no white space is left at the ends.
pub proof fn law_trimming_takes_white_space_only(s: Seq<char>) -> (r: (int, int))
    ensures
        0 <= r.0 <= r.1 <= s.len(),
        trimmed(s) == s.subrange(r.0, r.1),
        forall|i: int| 0 <= i < r.0 ==> white_space(#[trigger] s[i]),
        forall|i: int| r.1 <= i < s.len() ==> white_space(#[trigger] s[i]),
        r.0 < r.1 ==> !white_space(s[r.0]) && !white_space(s[r.1 - 1]),
{
    let a = lemma_trim_front(s);
    let t = trim_front(s);
    let b = lemma_trim_back(t);
    assert(t == s.skip(a));
    assert(t.take(b) =~= s.subrange(a, a + b));
    assert forall|i: int| a + b <= i < s.len() implies white_space(#[trigger] s[i]) by {
        assert(t[i - a] == s[i]);
    }
    if b > 0 {
        assert(t[0] == s[a]);
        assert(t[b - 1] == s[a + b - 1]);
    }
    (a, a + b)
}

proof fn lemma_trim_front(s: Seq<char>) -> (a: int)
    ensures
        0 <= a <= s.len(),
        trim_front(s) == s.skip(a),
        forall|i: int| 0 <= i < a ==> white_space(#[trigger] s[i]),
        a < s.len() ==> !white_space(s[a]),
    decreases s.len(),
{
    if s.len() > 0 && white_space(s[0]) {
        let rest = s.drop_first();
        let a = lemma_trim_front(rest);
        assert(rest.skip(a) =~= s.skip(a + 1));
        assert forall|i: int| 0 <= i < a + 1 implies white_space(#[trigger] s[i]) by {
            if i > 0 {
                assert(rest[i - 1] == s[i]);
            }
        }
        a + 1
    } else {
        assert(s.skip(0) =~= s);
        0
    }
}

proof fn lemma_trim_back(s: Seq<char>) -> (b: int)
    ensures
        0 <= b <= s.len(),
        trim_back(s) == s.take(b),
        forall|i: int| b <= i < s.len() ==> white_space(#[trigger] s[i]),
        b > 0 ==> !white_space(s[b - 1]),
    decreases s.len(),
{
    if s.len() > 0 && white_space(s.last()) {
        let front = s.drop_last();
        let b = lemma_trim_back(front);
        assert(front.take(b) =~= s.take(b));
        assert forall|i: int| b <= i < s.len() implies white_space(#[trigger] s[i]) by {
            if i < front.len() {
                assert(front[i] == s[i]);
            }
        }
        b
    } else {
        assert(s.take(s.len() as int) =~= s);
        s.len() as int
    }
}

/// Lines end with LF or CR LF. What follows the last line end is a line, if it
/// is not empty.
pub proof fn law_lines_are_ended_by_line_ends(a: Seq<char>, line: Seq<char>)
    requires
        !line.contains('\n'),
    ensures
        lines_of(Seq::<char>::empty()) == Seq::<Seq<char>>::empty(),
        line.len() > 0 ==> lines_of(line) == seq![line],
        (line.len() == 0 || line.last() != '\r') ==> lines_of(line.push('\n')) == seq![line],
        lines_of(line.push('\r').push('\n')) == seq![line],
        lines_of(line.push('\n') + a) == lines_of(line.push('\n')) + lines_of(a),
{
    let none = Seq::<Seq<char>>::empty();
    law_one_piece(line, '\n');
    law_one_piece(Seq::<char>::empty(), '\n');
    assert(lines_of(Seq::<char>::empty()) =~= none);
    if line.len() > 0 {
        assert(lines_of(line) =~= seq![line]);
    }
    assert(line.push('\n') + Seq::<char>::empty() =~= line.push('\n'));
    law_a_separator_parts_the_pieces(line, '\n', Seq::<char>::empty());
    if line.len() == 0 || line.last() != '\r' {
        assert(lines_of(line.push('\n')) =~= seq![line]);
    }
    let cr = line.push('\r');
    assert forall|i: int| 0 <= i < cr.len() implies cr[i] != '\n' by {
        if i < line.len() {
            assert(line.contains(line[i]));
        }
    }
    law_one_piece(cr, '\n');
    law_a_separator_parts_the_pieces(cr, '\n', Seq::<char>::empty());
    assert(cr.push('\n') + Seq::<char>::empty() =~= cr.push('\n'));
    assert(cr.drop_last() =~= line);
    assert(lines_of(cr.push('\n')) =~= seq![line]);
    law_a_separator_parts_the_pieces(line, '\n', a);
    lemma_pieces_len(a, '\n');
    let (x, y) = (pieces(line, '\n'), pieces(a, '\n'));
    assert((x + y).last() == y.last());
    assert((x + y).drop_last() =~= x + y.drop_last());
    assert(lines_of(line.push('\n') + a) =~= lines_of(line.push('\n')) + lines_of(a));
}

/// A text holds a part exactly where the part stands between two other texts.
pub proof fn law_containing_is_standing_between(a: Seq<char>, part: Seq<char>, b: Seq<char>)
    ensures
        contains_text(a + part + b, part),
        starts_with(part + b, part),
        ends_with(a + part, part),
{
    let s = a + part + b;
    assert(s.skip(a.len() as int) =~= part + b);
    assert((part + b).take(part.len() as int) =~= part);
    assert((a + part).skip(a.len() as int) =~= part);
    assert(starts_with(s.skip(a.len() as int), part));
}

/// ASCII letters change their case by a distance of 32, and nothing else
/// changes.
pub proof fn law_ascii_case_is_a_distance(c: char, b: u8)
    ensures
        0x41 <= b <= 0x5a ==> ascii_lower(b) == b + 0x20,
        !(0x41 <= b <= 0x5a) ==> ascii_lower(b) == b,
        'A' <= c && c <= 'Z' ==> (ascii_lower_char(c) as u32) == (c as u32) + 0x20,
        !('A' <= c && c <= 'Z') ==> ascii_lower_char(c) == c,
{
    if 'A' <= c && c <= 'Z' {
        let u = ((c as u32) + 0x20) as u32;
        assert(u < 0x80);
    }
}

/// A text that neither begins nor ends with white space is not trimmed.
pub proof fn law_tight_texts_are_not_trimmed(s: Seq<char>)
    requires
        s.len() > 0 ==> !white_space(s[0]) && !white_space(s.last()),
    ensures
        trimmed(s) == s,
{
}

/// Stripping takes all copies of the character at the end, and nothing else.
pub proof fn law_stripping_takes_copies_only(s: Seq<char>, c: char)
    ensures
        strip_front(Seq::<char>::empty(), c) == Seq::<char>::empty(),
        strip_back(Seq::<char>::empty(), c) == Seq::<char>::empty(),
        strip_front(seq![c] + s, c) == strip_front(s, c),
        strip_back(s.push(c), c) == strip_back(s, c),
        s.len() > 0 && s[0] != c ==> strip_front(s, c) == s,
        s.len() > 0 && s.last() != c ==> strip_back(s, c) == s,
{
    assert((seq![c] + s).drop_first() =~= s);
    assert(s.push(c).drop_last() =~= s);
}

} // verus!
