//! Where a query occurs in a label.

use crate::text::{
    ascii_lower, ascii_lower_char, ascii_lower_text, char_bytes, chars_of, count_char_bytes,
    lemma_boundary_grows, lemma_char_bytes, lemma_encode_concat, lemma_encode_injective,
    lemma_encode_push, to_ascii_lower_char,
};
use vstd::prelude::*;
use vstd::string::*;
use vstd::utf8::{encode_scalar, encode_utf8};

verus! {

/// Where the basename of a label begins: behind its last slash.
pub open spec fn base_at(label: Seq<char>) -> int
    decreases label.len(),
{
    if label.len() == 0 || label.last() == '/' {
        label.len() as int
    } else {
        base_at(label.drop_last())
    }
}

/// Whether a query occurs at a place of a label, whatever the case of ASCII
/// letters.
pub open spec fn occurs_at(label: Seq<char>, query: Seq<char>, i: int) -> bool {
    &&& 0 <= i
    &&& i + query.len() <= label.len()
    &&& ascii_lower_text(label.subrange(i, i + query.len())) == ascii_lower_text(query)
}

/// The first place from `from` on at which a query occurs.
pub open spec fn occurrence(label: Seq<char>, query: Seq<char>, from: int) -> Option<int>
    decreases label.len() - from,
{
    if from >= label.len() {
        None
    } else if occurs_at(label, query, from) {
        Some(from)
    } else {
        occurrence(label, query, from + 1)
    }
}

/// Where a query is highlighted in a label: at its first occurrence in the
/// basename. A query that begins with a dot only reveals dot files.
pub open spec fn highlighted(label: Seq<char>, query: Seq<char>) -> Option<int> {
    if query.len() == 0 || query[0] == '.' {
        None
    } else {
        occurrence(label, query, base_at(label))
    }
}

fn base_start(label: &[char]) -> (at: usize)
    ensures
        at == base_at(label@),
        at <= label@.len(),
{
    let mut at: usize = label.len();
    assert(label@.take(at as int) == label@);
    while 0 < at && label[at - 1] != '/'
        invariant
            at <= label@.len(),
            base_at(label@) == base_at(label@.take(at as int)),
        decreases at,
    {
        assert(label@.take(at as int).drop_last() == label@.take(at - 1));
        at -= 1;
    }
    at
}

fn is_at(label: &[char], query: &[char], i: usize) -> (r: bool)
    requires
        i <= label@.len(),
    ensures
        r == occurs_at(label@, query@, i as int),
{
    if query.len() > label.len() - i {
        return false;
    }
    let ghost part = label@.subrange(i as int, i + query@.len());
    let mut k: usize = 0;
    while k < query.len()
        invariant
            k <= query@.len(),
            i + query@.len() <= label@.len() <= usize::MAX,
            part == label@.subrange(i as int, i + query@.len()),
            forall|j: int| 0 <= j < k ==> ascii_lower_char(part[j]) == ascii_lower_char(query@[j]),
        decreases query@.len() - k,
    {
        if to_ascii_lower_char(label[i + k]) != to_ascii_lower_char(query[k]) {
            assert(ascii_lower_text(part)[k as int] != ascii_lower_text(query@)[k as int]);
            return false;
        }
        k += 1;
    }
    assert(ascii_lower_text(part) =~= ascii_lower_text(query@));
    true
}

/// The place in a label from which on the query is highlighted.
pub fn match_at(label: &[char], query: &[char]) -> (r: Option<usize>)
    ensures
        r == match highlighted(label@, query@) {
            Some(i) => Some(i as usize),
            None => None,
        },
        r matches Some(i) ==> i == highlighted(label@, query@)->0 && occurs_at(
            label@,
            query@,
            i as int,
        ) && base_at(label@) <= i,
{
    if query.len() == 0 || query[0] == '.' {
        return None;
    }
    let start: usize = base_start(label);
    let mut i: usize = start;
    while i < label.len()
        invariant
            start == base_at(label@),
            start <= i <= label@.len(),
            query@.len() > 0,
            query@[0] != '.',
            occurrence(label@, query@, start as int) == occurrence(label@, query@, i as int),
        decreases label@.len() - i,
    {
        if is_at(label, query, i) {
            return Some(i);
        }
        i += 1;
    }
    None
}

/// How many bytes the characters before a place take.
fn bytes_before(text: &str, chars: &Vec<char>, at: usize) -> (n: usize)
    requires
        chars@ == text@,
        at <= chars@.len(),
    ensures
        n == encode_utf8(text@.take(at as int)).len(),
{
    let total: usize = text.as_bytes().len();
    let mut n: usize = 0;
    let mut k: usize = 0;
    assert(encode_utf8(text@.take(0)).len() == 0);
    while k < at
        invariant
            k <= at <= chars@.len(),
            chars@ == text@,
            total == encode_utf8(text@).len(),
            n == encode_utf8(text@.take(k as int)).len(),
        decreases at - k,
    {
        assert(text@.take(k + 1) == text@.take(k as int).push(text@[k as int]));
        proof {
            lemma_encode_push(text@.take(k as int), text@[k as int]);
            lemma_boundary_grows(text@, k + 1, text@.len() as int);
            assert(text@.take(text@.len() as int) == text@);
        }
        n += count_char_bytes(chars[k]);
        k += 1;
    }
    n
}

/// The byte range of the first occurrence of a query in the basename of a
/// label, whatever the case of ASCII letters. A query that begins with a dot
/// is ignored.
pub fn query_match(label: &str, query: &str) -> (r: Option<(usize, usize)>)
    ensures
        r is Some <==> highlighted(label@, query@) is Some,
        r matches Some((a, b)) ==> {
            let i = highlighted(label@, query@)->0;
            &&& a == encode_utf8(label@.take(i)).len()
            &&& b == encode_utf8(label@.take(i + query@.len())).len()
        },
{
    let chars = chars_of(label);
    let needle = chars_of(query);
    match match_at(chars.as_slice(), needle.as_slice()) {
        Some(i) => {
            assert(i + needle@.len() <= chars.len());
            Some((bytes_before(label, &chars, i), bytes_before(label, &chars, i + needle.len())))
        },
        None => None,
    }
}

// ---------------------------------------------------------------------------
// Laws
// ---------------------------------------------------------------------------

/// Whether bytes occur at a place of other bytes, whatever the case of ASCII
/// letters.
pub open spec fn bytes_occur_at(hay: Seq<u8>, needle: Seq<u8>, b: int) -> bool {
    &&& 0 <= b
    &&& b + needle.len() <= hay.len()
    &&& forall|j: int|
        0 <= j < needle.len() ==> ascii_lower(#[trigger] hay[b + j]) == ascii_lower(needle[j])
}

proof fn lemma_cut(s: Seq<char>, k: int)
    requires
        0 <= k < s.len(),
    ensures
        encode_utf8(s) == encode_utf8(s.take(k)) + encode_scalar(s[k] as u32) + encode_utf8(
            s.skip(k + 1),
        ),
        encode_utf8(s.take(k + 1)) == encode_utf8(s.take(k)) + encode_scalar(s[k] as u32),
{
    assert(s.take(k + 1) == s.take(k).push(s[k]));
    lemma_encode_push(s.take(k), s[k]);
    lemma_encode_concat(s.take(k + 1), s.skip(k + 1));
    assert(s.take(k + 1) + s.skip(k + 1) == s);
}

/// The character that holds a byte of a text.
proof fn lemma_holder(s: Seq<char>, b: int) -> (k: int)
    requires
        0 <= b < encode_utf8(s).len(),
    ensures
        0 <= k < s.len(),
        encode_utf8(s.take(k)).len() <= b < encode_utf8(s.take(k + 1)).len(),
    decreases s.len(),
{
    if s.len() == 0 {
        assert(encode_utf8(s).len() == 0);
        0
    } else {
        let n = s.len() - 1;
        lemma_cut(s, n);
        assert(s.take(n + 1) == s);
        if encode_utf8(s.take(n)).len() <= b {
            n
        } else {
            let front = s.take(n);
            let k = lemma_holder(front, b);
            assert(front.take(k) == s.take(k));
            assert(front.take(k + 1) == s.take(k + 1));
            k
        }
    }
}

/// Bytes that begin with those of a text, whatever the case of ASCII letters,
/// are those of a text that begins with it.
proof fn lemma_front_matches(s: Seq<char>, query: Seq<char>)
    requires
        bytes_occur_at(encode_utf8(s), encode_utf8(query), 0),
    ensures
        occurs_at(s, query, 0),
    decreases query.len(),
{
    let hay = encode_utf8(s);
    let needle = encode_utf8(query);
    if query.len() == 0 {
        assert(s.subrange(0, 0) =~= query);
    } else {
        let q = query[0];
        let rest = query.drop_first();
        let enc_q = encode_scalar(q as u32);
        lemma_char_bytes(q);
        assert(needle == enc_q + encode_utf8(rest));
        assert(needle[0] == enc_q[0]);
        assert(hay.len() > 0);
        if s.len() == 0 {
            assert(hay.len() == 0);
        }
        let c = s[0];
        let tail = s.drop_first();
        let enc_c = encode_scalar(c as u32);
        lemma_char_bytes(c);
        assert(hay == enc_c + encode_utf8(tail));
        assert(hay[0] == enc_c[0]);
        assert(ascii_lower(hay[0int + 0int]) == ascii_lower(needle[0]));
        assert(char_bytes(c) == char_bytes(q));
        let w = char_bytes(q) as int;
        if w == 1 {
            assert(ascii_lower(c as u8) == ascii_lower(q as u8));
            vstd::utf8::char_u32_cast(c, c as u32);
            vstd::utf8::char_u32_cast(q, q as u32);
            assert(ascii_lower_char(c) == ascii_lower_char(q));
        } else {
            assert forall|j: int| 0 <= j < w implies enc_c[j] == enc_q[j] by {
                assert(hay[j] == enc_c[j]);
                assert(needle[j] == enc_q[j]);
                assert(ascii_lower(hay[0 + j]) == ascii_lower(needle[j]));
            }
            assert(enc_c =~= enc_q);
            let one_c = seq![c];
            let one_q = seq![q];
            lemma_encode_push(Seq::<char>::empty(), c);
            lemma_encode_push(Seq::<char>::empty(), q);
            assert(Seq::<char>::empty().push(c) =~= one_c);
            assert(Seq::<char>::empty().push(q) =~= one_q);
            lemma_encode_injective(one_c, one_q);
            assert(one_c[0] == one_q[0]);
        }
        assert forall|j: int| 0 <= j < encode_utf8(rest).len() implies ascii_lower(
            #[trigger] encode_utf8(tail)[0 + j],
        ) == ascii_lower(encode_utf8(rest)[j]) by {
            assert(hay[w + j] == encode_utf8(tail)[j]);
            assert(needle[w + j] == encode_utf8(rest)[j]);
            assert(ascii_lower(hay[0 + (w + j)]) == ascii_lower(needle[w + j]));
        }
        lemma_front_matches(tail, rest);
        let part = s.subrange(0, query.len() as int);
        let tail_part = tail.subrange(0, rest.len() as int);
        assert forall|j: int| 0 <= j < query.len() implies ascii_lower_char(part[j])
            == ascii_lower_char(query[j]) by {
            if j > 0 {
                assert(tail_part[j - 1] == part[j]);
                assert(ascii_lower_text(tail_part)[j - 1] == ascii_lower_text(rest)[j - 1]);
            }
        }
        assert(ascii_lower_text(part) =~= ascii_lower_text(query));
    }
}

/// Wherever the bytes of a query occur in those of a label, the query occurs
/// in the label: no occurrence begins or ends inside a character.
pub proof fn law_byte_matches_are_matches(label: Seq<char>, query: Seq<char>, b: int)
    requires
        query.len() > 0,
        bytes_occur_at(encode_utf8(label), encode_utf8(query), b),
    ensures
        exists|i: int|
            #[trigger] occurs_at(label, query, i) && encode_utf8(label.take(i)).len() == b,
{
    let hay = encode_utf8(label);
    let needle = encode_utf8(query);
    lemma_char_bytes(query[0]);
    assert(needle == encode_scalar(query[0] as u32) + encode_utf8(query.drop_first()));
    assert(needle[0] == encode_scalar(query[0] as u32)[0]);
    let k = lemma_holder(label, b);
    lemma_cut(label, k);
    let start = encode_utf8(label.take(k)).len() as int;
    let enc = encode_scalar(label[k] as u32);
    lemma_char_bytes(label[k]);
    assert(hay[b] == enc[b - start]);
    assert(ascii_lower(hay[b + 0]) == ascii_lower(needle[0]));
    assert(b == start);
    let rest = label.skip(k);
    lemma_encode_concat(label.take(k), rest);
    assert(label.take(k) + rest == label);
    assert forall|j: int| 0 <= j < needle.len() implies ascii_lower(
        #[trigger] encode_utf8(rest)[0 + j],
    ) == ascii_lower(needle[j]) by {
        assert(hay[b + j] == encode_utf8(rest)[j]);
    }
    lemma_front_matches(rest, query);
    assert(rest.subrange(0, query.len() as int) == label.subrange(k, k + query.len()));
    assert(occurs_at(label, query, k));
}

/// The basename is what follows the last slash.
pub proof fn law_the_basename_follows_the_last_slash(dir: Seq<char>, name: Seq<char>)
    requires
        !name.contains('/'),
    ensures
        base_at(name) == 0,
        base_at(dir.push('/') + name) == dir.len() + 1,
    decreases name.len(),
{
    let s = dir.push('/') + name;
    if name.len() > 0 {
        let front = name.drop_last();
        assert(name.contains(name[name.len() - 1]));
        assert forall|i: int| 0 <= i < front.len() implies front[i] != '/' by {
            assert(name.contains(name[i]));
        }
        law_the_basename_follows_the_last_slash(dir, front);
        assert(s.drop_last() =~= dir.push('/') + front);
    } else {
        assert(s =~= dir.push('/'));
    }
}

proof fn lemma_first_occurrence(label: Seq<char>, query: Seq<char>, from: int)
    requires
        0 <= from,
        query.len() > 0,
    ensures
        match occurrence(label, query, from) {
            Some(i) => {
                &&& from <= i
                &&& occurs_at(label, query, i)
                &&& forall|j: int| from <= j < i ==> !occurs_at(label, query, j)
            },
            None => forall|j: int| from <= j ==> !occurs_at(label, query, j),
        },
    decreases label.len() - from,
{
    if from < label.len() && !occurs_at(label, query, from) {
        lemma_first_occurrence(label, query, from + 1);
    }
}

/// What is highlighted is the first place of the basename at which the label
/// says what the query says, letter by letter, whatever the case of ASCII
/// letters. It is found wherever there is one.
pub proof fn law_the_first_occurrence_is_highlighted(
    dir: Seq<char>,
    name: Seq<char>,
    label: Seq<char>,
    base: int,
    query: Seq<char>,
    i: int,
)
    requires
        !name.contains('/'),
        label == name && base == 0 || label == dir.push('/') + name && base == dir.len() + 1,
        query.len() > 0,
        query[0] != '.',
        0 <= i,
        i + query.len() <= name.len(),
        forall|k: int|
            0 <= k < query.len() ==> #[trigger] same_char(name[i + k], query[k]),
    ensures
        ({
            let at = highlighted(label, query);
            &&& at is Some
            &&& base <= at->0 <= base + i
            &&& at->0 + query.len() <= label.len()
            &&& forall|k: int|
                0 <= k < query.len() ==> #[trigger] same_char(label[at->0 + k], query[k])
        }),
{
    law_the_basename_follows_the_last_slash(dir, name);
    lemma_first_occurrence(label, query, base);
    let part = label.subrange(base + i, base + i + query.len());
    assert forall|k: int| 0 <= k < query.len() implies ascii_lower_char(part[k])
        == ascii_lower_char(query[k]) by {
        assert(same_char(name[i + k], query[k]));
        assert(part[k] == name[i + k]);
        lemma_same_char(name[i + k], query[k]);
    }
    assert(ascii_lower_text(part) =~= ascii_lower_text(query));
    assert(occurs_at(label, query, base + i));
    let at = occurrence(label, query, base)->0;
    assert forall|k: int| 0 <= k < query.len() implies #[trigger] same_char(
        label[at + k],
        query[k],
    ) by {
        let here = label.subrange(at, at + query.len());
        assert(ascii_lower_text(here)[k] == ascii_lower_text(query)[k]);
        assert(here[k] == label[at + k]);
        lemma_same_char(label[at + k], query[k]);
    }
}

/// What is highlighted lies in the basename, says what the query says, and is
/// the first such place.
pub proof fn law_what_is_highlighted_says_the_query(
    label: Seq<char>,
    query: Seq<char>,
    at: int,
    j: int,
)
    requires
        highlighted(label, query) == Some(at),
    ensures
        0 <= at,
        at + query.len() <= label.len(),
        forall|k: int| at <= k < label.len() ==> label[k] != '/' || query.contains('/'),
        forall|k: int| 0 <= k < query.len() ==> #[trigger] same_char(label[at + k], query[k]),
        base_at(label) <= j < at ==> exists|k: int|
            0 <= k < query.len() && !(#[trigger] same_char(label[j + k], query[k])),
{
    lemma_base_nonneg(label);
    lemma_no_slash_behind(label);
    lemma_first_occurrence(label, query, base_at(label));
    let here = label.subrange(at, at + query.len());
    assert forall|k: int| 0 <= k < query.len() implies #[trigger] same_char(
        label[at + k],
        query[k],
    ) by {
        assert(ascii_lower_text(here)[k] == ascii_lower_text(query)[k]);
        assert(here[k] == label[at + k]);
        lemma_same_char(label[at + k], query[k]);
    }
    if base_at(label) <= j < at && (forall|k: int|
        0 <= k < query.len() ==> #[trigger] same_char(label[j + k], query[k])) {
        let part = label.subrange(j, j + query.len());
        assert forall|k: int| 0 <= k < query.len() implies ascii_lower_char(part[k])
            == ascii_lower_char(query[k]) by {
            assert(same_char(label[j + k], query[k]));
            lemma_same_char(label[j + k], query[k]);
        }
        assert(ascii_lower_text(part) =~= ascii_lower_text(query));
        assert(occurs_at(label, query, j));
    }
}

proof fn lemma_no_slash_behind(label: Seq<char>)
    ensures
        forall|k: int| base_at(label) <= k < label.len() ==> label[k] != '/',
    decreases label.len(),
{
    if label.len() > 0 && label.last() != '/' {
        let front = label.drop_last();
        lemma_no_slash_behind(front);
        assert forall|k: int| base_at(label) <= k < label.len() implies label[k] != '/' by {
            if k < front.len() {
                lemma_base_nonneg(front);
                assert(front[k] == label[k]);
            }
        }
    }
}

/// Whether two characters are the same, or the same ASCII letter in two cases.
pub open spec fn same_char(a: char, b: char) -> bool {
    a == b || ('A' <= a && a <= 'Z' && (b as u32) == (a as u32) + 0x20) || ('A' <= b && b <= 'Z'
        && (a as u32) == (b as u32) + 0x20)
}

proof fn lemma_same_char(a: char, b: char)
    ensures
        same_char(a, b) <==> ascii_lower_char(a) == ascii_lower_char(b),
{
    vstd::utf8::char_u32_cast(a, a as u32);
    vstd::utf8::char_u32_cast(b, b as u32);
}

/// Nothing is highlighted for an empty query or one that begins with a dot, nor
/// where the basename does not say what the query says.
pub proof fn law_nothing_else_is_highlighted(label: Seq<char>, query: Seq<char>)
    ensures
        query.len() == 0 ==> highlighted(label, query) is None,
        query.len() > 0 && query[0] == '.' ==> highlighted(label, query) is None,
        query.len() > label.len() ==> highlighted(label, query) is None,
{
    lemma_base_nonneg(label);
    if query.len() > 0 {
        lemma_first_occurrence(label, query, base_at(label));
    }
}

proof fn lemma_base_nonneg(label: Seq<char>)
    ensures
        0 <= base_at(label),
    decreases label.len(),
{
    if label.len() > 0 && label.last() != '/' {
        lemma_base_nonneg(label.drop_last());
    }
}

} // verus!
