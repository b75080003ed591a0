//! JSON: what a text that was written says.
//!
//! A reader of JSON without exponents and without characters that are escaped
//! in two halves: neither is ever written.

use crate::fuzzy::json::{
    before_item, behind_item, bracketed, closing, hex_digit, json_char, json_text, laid,
    lemma_json_front, list, member, object, opening, quoted, truth, Lay,
};
use crate::number::{all_digits, decimal, is_digit, lemma_decimal};
use crate::text::{first_at, lemma_first_at, starts_with};
use vstd::prelude::*;
use vstd::string::*;

verus! {

pub enum Json {
    Truth(bool),
    /// A number, as it is written.
    Number(Seq<char>),
    Text(Seq<char>),
    List(Seq<Json>),
    Object(Seq<(Seq<char>, Json)>),
}

pub open spec fn is_space(c: char) -> bool {
    c == ' ' || c == '\n' || c == '\t' || c == '\r'
}

/// A text without the white space at its front.
pub open spec fn after_space(s: Seq<char>) -> Seq<char>
    decreases s.len(),
{
    if s.len() > 0 && is_space(s[0]) {
        after_space(s.drop_first())
    } else {
        s
    }
}

// ---------------------------------------------------------------------------
// Texts
// ---------------------------------------------------------------------------

/// The value of a hexadecimal digit.
pub open spec fn hex_value(c: char) -> Option<nat> {
    if '0' <= c && c <= '9' {
        Some(((c as u32) - 0x30) as nat)
    } else if 'a' <= c && c <= 'f' {
        Some(((c as u32) - 0x57) as nat)
    } else if 'A' <= c && c <= 'F' {
        Some(((c as u32) - 0x37) as nat)
    } else {
        None
    }
}

/// What a character behind a backslash stands for.
pub open spec fn escape_value(c: char) -> Option<char> {
    if c == '"' || c == '\\' || c == '/' {
        Some(c)
    } else if c == 'n' {
        Some('\n')
    } else if c == 't' {
        Some('\t')
    } else if c == 'r' {
        Some('\r')
    } else if c == 'b' {
        Some('\u{8}')
    } else if c == 'f' {
        Some('\u{c}')
    } else {
        None
    }
}

/// The character with the code of four hexadecimal digits.
pub open spec fn code_value(a: char, b: char, c: char, d: char) -> Option<char> {
    match (hex_value(a), hex_value(b), hex_value(c), hex_value(d)) {
        (Some(w), Some(x), Some(y), Some(z)) => {
            let code = 0x1000 * w + 0x100 * x + 0x10 * y + z;
            if code < 0xd800 || 0xe000 <= code {
                Some((code as u32) as char)
            } else {
                None
            }
        },
        _ => None,
    }
}

/// One character of a text in quotes, and how many characters it is written
/// with.
pub open spec fn read_char(s: Seq<char>) -> Option<(char, int)> {
    if s.len() == 0 || s[0] == '"' || (s[0] as u32) < 0x20 {
        None
    } else if s[0] != '\\' {
        Some((s[0], 1))
    } else if s.len() >= 6 && s[1] == 'u' {
        match code_value(s[2], s[3], s[4], s[5]) {
            Some(c) => Some((c, 6)),
            None => None,
        }
    } else if s.len() >= 2 {
        match escape_value(s[1]) {
            Some(c) => Some((c, 2)),
            None => None,
        }
    } else {
        None
    }
}

/// The text up to the closing quote, and what follows the quote.
pub open spec fn read_text(s: Seq<char>) -> Option<(Seq<char>, Seq<char>)>
    decreases s.len(),
{
    if s.len() > 0 && s[0] == '"' {
        Some((Seq::empty(), s.drop_first()))
    } else {
        match read_char(s) {
            Some((c, n)) => match read_text(s.skip(n)) {
                Some((t, rest)) => Some((seq![c] + t, rest)),
                None => None,
            },
            None => None,
        }
    }
}

// ---------------------------------------------------------------------------
// Numbers
// ---------------------------------------------------------------------------

/// The characters that numbers are made of.
pub open spec fn is_numeric(c: char) -> bool {
    is_digit(c) || c == '-' || c == '+' || c == '.' || c == 'e' || c == 'E'
}

/// How many numeric characters stand at the front of a text.
pub open spec fn numeric_len(s: Seq<char>) -> int
    decreases s.len(),
{
    if s.len() > 0 && is_numeric(s[0]) {
        1 + numeric_len(s.drop_first())
    } else {
        0
    }
}

/// Digits without a needless zero at the front.
pub open spec fn is_whole(s: Seq<char>) -> bool {
    s.len() > 0 && all_digits(s) && (s.len() == 1 || s[0] != '0')
}

/// Digits, and decimals behind a point.
pub open spec fn is_unsigned(s: Seq<char>) -> bool {
    let at = first_at(s, '.');
    is_whole(s.take(at)) && (at == s.len() || (at + 1 < s.len() && all_digits(s.skip(at + 1))))
}

/// A number, with a minus sign where it is negative.
pub open spec fn is_number_text(s: Seq<char>) -> bool {
    if s.len() > 0 && s[0] == '-' {
        is_unsigned(s.drop_first())
    } else {
        is_unsigned(s)
    }
}

// ---------------------------------------------------------------------------
// Values
// ---------------------------------------------------------------------------

/// A value at the front of a text, and what follows it.
pub open spec fn read_value(s: Seq<char>) -> Option<(Json, Seq<char>)>
    decreases s.len(), 0int,
{
    let t = after_space(s);
    if t.len() == 0 || t.len() > s.len() {
        None
    } else if t[0] == '"' {
        match read_text(t.drop_first()) {
            Some((v, rest)) => Some((Json::Text(v), rest)),
            None => None,
        }
    } else if t[0] == '[' {
        let u = after_space(t.drop_first());
        if u.len() > 0 && u[0] == ']' {
            Some((Json::List(Seq::empty()), u.drop_first()))
        } else {
            match read_items(t.drop_first()) {
                Some((v, rest)) => Some((Json::List(v), rest)),
                None => None,
            }
        }
    } else if t[0] == '{' {
        let u = after_space(t.drop_first());
        if u.len() > 0 && u[0] == '}' {
            Some((Json::Object(Seq::empty()), u.drop_first()))
        } else {
            match read_members(t.drop_first()) {
                Some((v, rest)) => Some((Json::Object(v), rest)),
                None => None,
            }
        }
    } else if starts_with(t, "true"@) {
        Some((Json::Truth(true), t.skip(4)))
    } else if starts_with(t, "false"@) {
        Some((Json::Truth(false), t.skip(5)))
    } else if is_number_text(t.take(numeric_len(t))) {
        Some((Json::Number(t.take(numeric_len(t))), t.skip(numeric_len(t))))
    } else {
        None
    }
}

/// The items up to the closing bracket, and what follows it.
pub open spec fn read_items(s: Seq<char>) -> Option<(Seq<Json>, Seq<char>)>
    decreases s.len(), 1int,
{
    match read_value(s) {
        Some((v, rest)) => {
            let t = after_space(rest);
            if t.len() == 0 || t.len() >= s.len() {
                None
            } else if t[0] == ']' {
                Some((seq![v], t.drop_first()))
            } else if t[0] == ',' {
                match read_items(t.drop_first()) {
                    Some((vs, end)) => Some((seq![v] + vs, end)),
                    None => None,
                }
            } else {
                None
            }
        },
        None => None,
    }
}

/// A key, a colon and a value, and what follows them.
pub open spec fn read_member(s: Seq<char>) -> Option<((Seq<char>, Json), Seq<char>)>
    decreases s.len(), 1int,
{
    let t = after_space(s);
    if t.len() == 0 || t[0] != '"' {
        None
    } else {
        match read_text(t.drop_first()) {
            Some((key, rest)) => {
                let u = after_space(rest);
                if u.len() == 0 || u[0] != ':' || u.len() > s.len() {
                    None
                } else {
                    match read_value(u.drop_first()) {
                        Some((v, end)) => Some(((key, v), end)),
                        None => None,
                    }
                }
            },
            None => None,
        }
    }
}

/// The members up to the closing brace, and what follows it.
pub open spec fn read_members(s: Seq<char>) -> Option<(Seq<(Seq<char>, Json)>, Seq<char>)>
    decreases s.len(), 2int,
{
    match read_member(s) {
        Some((m, rest)) => {
            let t = after_space(rest);
            if t.len() == 0 || t.len() >= s.len() {
                None
            } else if t[0] == '}' {
                Some((seq![m], t.drop_first()))
            } else if t[0] == ',' {
                match read_members(t.drop_first()) {
                    Some((ms, end)) => Some((seq![m] + ms, end)),
                    None => None,
                }
            } else {
                None
            }
        },
        None => None,
    }
}

/// The value that a whole text says.
pub open spec fn decoded(s: Seq<char>) -> Option<Json> {
    match read_value(s) {
        Some((v, rest)) => if after_space(rest).len() == 0 {
            Some(v)
        } else {
            None
        },
        None => None,
    }
}

// ---------------------------------------------------------------------------
// Reading what was written
// ---------------------------------------------------------------------------

/// Whether a text ends a number that stands before it.
pub open spec fn delimits(rest: Seq<char>) -> bool {
    rest.len() > 0 && !is_numeric(rest[0])
}

/// Whether a character can begin a value.
pub open spec fn begins_value(c: char) -> bool {
    !is_space(c) && c != ']' && c != '}'
}

/// Whether a text says a value, whatever follows it.
pub closed spec fn reads(a: Seq<char>, v: Json) -> bool {
    &&& a.len() > 0
    &&& begins_value(a[0])
    &&& forall|rest: Seq<char>|
        delimits(rest) ==> #[trigger] read_value(a + rest) == Some((v, rest))
}

/// Whether a text says a member of an object, whatever follows it.
pub closed spec fn reads_member(a: Seq<char>, m: (Seq<char>, Json)) -> bool {
    &&& a.len() > 0
    &&& begins_value(a[0])
    &&& forall|rest: Seq<char>|
        delimits(rest) ==> #[trigger] read_member(a + rest) == Some((m, rest))
}

pub open spec fn all_space(w: Seq<char>) -> bool {
    forall|i: int| 0 <= i < w.len() ==> is_space(#[trigger] w[i])
}

proof fn lemma_after_space(s: Seq<char>)
    ensures
        after_space(s).len() <= s.len(),
    decreases s.len(),
{
    if s.len() > 0 && is_space(s[0]) {
        lemma_after_space(s.drop_first());
    }
}

proof fn lemma_skip_space(w: Seq<char>, s: Seq<char>)
    requires
        all_space(w),
    ensures
        after_space(w + s) == after_space(s),
    decreases w.len(),
{
    if w.len() > 0 {
        let v = w.drop_first();
        assert forall|i: int| 0 <= i < v.len() implies is_space(#[trigger] v[i]) by {
            assert(v[i] == w[i + 1]);
        }
        assert(is_space(w[0]));
        assert((w + s)[0] == w[0]);
        assert((w + s).drop_first() =~= v + s);
        lemma_skip_space(v, s);
    } else {
        assert(w + s =~= s);
    }
}

proof fn lemma_value_after_space(w: Seq<char>, s: Seq<char>)
    requires
        all_space(w),
    ensures
        read_value(w + s) == read_value(s),
{
    lemma_skip_space(w, s);
    lemma_after_space(s);
}

proof fn lemma_layout_is_space(lay: Lay)
    ensures
        all_space(opening(lay)),
        all_space(before_item(lay)),
        all_space(behind_item(lay, true)),
        all_space(closing(lay)),
        behind_item(lay, false).len() == 2,
        behind_item(lay, false)[0] == ',',
        is_space(behind_item(lay, false)[1]),
{
}

proof fn lemma_space_concat(a: Seq<char>, b: Seq<char>)
    requires
        all_space(a),
        all_space(b),
    ensures
        all_space(a + b),
{
    assert forall|i: int| 0 <= i < (a + b).len() implies is_space(#[trigger] (a + b)[i]) by {
        if i < a.len() {
            assert((a + b)[i] == a[i]);
        } else {
            assert((a + b)[i] == b[i - a.len()]);
        }
    }
}

// -- Texts ------------------------------------------------------------------

proof fn lemma_read_char(c: char, rest: Seq<char>)
    ensures
        read_char(json_char(c) + rest) == Some((c, json_char(c).len() as int)),
        (json_char(c) + rest)[0] != '"',
{
    let s = json_char(c) + rest;
    let u = c as u32;
    assert(s[0] == json_char(c)[0]);
    if json_char(c).len() == 6 {
        assert(s[1] == 'u' && s[2] == '0' && s[3] == '0');
        assert(s[4] == hex_digit(u as nat / 16));
        assert(s[5] == hex_digit(u as nat % 16));
        assert(hex_value('0') == Some(0nat));
        assert(hex_value(s[4]) == Some(u as nat / 16));
        assert(hex_value(s[5]) == Some(u as nat % 16));
        vstd::utf8::char_u32_cast(c, u);
    } else if json_char(c).len() == 2 {
        assert(s[1] == json_char(c)[1]);
    } else {
        vstd::utf8::char_u32_cast(c, u);
    }
}

proof fn lemma_read_text(t: Seq<char>, rest: Seq<char>)
    ensures
        read_text(json_text(t) + (seq!['"'] + rest)) == Some((t, rest)),
    decreases t.len(),
{
    let tail = seq!['"'] + rest;
    if t.len() == 0 {
        assert(json_text(t) + tail =~= tail);
        assert(tail.drop_first() =~= rest);
        assert(t =~= Seq::<char>::empty());
    } else {
        let c = t[0];
        let more = t.drop_first();
        lemma_json_front(t);
        lemma_read_text(more, rest);
        let next = json_text(more) + tail;
        let s = json_text(t) + tail;
        assert(s =~= json_char(c) + next);
        lemma_read_char(c, next);
        assert((json_char(c) + next).skip(json_char(c).len() as int) =~= next);
        assert(t =~= seq![c] + more);
    }
}

pub proof fn lemma_quoted_reads(t: Seq<char>)
    ensures
        reads(quoted(t), Json::Text(t)),
{
    let a = quoted(t);
    assert forall|rest: Seq<char>| delimits(rest) implies #[trigger] read_value(a + rest) == Some(
        (Json::Text(t), rest),
    ) by {
        let s = a + rest;
        assert(s[0] == '"');
        assert(after_space(s) == s);
        assert(s.drop_first() =~= json_text(t) + (seq!['"'] + rest));
        lemma_read_text(t, rest);
    }
}

// -- Numbers and truths -----------------------------------------------------

proof fn lemma_numeric_len(a: Seq<char>, rest: Seq<char>)
    requires
        forall|i: int| 0 <= i < a.len() ==> is_numeric(#[trigger] a[i]),
        delimits(rest),
    ensures
        numeric_len(a + rest) == a.len(),
    decreases a.len(),
{
    if a.len() > 0 {
        let b = a.drop_first();
        assert forall|i: int| 0 <= i < b.len() implies is_numeric(#[trigger] b[i]) by {
            assert(b[i] == a[i + 1]);
        }
        assert(is_numeric(a[0]));
        assert((a + rest)[0] == a[0]);
        assert((a + rest).drop_first() =~= b + rest);
        lemma_numeric_len(b, rest);
    } else {
        assert(a + rest =~= rest);
    }
}

proof fn lemma_number_reads(a: Seq<char>)
    requires
        is_number_text(a),
        forall|i: int| 0 <= i < a.len() ==> is_numeric(#[trigger] a[i]),
        a.len() > 0,
        is_digit(a[0]) || a[0] == '-',
    ensures
        reads(a, Json::Number(a)),
{
    reveal_strlit("true");
    reveal_strlit("false");
    assert forall|rest: Seq<char>| delimits(rest) implies #[trigger] read_value(a + rest) == Some(
        (Json::Number(a), rest),
    ) by {
        let s = a + rest;
        assert(s[0] == a[0]);
        assert(after_space(s) == s);
        lemma_numeric_len(a, rest);
        assert(s.take(a.len() as int) =~= a);
        assert(s.skip(a.len() as int) =~= rest);
        if starts_with(s, "true"@) {
            assert(s.take(4)[0] == 't');
        }
        if starts_with(s, "false"@) {
            assert(s.take(5)[0] == 'f');
        }
    }
}

proof fn lemma_decimal_is_whole(n: nat)
    ensures
        is_whole(decimal(n)),
        is_digit(decimal(n)[0]),
{
    lemma_decimal(n);
    assert(is_digit(decimal(n)[0]));
    if n == 0 {
        assert(decimal(n).len() == 1);
    }
}

pub proof fn lemma_decimal_reads(n: nat)
    ensures
        reads(decimal(n), Json::Number(decimal(n))),
{
    let a = decimal(n);
    lemma_decimal_is_whole(n);
    assert forall|i: int| 0 <= i < a.len() implies is_numeric(#[trigger] a[i]) && a[i] != '.' by {
        assert(is_digit(a[i]));
    }
    lemma_first_at(a, '.', a.len() as int);
    assert(a.take(a.len() as int) =~= a);
    lemma_number_reads(a);
}

/// A numeral, a point and decimals, with or without a minus sign, is a number.
pub proof fn lemma_fraction_reads(negative: bool, n: nat, decimals: Seq<char>)
    requires
        decimals.len() > 0,
        all_digits(decimals),
    ensures
        ({
            let a = (if negative {
                seq!['-']
            } else {
                Seq::empty()
            }) + (decimal(n).push('.') + decimals);
            reads(a, Json::Number(a))
        }),
{
    let d = decimal(n);
    let body = d.push('.') + decimals;
    lemma_decimal_is_whole(n);
    assert forall|i: int| 0 <= i < body.len() implies is_numeric(#[trigger] body[i]) && (i < d.len()
        ==> body[i] != '.') by {
        if i < d.len() {
            assert(body[i] == d[i]);
            assert(is_digit(d[i]));
        } else if i > d.len() {
            assert(body[i] == decimals[i - d.len() - 1]);
        }
    }
    assert(body[d.len() as int] == '.');
    lemma_first_at(body, '.', d.len() as int);
    assert(body.take(d.len() as int) =~= d);
    assert(body.skip(d.len() as int + 1) =~= decimals);
    assert(is_unsigned(body));
    assert(body[0] == d[0]);
    let sign = if negative {
        seq!['-']
    } else {
        Seq::empty()
    };
    let a = sign + body;
    if negative {
        assert(a.drop_first() =~= body);
    } else {
        assert(a =~= body);
    }
    assert forall|i: int| 0 <= i < a.len() implies is_numeric(#[trigger] a[i]) by {
        if i >= sign.len() {
            assert(a[i] == body[i - sign.len()]);
        }
    }
    lemma_number_reads(a);
}

pub proof fn lemma_truth_reads(b: bool)
    ensures
        reads(truth(b), Json::Truth(b)),
{
    reveal_strlit("true");
    reveal_strlit("false");
    let a = truth(b);
    assert forall|rest: Seq<char>| delimits(rest) implies #[trigger] read_value(a + rest) == Some(
        (Json::Truth(b), rest),
    ) by {
        let s = a + rest;
        assert(s[0] == a[0]);
        assert(after_space(s) == s);
        assert(s.take(a.len() as int) =~= a);
        assert(s.skip(a.len() as int) =~= rest);
        if !b {
            assert(s.take(4)[0] == 'f');
        }
    }
}

// -- Lists and objects ------------------------------------------------------

/// The items from `i` on.
spec fn laid_from(items: Seq<Seq<char>>, lay: Lay, i: int) -> Seq<char>
    decreases items.len() - i,
{
    if i < 0 || i >= items.len() {
        Seq::empty()
    } else {
        before_item(lay) + items[i] + behind_item(lay, i + 1 == items.len()) + laid_from(
            items,
            lay,
            i + 1,
        )
    }
}

proof fn lemma_laid(items: Seq<Seq<char>>, lay: Lay, n: nat)
    requires
        n <= items.len(),
    ensures
        laid(items, lay, n) + laid_from(items, lay, n as int) == laid_from(items, lay, 0),
    decreases n,
{
    if n > 0 {
        let m = (n - 1) as nat;
        lemma_laid(items, lay, m);
        let front = laid(items, lay, m);
        let (b, x, e) = (
            before_item(lay),
            items[m as int],
            behind_item(lay, n == items.len()),
        );
        let tail = laid_from(items, lay, n as int);
        assert(front + b + x + e + tail =~= front + (b + x + e + tail));
    } else {
        assert(laid(items, lay, 0) + laid_from(items, lay, 0) =~= laid_from(items, lay, 0));
    }
}

proof fn lemma_laid_whole(items: Seq<Seq<char>>, lay: Lay)
    ensures
        laid(items, lay, items.len()) == laid_from(items, lay, 0),
{
    lemma_laid(items, lay, items.len());
    assert(laid_from(items, lay, items.len() as int) =~= Seq::<char>::empty());
    assert(laid(items, lay, items.len()) + Seq::<char>::empty() =~= laid(
        items,
        lay,
        items.len(),
    ));
}

/// What follows an item: a comma and more, or the closing bracket.
spec fn behind(
    items: Seq<Seq<char>>,
    lay: Lay,
    i: int,
    right: char,
    rest: Seq<char>,
) -> Seq<char> {
    behind_item(lay, i + 1 == items.len()) + (laid_from(items, lay, i + 1) + closing(lay) + (seq![
        right,
    ] + rest))
}

proof fn lemma_behind(
    items: Seq<Seq<char>>,
    lay: Lay,
    i: int,
    right: char,
    rest: Seq<char>,
)
    requires
        0 <= i < items.len(),
        right == ']' || right == '}',
    ensures
        ({
            let r = behind(items, lay, i, right, rest);
            let t = after_space(r);
            &&& delimits(r)
            &&& t.len() <= r.len()
            &&& i + 1 == items.len() ==> t == seq![right] + rest
            &&& i + 1 < items.len() ==> t.len() > 0 && t[0] == ',' && t.drop_first() == seq![
                behind_item(lay, false)[1],
            ] + (laid_from(items, lay, i + 1) + closing(lay) + (seq![right] + rest))
        }),
{
    lemma_layout_is_space(lay);
    let r = behind(items, lay, i, right, rest);
    let end = seq![right] + rest;
    lemma_after_space(r);
    if i + 1 == items.len() {
        let w = behind_item(lay, true) + closing(lay);
        lemma_space_concat(behind_item(lay, true), closing(lay));
        assert(laid_from(items, lay, i + 1) =~= Seq::<char>::empty());
        assert(r =~= w + end);
        lemma_skip_space(w, end);
        assert(after_space(end) == end);
        if w.len() > 0 {
            assert(r[0] == w[0]);
        } else {
            assert(r[0] == right);
        }
    } else {
        let e = behind_item(lay, false);
        let more = laid_from(items, lay, i + 1) + closing(lay) + end;
        assert(r[0] == ',');
        assert(after_space(r) == r);
        assert(r.drop_first() =~= seq![e[1]] + more);
    }
}

proof fn lemma_front(
    w: Seq<char>,
    items: Seq<Seq<char>>,
    lay: Lay,
    i: int,
    right: char,
    rest: Seq<char>,
)
    requires
        0 <= i < items.len(),
        all_space(w),
    ensures
        all_space(w + before_item(lay)),
        w + (laid_from(items, lay, i) + closing(lay) + (seq![right] + rest)) == (w + before_item(
            lay,
        )) + (items[i] + behind(items, lay, i, right, rest)),
{
    lemma_layout_is_space(lay);
    lemma_space_concat(w, before_item(lay));
    let (b, x, e) = (before_item(lay), items[i], behind_item(lay, i + 1 == items.len()));
    let (tail, c, end) = (laid_from(items, lay, i + 1), closing(lay), seq![right] + rest);
    assert(w + (b + x + e + tail + c + end) =~= (w + b) + (x + (e + (tail + c + end))));
}

proof fn lemma_items_read(
    items: Seq<Seq<char>>,
    vals: Seq<Json>,
    lay: Lay,
    i: int,
    w: Seq<char>,
    rest: Seq<char>,
)
    requires
        items.len() == vals.len(),
        0 <= i < items.len(),
        forall|k: int| 0 <= k < items.len() ==> reads(#[trigger] items[k], vals[k]),
        all_space(w),
    ensures
        read_items(w + (laid_from(items, lay, i) + closing(lay) + (seq![']'] + rest))) == Some(
            (vals.skip(i), rest),
        ),
    decreases items.len() - i,
{
    let s = w + (laid_from(items, lay, i) + closing(lay) + (seq![']'] + rest));
    let r = behind(items, lay, i, ']', rest);
    let space = w + before_item(lay);
    lemma_front(w, items, lay, i, ']', rest);
    lemma_behind(items, lay, i, ']', rest);
    assert(reads(items[i], vals[i]));
    lemma_value_after_space(space, items[i] + r);
    assert(read_value(items[i] + r) == Some((vals[i], r)));
    assert(read_value(s) == Some((vals[i], r)));
    let t = after_space(r);
    assert(s.len() == space.len() + items[i].len() + r.len());
    if i + 1 == items.len() {
        assert(t.drop_first() =~= rest);
        assert(vals.skip(i) =~= seq![vals[i]]);
    } else {
        let gap = seq![behind_item(lay, false)[1]];
        lemma_layout_is_space(lay);
        lemma_items_read(items, vals, lay, i + 1, gap, rest);
        assert(vals.skip(i) =~= seq![vals[i]] + vals.skip(i + 1));
    }
}

proof fn lemma_members_read(
    items: Seq<Seq<char>>,
    vals: Seq<(Seq<char>, Json)>,
    lay: Lay,
    i: int,
    w: Seq<char>,
    rest: Seq<char>,
)
    requires
        items.len() == vals.len(),
        0 <= i < items.len(),
        forall|k: int| 0 <= k < items.len() ==> reads_member(#[trigger] items[k], vals[k]),
        all_space(w),
    ensures
        read_members(w + (laid_from(items, lay, i) + closing(lay) + (seq!['}'] + rest))) == Some(
            (vals.skip(i), rest),
        ),
    decreases items.len() - i,
{
    let s = w + (laid_from(items, lay, i) + closing(lay) + (seq!['}'] + rest));
    let r = behind(items, lay, i, '}', rest);
    let space = w + before_item(lay);
    lemma_front(w, items, lay, i, '}', rest);
    lemma_behind(items, lay, i, '}', rest);
    assert(reads_member(items[i], vals[i]));
    assert(read_member(items[i] + r) == Some((vals[i], r)));
    lemma_member_after_space(space, items[i] + r);
    assert(read_member(s) == Some((vals[i], r)));
    let t = after_space(r);
    assert(s.len() == space.len() + items[i].len() + r.len());
    if i + 1 == items.len() {
        assert(t.drop_first() =~= rest);
        assert(vals.skip(i) =~= seq![vals[i]]);
    } else {
        let gap = seq![behind_item(lay, false)[1]];
        lemma_layout_is_space(lay);
        lemma_members_read(items, vals, lay, i + 1, gap, rest);
        assert(vals.skip(i) =~= seq![vals[i]] + vals.skip(i + 1));
    }
}

proof fn lemma_member_after_space(w: Seq<char>, s: Seq<char>)
    requires
        all_space(w),
        read_member(s) is Some,
    ensures
        read_member(w + s) == read_member(s),
{
    lemma_skip_space(w, s);
}

proof fn lemma_bracketed(
    items: Seq<Seq<char>>,
    left: char,
    right: char,
    lay: Lay,
    rest: Seq<char>,
)
    ensures
        (bracketed(items, left, right, lay) + rest)[0] == left,
        (bracketed(items, left, right, lay) + rest).drop_first() == opening(lay) + (laid_from(
            items,
            lay,
            0,
        ) + closing(lay) + (seq![right] + rest)),
{
    lemma_laid_whole(items, lay);
    let (o, l, c) = (opening(lay), laid_from(items, lay, 0), closing(lay));
    let s = bracketed(items, left, right, lay) + rest;
    assert(s =~= seq![left] + (o + (l + c + (seq![right] + rest))));
    assert(s.drop_first() =~= o + (l + c + (seq![right] + rest)));
}

/// What stands first between the brackets.
proof fn lemma_first_inside(
    items: Seq<Seq<char>>,
    right: char,
    lay: Lay,
    rest: Seq<char>,
)
    requires
        right == ']' || right == '}',
        items.len() > 0 ==> items[0].len() > 0 && begins_value(items[0][0]),
    ensures
        ({
            let inside = opening(lay) + (laid_from(items, lay, 0) + closing(lay) + (seq![right]
                + rest));
            let u = after_space(inside);
            if items.len() == 0 {
                u == seq![right] + rest
            } else {
                u.len() > 0 && u[0] == items[0][0]
            }
        }),
{
    lemma_layout_is_space(lay);
    let o = opening(lay);
    let end = seq![right] + rest;
    let inside = o + (laid_from(items, lay, 0) + closing(lay) + end);
    if items.len() == 0 {
        lemma_space_concat(o, closing(lay));
        assert(laid_from(items, lay, 0) =~= Seq::<char>::empty());
        assert(inside =~= (o + closing(lay)) + end);
        lemma_skip_space(o + closing(lay), end);
        assert(after_space(end) == end);
    } else {
        lemma_front(o, items, lay, 0, right, rest);
        let tail = items[0] + behind(items, lay, 0, right, rest);
        lemma_skip_space(o + before_item(lay), tail);
        assert(tail[0] == items[0][0]);
        assert(after_space(tail) == tail);
    }
}

/// A list of texts that say values says the list of the values.
pub proof fn lemma_list_reads(items: Seq<Seq<char>>, vals: Seq<Json>, lay: Lay)
    requires
        items.len() == vals.len(),
        forall|k: int| 0 <= k < items.len() ==> reads(#[trigger] items[k], vals[k]),
    ensures
        reads(list(items, lay), Json::List(vals)),
{
    let a = list(items, lay);
    assert(a[0] == '[');
    assert(items.len() > 0 ==> reads(items[0], vals[0]));
    assert forall|rest: Seq<char>| delimits(rest) implies #[trigger] read_value(a + rest) == Some(
        (Json::List(vals), rest),
    ) by {
        let s = a + rest;
        lemma_bracketed(items, '[', ']', lay, rest);
        lemma_first_inside(items, ']', lay, rest);
        assert(after_space(s) == s);
        if items.len() == 0 {
            assert((seq![']'] + rest).drop_first() =~= rest);
            assert(vals =~= Seq::<Json>::empty());
        } else {
            lemma_layout_is_space(lay);
            lemma_items_read(items, vals, lay, 0, opening(lay), rest);
            assert(vals.skip(0) =~= vals);
        }
    }
}

/// An object of texts that say members says the object of the members.
pub proof fn lemma_object_reads(
    items: Seq<Seq<char>>,
    vals: Seq<(Seq<char>, Json)>,
    lay: Lay,
)
    requires
        items.len() == vals.len(),
        forall|k: int| 0 <= k < items.len() ==> reads_member(#[trigger] items[k], vals[k]),
    ensures
        reads(object(items, lay), Json::Object(vals)),
{
    let a = object(items, lay);
    assert(a[0] == '{');
    assert(items.len() > 0 ==> reads_member(items[0], vals[0]));
    assert forall|rest: Seq<char>| delimits(rest) implies #[trigger] read_value(a + rest) == Some(
        (Json::Object(vals), rest),
    ) by {
        let s = a + rest;
        lemma_bracketed(items, '{', '}', lay, rest);
        lemma_first_inside(items, '}', lay, rest);
        assert(after_space(s) == s);
        if items.len() == 0 {
            assert((seq!['}'] + rest).drop_first() =~= rest);
            assert(vals =~= Seq::<(Seq<char>, Json)>::empty());
        } else {
            lemma_layout_is_space(lay);
            lemma_members_read(items, vals, lay, 0, opening(lay), rest);
            assert(vals.skip(0) =~= vals);
        }
    }
}

/// A key and a text that says a value say a member.
pub proof fn lemma_member_reads(key: Seq<char>, value: Seq<char>, v: Json)
    requires
        reads(value, v),
    ensures
        reads_member(member(key, value), (key, v)),
{
    let a = member(key, value);
    assert(a[0] == '"');
    assert forall|rest: Seq<char>| delimits(rest) implies #[trigger] read_member(a + rest) == Some(
        ((key, v), rest),
    ) by {
        let s = a + rest;
        let tail = seq![':', ' '] + (value + rest);
        assert(s[0] == '"');
        assert(after_space(s) == s);
        assert(s.drop_first() =~= json_text(key) + (seq!['"'] + tail));
        lemma_read_text(key, tail);
        assert(tail[0] == ':');
        assert(after_space(tail) == tail);
        assert(tail.drop_first() =~= seq![' '] + (value + rest));
        lemma_value_after_space(seq![' '], value + rest);
        assert(read_value(value + rest) == Some((v, rest)));
    }
}

/// A text that says a value, with a line end, decodes to the value.
pub proof fn lemma_line_decodes(a: Seq<char>, v: Json)
    requires
        reads(a, v),
    ensures
        decoded(a + seq!['\n']) == Some(v),
{
    let end = seq!['\n'];
    assert(delimits(end));
    assert(read_value(a + end) == Some((v, end)));
    assert(end.drop_first() =~= Seq::<char>::empty());
    assert(after_space(end) == after_space(end.drop_first()));
}

} // verus!
