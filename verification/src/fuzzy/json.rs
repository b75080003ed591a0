//! JSON: how texts, lists and objects are written.

use vstd::prelude::*;
use vstd::string::*;

verus! {

// ---------------------------------------------------------------------------
// Text in quotes
// ---------------------------------------------------------------------------

/// A hexadecimal digit, in small letters.
pub open spec fn hex_digit(n: nat) -> char {
    if n < 10 {
        (0x30 + n) as char
    } else {
        (0x57 + n) as char
    }
}

/// A character as it stands between quotes.
pub open spec fn json_char(c: char) -> Seq<char> {
    if c == '"' {
        seq!['\\', '"']
    } else if c == '\\' {
        seq!['\\', '\\']
    } else if c == '\n' {
        seq!['\\', 'n']
    } else if c == '\t' {
        seq!['\\', 't']
    } else if c == '\r' {
        seq!['\\', 'r']
    } else if (c as u32) < 0x20 {
        seq![
            '\\',
            'u',
            '0',
            '0',
            hex_digit((c as u32) as nat / 16),
            hex_digit((c as u32) as nat % 16),
        ]
    } else {
        seq![c]
    }
}

/// A text as it stands between quotes.
pub open spec fn json_text(s: Seq<char>) -> Seq<char>
    decreases s.len(),
{
    if s.len() == 0 {
        s
    } else {
        json_text(s.drop_last()) + json_char(s.last())
    }
}

fn hex_char(n: u8) -> (r: char)
    requires
        n < 16,
    ensures
        r == hex_digit(n as nat),
{
    if n < 10 {
        (0x30 + n) as char
    } else {
        (0x57 + n) as char
    }
}

fn push_json_char(out: &mut String, c: char)
    ensures
        final(out)@ == old(out)@ + json_char(c),
{
    let ghost start = out@;
    if c == '"' {
        out.push('\\');
        out.push('"');
    } else if c == '\\' {
        out.push('\\');
        out.push('\\');
    } else if c == '\n' {
        out.push('\\');
        out.push('n');
    } else if c == '\t' {
        out.push('\\');
        out.push('t');
    } else if c == '\r' {
        out.push('\\');
        out.push('r');
    } else if (c as u32) < 0x20 {
        let u: u8 = c as u8;
        out.push('\\');
        out.push('u');
        out.push('0');
        out.push('0');
        out.push(hex_char(u / 16));
        out.push(hex_char(u % 16));
    } else {
        out.push(c);
    }
    assert(out@ =~= start + json_char(c));
}

/// Appends a text, escaped.
pub fn push_json(out: &mut String, s: &str)
    ensures
        final(out)@ == old(out)@ + json_text(s@),
{
    let ghost start = out@;
    assert(start + json_text(s@.take(0)) =~= start);
    for c in it: s.chars()
        invariant
            it.seq() == s@,
            out@ == start + json_text(s@.take(it.index() as int)),
    {
        let ghost i = it.index() as int;
        let ghost before = json_text(s@.take(i));
        assert(s@.take(i + 1).drop_last() == s@.take(i));
        assert(s@.take(i + 1).last() == c);
        push_json_char(out, c);
        assert(out@ =~= start + (before + json_char(c)));
    }
    assert(s@.take(s@.len() as int) == s@);
}

/// A text with quotes, backslashes and control characters escaped.
pub fn json_escape(s: &str) -> (r: String)
    ensures
        r@ == json_text(s@),
{
    let mut out = String::new();
    push_json(&mut out, s);
    assert(out@ =~= json_text(s@));
    out
}

/// An escaped text begins with its first character, escaped.
pub proof fn lemma_json_front(s: Seq<char>)
    requires
        s.len() > 0,
    ensures
        json_text(s) == json_char(s[0]) + json_text(s.drop_first()),
    decreases s.len(),
{
    let front = s.drop_last();
    if front.len() == 0 {
        assert(json_text(front) + json_char(s.last()) =~= json_char(s[0]));
        assert(json_char(s[0]) + json_text(s.drop_first()) =~= json_char(s[0]));
    } else {
        lemma_json_front(front);
        assert(s.drop_first().drop_last() == front.drop_first());
        assert(json_text(s) =~= json_char(s[0]) + (json_text(front.drop_first()) + json_char(
            s.last(),
        )));
    }
}

proof fn lemma_json_chars_differ(a: char, b: char, x: Seq<char>, y: Seq<char>)
    requires
        json_char(a) + x == json_char(b) + y,
    ensures
        a == b,
        x == y,
{
    let s = json_char(a) + x;
    let t = json_char(b) + y;
    assert(s[0] == json_char(a)[0]);
    assert(t[0] == json_char(b)[0]);
    if json_char(a).len() > 1 || json_char(b).len() > 1 {
        assert(json_char(a).len() > 1 && json_char(b).len() > 1);
        assert(s[1] == json_char(a)[1]);
        assert(t[1] == json_char(b)[1]);
        if json_char(a).len() > 2 || json_char(b).len() > 2 {
            assert(json_char(a).len() == 6 && json_char(b).len() == 6);
            assert(s[4] == json_char(a)[4]);
            assert(t[4] == json_char(b)[4]);
            assert(s[5] == json_char(a)[5]);
            assert(t[5] == json_char(b)[5]);
            assert((a as u32) == (b as u32));
            vstd::utf8::char_u32_cast(a, a as u32);
            vstd::utf8::char_u32_cast(b, b as u32);
        }
    }
    assert(a == b);
    assert(x =~= s.skip(json_char(a).len() as int));
    assert(y =~= t.skip(json_char(b).len() as int));
}

/// Texts that differ still differ once they are escaped.
pub proof fn law_escaping_is_injective(a: Seq<char>, b: Seq<char>)
    requires
        json_text(a) == json_text(b),
    ensures
        a == b,
    decreases a.len() + b.len(),
{
    if a.len() > 0 {
        lemma_json_front(a);
    }
    if b.len() > 0 {
        lemma_json_front(b);
    }
    if a.len() > 0 && b.len() > 0 {
        lemma_json_chars_differ(a[0], b[0], json_text(a.drop_first()), json_text(b.drop_first()));
        law_escaping_is_injective(a.drop_first(), b.drop_first());
        assert(a =~= seq![a[0]] + a.drop_first());
        assert(b =~= seq![b[0]] + b.drop_first());
    } else {
        assert(a =~= b);
    }
}

/// An escaped text holds no control character below the space.
pub proof fn law_escaped_text_is_printed_on_one_line(s: Seq<char>, i: int)
    requires
        0 <= i < json_text(s).len(),
    ensures
        (json_text(s)[i] as u32) >= 0x20,
    decreases s.len(),
{
    let before = json_text(s.drop_last());
    if i < before.len() {
        law_escaped_text_is_printed_on_one_line(s.drop_last(), i);
    } else {
        assert(json_text(s)[i] == json_char(s.last())[i - before.len()]);
    }
}

// ---------------------------------------------------------------------------
// Lists and objects
// ---------------------------------------------------------------------------

/// How the items between brackets are laid out.
#[derive(Clone, Copy, Debug, PartialEq, Eq, Structural)]
pub enum Lay {
    /// On one line.
    Flat,
    /// Each on a line of its own, two columns behind the closing bracket.
    Lines(usize),
}

pub open spec fn blanks(n: nat) -> Seq<char> {
    Seq::new(n, |i: int| ' ')
}

/// What stands between the opening bracket and the items.
pub open spec fn opening(lay: Lay) -> Seq<char> {
    match lay {
        Lay::Flat => Seq::empty(),
        Lay::Lines(_) => seq!['\n'],
    }
}

/// What stands before an item.
pub open spec fn before_item(lay: Lay) -> Seq<char> {
    match lay {
        Lay::Flat => Seq::empty(),
        Lay::Lines(n) => blanks(n as nat + 2),
    }
}

/// What stands behind an item: a comma and a break, or what ends the last one.
pub open spec fn behind_item(lay: Lay, last: bool) -> Seq<char> {
    match (lay, last) {
        (Lay::Flat, false) => seq![',', ' '],
        (Lay::Flat, true) => Seq::empty(),
        (Lay::Lines(_), false) => seq![',', '\n'],
        (Lay::Lines(_), true) => seq!['\n'],
    }
}

/// What stands before the closing bracket.
pub open spec fn closing(lay: Lay) -> Seq<char> {
    match lay {
        Lay::Flat => Seq::empty(),
        Lay::Lines(n) => blanks(n as nat),
    }
}

/// The first `n` items.
pub open spec fn laid(items: Seq<Seq<char>>, lay: Lay, n: nat) -> Seq<char>
    decreases n,
{
    if n == 0 {
        Seq::empty()
    } else {
        laid(items, lay, (n - 1) as nat) + before_item(lay) + items[n - 1] + behind_item(
            lay,
            n == items.len(),
        )
    }
}

/// Items between brackets.
pub open spec fn bracketed(items: Seq<Seq<char>>, left: char, right: char, lay: Lay) -> Seq<char> {
    seq![left] + opening(lay) + laid(items, lay, items.len()) + closing(lay) + seq![right]
}

pub open spec fn list(items: Seq<Seq<char>>, lay: Lay) -> Seq<char> {
    bracketed(items, '[', ']', lay)
}

pub open spec fn object(members: Seq<Seq<char>>, lay: Lay) -> Seq<char> {
    bracketed(members, '{', '}', lay)
}

/// A text in quotes.
pub open spec fn quoted(s: Seq<char>) -> Seq<char> {
    seq!['"'] + json_text(s) + seq!['"']
}

/// A member of an object.
pub open spec fn member(key: Seq<char>, value: Seq<char>) -> Seq<char> {
    quoted(key) + seq![':', ' '] + value
}

pub open spec fn truth(b: bool) -> Seq<char> {
    if b {
        "true"@
    } else {
        "false"@
    }
}

/// What some strings say.
pub open spec fn string_texts(v: Seq<String>) -> Seq<Seq<char>> {
    v.map_values(|s: String| s@)
}

fn push_blanks(out: &mut String, n: usize)
    ensures
        final(out)@ == old(out)@ + blanks(n as nat),
{
    let ghost start = out@;
    let mut i: usize = 0;
    assert(out@ =~= start + blanks(0));
    while i < n
        invariant
            i <= n,
            out@ == start + blanks(i as nat),
        decreases n - i,
    {
        out.push(' ');
        assert(out@ =~= start + blanks((i + 1) as nat));
        i += 1;
    }
}

fn push_item(out: &mut String, item: &str, lay: Lay, last: bool)
    ensures
        final(out)@ == old(out)@ + before_item(lay) + item@ + behind_item(lay, last),
{
    let ghost start = out@;
    match lay {
        Lay::Flat => {},
        Lay::Lines(n) => {
            push_blanks(out, n);
            out.push(' ');
            out.push(' ');
        },
    }
    assert(out@ =~= start + before_item(lay));
    out.push_str(item);
    let ghost mid = out@;
    if !last {
        out.push(',');
    }
    match lay {
        Lay::Flat => if !last {
            out.push(' ');
        },
        Lay::Lines(_) => out.push('\n'),
    }
    assert(out@ =~= mid + behind_item(lay, last));
}

/// Writes items between brackets.
pub fn bracket(items: &Vec<String>, left: char, right: char, lay: Lay) -> (out: String)
    ensures
        out@ == bracketed(string_texts(items@), left, right, lay),
{
    let ghost texts = string_texts(items@);
    let mut body = String::new();
    let mut i: usize = 0;
    while i < items.len()
        invariant
            i <= items@.len(),
            texts == string_texts(items@),
            body@ == laid(texts, lay, i as nat),
        decreases items@.len() - i,
    {
        assert(texts[i as int] == items@[i as int]@);
        push_item(&mut body, items[i].as_str(), lay, i + 1 == items.len());
        i += 1;
    }
    let mut out = String::new();
    out.push(left);
    assert(out@ =~= seq![left]);
    match lay {
        Lay::Flat => {},
        Lay::Lines(_) => out.push('\n'),
    }
    assert(out@ =~= seq![left] + opening(lay));
    out.push_str(body.as_str());
    let ghost mid = out@;
    match lay {
        Lay::Flat => {},
        Lay::Lines(n) => push_blanks(&mut out, n),
    }
    assert(out@ =~= mid + closing(lay));
    let ghost end = out@;
    out.push(right);
    assert(out@ =~= end + seq![right]);
    out
}

/// Writes a text in quotes.
pub fn quote(s: &str) -> (out: String)
    ensures
        out@ == quoted(s@),
{
    let mut out = String::new();
    out.push('"');
    assert(out@ =~= seq!['"']);
    push_json(&mut out, s);
    let ghost end = out@;
    out.push('"');
    assert(out@ =~= end + seq!['"']);
    out
}

/// Writes a member of an object.
pub fn write_member(key: &str, value: &str) -> (out: String)
    ensures
        out@ == member(key@, value@),
{
    let mut out = quote(key);
    let ghost end = out@;
    out.push(':');
    out.push(' ');
    assert(out@ =~= end + seq![':', ' ']);
    out.push_str(value);
    out
}

// ---------------------------------------------------------------------------
// Laws
// ---------------------------------------------------------------------------

/// A text is escaped character by character: quotes and backslashes get a
/// backslash, line ends and TABs their letters, other characters below the space
/// their code in four digits, and all others stay as they are, in any script.
pub proof fn law_texts_are_escaped_by_character(s: Seq<char>, c: char, u: u32)
    requires
        u == c as u32,
    ensures
        json_text(Seq::<char>::empty()) == Seq::<char>::empty(),
        u >= 0x20 && c != '"' && c != '\\' ==> json_text(s.push(c)) == json_text(s).push(c),
        c == '"' || c == '\\' ==> json_text(s.push(c)) == json_text(s).push('\\').push(c),
        u == 10 ==> json_text(s.push(c)) == json_text(s) + seq!['\\', 'n'],
        u == 9 ==> json_text(s.push(c)) == json_text(s) + seq!['\\', 't'],
        u == 13 ==> json_text(s.push(c)) == json_text(s) + seq!['\\', 'r'],
        u < 0x20 && u != 9 && u != 10 && u != 13 ==> json_text(s.push(c)) == json_text(s) + seq![
            '\\',
            'u',
            '0',
            '0',
            "0123456789abcdef"@[u as int / 16],
            "0123456789abcdef"@[u as int % 16],
        ],
{
    reveal_strlit("0123456789abcdef");
    vstd::utf8::char_u32_cast(c, u);
    assert(s.push(c).drop_last() =~= s);
    assert(json_text(s) + seq![c] =~= json_text(s).push(c));
    assert(json_text(s) + seq!['\\', c] =~= json_text(s).push('\\').push(c));
    if u < 0x20 {
        assert(hex_digit(u as nat / 16) == "0123456789abcdef"@[u as int / 16]);
        assert(hex_digit(u as nat % 16) == "0123456789abcdef"@[u as int % 16]);
    }
}

/// Lists and objects on one line have a comma and a space between their items;
/// on lines of their own the items stand two columns behind the closing bracket,
/// with commas at the line ends.
pub proof fn law_items_are_laid_out(items: Seq<Seq<char>>, n: nat, k: usize, left: char, right: char)
    requires
        n < items.len(),
    ensures
        laid(items, Lay::Flat, 0) == Seq::<char>::empty(),
        laid(items, Lay::Lines(k), 0) == Seq::<char>::empty(),
        n + 1 < items.len() ==> laid(items, Lay::Flat, n + 1) == laid(items, Lay::Flat, n)
            + items[n as int] + seq![',', ' '],
        n + 1 == items.len() ==> laid(items, Lay::Flat, n + 1) == laid(items, Lay::Flat, n)
            + items[n as int],
        n + 1 < items.len() ==> laid(items, Lay::Lines(k), n + 1) == laid(items, Lay::Lines(k), n)
            + Seq::new(k as nat + 2, |i: int| ' ') + items[n as int] + seq![',', '\n'],
        n + 1 == items.len() ==> laid(items, Lay::Lines(k), n + 1) == laid(items, Lay::Lines(k), n)
            + Seq::new(k as nat + 2, |i: int| ' ') + items[n as int] + seq!['\n'],
        bracketed(items, left, right, Lay::Flat) == seq![left] + laid(
            items,
            Lay::Flat,
            items.len(),
        ) + seq![right],
        bracketed(items, left, right, Lay::Lines(k)) == seq![left, '\n'] + laid(
            items,
            Lay::Lines(k),
            items.len(),
        ) + Seq::new(k as nat, |i: int| ' ') + seq![right],
{
    let none = Seq::<char>::empty();
    let f = laid(items, Lay::Flat, n);
    assert(f + none =~= f);
    assert(f + items[n as int] + none =~= f + items[n as int]);
    assert(blanks(k as nat + 2) =~= Seq::new(k as nat + 2, |i: int| ' '));
    assert(blanks(k as nat) =~= Seq::new(k as nat, |i: int| ' '));
    let all = laid(items, Lay::Flat, items.len());
    assert(seq![left] + none =~= seq![left]);
    assert(seq![left] + all + none =~= seq![left] + all);
    assert(seq![left] + seq!['\n'] =~= seq![left, '\n']);
}

/// A member is its key in quotes, a colon, a space and its value.
pub proof fn law_members_are_written_with_a_colon(key: Seq<char>, value: Seq<char>)
    ensures
        member(key, value) == seq!['"'] + json_text(key) + seq!['"', ':', ' '] + value,
        quoted(key) == seq!['"'] + json_text(key) + seq!['"'],
        truth(true) == seq!['t', 'r', 'u', 'e'],
        truth(false) == seq!['f', 'a', 'l', 's', 'e'],
{
    reveal_strlit("true");
    reveal_strlit("false");
    assert(truth(true) =~= seq!['t', 'r', 'u', 'e']);
    assert(truth(false) =~= seq!['f', 'a', 'l', 's', 'e']);
    assert(member(key, value) =~= seq!['"'] + json_text(key) + seq!['"', ':', ' '] + value);
}

} // verus!
