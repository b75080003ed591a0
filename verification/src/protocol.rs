//! The line protocol: escaping of names, preview rows, requests.
//!
//! Requests and replies are lines of fields. Backslash, TAB and LF inside a
//! name are escaped, so that a name that holds them cannot break the framing.

use crate::number::{decimal, law_signs_and_zeros_do_not_count, parse_u8, parse_usize, parsed};
use crate::text::{
    chars_are, chars_of, control, final_char, is_control, is_final_char,
    law_a_separator_parts_the_pieces, law_one_piece, pieces, split, string_of, texts_of,
};
use vstd::prelude::*;
use vstd::slice::slice_subrange;
use vstd::string::*;
use vstd::utf8::encode_utf8;

verus! {

// ---------------------------------------------------------------------------
// Escaping
// ---------------------------------------------------------------------------

pub const BACKSLASH: u8 = 0x5c;

pub const TAB: u8 = 0x09;

pub const LF: u8 = 0x0a;

/// How one byte of a name is written.
pub open spec fn escaped_byte(b: u8) -> Seq<u8> {
    if b == BACKSLASH {
        seq![BACKSLASH, BACKSLASH]
    } else if b == TAB {
        seq![BACKSLASH, 0x74u8]
    } else if b == LF {
        seq![BACKSLASH, 0x6eu8]
    } else {
        seq![b]
    }
}

/// How a name is written.
pub open spec fn escaped(name: Seq<u8>) -> Seq<u8>
    decreases name.len(),
{
    if name.len() == 0 {
        Seq::empty()
    } else {
        escaped_byte(name[0]) + escaped(name.drop_first())
    }
}

/// What the byte behind a backslash stands for.
pub open spec fn unescaped_byte(b: u8) -> u8 {
    if b == 0x74 {
        TAB
    } else if b == 0x6e {
        LF
    } else {
        b
    }
}

/// The name that some bytes on the wire stand for.
pub open spec fn unescaped(wire: Seq<u8>) -> Seq<u8>
    decreases wire.len(),
{
    if wire.len() == 0 {
        Seq::empty()
    } else if wire[0] == BACKSLASH && wire.len() > 1 {
        seq![unescaped_byte(wire[1])] + unescaped(wire.skip(2))
    } else {
        seq![wire[0]] + unescaped(wire.skip(1))
    }
}

/// Appends a name, escaped for the line protocol. A name is bytes: it need not
/// be UTF-8.
pub fn write_escaped(out: &mut Vec<u8>, bytes: &[u8])
    ensures
        final(out)@ == old(out)@ + escaped(bytes@),
{
    let ghost start = out@;
    let mut i: usize = 0;
    assert(bytes@.skip(0) == bytes@);
    assert(out@ + escaped(bytes@.skip(0)) =~= start + escaped(bytes@));
    while i < bytes.len()
        invariant
            i <= bytes@.len(),
            out@ + escaped(bytes@.skip(i as int)) == start + escaped(bytes@),
        decreases bytes@.len() - i,
    {
        let b: u8 = bytes[i];
        let ghost before = out@;
        let ghost rest = bytes@.skip(i as int);
        assert(rest.drop_first() == bytes@.skip(i + 1));
        if b == BACKSLASH {
            out.push(BACKSLASH);
            out.push(BACKSLASH);
        } else if b == TAB {
            out.push(BACKSLASH);
            out.push(0x74);
        } else if b == LF {
            out.push(BACKSLASH);
            out.push(0x6e);
        } else {
            out.push(b);
        }
        assert(out@ =~= before + escaped_byte(b));
        assert(before + (escaped_byte(b) + escaped(bytes@.skip(i + 1))) =~= (before + escaped_byte(
            b,
        )) + escaped(bytes@.skip(i + 1)));
        i += 1;
    }
    assert(bytes@.skip(i as int) == Seq::<u8>::empty());
    assert(out@ + escaped(bytes@.skip(i as int)) =~= out@);
}

/// Reads an escaped name back.
pub fn unescape_bytes(s: &str) -> (out: Vec<u8>)
    ensures
        out@ == unescaped(encode_utf8(s@)),
{
    let b = s.as_bytes();
    let mut out: Vec<u8> = Vec::new();
    let mut i: usize = 0;
    assert(b@.skip(0) == b@);
    assert(out@ + unescaped(b@.skip(0)) =~= unescaped(b@));
    while i < b.len()
        invariant
            i <= b@.len(),
            out@ + unescaped(b@.skip(i as int)) == unescaped(b@),
        decreases b@.len() - i,
    {
        let ghost before = out@;
        let ghost rest = b@.skip(i as int);
        if b[i] == BACKSLASH && b.len() - i > 1 {
            let c: u8 = b[i + 1];
            let c: u8 = if c == 0x74 {
                TAB
            } else if c == 0x6e {
                LF
            } else {
                c
            };
            out.push(c);
            assert(rest.skip(2) == b@.skip(i + 2));
            assert(before + (seq![c] + unescaped(rest.skip(2))) =~= out@ + unescaped(
                b@.skip(i + 2),
            ));
            i += 2;
        } else {
            out.push(b[i]);
            assert(rest.skip(1) == b@.skip(i + 1));
            assert(before + (seq![b@[i as int]] + unescaped(rest.skip(1))) =~= out@ + unescaped(
                b@.skip(i + 1),
            ));
            i += 1;
        }
    }
    assert(b@.skip(i as int) == Seq::<u8>::empty());
    assert(out@ + unescaped(b@.skip(i as int)) =~= out@);
    out
}

/// Reading back an escaped name gives the name.
pub proof fn law_unescaping_undoes_escaping(name: Seq<u8>)
    ensures
        unescaped(escaped(name)) == name,
    decreases name.len(),
{
    if name.len() > 0 {
        let rest = escaped(name.drop_first());
        let wire = escaped(name);
        law_unescaping_undoes_escaping(name.drop_first());
        if escaped_byte(name[0]).len() == 2 {
            assert(wire.skip(2) =~= rest);
        } else {
            assert(wire.skip(1) =~= rest);
        }
        assert(unescaped(wire) =~= name);
    }
}

/// An escaped name holds neither TAB nor LF.
pub proof fn law_escaped_names_keep_the_framing(name: Seq<u8>)
    ensures
        !escaped(name).contains(TAB),
        !escaped(name).contains(LF),
    decreases name.len(),
{
    if name.len() > 0 {
        law_escaped_names_keep_the_framing(name.drop_first());
        let head = escaped_byte(name[0]);
        let rest = escaped(name.drop_first());
        assert forall|i: int| 0 <= i < escaped(name).len() implies #[trigger] escaped(name)[i]
            != TAB && escaped(name)[i] != LF by {
            if i >= head.len() {
                assert(rest.contains(rest[i - head.len()]));
            }
        }
    }
}

// ---------------------------------------------------------------------------
// Preview rows
// ---------------------------------------------------------------------------

pub const ESC: char = '\x1b';

pub const BEL: char = '\x07';

/// The escape sequences, by how they end.
#[derive(Clone, Copy, Debug, PartialEq, Eq, Structural)]
pub enum Escape {
    /// `ESC [`: up to a final byte. A final `m` makes it a colour sequence.
    Control,
    /// `ESC ]` and its like, such as titles and images: a string up to BEL.
    /// Where the string is ended by `ESC \`, that is an escape of its own.
    Text,
    /// `ESC` and intermediate bytes, such as a choice of a character set: up to
    /// the first other character.
    Choice,
}

/// The characters behind ESC that open a string.
pub open spec fn opens_text(c: char) -> bool {
    c == ']' || c == 'P' || c == 'X' || c == '^' || c == '_'
}

pub open spec fn is_intermediate(c: char) -> bool {
    0x20 <= (c as u32) <= 0x2f
}

/// Whether a sequence stops at a character. ESC breaks off every sequence.
pub open spec fn stops(e: Escape, c: char) -> bool {
    c == ESC || match e {
        Escape::Control => final_char(c),
        Escape::Text => c == BEL,
        Escape::Choice => !is_intermediate(c),
    }
}

/// Where a sequence stops, or the length of the text.
pub open spec fn stop_at(s: Seq<char>, e: Escape) -> int
    decreases s.len(),
{
    if s.len() == 0 || stops(e, s[0]) {
        0
    } else {
        1 + stop_at(s.drop_first(), e)
    }
}

proof fn lemma_stop_at(s: Seq<char>, e: Escape, n: int)
    requires
        0 <= n <= s.len(),
        forall|j: int| 0 <= j < n ==> !stops(e, #[trigger] s[j]),
        n < s.len() ==> stops(e, s[n]),
    ensures
        stop_at(s, e) == n,
    decreases s.len(),
{
    if n > 0 {
        assert(!stops(e, s[0]));
        assert forall|j: int| 0 <= j < n - 1 implies !stops(e, #[trigger] s.drop_first()[j]) by {
            assert(!stops(e, s[j + 1]));
        }
        lemma_stop_at(s.drop_first(), e, n - 1);
    }
}

proof fn lemma_stop_at_bounds(s: Seq<char>, e: Escape)
    ensures
        0 <= stop_at(s, e) <= s.len(),
        stop_at(s, e) < s.len() ==> stops(e, s[stop_at(s, e)]),
        forall|j: int| 0 <= j < stop_at(s, e) ==> !stops(e, #[trigger] s[j]),
    decreases s.len(),
{
    if s.len() > 0 && !stops(e, s[0]) {
        lemma_stop_at_bounds(s.drop_first(), e);
        assert forall|j: int| 0 <= j < stop_at(s, e) implies !stops(e, #[trigger] s[j]) by {
            if j > 0 {
                assert(!stops(e, s.drop_first()[j - 1]));
            }
        }
    }
}

/// How many characters a sequence takes that goes on from `from`: what it
/// stops at belongs to it, unless that is ESC.
pub open spec fn taken(s: Seq<char>, e: Escape, from: int) -> int {
    let n = stop_at(s.skip(from), e);
    if n < s.len() - from && s[from + n] != ESC {
        from + n + 1
    } else {
        from + n
    }
}

/// How many characters the escape sequence at the front of a text takes.
pub open spec fn escape_len(s: Seq<char>) -> int {
    if s.len() < 2 || s[1] == ESC {
        1
    } else if s[1] == '[' {
        taken(s, Escape::Control, 2)
    } else if opens_text(s[1]) {
        taken(s, Escape::Text, 2)
    } else if is_intermediate(s[1]) {
        taken(s, Escape::Choice, 1)
    } else {
        2
    }
}

/// Whether a text is one whole colour sequence: `ESC [`, no control character,
/// and a final `m`.
pub open spec fn is_colour(s: Seq<char>) -> bool {
    &&& s.len() >= 3
    &&& s[0] == ESC
    &&& s[1] == '['
    &&& s.last() == 'm'
    &&& forall|i: int| 2 <= i < s.len() ==> !control(#[trigger] s[i])
}

/// The preview row that a text gives, with `seen` visible characters already
/// on it: colour sequences are kept, other escape sequences and control
/// characters are dropped, a TAB becomes a space, and the text is cut where
/// the row would grow beyond `width` visible characters.
pub open spec fn preview_row(s: Seq<char>, width: nat, seen: nat) -> Seq<char>
    decreases s.len(),
{
    if s.len() == 0 {
        Seq::empty()
    } else if s[0] == ESC {
        let n = escape_len(s);
        if n < 1 || n > s.len() {
            Seq::empty()
        } else if is_colour(s.take(n)) {
            s.take(n) + preview_row(s.skip(n), width, seen)
        } else {
            preview_row(s.skip(n), width, seen)
        }
    } else if seen >= width {
        Seq::empty()
    } else if s[0] == '\t' {
        seq![' '] + preview_row(s.skip(1), width, seen + 1)
    } else if control(s[0]) {
        preview_row(s.skip(1), width, seen)
    } else {
        seq![s[0]] + preview_row(s.skip(1), width, seen + 1)
    }
}

proof fn lemma_escape_len(s: Seq<char>)
    requires
        s.len() > 0,
    ensures
        1 <= escape_len(s) <= s.len(),
{
    if s.len() >= 2 {
        lemma_stop_at_bounds(s.skip(2), Escape::Control);
        lemma_stop_at_bounds(s.skip(2), Escape::Text);
        lemma_stop_at_bounds(s.skip(1), Escape::Choice);
    }
}

fn has_stop(e: Escape, c: char) -> (r: bool)
    ensures
        r == stops(e, c),
{
    if c == ESC {
        return true;
    }
    match e {
        Escape::Control => is_final_char(c),
        Escape::Text => c == BEL,
        Escape::Choice => {
            let u: u32 = c as u32;
            !(0x20 <= u && u <= 0x2f)
        },
    }
}

fn count_taken(s: &[char], e: Escape, from: usize) -> (n: usize)
    requires
        from <= s@.len(),
    ensures
        n == taken(s@, e, from as int),
        from <= n <= s@.len(),
{
    let ghost rest = s@.skip(from as int);
    let mut i: usize = from;
    while i < s.len() && !has_stop(e, s[i])
        invariant
            from <= i <= s@.len(),
            rest == s@.skip(from as int),
            forall|j: int| 0 <= j < i - from ==> !stops(e, #[trigger] rest[j]),
        decreases s@.len() - i,
    {
        assert(rest[i - from] == s@[i as int]);
        i += 1;
    }
    proof {
        if i < s@.len() {
            assert(rest[i - from] == s@[i as int]);
        }
        lemma_stop_at(rest, e, i - from);
    }
    if i < s.len() && s[i] != ESC {
        i + 1
    } else {
        i
    }
}

fn count_escape(s: &[char]) -> (n: usize)
    requires
        s@.len() > 0,
    ensures
        n == escape_len(s@),
        1 <= n <= s@.len(),
{
    if s.len() < 2 || s[1] == ESC {
        return 1;
    }
    let c = s[1];
    let u: u32 = c as u32;
    if c == '[' {
        count_taken(s, Escape::Control, 2)
    } else if c == ']' || c == 'P' || c == 'X' || c == '^' || c == '_' {
        count_taken(s, Escape::Text, 2)
    } else if 0x20 <= u && u <= 0x2f {
        count_taken(s, Escape::Choice, 1)
    } else {
        2
    }
}

fn check_colour(s: &[char]) -> (r: bool)
    ensures
        r == is_colour(s@),
{
    let n: usize = s.len();
    if n < 3 || s[0] != ESC || s[1] != '[' || s[n - 1] != 'm' {
        return false;
    }
    let mut i: usize = 2;
    while i < n
        invariant
            2 <= i <= n == s@.len(),
            forall|j: int| 2 <= j < i ==> !control(#[trigger] s@[j]),
        decreases n - i,
    {
        if is_control(s[i]) {
            assert(control(s@[i as int]));
            return false;
        }
        i += 1;
    }
    true
}

/// Text for one row of a preview pane.
pub fn preview_line(s: &str, width: usize) -> (out: String)
    ensures
        out@ == preview_row(s@, width as nat, 0),
{
    let c = chars_of(s);
    let mut out = String::new();
    let mut seen: usize = 0;
    let mut i: usize = 0;
    assert(c@.skip(0) == c@);
    assert(out@ + preview_row(c@.skip(0), width as nat, 0) =~= preview_row(c@, width as nat, 0));
    while i < c.len()
        invariant
            i <= c@.len(),
            c@ == s@,
            seen <= width,
            out@ + preview_row(c@.skip(i as int), width as nat, seen as nat) == preview_row(
                c@,
                width as nat,
                0,
            ),
        decreases c@.len() - i,
    {
        let ghost before = out@;
        let ghost rest = c@.skip(i as int);
        let ghost w = width as nat;
        assert(rest[0] == c@[i as int]);
        if c[i] == ESC {
            let tail = slice_subrange(c.as_slice(), i, c.len());
            assert(tail@ =~= rest);
            let n: usize = count_escape(tail);
            let escape = slice_subrange(tail, 0, n);
            assert(escape@ =~= rest.take(n as int));
            assert(rest.skip(n as int) =~= c@.skip(i + n));
            if check_colour(escape) {
                out.push_str(string_of(escape).as_str());
                assert(before + (escape@ + preview_row(c@.skip(i + n), w, seen as nat)) =~= out@
                    + preview_row(c@.skip(i + n), w, seen as nat));
            }
            i += n;
        } else {
            if seen >= width {
                assert(out@ + preview_row(rest, w, seen as nat) =~= out@);
                return out;
            }
            assert(rest.skip(1) =~= c@.skip(i + 1));
            if c[i] == '\t' {
                out.push(' ');
                seen += 1;
                assert(before + (seq![' '] + preview_row(c@.skip(i + 1), w, seen as nat)) =~= out@
                    + preview_row(c@.skip(i + 1), w, seen as nat));
            } else if !is_control(c[i]) {
                out.push(c[i]);
                seen += 1;
                assert(before + (seq![c@[i as int]] + preview_row(c@.skip(i + 1), w, seen as nat))
                    =~= out@ + preview_row(c@.skip(i + 1), w, seen as nat));
            }
            i += 1;
        }
    }
    assert(c@.skip(i as int) == Seq::<char>::empty());
    assert(out@ + preview_row(c@.skip(i as int), width as nat, seen as nat) =~= out@);
    out
}

/// How many characters a row shows, where it is made of colour sequences and
/// characters other than control characters.
pub open spec fn shown(row: Seq<char>) -> Option<nat>
    decreases row.len(),
{
    if row.len() == 0 {
        Some(0)
    } else if row[0] == ESC {
        let n = escape_len(row);
        if 1 <= n <= row.len() && is_colour(row.take(n)) {
            shown(row.skip(n))
        } else {
            None
        }
    } else if control(row[0]) {
        None
    } else {
        match shown(row.skip(1)) {
            Some(k) => Some(k + 1),
            None => None,
        }
    }
}

/// A colour sequence in front of a text takes as many characters there.
proof fn lemma_colour_front(s: Seq<char>, rest: Seq<char>)
    requires
        is_colour(s),
        escape_len(s) == s.len(),
    ensures
        escape_len(s + rest) == s.len(),
{
    let body = s.skip(2);
    let n = stop_at(body, Escape::Control);
    lemma_stop_at_bounds(body, Escape::Control);
    assert(body.last() == 'm');
    assert(final_char('m'));
    if n == body.len() {
        assert(!stops(Escape::Control, body[body.len() - 1]));
    }
    assert(s[2 + n] == body[n]);
    assert(n == body.len() - 1);
    let all = s + rest;
    let tail = all.skip(2);
    assert forall|j: int| 0 <= j < n implies !stops(Escape::Control, #[trigger] tail[j]) by {
        assert(tail[j] == body[j]);
    }
    assert(tail[n] == body[n]);
    lemma_stop_at(tail, Escape::Control, n);
    assert(all[1] == '[');
    assert(all[2 + n] == 'm');
}

/// The front of a text that an escape sequence takes is a whole sequence
/// itself, where it is a colour sequence.
proof fn lemma_colour_is_whole(s: Seq<char>)
    requires
        s.len() > 0,
        is_colour(s.take(escape_len(s))),
        1 <= escape_len(s) <= s.len(),
    ensures
        escape_len(s.take(escape_len(s))) == escape_len(s),
{
    let m = escape_len(s);
    let t = s.take(m);
    let body = s.skip(2);
    let n = stop_at(body, Escape::Control);
    lemma_stop_at_bounds(body, Escape::Control);
    assert(s[1] == t[1]);
    assert(t[m - 1] == s[m - 1]);
    assert(final_char('m'));
    if n == body.len() || s[2 + n] == ESC {
        assert(m == n + 2);
        assert(body[n - 1] == s[m - 1]);
        assert(!stops(Escape::Control, body[n - 1]));
        assert(false);
    }
    assert(m == n + 3);
    let part = t.skip(2);
    assert forall|j: int| 0 <= j < n implies !stops(Escape::Control, #[trigger] part[j]) by {
        assert(part[j] == body[j]);
    }
    assert(part[n] == body[n]);
    lemma_stop_at(part, Escape::Control, n);
    assert(t[2 + n] == s[2 + n]);
}

/// A preview row shows at most `width` characters; besides them it holds
/// nothing but colour sequences, each without control characters.
pub proof fn law_preview_rows_are_clipped(s: Seq<char>, width: nat, seen: nat)
    requires
        seen <= width,
    ensures
        shown(preview_row(s, width, seen)) is Some,
        shown(preview_row(s, width, seen))->0 + seen <= width,
    decreases s.len(),
{
    if s.len() == 0 {
    } else if s[0] == ESC {
        lemma_escape_len(s);
        let n = escape_len(s);
        law_preview_rows_are_clipped(s.skip(n), width, seen);
        if is_colour(s.take(n)) {
            let head = s.take(n);
            let rest = preview_row(s.skip(n), width, seen);
            lemma_colour_is_whole(s);
            lemma_colour_front(head, rest);
            assert((head + rest).take(n) =~= head);
            assert((head + rest).skip(n) =~= rest);
        }
    } else if seen >= width {
    } else if s[0] == '\t' {
        law_preview_rows_are_clipped(s.skip(1), width, seen + 1);
        let rest = preview_row(s.skip(1), width, seen + 1);
        assert((seq![' '] + rest).skip(1) =~= rest);
    } else if control(s[0]) {
        law_preview_rows_are_clipped(s.skip(1), width, seen);
    } else {
        law_preview_rows_are_clipped(s.skip(1), width, seen + 1);
        let rest = preview_row(s.skip(1), width, seen + 1);
        assert((seq![s[0]] + rest).skip(1) =~= rest);
    }
}

/// No control character reaches a preview row but the ESC of a colour
/// sequence.
pub proof fn law_preview_rows_hold_no_controls(s: Seq<char>, width: nat, seen: nat, i: int)
    requires
        0 <= i < preview_row(s, width, seen).len(),
    ensures
        control(preview_row(s, width, seen)[i]) ==> preview_row(s, width, seen)[i] == ESC,
    decreases s.len(),
{
    if s[0] == ESC {
        lemma_escape_len(s);
        let n = escape_len(s);
        if is_colour(s.take(n)) {
            let head = s.take(n);
            if i >= n {
                law_preview_rows_hold_no_controls(s.skip(n), width, seen, i - n);
            } else {
                assert(preview_row(s, width, seen)[i] == head[i]);
            }
        } else {
            law_preview_rows_hold_no_controls(s.skip(n), width, seen, i);
        }
    } else if seen < width {
        if s[0] == '\t' || !control(s[0]) {
            if i > 0 {
                law_preview_rows_hold_no_controls(s.skip(1), width, seen + 1, i - 1);
            }
        } else {
            law_preview_rows_hold_no_controls(s.skip(1), width, seen, i);
        }
    }
}

/// A preview row holds no LF and no TAB, so it is one field of one line.
pub proof fn law_preview_rows_are_lines(s: Seq<char>, width: nat, seen: nat)
    ensures
        !preview_row(s, width, seen).contains('\n'),
        !preview_row(s, width, seen).contains('\t'),
{
    let row = preview_row(s, width, seen);
    assert forall|i: int| 0 <= i < row.len() implies row[i] != '\n' && row[i] != '\t' by {
        law_preview_rows_hold_no_controls(s, width, seen, i);
    }
}

/// An escape sequence other than a colour sequence leaves nothing of itself on
/// the row.
pub proof fn law_other_escapes_are_dropped(s: Seq<char>, width: nat, seen: nat)
    requires
        s.len() > 0,
        s[0] == ESC,
        !is_colour(s.take(escape_len(s))),
    ensures
        preview_row(s, width, seen) == preview_row(s.skip(escape_len(s)), width, seen),
{
    lemma_escape_len(s);
}

/// A string escape, such as a title, is dropped with everything up to the BEL
/// or the `ESC \` that ends it.
pub proof fn law_string_escapes_are_dropped(
    open: char,
    body: Seq<char>,
    rest: Seq<char>,
    width: nat,
    seen: nat,
)
    requires
        opens_text(open),
        forall|i: int| 0 <= i < body.len() ==> #[trigger] body[i] != ESC && body[i] != BEL,
    ensures
        preview_row(seq![ESC, open] + body + seq![BEL] + rest, width, seen) == preview_row(
            rest,
            width,
            seen,
        ),
        preview_row(seq![ESC, open] + body + seq![ESC, '\\'] + rest, width, seen) == preview_row(
            rest,
            width,
            seen,
        ),
{
    let n = body.len() as int;
    let s = seq![ESC, open] + body + seq![BEL] + rest;
    assert forall|j: int| 0 <= j < n implies !stops(Escape::Text, #[trigger] s.skip(2)[j]) by {
        assert(s.skip(2)[j] == body[j]);
    }
    assert(s[2 + n] == BEL);
    lemma_stop_at(s.skip(2), Escape::Text, n);
    assert(escape_len(s) == n + 3);
    assert(s.skip(n + 3) =~= rest);
    let t = seq![ESC, open] + body + seq![ESC, '\\'] + rest;
    assert forall|j: int| 0 <= j < n implies !stops(Escape::Text, #[trigger] t.skip(2)[j]) by {
        assert(t.skip(2)[j] == body[j]);
    }
    assert(t[2 + n] == ESC);
    lemma_stop_at(t.skip(2), Escape::Text, n);
    assert(escape_len(t) == n + 2);
    let end = t.skip(n + 2);
    assert(end =~= seq![ESC, '\\'] + rest);
    assert(!is_intermediate('\\'));
    assert(escape_len(end) == 2);
    assert(end.skip(2) =~= rest);
    assert(!is_colour(end.take(2)));
    assert(s.take(n + 3)[1] == open);
    assert(t.take(n + 2)[1] == open);
    law_other_escapes_are_dropped(t, width, seen);
    law_other_escapes_are_dropped(end, width, seen);
}

/// A text without control characters comes out as it is, cut to the width, in
/// whatever script it is written.
pub proof fn law_plain_text_is_only_cut(s: Seq<char>, width: nat)
    requires
        forall|i: int|
            0 <= i < s.len() ==> !((#[trigger] s[i] as u32) < 0x20 || 0x7f <= (s[i] as u32)
                <= 0x9f),
    ensures
        preview_row(s, width, 0) == (if s.len() <= width {
            s
        } else {
            s.take(width as int)
        }),
{
    law_text_fills_the_row(s, Seq::empty(), width, 0);
    let n = if s.len() <= width {
        s.len() as int
    } else {
        width as int
    };
    let none = Seq::<char>::empty();
    assert(s + none =~= s);
    assert(s.take(n) + none =~= s.take(n));
    if s.len() <= width {
        assert(s.take(n) =~= s);
    }
}

/// Text in front fills the row character by character; what follows gets the
/// room that is left.
pub proof fn law_text_fills_the_row(s: Seq<char>, rest: Seq<char>, width: nat, seen: nat)
    requires
        seen <= width,
        forall|i: int|
            0 <= i < s.len() ==> !((#[trigger] s[i] as u32) < 0x20 || 0x7f <= (s[i] as u32)
                <= 0x9f),
    ensures
        seen + s.len() <= width ==> preview_row(s + rest, width, seen) == s + preview_row(
            rest,
            width,
            seen + s.len(),
        ),
        seen + s.len() > width ==> preview_row(s + rest, width, seen) == s.take(width - seen),
    decreases s.len(),
{
    let all = s + rest;
    if s.len() == 0 {
        assert(all =~= rest);
        assert(s + preview_row(rest, width, seen) =~= preview_row(rest, width, seen));
    } else {
        let tail = s.drop_first();
        let c = s[0];
        assert(all[0] == c);
        assert(all.skip(1) =~= tail + rest);
        assert(!((s[0] as u32) < 0x20));
        assert(c != ESC && c != '\t' && !control(c));
        if seen < width {
            assert forall|i: int| 0 <= i < tail.len() implies !((#[trigger] tail[i] as u32) < 0x20
                || 0x7f <= (tail[i] as u32) <= 0x9f) by {
                assert(tail[i] == s[i + 1]);
            }
            law_text_fills_the_row(tail, rest, width, seen + 1);
            if seen + s.len() <= width {
                let end = preview_row(rest, width, seen + s.len());
                assert(seq![c] + (tail + end) =~= s + end);
            } else {
                assert(seq![c] + tail.take(width - seen - 1) =~= s.take(width - seen));
            }
        } else {
            assert(s.take(0) =~= Seq::<char>::empty());
        }
    }
}

/// A TAB takes the place of one character and shows as a space. Every other
/// control character but ESC takes no place and does not show.
pub proof fn law_controls_in_front_of_a_row(c: char, rest: Seq<char>, width: nat, seen: nat)
    requires
        seen < width,
        (c as u32) < 0x20 || 0x7f <= (c as u32) <= 0x9f,
        (c as u32) != 0x1b,
    ensures
        (c as u32) == 9 ==> preview_row(seq![c] + rest, width, seen) == seq![' '] + preview_row(
            rest,
            width,
            seen + 1,
        ),
        (c as u32) != 9 ==> preview_row(seq![c] + rest, width, seen) == preview_row(
            rest,
            width,
            seen,
        ),
{
    let s = seq![c] + rest;
    assert(s[0] == c);
    assert(s.skip(1) =~= rest);
    vstd::utf8::char_u32_cast(c, c as u32);
}

/// A colour sequence takes no place on the row and is kept as it is, also where
/// the row is full. A sequence with another final byte is dropped.
pub proof fn law_colours_are_kept_in_front_of_a_row(
    params: Seq<char>,
    last: char,
    rest: Seq<char>,
    width: nat,
    seen: nat,
)
    requires
        forall|i: int|
            0 <= i < params.len() ==> 0x20 <= (#[trigger] params[i] as u32) < 0x40,
        0x40 <= (last as u32) <= 0x7e,
    ensures
        last == 'm' ==> preview_row(seq![ESC, '['] + params + seq![last] + rest, width, seen)
            == seq![ESC, '['] + params + seq![last] + preview_row(rest, width, seen),
        last != 'm' ==> preview_row(seq![ESC, '['] + params + seq![last] + rest, width, seen)
            == preview_row(rest, width, seen),
{
    let n = params.len() as int;
    let head = seq![ESC, '['] + params + seq![last];
    let s = head + rest;
    let body = s.skip(2);
    assert forall|j: int| 0 <= j < n implies !stops(Escape::Control, #[trigger] body[j]) by {
        assert(body[j] == params[j]);
        assert(0x20 <= (params[j] as u32) < 0x40);
    }
    assert(body[n] == last);
    assert(last != ESC);
    lemma_stop_at(body, Escape::Control, n);
    assert(s[2 + n] == last);
    assert(escape_len(s) == n + 3);
    assert(s.take(n + 3) =~= head);
    assert(s.skip(n + 3) =~= rest);
    assert(head.last() == last);
    if last == 'm' {
        assert forall|i: int| 2 <= i < head.len() implies !control(#[trigger] head[i]) by {
            if i < 2 + n {
                assert(head[i] == params[i - 2]);
                assert(0x20 <= (params[i - 2] as u32) < 0x40);
            }
        }
        assert(is_colour(head));
    }
}

/// ESC and one character that opens nothing are dropped.
pub proof fn law_short_escapes_are_dropped(c: char, rest: Seq<char>, width: nat, seen: nat)
    requires
        0x30 <= (c as u32) <= 0x7e,
        c != '[' && c != ']' && c != 'P' && c != 'X' && c != '^' && c != '_',
    ensures
        preview_row(seq![ESC, c] + rest, width, seen) == preview_row(rest, width, seen),
{
    let s = seq![ESC, c] + rest;
    assert(s[1] == c);
    assert(escape_len(s) == 2);
    assert(s.skip(2) =~= rest);
    assert(!is_colour(s.take(2)));
}

/// A full row takes no further character; the first one ends it.
pub proof fn law_a_full_row_is_cut(c: char, rest: Seq<char>, width: nat, seen: nat)
    requires
        seen >= width,
        (c as u32) != 0x1b,
    ensures
        preview_row(seq![c] + rest, width, seen) == Seq::<char>::empty(),
        preview_row(Seq::<char>::empty(), width, seen) == Seq::<char>::empty(),
{
    assert((seq![c] + rest)[0] == c);
    vstd::utf8::char_u32_cast(c, c as u32);
}

/// ESC with intermediate characters and the one that ends them, such as a choice
/// of a character set, is dropped.
pub proof fn law_choices_are_dropped(
    first: char,
    more: Seq<char>,
    last: char,
    rest: Seq<char>,
    width: nat,
    seen: nat,
)
    requires
        0x20 <= (first as u32) <= 0x2f,
        forall|i: int| 0 <= i < more.len() ==> 0x20 <= (#[trigger] more[i] as u32) <= 0x2f,
        0x30 <= (last as u32) <= 0x7e,
    ensures
        preview_row(seq![ESC, first] + more + seq![last] + rest, width, seen) == preview_row(
            rest,
            width,
            seen,
        ),
{
    let s = seq![ESC, first] + more + seq![last] + rest;
    let n = more.len() as int + 1;
    let body = s.skip(1);
    assert forall|j: int| 0 <= j < n implies !stops(Escape::Choice, #[trigger] body[j]) by {
        if j == 0 {
            assert(body[j] == first);
        } else {
            assert(body[j] == more[j - 1]);
            assert(0x20 <= (more[j - 1] as u32) <= 0x2f);
        }
    }
    assert(body[n] == last);
    assert(last != ESC);
    lemma_stop_at(body, Escape::Choice, n);
    assert(s[1] == first);
    assert(s[1 + n] == last);
    assert(escape_len(s) == n + 2);
    assert(s.skip(n + 2) =~= rest);
    assert(s.take(n + 2)[1] == first);
    law_other_escapes_are_dropped(s, width, seen);
}

// ---------------------------------------------------------------------------
// Laws of escaping
// ---------------------------------------------------------------------------

/// A name is escaped byte by byte: a backslash, a TAB and an LF become two
/// bytes each, every other byte stays.
pub proof fn law_names_are_escaped_byte_by_byte(a: Seq<u8>, b: Seq<u8>, x: u8)
    ensures
        escaped(a + b) == escaped(a) + escaped(b),
        escaped(seq![x]) == (if x == 0x5c {
            seq![0x5cu8, 0x5cu8]
        } else if x == 0x09 {
            seq![0x5cu8, 0x74u8]
        } else if x == 0x0a {
            seq![0x5cu8, 0x6eu8]
        } else {
            seq![x]
        }),
    decreases a.len(),
{
    if a.len() == 0 {
        assert(a + b =~= b);
        assert(escaped(a) + escaped(b) =~= escaped(b));
    } else {
        law_names_are_escaped_byte_by_byte(a.drop_first(), b, x);
        assert((a + b).drop_first() =~= a.drop_first() + b);
        assert((a + b)[0] == a[0]);
        let (h, t) = (escaped_byte(a[0]), escaped(a.drop_first()));
        assert(h + (t + escaped(b)) =~= h + t + escaped(b));
    }
    let one = seq![x];
    let none = Seq::<u8>::empty();
    assert(one.drop_first() =~= none);
    assert(escaped(none) =~= none);
    assert(escaped(one) == escaped_byte(x) + none);
    assert(escaped_byte(x) + none =~= escaped_byte(x));
}

/// On the wire a backslash and a byte stand for one byte: `t` for TAB, `n` for
/// LF, every other byte for itself. All other bytes stand for themselves, a
/// backslash at the end too.
pub proof fn law_wire_bytes_are_read_in_order(x: u8, rest: Seq<u8>)
    ensures
        unescaped(Seq::<u8>::empty()) == Seq::<u8>::empty(),
        x != 0x5c ==> unescaped(seq![x] + rest) == seq![x] + unescaped(rest),
        unescaped(seq![0x5cu8]) == seq![0x5cu8],
        unescaped(seq![0x5cu8, x] + rest) == seq![if x == 0x74 {
            0x09u8
        } else if x == 0x6e {
            0x0au8
        } else {
            x
        }] + unescaped(rest),
{
    assert((seq![x] + rest).skip(1) =~= rest);
    assert((seq![0x5cu8, x] + rest).skip(2) =~= rest);
    let none = Seq::<u8>::empty();
    assert(seq![0x5cu8].skip(1) =~= none);
    assert(unescaped(none) =~= none);
    assert(unescaped(seq![0x5cu8]) == seq![0x5cu8] + none);
    assert(seq![0x5cu8] + none =~= seq![0x5cu8]);
}

// ---------------------------------------------------------------------------
// Requests
// ---------------------------------------------------------------------------

/// A request for rows of the ranked listing.
#[derive(Debug)]
pub struct Query {
    pub from: usize,
    pub to: usize,
    pub query: String,
    pub sort: u8,
    pub dirs_first: bool,
    pub reverse: bool,
}

/// One request.
#[derive(Debug)]
pub enum Request {
    /// A frecency record: the text of the score, and the path.
    Frecency { score: Option<String>, path: Option<Vec<u8>> },
    /// Rows of the ranked listing.
    Rows(Query),
    /// The top-level directories.
    Dirs,
    /// Metadata of entries.
    Meta { mask: u8, indices: Vec<usize> },
    /// A preview pane.
    Preview { index: usize, width: usize, height: usize },
    /// Anything else; it gets no reply.
    Unknown,
}

/// A request as a mathematical value.
pub enum RequestView {
    Frecency { score: Option<Seq<char>>, path: Option<Seq<u8>> },
    Rows {
        from: nat,
        to: nat,
        query: Seq<char>,
        sort: nat,
        dirs_first: bool,
        reverse: bool,
    },
    Dirs,
    Meta { mask: nat, indices: Seq<usize> },
    Preview { index: nat, width: nat, height: nat },
    Unknown,
}

impl View for Request {
    type V = RequestView;

    open spec fn view(&self) -> RequestView {
        match self {
            Request::Frecency { score, path } => RequestView::Frecency {
                score: match score {
                    Some(t) => Some(t@),
                    None => None,
                },
                path: match path {
                    Some(p) => Some(p@),
                    None => None,
                },
            },
            Request::Rows(q) => RequestView::Rows {
                from: q.from as nat,
                to: q.to as nat,
                query: q.query@,
                sort: q.sort as nat,
                dirs_first: q.dirs_first,
                reverse: q.reverse,
            },
            Request::Dirs => RequestView::Dirs,
            Request::Meta { mask, indices } => RequestView::Meta {
                mask: *mask as nat,
                indices: indices@,
            },
            Request::Preview { index, width, height } => RequestView::Preview {
                index: *index as nat,
                width: *width as nat,
                height: *height as nat,
            },
            Request::Unknown => RequestView::Unknown,
        }
    }
}

/// The number in a field, or a default where the field is missing or holds no
/// number up to `max`.
pub open spec fn field_number(fields: Seq<Seq<char>>, i: int, max: nat, default: nat) -> nat {
    if i < fields.len() {
        match parsed(fields[i], max) {
            Some(n) => n,
            None => default,
        }
    } else {
        default
    }
}

/// Whether a field holds the digit one.
pub open spec fn field_is_set(fields: Seq<Seq<char>>, i: int) -> bool {
    i < fields.len() && fields[i] == "1"@
}

pub open spec fn clamped(n: nat, lo: nat, hi: nat) -> nat {
    if n < lo {
        lo
    } else if n > hi {
        hi
    } else {
        n
    }
}

/// The numbers in some fields; fields that hold none are passed over.
pub open spec fn numbers_in(fields: Seq<Seq<char>>) -> Seq<usize>
    decreases fields.len(),
{
    if fields.len() == 0 {
        Seq::empty()
    } else {
        let before = numbers_in(fields.drop_last());
        match parsed(fields.last(), usize::MAX as nat) {
            Some(n) => before.push(n as usize),
            None => before,
        }
    }
}

/// The request in the fields of a line.
pub open spec fn request_in(fields: Seq<Seq<char>>) -> RequestView {
    let max = usize::MAX as nat;
    if fields[0] == "F"@ {
        RequestView::Frecency {
            score: if fields.len() > 1 {
                Some(fields[1])
            } else {
                None
            },
            path: if fields.len() > 2 {
                Some(unescaped(encode_utf8(fields[2])))
            } else {
                None
            },
        }
    } else if fields[0] == "Q"@ {
        RequestView::Rows {
            from: field_number(fields, 1, max, 0),
            to: field_number(fields, 2, max, 0),
            query: if fields.len() > 3 {
                fields[3]
            } else {
                Seq::empty()
            },
            sort: clamped(field_number(fields, 4, 255, 0), 0, 3),
            dirs_first: field_is_set(fields, 5),
            reverse: field_is_set(fields, 6),
        }
    } else if fields[0] == "D"@ {
        RequestView::Dirs
    } else if fields[0] == "M"@ {
        RequestView::Meta {
            mask: field_number(fields, 1, 255, 0),
            indices: if fields.len() > 2 {
                numbers_in(fields.skip(2))
            } else {
                Seq::empty()
            },
        }
    } else if fields[0] == "V"@ {
        RequestView::Preview {
            index: field_number(fields, 1, max, max),
            width: clamped(field_number(fields, 2, max, 40), 8, 400),
            height: clamped(field_number(fields, 3, max, 12), 1, 200),
        }
    } else {
        RequestView::Unknown
    }
}

fn usize_field(fields: &Vec<&[char]>, i: usize, default: usize) -> (n: usize)
    ensures
        n == field_number(texts_of(fields@), i as int, usize::MAX as nat, default as nat),
{
    if i < fields.len() {
        match parse_usize(fields[i]) {
            Some(n) => n,
            None => default,
        }
    } else {
        default
    }
}

fn u8_field(fields: &Vec<&[char]>, i: usize, default: u8) -> (n: u8)
    ensures
        n == field_number(texts_of(fields@), i as int, 255, default as nat),
{
    if i < fields.len() {
        match parse_u8(fields[i]) {
            Some(n) => n,
            None => default,
        }
    } else {
        default
    }
}

fn set_field(fields: &Vec<&[char]>, i: usize) -> (r: bool)
    ensures
        r == field_is_set(texts_of(fields@), i as int),
{
    i < fields.len() && chars_are(fields[i], "1")
}

fn clamp_usize(n: usize, lo: usize, hi: usize) -> (r: usize)
    ensures
        r == clamped(n as nat, lo as nat, hi as nat),
{
    if n < lo {
        lo
    } else if n > hi {
        hi
    } else {
        n
    }
}

fn number_fields(fields: &Vec<&[char]>, from: usize) -> (r: Vec<usize>)
    requires
        from <= fields@.len(),
    ensures
        r@ == numbers_in(texts_of(fields@).skip(from as int)),
{
    let ghost all = texts_of(fields@).skip(from as int);
    let mut r: Vec<usize> = Vec::new();
    let mut i: usize = from;
    assert(all.take(0) == Seq::<Seq<char>>::empty());
    while i < fields.len()
        invariant
            from <= i <= fields@.len(),
            all == texts_of(fields@).skip(from as int),
            r@ == numbers_in(all.take(i - from)),
        decreases fields@.len() - i,
    {
        assert(all.take(i - from + 1).drop_last() == all.take(i - from));
        assert(all.take(i - from + 1).last() == fields@[i as int]@);
        match parse_usize(fields[i]) {
            Some(n) => r.push(n),
            None => {},
        }
        i += 1;
    }
    assert(all.take(i - from) == all);
    r
}

/// Reads one line of the client.
pub fn parse_request(line: &str) -> (r: Request)
    ensures
        r@ == request_in(pieces(line@, '\t')),
{
    let chars = chars_of(line);
    let fields = split(chars.as_slice(), '\t');
    let ghost f = pieces(line@, '\t');
    let kind: &[char] = fields[0];
    assert(kind@ == f[0]);
    if chars_are(kind, "F") {
        let score: Option<String> = if fields.len() > 1 {
            Some(string_of(fields[1]))
        } else {
            None
        };
        let path: Option<Vec<u8>> = if fields.len() > 2 {
            let wire = string_of(fields[2]);
            Some(unescape_bytes(wire.as_str()))
        } else {
            None
        };
        return Request::Frecency { score, path };
    }
    if chars_are(kind, "Q") {
        let query: String = if fields.len() > 3 {
            string_of(fields[3])
        } else {
            String::new()
        };
        let sort: u8 = u8_field(&fields, 4, 0);
        let sort: u8 = if sort > 3 {
            3
        } else {
            sort
        };
        return Request::Rows(
            Query {
                from: usize_field(&fields, 1, 0),
                to: usize_field(&fields, 2, 0),
                query,
                sort,
                dirs_first: set_field(&fields, 5),
                reverse: set_field(&fields, 6),
            },
        );
    }
    if chars_are(kind, "D") {
        return Request::Dirs;
    }
    if chars_are(kind, "M") {
        let mask: u8 = u8_field(&fields, 1, 0);
        let indices: Vec<usize> = if fields.len() > 2 {
            number_fields(&fields, 2)
        } else {
            Vec::new()
        };
        assert(indices@ == if f.len() > 2 {
            numbers_in(f.skip(2))
        } else {
            Seq::empty()
        });
        return Request::Meta { mask, indices };
    }
    if chars_are(kind, "V") {
        let index: usize = usize_field(&fields, 1, usize::MAX);
        let width: usize = clamp_usize(usize_field(&fields, 2, 40), 8, 400);
        let height: usize = clamp_usize(usize_field(&fields, 3, 12), 1, 200);
        return Request::Preview { index, width, height };
    }
    Request::Unknown
}

// ---------------------------------------------------------------------------
// Laws of requests
// ---------------------------------------------------------------------------

/// A line of fields with TABs between them.
pub open spec fn tabbed(fields: Seq<Seq<char>>) -> Seq<char>
    decreases fields.len(),
{
    if fields.len() == 0 {
        Seq::empty()
    } else if fields.len() == 1 {
        fields[0]
    } else {
        tabbed(fields.drop_last()).push('\t') + fields.last()
    }
}

/// A line is read as the fields that it was written with.
pub proof fn law_lines_are_read_by_field(fields: Seq<Seq<char>>)
    requires
        fields.len() > 0,
        forall|i: int| 0 <= i < fields.len() ==> !(#[trigger] fields[i]).contains('\t'),
    ensures
        pieces(tabbed(fields), '\t') == fields,
    decreases fields.len(),
{
    let last = fields.last();
    assert(!fields[fields.len() - 1].contains('\t'));
    law_one_piece(last, '\t');
    if fields.len() == 1 {
        assert(pieces(tabbed(fields), '\t') =~= fields);
    } else {
        let front = fields.drop_last();
        assert forall|i: int| 0 <= i < front.len() implies !(#[trigger] front[i]).contains('\t') by {
            assert(front[i] == fields[i]);
        }
        law_lines_are_read_by_field(front);
        law_a_separator_parts_the_pieces(tabbed(front), '\t', last);
        assert(front + seq![last] =~= fields);
    }
}

proof fn lemma_words()
    ensures
        "F"@ == seq!['F'],
        "Q"@ == seq!['Q'],
        "D"@ == seq!['D'],
        "M"@ == seq!['M'],
        "V"@ == seq!['V'],
        "1"@ == seq!['1'],
        seq!['F'] != seq!['Q'],
        seq!['F'] != seq!['D'],
        seq!['F'] != seq!['M'],
        seq!['F'] != seq!['V'],
        seq!['F'] != seq!['1'],
        seq!['Q'] != seq!['D'],
        seq!['Q'] != seq!['M'],
        seq!['Q'] != seq!['V'],
        seq!['Q'] != seq!['1'],
        seq!['D'] != seq!['M'],
        seq!['D'] != seq!['V'],
        seq!['D'] != seq!['1'],
        seq!['M'] != seq!['V'],
        seq!['M'] != seq!['1'],
        seq!['V'] != seq!['1'],
{
    reveal_strlit("F");
    reveal_strlit("Q");
    reveal_strlit("D");
    reveal_strlit("M");
    reveal_strlit("V");
    reveal_strlit("1");
    assert("F"@ =~= seq!['F']);
    assert("Q"@ =~= seq!['Q']);
    assert("D"@ =~= seq!['D']);
    assert("M"@ =~= seq!['M']);
    assert("V"@ =~= seq!['V']);
    assert("1"@ =~= seq!['1']);
    assert(seq!['F'][0] != seq!['Q'][0]);
    assert(seq!['F'][0] != seq!['D'][0]);
    assert(seq!['F'][0] != seq!['M'][0]);
    assert(seq!['F'][0] != seq!['V'][0]);
    assert(seq!['F'][0] != seq!['1'][0]);
    assert(seq!['Q'][0] != seq!['D'][0]);
    assert(seq!['Q'][0] != seq!['M'][0]);
    assert(seq!['Q'][0] != seq!['V'][0]);
    assert(seq!['Q'][0] != seq!['1'][0]);
    assert(seq!['D'][0] != seq!['M'][0]);
    assert(seq!['D'][0] != seq!['V'][0]);
    assert(seq!['D'][0] != seq!['1'][0]);
    assert(seq!['M'][0] != seq!['V'][0]);
    assert(seq!['M'][0] != seq!['1'][0]);
    assert(seq!['V'][0] != seq!['1'][0]);
}

/// A query with its range, its sort key and its two flags is read as it was
/// written; a sort key beyond the last one is the last one. Fields that are
/// left out at the end are zero or not set.
pub proof fn law_queries_are_read_as_written(
    from: nat,
    to: nat,
    query: Seq<char>,
    sort: nat,
    dirs: Seq<char>,
    rev: Seq<char>,
)
    requires
        from <= usize::MAX,
        to <= usize::MAX,
        sort <= 255,
    ensures
        ({
            let (q, f, t, s) = (seq!['Q'], decimal(from), decimal(to), decimal(sort));
            let key = if sort == 0 {
                0nat
            } else if sort == 1 {
                1nat
            } else if sort == 2 {
                2nat
            } else {
                3nat
            };
            &&& request_in(seq![q, f, t, query, s, dirs, rev]) == (RequestView::Rows {
                from,
                to,
                query,
                sort: key,
                dirs_first: dirs == seq!['1'],
                reverse: rev == seq!['1'],
            })
            &&& request_in(seq![q, f, t, query, s]) == (RequestView::Rows {
                from,
                to,
                query,
                sort: key,
                dirs_first: false,
                reverse: false,
            })
            &&& request_in(seq![q, f, t, query]) == (RequestView::Rows {
                from,
                to,
                query,
                sort: 0,
                dirs_first: false,
                reverse: false,
            })
            &&& request_in(seq![q]) == (RequestView::Rows {
                from: 0,
                to: 0,
                query: Seq::empty(),
                sort: 0,
                dirs_first: false,
                reverse: false,
            })
        }),
{
    lemma_words();
    law_signs_and_zeros_do_not_count(from, usize::MAX as nat);
    law_signs_and_zeros_do_not_count(to, usize::MAX as nat);
    law_signs_and_zeros_do_not_count(sort, 255);
}

/// A field of a query that holds no number counts as zero.
pub proof fn law_fields_without_a_number_are_zero(fields: Seq<Seq<char>>)
    requires
        fields.len() > 4,
        fields[0] == seq!['Q'],
    ensures
        request_in(fields) is Rows,
        parsed(fields[1], usize::MAX as nat) is None ==> request_in(fields)->from == 0,
        parsed(fields[2], usize::MAX as nat) is None ==> request_in(fields)->to == 0,
        parsed(fields[4], 255) is None ==> request_in(fields)->sort == 0,
        request_in(fields)->query == fields[3],
{
    lemma_words();
}

/// A request for metadata names its entries; fields without a number are passed
/// over, and the others keep their order.
pub proof fn law_metadata_requests_are_read_as_written(
    mask: nat,
    fields: Seq<Seq<char>>,
    n: nat,
    other: Seq<char>,
)
    requires
        mask <= 255,
        n <= usize::MAX,
        parsed(other, usize::MAX as nat) is None,
        fields.len() >= 2,
        fields[0] == seq!['M'],
        fields[1] == decimal(mask),
    ensures
        request_in(fields) is Meta,
        request_in(fields)->mask == mask,
        fields.len() == 2 ==> request_in(fields)->indices == Seq::<usize>::empty(),
        request_in(fields.push(decimal(n))) is Meta,
        request_in(fields.push(decimal(n)))->indices == request_in(fields)->indices.push(
            n as usize,
        ),
        request_in(fields.push(other)) is Meta,
        request_in(fields.push(other))->indices == request_in(fields)->indices,
{
    lemma_words();
    law_signs_and_zeros_do_not_count(mask, 255);
    law_signs_and_zeros_do_not_count(n, usize::MAX as nat);
    let (x, y) = (fields.push(decimal(n)), fields.push(other));
    assert(x[0] == fields[0] && x[1] == fields[1]);
    assert(y[0] == fields[0] && y[1] == fields[1]);
    assert(x.skip(2).drop_last() =~= fields.skip(2));
    assert(y.skip(2).drop_last() =~= fields.skip(2));
    assert(x.skip(2).last() == decimal(n));
    assert(y.skip(2).last() == other);
    if fields.len() == 2 {
        assert(fields.skip(2) =~= Seq::<Seq<char>>::empty());
        assert(numbers_in(fields.skip(2)) == Seq::<usize>::empty());
    }
    assert(numbers_in(x.skip(2)) == numbers_in(fields.skip(2)).push(n as usize));
    assert(numbers_in(y.skip(2)) == numbers_in(fields.skip(2)));
}

/// A request for a preview names the entry and the size, which is kept between
/// 8 and 400 columns and between 1 and 200 rows.
pub proof fn law_preview_requests_are_read_as_written(index: nat, width: nat, height: nat)
    requires
        index <= usize::MAX,
        width <= usize::MAX,
        height <= usize::MAX,
    ensures
        ({
            let r = request_in(seq![seq!['V'], decimal(index), decimal(width), decimal(height)]);
            &&& r is Preview
            &&& r->index == index
            &&& 8 <= r->width <= 400
            &&& 1 <= r->height <= 200
            &&& 8 <= width <= 400 ==> r->width == width
            &&& 1 <= height <= 200 ==> r->height == height
            &&& width < 8 ==> r->width == 8
            &&& width > 400 ==> r->width == 400
            &&& height < 1 ==> r->height == 1
            &&& height > 200 ==> r->height == 200
        }),
        request_in(seq![seq!['V'], decimal(index)]) == (RequestView::Preview {
            index,
            width: 40,
            height: 12,
        }),
        request_in(seq![seq!['V']]) == (RequestView::Preview {
            index: usize::MAX as nat,
            width: 40,
            height: 12,
        }),
{
    lemma_words();
    law_signs_and_zeros_do_not_count(index, usize::MAX as nat);
    law_signs_and_zeros_do_not_count(width, usize::MAX as nat);
    law_signs_and_zeros_do_not_count(height, usize::MAX as nat);
}

/// The other requests: a record with its score and its path, read back from the
/// wire, the top-level directories, and everything else.
pub proof fn law_other_requests_are_read_as_written(
    score: Seq<char>,
    path: Seq<char>,
    word: Seq<char>,
)
    ensures
        request_in(seq![seq!['F'], score, path]) == (RequestView::Frecency {
            score: Some(score),
            path: Some(unescaped(encode_utf8(path))),
        }),
        request_in(seq![seq!['F'], score]) == (RequestView::Frecency {
            score: Some(score),
            path: None,
        }),
        request_in(seq![seq!['D']]) == RequestView::Dirs,
        word.len() != 1 ==> request_in(seq![word]) == RequestView::Unknown,
        word.len() == 1 && word[0] != 'F' && word[0] != 'Q' && word[0] != 'D' && word[0] != 'M'
            && word[0] != 'V' ==> request_in(seq![word]) == RequestView::Unknown,
{
    lemma_words();
}

} // verus!
