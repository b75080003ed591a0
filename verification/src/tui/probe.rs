//! The replies of a terminal that was asked for its cursor and its size.
//!
//! The first reply gives the cursor. The cursor is then sent far beyond the
//! bottom right corner, so the second reply gives the size of the grid.

use crate::number::{
    decimal, is_digit, law_signs_and_zeros_do_not_count, lemma_decimal, parse_usize, parsed,
};
use crate::text::{
    chars_of, law_a_separator_parts_the_pieces, law_one_piece, law_tight_texts_are_not_trimmed,
    lossy_text, pieces, split, texts_of, trim, trimmed, utf8_lossy,
};
use vstd::prelude::*;
use vstd::string::*;

verus! {

/// What asks for both replies.
pub const PROBE: &'static str = "\u{1b}[6n\u{1b}[9999;9999H\u{1b}[6n";

/// No more bytes than this are read.
pub const PROBE_BYTES: usize = 48;

/// What stands behind the last bracket of a text.
pub open spec fn after_bracket(s: Seq<char>) -> Seq<char> {
    pieces(s, '[').last()
}

/// The number in a text, white space around it aside.
pub open spec fn field(s: Seq<char>) -> Option<nat> {
    parsed(trimmed(s), usize::MAX as nat)
}

/// The row and the column of a reply.
pub open spec fn reply_in(part: Seq<char>) -> Option<(nat, nat)> {
    let fields = pieces(after_bracket(part), ';');
    if fields.len() < 2 {
        None
    } else {
        match (field(fields[0]), field(fields[1])) {
            (Some(row), Some(col)) => Some((row, col)),
            _ => None,
        }
    }
}

/// Parses the `<row>;<col>` tail of an `ESC[<row>;<col>R` reply.
pub fn parse_dsr(part: &str) -> (r: Option<(usize, usize)>)
    ensures
        match r {
            Some((row, col)) => reply_in(part@) == Some((row as nat, col as nat)),
            None => reply_in(part@) is None,
        },
{
    let chars = chars_of(part);
    read_reply(chars.as_slice())
}

fn read_reply(part: &[char]) -> (r: Option<(usize, usize)>)
    ensures
        match r {
            Some((row, col)) => reply_in(part@) == Some((row as nat, col as nat)),
            None => reply_in(part@) is None,
        },
{
    let heads = split(part, '[');
    let inner = heads[heads.len() - 1];
    assert(inner@ == texts_of(heads@).last());
    let fields = split(inner, ';');
    if fields.len() < 2 {
        return None;
    }
    assert(fields@[0]@ == texts_of(fields@)[0]);
    assert(fields@[1]@ == texts_of(fields@)[1]);
    match (parse_usize(trim(fields[0])), parse_usize(trim(fields[1]))) {
        (Some(row), Some(col)) => Some((row, col)),
        _ => None,
    }
}

/// The replies among some parts, in their order.
pub open spec fn replies_in(parts: Seq<Seq<char>>) -> Seq<(nat, nat)>
    decreases parts.len(),
{
    if parts.len() == 0 {
        Seq::empty()
    } else {
        let before = replies_in(parts.drop_last());
        match reply_in(parts.last()) {
            Some(r) => before.push(r),
            None => before,
        }
    }
}

pub open spec fn as_numbers(v: Seq<(usize, usize)>) -> Seq<(nat, nat)> {
    v.map_values(|r: (usize, usize)| (r.0 as nat, r.1 as nat))
}

/// The replies in what a terminal answered.
pub fn parse_replies(text: &str) -> (out: Vec<(usize, usize)>)
    ensures
        as_numbers(out@) == replies_in(pieces(text@, 'R')),
{
    let chars = chars_of(text);
    let parts = split(chars.as_slice(), 'R');
    let ghost all = texts_of(parts@);
    let mut out: Vec<(usize, usize)> = Vec::new();
    let mut i: usize = 0;
    assert(as_numbers(out@) =~= replies_in(all.take(0)));
    while i < parts.len()
        invariant
            i <= parts@.len(),
            all == texts_of(parts@),
            as_numbers(out@) == replies_in(all.take(i as int)),
        decreases parts@.len() - i,
    {
        let ghost before = out@;
        assert(all.take(i + 1).drop_last() == all.take(i as int));
        assert(all.take(i + 1).last() == parts@[i as int]@);
        match read_reply(parts[i]) {
            Some(r) => {
                out.push(r);
                assert(as_numbers(out@) =~= as_numbers(before).push((r.0 as nat, r.1 as nat)));
            },
            None => {},
        }
        i += 1;
    }
    assert(all.take(i as int) == all);
    out
}

/// The row of the cursor, counted from zero, and the columns and rows of the
/// grid, as far as there are replies.
pub fn probe_result(replies: &Vec<(usize, usize)>) -> (r: (Option<usize>, Option<(usize, usize)>))
    ensures
        r.0 == (if replies@.len() > 0 {
            Some((if replies@[0].0 > 0 {
                replies@[0].0 - 1
            } else {
                0
            }) as usize)
        } else {
            None
        }),
        r.1 == (if replies@.len() > 1 {
            Some((replies@[1].1, replies@[1].0))
        } else {
            None
        }),
{
    let row: Option<usize> = if replies.len() > 0 {
        let at: usize = replies[0].0;
        Some(if at > 0 {
            at - 1
        } else {
            0
        })
    } else {
        None
    };
    let size: Option<(usize, usize)> = if replies.len() > 1 {
        Some((replies[1].1, replies[1].0))
    } else {
        None
    };
    (row, size)
}

/// How often a character occurs in a text.
pub open spec fn occurrences(s: Seq<char>, c: char) -> nat
    decreases s.len(),
{
    if s.len() == 0 {
        0
    } else if s.last() == c {
        occurrences(s.drop_last(), c) + 1
    } else {
        occurrences(s.drop_last(), c)
    }
}

/// Whether a text holds both replies.
pub fn has_both_replies(text: &str) -> (r: bool)
    ensures
        r == (occurrences(text@, 'R') >= 2),
{
    let chars = chars_of(text);
    let mut n: usize = 0;
    let mut i: usize = 0;
    while i < chars.len()
        invariant
            i <= chars@.len(),
            n == occurrences(chars@.take(i as int), 'R'),
            n <= i,
        decreases chars@.len() - i,
    {
        assert(chars@.take(i + 1).drop_last() == chars@.take(i as int));
        if chars[i] == 'R' {
            n += 1;
        }
        i += 1;
    }
    assert(chars@.take(i as int) == chars@);
    n >= 2
}

/// Whether reading the replies is over: when both have come, or when more
/// bytes have come than they can take.
pub fn probe_is_over(bytes: &[u8]) -> (r: bool)
    ensures
        r == (bytes@.len() >= PROBE_BYTES || occurrences(lossy_text(bytes@), 'R') >= 2),
{
    if bytes.len() >= PROBE_BYTES {
        return true;
    }
    let text = utf8_lossy(bytes);
    has_both_replies(text.as_str())
}

/// What the bytes that a terminal answered say of its cursor and its size.
pub fn read_probe(bytes: &[u8]) -> (r: (Option<usize>, Option<(usize, usize)>))
    ensures
        ({
            let replies = replies_in(pieces(lossy_text(bytes@), 'R'));
            &&& match r.0 {
                Some(row) => replies.len() > 0 && row == (if replies[0].0 > 0 {
                    replies[0].0 - 1
                } else {
                    0
                }),
                None => replies.len() == 0,
            }
            &&& match r.1 {
                Some((cols, rows)) => replies.len() > 1 && (rows as nat, cols as nat) == replies[1],
                None => replies.len() <= 1,
            }
        }),
{
    let text = utf8_lossy(bytes);
    let replies = parse_replies(text.as_str());
    let ghost numbers = as_numbers(replies@);
    assert(numbers.len() == replies@.len());
    assert(numbers.len() > 0 ==> numbers[0].0 == replies@[0].0);
    assert(numbers.len() > 1 ==> numbers[1] == (replies@[1].0 as nat, replies@[1].1 as nat));
    probe_result(&replies)
}

// ---------------------------------------------------------------------------
// Laws
// ---------------------------------------------------------------------------

/// A reply as a terminal writes it, without its last letter.
pub open spec fn written_reply(row: nat, col: nat) -> Seq<char> {
    seq!['\u{1b}', '['] + decimal(row) + seq![';'] + decimal(col)
}

proof fn lemma_numeral_is_plain(n: nat, c: char)
    requires
        !is_digit(c),
    ensures
        !decimal(n).contains(c),
        trimmed(decimal(n)) == decimal(n),
{
    lemma_decimal(n);
    let d = decimal(n);
    assert(is_digit(d[0]));
    assert(is_digit(d[d.len() - 1]));
    if d.contains(c) {
        let i = choose|i: int| 0 <= i < d.len() && d[i] == c;
        assert(is_digit(d[i]));
    }
    law_tight_texts_are_not_trimmed(d);
}

/// A reply is read as the row and the column that it was written with.
pub proof fn law_replies_are_read_as_written(row: nat, col: nat)
    requires
        row <= usize::MAX,
        col <= usize::MAX,
    ensures
        reply_in(written_reply(row, col)) == Some((row, col)),
{
    let (r, c) = (decimal(row), decimal(col));
    let body = r.push(';') + c;
    lemma_numeral_is_plain(row, ';');
    lemma_numeral_is_plain(col, ';');
    lemma_numeral_is_plain(row, '[');
    lemma_numeral_is_plain(col, '[');
    law_signs_and_zeros_do_not_count(row, usize::MAX as nat);
    law_signs_and_zeros_do_not_count(col, usize::MAX as nat);
    let esc = seq!['\u{1b}'];
    assert(written_reply(row, col) =~= esc.push('[') + body);
    assert forall|i: int| 0 <= i < body.len() implies body[i] != '[' by {
        if i < r.len() {
            assert(r.contains(r[i]));
        } else if i > r.len() {
            assert(c.contains(c[i - r.len() - 1]));
        }
    }
    law_one_piece(body, '[');
    law_a_separator_parts_the_pieces(esc, '[', body);
    assert(after_bracket(written_reply(row, col)) == body);
    law_one_piece(r, ';');
    law_one_piece(c, ';');
    law_a_separator_parts_the_pieces(r, ';', c);
    assert(pieces(body, ';') =~= seq![r, c]);
}

/// Both replies are found in what a terminal answers, one behind the other: the
/// cursor, and the size.
pub proof fn law_both_replies_are_found(row: nat, col: nat, rows: nat, cols: nat)
    requires
        row <= usize::MAX,
        col <= usize::MAX,
        rows <= usize::MAX,
        cols <= usize::MAX,
    ensures
        replies_in(
            pieces(
                written_reply(row, col).push('R') + written_reply(rows, cols).push('R'),
                'R',
            ),
        ) == seq![(row, col), (rows, cols)],
{
    let (a, b) = (written_reply(row, col), written_reply(rows, cols));
    let none = Seq::<char>::empty();
    law_replies_are_read_as_written(row, col);
    law_replies_are_read_as_written(rows, cols);
    lemma_reply_avoids(row, col);
    lemma_reply_avoids(rows, cols);
    law_one_piece(a, 'R');
    law_one_piece(b, 'R');
    law_one_piece(none, 'R');
    law_a_separator_parts_the_pieces(b, 'R', none);
    assert(b.push('R') + none =~= b.push('R'));
    law_a_separator_parts_the_pieces(a, 'R', b.push('R'));
    let parts = pieces(a.push('R') + b.push('R'), 'R');
    assert(parts =~= seq![a, b, none]);
    law_one_piece(none, '[');
    law_one_piece(none, ';');
    assert(reply_in(none) is None);
    let two = parts.drop_last();
    let one = two.drop_last();
    assert(one.drop_last() =~= Seq::<Seq<char>>::empty());
    assert(replies_in(one.drop_last()) =~= Seq::<(nat, nat)>::empty());
    assert(replies_in(one) =~= seq![(row, col)]);
    assert(replies_in(two) =~= seq![(row, col), (rows, cols)]);
}

proof fn lemma_reply_avoids(row: nat, col: nat)
    ensures
        !written_reply(row, col).contains('R'),
{
    let (r, c) = (decimal(row), decimal(col));
    lemma_numeral_is_plain(row, 'R');
    lemma_numeral_is_plain(col, 'R');
    let w = written_reply(row, col);
    assert forall|i: int| 0 <= i < w.len() implies w[i] != 'R' by {
        if 2 <= i < 2 + r.len() {
            assert(w[i] == r[i - 2]);
            assert(r.contains(r[i - 2]));
        } else if i > 2 + r.len() {
            assert(w[i] == c[i - r.len() - 3]);
            assert(c.contains(c[i - r.len() - 3]));
        }
    }
}

/// Reading is over once the letter that ends a reply has come twice.
pub proof fn law_letters_are_counted(a: Seq<char>, c: char, d: char)
    ensures
        occurrences(Seq::<char>::empty(), c) == 0,
        occurrences(a.push(c), c) == occurrences(a, c) + 1,
        c != d ==> occurrences(a.push(d), c) == occurrences(a, c),
{
    assert(a.push(c).drop_last() =~= a);
    assert(a.push(d).drop_last() =~= a);
}

} // verus!
