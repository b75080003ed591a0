//! Display widths in terminal cells, and lines padded to a width.

use crate::protocol::ESC;
use crate::text::{char_bytes, final_char, is_final_char, lemma_encode_push};
use vstd::prelude::*;
use vstd::string::*;
use vstd::utf8::encode_utf8;

verus! {

/// Combining marks, joiners, variation selectors and skin tones.
pub open spec fn takes_no_cell(c: char) -> bool {
    let u = c as u32;
    ||| 0x0300 <= u <= 0x036f
    ||| 0x1ab0 <= u <= 0x1aff
    ||| 0x1dc0 <= u <= 0x1dff
    ||| 0x20d0 <= u <= 0x20ff
    ||| 0xfe00 <= u <= 0xfe0f
    ||| 0xfe20 <= u <= 0xfe2f
    ||| 0x200b <= u <= 0x200d
    ||| 0x1f3fb <= u <= 0x1f3ff
}

/// East Asian wide and fullwidth characters, and emoji.
pub open spec fn takes_two_cells(c: char) -> bool {
    let u = c as u32;
    ||| 0x1100 <= u <= 0x115f
    ||| 0x2e80 <= u <= 0xa4cf
    ||| 0xac00 <= u <= 0xd7a3
    ||| 0xf900 <= u <= 0xfaff
    ||| 0xfe10 <= u <= 0xfe19
    ||| 0xfe30 <= u <= 0xfe6f
    ||| 0xff00 <= u <= 0xff60
    ||| 0xffe0 <= u <= 0xffe6
    ||| 0x1f300 <= u <= 0x1faff
    ||| 0x20000 <= u <= 0x3fffd
}

/// The display width of a character.
pub open spec fn cells(c: char) -> nat {
    if takes_no_cell(c) {
        0
    } else if takes_two_cells(c) {
        2
    } else {
        1
    }
}

/// The display width of a text: that of its characters.
pub open spec fn text_cells(s: Seq<char>) -> nat
    decreases s.len(),
{
    if s.len() == 0 {
        0
    } else {
        text_cells(s.drop_last()) + cells(s.last())
    }
}

/// Display width of one character in terminal cells. A compact approximation:
/// Latin takes one cell, CJK, kana, Hangul and emoji two, combining marks and
/// joiners none.
pub fn char_width(c: char) -> (w: usize)
    ensures
        w == cells(c),
{
    let u: u32 = c as u32;
    if (0x0300 <= u && u <= 0x036f) || (0x1ab0 <= u && u <= 0x1aff) || (0x1dc0 <= u && u <= 0x1dff)
        || (0x20d0 <= u && u <= 0x20ff) || (0xfe00 <= u && u <= 0xfe0f) || (0xfe20 <= u && u
        <= 0xfe2f) || (0x200b <= u && u <= 0x200d) || (0x1f3fb <= u && u <= 0x1f3ff) {
        0
    } else if (0x1100 <= u && u <= 0x115f) || (0x2e80 <= u && u <= 0xa4cf) || (0xac00 <= u && u
        <= 0xd7a3) || (0xf900 <= u && u <= 0xfaff) || (0xfe10 <= u && u <= 0xfe19) || (0xfe30 <= u
        && u <= 0xfe6f) || (0xff00 <= u && u <= 0xff60) || (0xffe0 <= u && u <= 0xffe6) || (0x1f300
        <= u && u <= 0x1faff) || (0x20000 <= u && u <= 0x3fffd) {
        2
    } else {
        1
    }
}

/// A text takes no more cells than bytes.
pub proof fn lemma_cells_within_bytes(s: Seq<char>)
    ensures
        text_cells(s) <= encode_utf8(s).len(),
    decreases s.len(),
{
    if s.len() > 0 {
        lemma_cells_within_bytes(s.drop_last());
        lemma_encode_push(s.drop_last(), s.last());
        assert(s.drop_last().push(s.last()) == s);
        assert(cells(s.last()) <= char_bytes(s.last()));
    }
}

proof fn lemma_cells_of_front(s: Seq<char>, k: int)
    requires
        0 <= k <= s.len(),
    ensures
        text_cells(s.take(k)) <= text_cells(s),
    decreases s.len() - k,
{
    if k < s.len() {
        lemma_cells_of_front(s, k + 1);
        assert(s.take(k + 1).drop_last() == s.take(k));
    } else {
        assert(s.take(k) == s);
    }
}

/// Display width of a string in terminal cells.
pub fn str_width(s: &str) -> (w: usize)
    ensures
        w == text_cells(s@),
{
    let bytes = s.as_bytes();
    let n: usize = bytes.len();
    proof {
        lemma_cells_within_bytes(s@);
    }
    let mut w: usize = 0;
    for c in it: s.chars()
        invariant
            it.seq() == s@,
            w == text_cells(s@.take(it.index() as int)),
            text_cells(s@) <= n,
    {
        let ghost i = it.index() as int;
        assert(s@.take(i + 1).drop_last() == s@.take(i));
        assert(s@.take(i + 1).last() == c);
        proof {
            lemma_cells_of_front(s@, i + 1);
        }
        w += char_width(c);
    }
    assert(s@.take(s@.len() as int) == s@);
    w
}

// ---------------------------------------------------------------------------
// Padding
// ---------------------------------------------------------------------------

/// Whether an escape sequence goes on after a character of it. The bracket
/// behind the escape character introduces the sequence; the first other final
/// byte ends it.
pub open spec fn escape_goes_on(c: char) -> bool {
    c == '[' || !final_char(c)
}

/// What has been made of the front of a line: what is kept of it, how many
/// cells that takes, and whether the front ends inside an escape sequence.
pub struct Clip {
    pub kept: Seq<char>,
    pub vis: nat,
    pub in_esc: bool,
}

/// The line clipped to a width: escape sequences are kept whole, visible
/// characters while they fit.
pub open spec fn clip(s: Seq<char>, width: nat) -> Clip
    decreases s.len(),
{
    if s.len() == 0 {
        Clip { kept: s, vis: 0, in_esc: false }
    } else {
        let front = clip(s.drop_last(), width);
        let c = s.last();
        if front.in_esc {
            Clip { kept: front.kept.push(c), vis: front.vis, in_esc: escape_goes_on(c) }
        } else if c == ESC {
            Clip { kept: front.kept.push(c), vis: front.vis, in_esc: true }
        } else if front.vis < width && front.vis + cells(c) <= width {
            Clip { kept: front.kept.push(c), vis: front.vis + cells(c), in_esc: false }
        } else {
            front
        }
    }
}

pub open spec fn spaces(n: nat) -> Seq<char> {
    Seq::new(n, |i: int| ' ')
}

/// The line clipped to a width, and filled up to it with spaces.
pub open spec fn padded(s: Seq<char>, width: nat) -> Seq<char> {
    clip(s, width).kept + spaces((width - clip(s, width).vis) as nat)
}

/// Appends a number of spaces.
pub fn push_spaces(out: &mut String, n: usize)
    ensures
        final(out)@ == old(out)@ + spaces(n as nat),
{
    let ghost start = out@;
    let mut i: usize = 0;
    assert(out@ =~= start + spaces(0));
    while i < n
        invariant
            i <= n,
            out@ == start + spaces(i as nat),
        decreases n - i,
    {
        out.push(' ');
        assert(out@ =~= start + spaces((i + 1) as nat));
        i += 1;
    }
}

/// Pads or clips a line to a width in cells. Escape sequences take no cell and
/// are kept; visible characters behind the width are dropped, and a wide one
/// that does not fit leaves its cell to the padding.
pub fn ansi_pad(line: &mut String, width: usize)
    ensures
        final(line)@ == padded(old(line)@, width as nat),
{
    let ghost s = line@;
    let mut out = String::new();
    let mut vis: usize = 0;
    let mut in_esc = false;
    for c in it: line.as_str().chars()
        invariant
            it.seq() == s,
            out@ == clip(s.take(it.index() as int), width as nat).kept,
            vis == clip(s.take(it.index() as int), width as nat).vis,
            in_esc == clip(s.take(it.index() as int), width as nat).in_esc,
            vis <= width,
    {
        let ghost i = it.index() as int;
        assert(s.take(i + 1).drop_last() == s.take(i));
        assert(s.take(i + 1).last() == c);
        if in_esc {
            out.push(c);
            in_esc = c == '[' || !is_final_char(c);
        } else if c == ESC {
            out.push(c);
            in_esc = true;
        } else if vis < width {
            let w: usize = char_width(c);
            if w <= width - vis {
                out.push(c);
                vis += w;
            }
        }
    }
    assert(s.take(s.len() as int) == s);
    push_spaces(&mut out, width - vis);
    *line = out;
}

// ---------------------------------------------------------------------------
// Laws
// ---------------------------------------------------------------------------

/// Whether a line ends inside an escape sequence.
pub open spec fn ends_in_escape(s: Seq<char>) -> bool
    decreases s.len(),
{
    if s.len() == 0 {
        false
    } else if ends_in_escape(s.drop_last()) {
        escape_goes_on(s.last())
    } else {
        s.last() == ESC
    }
}

/// What a terminal shows of a line: what is not part of an escape sequence.
pub open spec fn shown_text(s: Seq<char>) -> Seq<char>
    decreases s.len(),
{
    if s.len() == 0 {
        s
    } else if ends_in_escape(s.drop_last()) || s.last() == ESC {
        shown_text(s.drop_last())
    } else {
        shown_text(s.drop_last()).push(s.last())
    }
}

/// The escape sequences of a line.
pub open spec fn escapes(s: Seq<char>) -> Seq<char>
    decreases s.len(),
{
    if s.len() == 0 {
        s
    } else if ends_in_escape(s.drop_last()) || s.last() == ESC {
        escapes(s.drop_last()).push(s.last())
    } else {
        escapes(s.drop_last())
    }
}

proof fn lemma_push(s: Seq<char>, c: char)
    ensures
        ends_in_escape(s.push(c)) == (if ends_in_escape(s) {
            escape_goes_on(c)
        } else {
            c == ESC
        }),
        shown_text(s.push(c)) == (if ends_in_escape(s) || c == ESC {
            shown_text(s)
        } else {
            shown_text(s).push(c)
        }),
        escapes(s.push(c)) == (if ends_in_escape(s) || c == ESC {
            escapes(s).push(c)
        } else {
            escapes(s)
        }),
{
    assert(s.push(c).drop_last() == s);
}

/// What follows a line that leaves no escape sequence open decides whether one
/// is left open.
pub proof fn lemma_closed_front(a: Seq<char>, b: Seq<char>)
    requires
        !ends_in_escape(a),
    ensures
        ends_in_escape(a + b) == ends_in_escape(b),
    decreases b.len(),
{
    if b.len() > 0 {
        lemma_closed_front(a, b.drop_last());
        assert((a + b).drop_last() == a + b.drop_last());
    } else {
        assert(a + b == a);
    }
}

/// An open escape sequence goes on through characters that do not end it.
pub proof fn lemma_open_front(a: Seq<char>, b: Seq<char>)
    requires
        ends_in_escape(a),
        forall|i: int| 0 <= i < b.len() ==> escape_goes_on(#[trigger] b[i]),
    ensures
        ends_in_escape(a + b),
    decreases b.len(),
{
    if b.len() > 0 {
        let front = b.drop_last();
        assert forall|i: int| 0 <= i < front.len() implies escape_goes_on(#[trigger] front[i]) by {
            assert(front[i] == b[i]);
        }
        lemma_open_front(a, front);
        assert((a + b).drop_last() == a + front);
        assert(escape_goes_on(b[b.len() - 1]));
    } else {
        assert(a + b == a);
    }
}

proof fn lemma_clip(s: Seq<char>, width: nat)
    ensures
        clip(s, width).in_esc == ends_in_escape(s),
        ends_in_escape(clip(s, width).kept) == ends_in_escape(s),
        text_cells(shown_text(clip(s, width).kept)) == clip(s, width).vis,
        escapes(clip(s, width).kept) == escapes(s),
        clip(s, width).vis <= width,
    decreases s.len(),
{
    if s.len() > 0 {
        let front = s.drop_last();
        let c = s.last();
        lemma_clip(front, width);
        let kept = clip(front, width).kept;
        lemma_push(kept, c);
        lemma_push(front, c);
        assert(front.push(c) == s);
        assert(shown_text(kept).push(c).drop_last() == shown_text(kept));
    }
}

proof fn lemma_spaces(s: Seq<char>, n: nat)
    requires
        !ends_in_escape(s),
    ensures
        !ends_in_escape(s + spaces(n)),
        shown_text(s + spaces(n)) == shown_text(s) + spaces(n),
        escapes(s + spaces(n)) == escapes(s),
        text_cells(shown_text(s) + spaces(n)) == text_cells(shown_text(s)) + n,
    decreases n,
{
    if n == 0 {
        assert(s + spaces(0) =~= s);
        assert(shown_text(s) + spaces(0) =~= shown_text(s));
    } else {
        let m = (n - 1) as nat;
        lemma_spaces(s, m);
        assert(spaces(n) =~= spaces(m).push(' '));
        assert(s + spaces(n) =~= (s + spaces(m)).push(' '));
        lemma_push(s + spaces(m), ' ');
        let t = shown_text(s);
        assert(t + spaces(n) =~= (t + spaces(m)).push(' '));
        assert((t + spaces(m)).push(' ').drop_last() == t + spaces(m));
    }
}

/// A padded line takes exactly the width that it was padded to, and keeps the
/// escape sequences of the line, where no sequence is left open.
pub proof fn law_padded_lines_have_the_width(s: Seq<char>, width: nat)
    requires
        !ends_in_escape(s),
    ensures
        text_cells(shown_text(padded(s, width))) == width,
        escapes(padded(s, width)) == escapes(s),
        !ends_in_escape(padded(s, width)),
{
    lemma_clip(s, width);
    lemma_spaces(clip(s, width).kept, (width - clip(s, width).vis) as nat);
}

proof fn lemma_clip_whole(s: Seq<char>, width: nat)
    requires
        text_cells(shown_text(s)) < width,
    ensures
        clip(s, width).kept == s,
        clip(s, width).vis == text_cells(shown_text(s)),
    decreases s.len(),
{
    if s.len() > 0 {
        let front = s.drop_last();
        let c = s.last();
        lemma_clip(front, width);
        assert(shown_text(front).push(c).drop_last() == shown_text(front));
        lemma_clip_whole(front, width);
        assert(front.push(c) == s);
    }
}

/// A line with room to spare is kept as it is.
pub proof fn law_short_lines_are_kept(s: Seq<char>, width: nat)
    requires
        text_cells(shown_text(s)) < width,
    ensures
        padded(s, width) == s + spaces((width - text_cells(shown_text(s))) as nat),
{
    lemma_clip_whole(s, width);
}

/// The widths by block: combining marks, joiners, variation selectors and skin
/// tones take no cell; Hangul, CJK, kana, fullwidth forms and emoji two; the rest
/// of the characters one.
pub proof fn law_widths_by_block(c: char, u: u32)
    requires
        u == c as u32,
    ensures
        u < 0x300 ==> cells(c) == 1,
        0x300 <= u <= 0x36f || 0x1ab0 <= u <= 0x1aff || 0x1dc0 <= u <= 0x1dff || 0x20d0 <= u
            <= 0x20ff ==> cells(c) == 0,
        0x200b <= u <= 0x200d || 0xfe00 <= u <= 0xfe0f || 0xfe20 <= u <= 0xfe2f || 0x1f3fb <= u
            <= 0x1f3ff ==> cells(c) == 0,
        0x370 <= u <= 0x10ff ==> cells(c) == 1,
        0x1100 <= u <= 0x115f || 0x2e80 <= u <= 0xa4cf || 0xac00 <= u <= 0xd7a3 || 0xf900 <= u
            <= 0xfaff ==> cells(c) == 2,
        0xfe10 <= u <= 0xfe19 || 0xfe30 <= u <= 0xfe6f || 0xff00 <= u <= 0xff60 || 0xffe0 <= u
            <= 0xffe6 ==> cells(c) == 2,
        0x1f300 <= u <= 0x1f3fa || 0x1f400 <= u <= 0x1faff || 0x20000 <= u <= 0x3fffd ==> cells(c)
            == 2,
        0x1160 <= u <= 0x1aaf || 0x1b00 <= u <= 0x1dbf || 0x1e00 <= u <= 0x200a || 0x200e <= u
            <= 0x20cf || 0x2100 <= u <= 0x2e7f ==> cells(c) == 1,
        0xa4d0 <= u <= 0xabff || 0xd7a4 <= u <= 0xf8ff || 0xfb00 <= u <= 0xfdff || 0xfe1a <= u
            <= 0xfe1f || 0xfe70 <= u <= 0xfeff ==> cells(c) == 1,
        0xff61 <= u <= 0xffdf || 0xffe7 <= u <= 0x1f2ff || 0x1fb00 <= u <= 0x1ffff || 0x3fffe <= u
            ==> cells(c) == 1,
{
}

/// The width of a text is the sum of the widths of its parts.
pub proof fn law_widths_are_added(a: Seq<char>, b: Seq<char>, c: char)
    ensures
        text_cells(a + b) == text_cells(a) + text_cells(b),
        text_cells(seq![c]) == cells(c),
    decreases b.len(),
{
    if b.len() > 0 {
        law_widths_are_added(a, b.drop_last(), c);
        assert((a + b).drop_last() == a + b.drop_last());
    } else {
        assert(a + b == a);
    }
    assert(seq![c].drop_last() =~= Seq::<char>::empty());
    assert(text_cells(Seq::<char>::empty()) == 0);
}

proof fn lemma_clip_fitting(s: Seq<char>, width: nat)
    requires
        text_cells(shown_text(s)) <= width,
        text_cells(shown_text(s)) < width || forall|i: int|
            0 <= i < shown_text(s).len() ==> cells(#[trigger] shown_text(s)[i]) > 0,
    ensures
        clip(s, width).kept == s,
        clip(s, width).vis == text_cells(shown_text(s)),
    decreases s.len(),
{
    if s.len() > 0 {
        let front = s.drop_last();
        let c = s.last();
        lemma_clip(front, width);
        let t = shown_text(front);
        assert(t.push(c).drop_last() == t);
        assert(front.push(c) == s);
        if ends_in_escape(front) || c == ESC {
            assert(shown_text(s) == t);
        } else {
            assert(shown_text(s) == t.push(c));
            if text_cells(shown_text(s)) == width {
                assert(cells(shown_text(s)[t.len() as int]) > 0);
                assert forall|i: int| 0 <= i < t.len() implies cells(#[trigger] t[i]) > 0 by {
                    assert(shown_text(s)[i] == t[i]);
                }
            }
        }
        lemma_clip_fitting(front, width);
    }
}

proof fn lemma_clip_extends(a: Seq<char>, b: Seq<char>, width: nat)
    ensures
        clip(a, width).kept.len() <= clip(a + b, width).kept.len(),
        clip(a + b, width).kept.take(clip(a, width).kept.len() as int) == clip(a, width).kept,
    decreases b.len(),
{
    let kept = clip(a, width).kept;
    if b.len() > 0 {
        lemma_clip_extends(a, b.drop_last(), width);
        let front = a + b.drop_last();
        assert((a + b).drop_last() == front);
        let before = clip(front, width).kept;
        let c = b.last();
        assert((a + b).last() == c);
        assert(before.push(c).take(kept.len() as int) =~= before.take(kept.len() as int));
    } else {
        assert(a + b == a);
        assert(kept.take(kept.len() as int) =~= kept);
    }
}

/// Whatever follows, a front of a line that fits is kept as it is, in any
/// script. A front fits if it leaves a cell free, or if it fills the width with
/// characters that each take a cell.
pub proof fn law_a_fitting_front_is_kept(a: Seq<char>, b: Seq<char>, width: nat)
    requires
        text_cells(shown_text(a)) <= width,
        text_cells(shown_text(a)) < width || forall|i: int|
            0 <= i < shown_text(a).len() ==> cells(#[trigger] shown_text(a)[i]) > 0,
    ensures
        padded(a + b, width).len() >= a.len(),
        padded(a + b, width).take(a.len() as int) == a,
{
    lemma_clip_fitting(a, width);
    lemma_clip_extends(a, b, width);
    let kept = clip(a + b, width).kept;
    assert(padded(a + b, width).take(a.len() as int) =~= kept.take(a.len() as int));
}

/// Escape sequences begin with ESC and end with the first final byte other than
/// the bracket; what is shown is all the rest, in its order.
pub proof fn law_escapes_are_not_shown(a: Seq<char>, c: char, params: Seq<char>, last: char)
    requires
        !ends_in_escape(a),
        forall|i: int|
            0 <= i < params.len() ==> (#[trigger] params[i] as u32) < 0x40 || params[i] == '[',
        0x40 <= (last as u32) <= 0x7e && last != '[',
    ensures
        (c as u32) != 0x1b ==> shown_text(a.push(c)) == shown_text(a).push(c) && !ends_in_escape(
            a.push(c),
        ),
        shown_text(a.push(ESC) + params.push(last)) == shown_text(a),
        !ends_in_escape(a.push(ESC) + params.push(last)),
    decreases params.len(),
{
    lemma_push(a, c);
    lemma_push(a, ESC);
    lemma_inside_escape(a.push(ESC), params);
    lemma_push(a.push(ESC) + params, last);
    assert(a.push(ESC) + params.push(last) =~= (a.push(ESC) + params).push(last));
}

proof fn lemma_inside_escape(s: Seq<char>, params: Seq<char>)
    requires
        ends_in_escape(s),
        forall|i: int|
            0 <= i < params.len() ==> (#[trigger] params[i] as u32) < 0x40 || params[i] == '[',
    ensures
        ends_in_escape(s + params),
        shown_text(s + params) == shown_text(s),
    decreases params.len(),
{
    if params.len() > 0 {
        let front = params.drop_last();
        assert forall|i: int| 0 <= i < front.len() implies (#[trigger] front[i] as u32) < 0x40
            || front[i] == '[' by {
            assert(front[i] == params[i]);
        }
        lemma_inside_escape(s, front);
        lemma_push(s + front, params.last());
        assert((s + front).push(params.last()) =~= s + params);
        assert((params[params.len() - 1] as u32) < 0x40 || params[params.len() - 1] == '[');
    } else {
        assert(s + params =~= s);
    }
}

} // verus!
