//! The preview pane: what it is rendered for, and what it shows.

use crate::listing::FileKind;
use crate::number::{
    decimal, is_digit, law_numerals_read_back, lemma_decimal, push_decimal, push_signed,
    signed_decimal,
};
use crate::protocol::ESC;
use crate::serve::Pane;
use crate::text::{lossy_text, str_eq, utf8_lossy};
use crate::tui::app::{opt_text, row_texts, App, AppView};
use crate::tui::width::{
    ansi_pad, ends_in_escape, law_padded_lines_have_the_width, lemma_closed_front,
    lemma_open_front, padded, push_spaces, shown_text, spaces, text_cells,
};
use vstd::prelude::*;
use vstd::string::*;

verus! {

/// What a file looked like: its size, and the seconds and nanoseconds of its
/// last change.
#[derive(Clone, Copy, Debug, PartialEq, Eq, Structural)]
pub struct Stamp {
    pub size: u64,
    pub mtime: i64,
    pub mtime_nsec: i64,
}

/// A render to start.
#[derive(Debug)]
pub struct Job {
    pub path: Vec<u8>,
    pub is_dir: bool,
    pub width: usize,
    pub rows: usize,
    /// Whether an image may be sent as graphics.
    pub kitty: bool,
    pub key: String,
}

/// What has become of the render in flight.
#[derive(Debug)]
pub enum PaneEvent {
    /// It is done.
    Ready { key: String, pane: Pane, kitty: Option<String> },
    /// It goes on.
    Pending,
    /// It has failed.
    Gone,
}

// ---------------------------------------------------------------------------
// Starting a render
// ---------------------------------------------------------------------------

pub open spec fn stamp_text(stamp: Option<Stamp>) -> Seq<char> {
    match stamp {
        Some(s) => decimal(s.size as nat) + "."@ + signed_decimal(s.mtime as int) + "."@
            + signed_decimal(s.mtime_nsec as int),
        None => "?"@,
    }
}

/// What tells renders apart: the path, the geometry, the kind and the stamp.
pub open spec fn key_text(
    path: Seq<char>,
    width: nat,
    rows: nat,
    is_dir: bool,
    stamp: Option<Stamp>,
) -> Seq<char> {
    path + "|"@ + decimal(width) + "|"@ + decimal(rows) + "|"@ + (if is_dir {
        "true"@
    } else {
        "false"@
    }) + "|"@ + stamp_text(stamp)
}

/// The key of a render.
pub fn render_key(
    path: &str,
    width: usize,
    rows: usize,
    is_dir: bool,
    stamp: Option<Stamp>,
) -> (key: String)
    ensures
        key@ == key_text(path@, width as nat, rows as nat, is_dir, stamp),
{
    let mut key = String::new();
    key.push_str(path);
    key.push_str("|");
    push_decimal(&mut key, width as u128);
    key.push_str("|");
    push_decimal(&mut key, rows as u128);
    key.push_str("|");
    if is_dir {
        key.push_str("true");
    } else {
        key.push_str("false");
    }
    key.push_str("|");
    match stamp {
        Some(s) => {
            push_decimal(&mut key, s.size as u128);
            key.push_str(".");
            push_signed(&mut key, s.mtime);
            key.push_str(".");
            push_signed(&mut key, s.mtime_nsec);
        },
        None => {
            key.push_str("?");
        },
    }
    assert(key@ =~= key_text(path@, width as nat, rows as nat, is_dir, stamp));
    key
}

impl AppView {
    /// The selected entry has a preview.
    pub open spec fn previews(self) -> bool {
        self.preview_on && self.ranked.len() > 0
    }

    pub open spec fn selected_entry(self) -> crate::listing::Entry {
        self.listing()->0[self.ranked[self.selected as int] as int]
    }

    /// What the pane has to be rendered for.
    pub open spec fn wanted_key(self, stamp: Option<Stamp>) -> Seq<char> {
        let e = self.selected_entry();
        key_text(
            lossy_text(e.path@),
            self.preview_w as nat,
            self.rows() as nat,
            e.kind == FileKind::Dir,
            stamp,
        )
    }

    /// The state with a render for a key in flight, unless the pane has been
    /// rendered for that key or is being rendered for it.
    pub open spec fn asking_for(self, key: Seq<char>) -> AppView {
        if self.pane_key == Some(key) {
            self
        } else {
            AppView { pane_key: Some(key), rendering: true, ..self }
        }
    }
}

impl App {
    /// The path whose stamp the preview depends on.
    pub fn preview_target(&self) -> (r: Option<&Vec<u8>>)
        requires
            self.wf(),
            !self.needs_rank,
        ensures
            match r {
                Some(path) => self@.previews() && *path == self@.selected_entry().path,
                None => !self@.previews(),
            },
    {
        if self.preview_on && self.ranked.len() > 0 {
            Some(&self.entry_at(self.selected).path)
        } else {
            None
        }
    }

    /// Asks for a render under a key. The answer says whether it has to be
    /// started.
    pub fn ask_for(&mut self, key: String) -> (r: bool)
        requires
            old(self).wf(),
        ensures
            final(self)@ == old(self)@.asking_for(key@),
            r == (old(self)@.pane_key != Some(key@)),
            final(self).wf(),
    {
        let same = match &self.pane_key {
            Some(k) => str_eq(k.as_str(), key.as_str()),
            None => false,
        };
        if same {
            return false;
        }
        self.rendering = true;
        self.pane_key = Some(key);
        true
    }

    /// Brings the pane in line with the selection. Where another render is
    /// needed, it is returned for a worker to do.
    pub fn refresh_pane(&mut self, stamp: Option<Stamp>) -> (job: Option<Job>)
        requires
            old(self).wf(),
            !old(self).needs_rank,
        ensures
            final(self)@ == (if old(self)@.previews() {
                old(self)@.asking_for(old(self)@.wanted_key(stamp))
            } else {
                old(self)@.without_pane()
            }),
            job is Some <==> old(self)@.previews() && old(self)@.pane_key != Some(
                old(self)@.wanted_key(stamp),
            ),
            job matches Some(j) ==> {
                let e = old(self)@.selected_entry();
                &&& j.path@ == e.path@
                &&& j.is_dir == (e.kind == FileKind::Dir)
                &&& j.width == old(self).preview_w
                &&& j.rows == old(self)@.rows()
                &&& j.kitty == old(self).kitty
                &&& j.key@ == old(self)@.wanted_key(stamp)
            },
            final(self).wf(),
            !final(self).needs_rank,
    {
        if !self.preview_on || self.ranked.len() == 0 {
            self.clear_pane();
            return None;
        }
        let e = self.entry_at(self.selected);
        let path = e.path.clone();
        assert(path@ =~= e.path@);
        let is_dir = e.kind == FileKind::Dir;
        let rows: usize = self.list_rows();
        let width: usize = self.preview_w;
        let shown = utf8_lossy(path.as_slice());
        let key = render_key(shown.as_str(), width, rows, is_dir, stamp);
        let asked = key.clone();
        let kitty = self.kitty;
        if self.ask_for(asked) {
            Some(Job { path, is_dir, width, rows, kitty, key })
        } else {
            None
        }
    }
}

// ---------------------------------------------------------------------------
// Picking a render up
// ---------------------------------------------------------------------------

/// The colour of dim text.
pub open spec fn dim_text(dim: bool) -> Seq<char> {
    if dim {
        seq![ESC] + "[38;2;140;150;165m"@
    } else {
        Seq::empty()
    }
}

/// One row of the pane.
pub open spec fn pane_text(pane: Pane, width: nat, i: int) -> Seq<char> {
    if i < pane.lines@.len() {
        padded(dim_text(pane.dim) + pane.lines@[i]@, width)
    } else {
        spaces(width)
    }
}

/// The rows of the pane.
pub open spec fn pane_texts(pane: Pane, width: nat, rows: nat) -> Seq<Seq<char>> {
    Seq::new(rows, |i: int| pane_text(pane, width, i))
}

impl AppView {
    /// The state with a rendered pane. An image is drawn over blank rows, and
    /// is placed anew.
    pub open spec fn showing(self, pane: Pane, kitty: Option<Seq<char>>) -> AppView {
        let width = self.preview_w as nat;
        if kitty is Some {
            AppView {
                pane_kitty: kitty,
                kitty_key: None,
                pane: Seq::new(self.rows() as nat, |i: int| spaces(width)),
                pane_kind: 2,
                ..self
            }
        } else {
            AppView {
                pane_kitty: None,
                pane: pane_texts(pane, width, self.rows() as nat),
                pane_kind: if pane.dim {
                    1
                } else {
                    2
                },
                ..self
            }
        }
    }

    /// What becomes of the state, and whether the pane has changed. A render
    /// for another key is stale.
    pub open spec fn polled(self, event: PaneEvent) -> (AppView, bool) {
        let idle = AppView { rendering: false, ..self };
        if !self.rendering {
            (self, false)
        } else {
            match event {
                PaneEvent::Ready { key, pane, kitty } => if self.preview_on && self.pane_key
                    == Some(key@) {
                    (idle.showing(pane, opt_text(kitty)), true)
                } else {
                    (idle, false)
                },
                PaneEvent::Pending => (self, false),
                PaneEvent::Gone => (idle, false),
            }
        }
    }
}

fn blank(width: usize) -> (r: String)
    ensures
        r@ == spaces(width as nat),
{
    let mut r = String::new();
    push_spaces(&mut r, width);
    assert(r@ =~= spaces(width as nat));
    r
}

fn blank_rows(width: usize, rows: usize) -> (out: Vec<String>)
    ensures
        row_texts(out@) == Seq::new(rows as nat, |i: int| spaces(width as nat)),
{
    let mut out: Vec<String> = Vec::new();
    let mut i: usize = 0;
    while i < rows
        invariant
            i <= rows,
            out@.len() == i,
            forall|k: int| 0 <= k < i ==> (#[trigger] out@[k])@ == spaces(width as nat),
        decreases rows - i,
    {
        out.push(blank(width));
        i += 1;
    }
    assert(row_texts(out@) =~= Seq::new(rows as nat, |i: int| spaces(width as nat)));
    out
}

/// Formats and clips a rendered pane to rows of a width.
pub fn pane_rows(pane: &Pane, width: usize, rows: usize) -> (out: Vec<String>)
    ensures
        row_texts(out@) == pane_texts(*pane, width as nat, rows as nat),
{
    let mut out: Vec<String> = Vec::new();
    let mut i: usize = 0;
    while i < rows
        invariant
            i <= rows,
            out@.len() == i,
            forall|k: int| 0 <= k < i ==> (#[trigger] out@[k])@ == pane_text(*pane, width as nat, k),
        decreases rows - i,
    {
        if i < pane.lines.len() {
            let mut s = String::new();
            if pane.dim {
                s.push(ESC);
                s.push_str("[38;2;140;150;165m");
            }
            assert(s@ =~= dim_text(pane.dim));
            s.push_str(pane.lines[i].as_str());
            ansi_pad(&mut s, width);
            out.push(s);
        } else {
            out.push(blank(width));
        }
        i += 1;
    }
    assert(row_texts(out@) =~= pane_texts(*pane, width as nat, rows as nat));
    out
}

impl App {
    /// Shows a rendered pane, or blank rows below an image.
    pub fn install_pane(&mut self, pane: &Pane, kitty: Option<String>)
        requires
            old(self).wf(),
        ensures
            final(self)@ == old(self)@.showing(*pane, opt_text(kitty)),
            final(self).wf(),
    {
        let rows: usize = self.list_rows();
        let width: usize = self.preview_w;
        let has_image = kitty.is_some();
        let shown = if has_image {
            blank_rows(width, rows)
        } else {
            pane_rows(pane, width, rows)
        };
        self.pane_kitty = kitty;
        self.pane = shown;
        if has_image {
            self.kitty_key = None;
            self.pane_kind = 2;
        } else if pane.dim {
            self.pane_kind = 1;
        } else {
            self.pane_kind = 2;
        }
    }

    /// Picks up what has become of the render in flight. The answer says
    /// whether the pane has changed.
    pub fn poll_pane(&mut self, event: PaneEvent) -> (r: bool)
        requires
            old(self).wf(),
        ensures
            (final(self)@, r) == old(self)@.polled(event),
            final(self).wf(),
    {
        if !self.rendering {
            return false;
        }
        match event {
            PaneEvent::Ready { key, pane, kitty } => {
                self.rendering = false;
                let same = match &self.pane_key {
                    Some(k) => str_eq(k.as_str(), key.as_str()),
                    None => false,
                };
                if self.preview_on && same {
                    self.install_pane(&pane, kitty);
                    true
                } else {
                    false
                }
            },
            PaneEvent::Pending => false,
            PaneEvent::Gone => {
                self.rendering = false;
                false
            },
        }
    }
}

// ---------------------------------------------------------------------------
// Laws
// ---------------------------------------------------------------------------

/// Two texts that are followed by the first copy of one character are told
/// apart by what stands before it.
proof fn lemma_split_at(a: Seq<char>, b: Seq<char>, c: char, x: Seq<char>, y: Seq<char>)
    requires
        !a.contains(c),
        !b.contains(c),
        a + seq![c] + x == b + seq![c] + y,
    ensures
        a == b,
        x == y,
{
    let s = a + seq![c] + x;
    let t = b + seq![c] + y;
    assert(s[a.len() as int] == c);
    assert(t[b.len() as int] == c);
    if a.len() < b.len() {
        assert(t[a.len() as int] == b[a.len() as int]);
        assert(b.contains(b[a.len() as int]));
    }
    if b.len() < a.len() {
        assert(s[b.len() as int] == a[b.len() as int]);
        assert(a.contains(a[b.len() as int]));
    }
    assert forall|i: int| 0 <= i < a.len() implies a[i] == b[i] by {
        assert(s[i] == a[i]);
        assert(t[i] == b[i]);
    }
    assert(a =~= b);
    assert(x =~= s.skip(a.len() as int + 1));
    assert(y =~= t.skip(b.len() as int + 1));
}

proof fn lemma_numeral_avoids(n: nat, c: char)
    requires
        !is_digit(c),
    ensures
        !decimal(n).contains(c),
        decimal(n).len() > 0,
        is_digit(decimal(n)[0]),
{
    lemma_decimal(n);
    if decimal(n).contains(c) {
        let i = choose|i: int| 0 <= i < decimal(n).len() && decimal(n)[i] == c;
        assert(is_digit(decimal(n)[i]));
    }
    assert(is_digit(decimal(n)[0]));
}

proof fn lemma_numeral_injective(a: nat, b: nat)
    requires
        decimal(a) == decimal(b),
    ensures
        a == b,
{
    let max = a + b;
    law_numerals_read_back(a, max);
    law_numerals_read_back(b, max);
}

proof fn lemma_signed_avoids(n: int, c: char)
    requires
        !is_digit(c),
        c != '-',
    ensures
        !signed_decimal(n).contains(c),
{
    let size = if n < 0 {
        (-n) as nat
    } else {
        n as nat
    };
    lemma_numeral_avoids(size, c);
    let s = signed_decimal(n);
    if s.contains(c) {
        let i = choose|i: int| 0 <= i < s.len() && s[i] == c;
        if n < 0 {
            assert(decimal(size).contains(decimal(size)[i - 1]));
        } else {
            assert(decimal(size).contains(decimal(size)[i]));
        }
    }
}

proof fn lemma_signed_injective(a: int, b: int)
    requires
        signed_decimal(a) == signed_decimal(b),
    ensures
        a == b,
{
    let x = if a < 0 {
        (-a) as nat
    } else {
        a as nat
    };
    let y = if b < 0 {
        (-b) as nat
    } else {
        b as nat
    };
    lemma_numeral_avoids(x, '-');
    lemma_numeral_avoids(y, '-');
    assert(signed_decimal(a)[0] == signed_decimal(b)[0]);
    if a < 0 {
        assert(signed_decimal(a).skip(1) =~= decimal(x));
        assert(signed_decimal(b).skip(1) =~= decimal(y));
    }
    lemma_numeral_injective(x, y);
}

proof fn lemma_stamp_injective(a: Option<Stamp>, b: Option<Stamp>)
    requires
        stamp_text(a) == stamp_text(b),
    ensures
        a == b,
{
    reveal_strlit("?");
    reveal_strlit(".");
    assert("."@ =~= seq!['.']);
    match (a, b) {
        (Some(s), Some(t)) => {
            let (x, y) = (decimal(s.size as nat), decimal(t.size as nat));
            let (u, v) = (signed_decimal(s.mtime as int), signed_decimal(t.mtime as int));
            let (p, q) = (
                signed_decimal(s.mtime_nsec as int),
                signed_decimal(t.mtime_nsec as int),
            );
            lemma_numeral_avoids(s.size as nat, '.');
            lemma_numeral_avoids(t.size as nat, '.');
            lemma_signed_avoids(s.mtime as int, '.');
            lemma_signed_avoids(t.mtime as int, '.');
            assert(stamp_text(a) =~= x + seq!['.'] + (u + seq!['.'] + p));
            assert(stamp_text(b) =~= y + seq!['.'] + (v + seq!['.'] + q));
            lemma_split_at(x, y, '.', u + seq!['.'] + p, v + seq!['.'] + q);
            lemma_split_at(u, v, '.', p, q);
            lemma_numeral_injective(s.size as nat, t.size as nat);
            lemma_signed_injective(s.mtime as int, t.mtime as int);
            lemma_signed_injective(s.mtime_nsec as int, t.mtime_nsec as int);
        },
        (Some(s), None) => {
            lemma_numeral_avoids(s.size as nat, '?');
            assert(stamp_text(a)[0] == decimal(s.size as nat)[0]);
        },
        (None, Some(t)) => {
            lemma_numeral_avoids(t.size as nat, '?');
            assert(stamp_text(b)[0] == decimal(t.size as nat)[0]);
        },
        (None, None) => {},
    }
}

spec fn kind_word(is_dir: bool) -> Seq<char> {
    if is_dir {
        "true"@
    } else {
        "false"@
    }
}

spec fn key_tail(width: nat, rows: nat, is_dir: bool, stamp: Option<Stamp>) -> Seq<char> {
    let bar = seq!['|'];
    decimal(width) + bar + (decimal(rows) + bar + (kind_word(is_dir) + bar + stamp_text(stamp)))
}

proof fn lemma_key_tail(
    path: Seq<char>,
    width: nat,
    rows: nat,
    is_dir: bool,
    stamp: Option<Stamp>,
)
    ensures
        key_text(path, width, rows, is_dir, stamp).skip(path.len() as int + 1) == key_tail(
            width,
            rows,
            is_dir,
            stamp,
        ),
{
    reveal_strlit("|");
    let bar = seq!['|'];
    assert("|"@ =~= bar);
    let (w, r, k, t) = (decimal(width), decimal(rows), kind_word(is_dir), stamp_text(stamp));
    let key = path + bar + w + bar + r + bar + k + bar + t;
    assert(key_text(path, width, rows, is_dir, stamp) == key);
    assert(key =~= path + bar + (w + bar + (r + bar + (k + bar + t))));
    let tail = w + bar + (r + bar + (k + bar + t));
    assert((path + bar + tail).skip(path.len() as int + 1) =~= tail);
}

/// A render of a path has another key as soon as the geometry, the kind, the
/// size or the time of the last change is another one, to the nanosecond.
pub proof fn law_every_change_asks_for_another_render(
    path: Seq<char>,
    w1: nat,
    r1: nat,
    d1: bool,
    s1: Option<Stamp>,
    w2: nat,
    r2: nat,
    d2: bool,
    s2: Option<Stamp>,
)
    requires
        key_text(path, w1, r1, d1, s1) == key_text(path, w2, r2, d2, s2),
    ensures
        w1 == w2,
        r1 == r2,
        d1 == d2,
        s1 == s2,
{
    reveal_strlit("true");
    reveal_strlit("false");
    let bar = seq!['|'];
    lemma_key_tail(path, w1, r1, d1, s1);
    lemma_key_tail(path, w2, r2, d2, s2);
    let (t1, t2) = (kind_word(d1), kind_word(d2));
    let (x1, x2) = (t1 + bar + stamp_text(s1), t2 + bar + stamp_text(s2));
    let (y1, y2) = (decimal(r1) + bar + x1, decimal(r2) + bar + x2);
    lemma_numeral_avoids(w1, '|');
    lemma_numeral_avoids(w2, '|');
    lemma_split_at(decimal(w1), decimal(w2), '|', y1, y2);
    lemma_numeral_injective(w1, w2);
    lemma_numeral_avoids(r1, '|');
    lemma_numeral_avoids(r2, '|');
    lemma_split_at(decimal(r1), decimal(r2), '|', x1, x2);
    lemma_numeral_injective(r1, r2);
    lemma_split_at(t1, t2, '|', stamp_text(s1), stamp_text(s2));
    assert(t1.len() == t2.len());
    lemma_stamp_injective(s1, s2);
}

/// A render that was asked for before the pane was cleared is never shown.
pub proof fn law_a_cleared_pane_stays_clear(s: AppView, event: PaneEvent)
    ensures
        s.without_pane().polled(event) == (s.without_pane(), false),
{
}

proof fn lemma_dim_is_closed(dim: bool)
    ensures
        !ends_in_escape(dim_text(dim)),
{
    if dim {
        reveal_strlit("[38;2;140;150;165m");
        let s = dim_text(true);
        let esc = seq![ESC];
        let params = s.subrange(1, s.len() - 1);
        assert(esc.drop_last() == Seq::<char>::empty());
        assert(ends_in_escape(esc));
        lemma_open_front(esc, params);
        assert(s.drop_last() =~= esc + params);
        assert(s.last() == 'm');
    }
}

/// Every row of a pane takes the whole width, where no line leaves an escape
/// sequence open.
pub proof fn law_pane_rows_have_the_width(pane: Pane, width: nat, i: int)
    requires
        0 <= i,
        i < pane.lines@.len() ==> !ends_in_escape(pane.lines@[i]@),
    ensures
        text_cells(shown_text(pane_text(pane, width, i))) == width,
{
    if i < pane.lines@.len() {
        lemma_dim_is_closed(pane.dim);
        lemma_closed_front(dim_text(pane.dim), pane.lines@[i]@);
        law_padded_lines_have_the_width(dim_text(pane.dim) + pane.lines@[i]@, width);
    } else {
        let none = Seq::<char>::empty();
        law_padded_lines_have_the_width(none, width);
        assert(padded(none, width) =~= spaces(width));
    }
}

/// The key names the path, the geometry, the kind and the stamp, with bars
/// between them.
pub proof fn law_the_key_names_what_is_rendered(
    path: Seq<char>,
    width: nat,
    rows: nat,
    is_dir: bool,
    size: u64,
    mtime: i64,
    nsec: i64,
)
    ensures
        key_text(path, width, rows, is_dir, Some(Stamp { size, mtime, mtime_nsec: nsec })) == path
            + seq!['|'] + decimal(width) + seq!['|'] + decimal(rows) + seq!['|'] + (if is_dir {
            seq!['t', 'r', 'u', 'e']
        } else {
            seq!['f', 'a', 'l', 's', 'e']
        }) + seq!['|'] + (decimal(size as nat) + seq!['.'] + signed_decimal(mtime as int) + seq![
            '.',
        ] + signed_decimal(nsec as int)),
        stamp_text(None) == seq!['?'],
{
    reveal_strlit("|");
    reveal_strlit(".");
    reveal_strlit("?");
    reveal_strlit("true");
    reveal_strlit("false");
    assert("|"@ =~= seq!['|']);
    assert("."@ =~= seq!['.']);
    assert("?"@ =~= seq!['?']);
    assert("true"@ =~= seq!['t', 'r', 'u', 'e']);
    assert("false"@ =~= seq!['f', 'a', 'l', 's', 'e']);
}

/// A render is asked for exactly if the key is another one, and then it is noted
/// and in flight. Nothing else changes.
pub proof fn law_renders_are_asked_for_once(s: AppView, key: Seq<char>)
    ensures
        s.asking_for(key).pane_key == Some(key),
        s.pane_key != Some(key) ==> s.asking_for(key) == (AppView {
            pane_key: Some(key),
            rendering: true,
            ..s
        }),
        s.asking_for(key).asking_for(key) == s.asking_for(key),
        s.pane_key == Some(key) ==> s.asking_for(key) == s,
{
}

/// A preview is for the selected entry of the view, while the pane is on.
pub proof fn law_the_selected_entry_is_previewed(s: AppView, stamp: Option<Stamp>)
    requires
        s.ranked.len() > 0,
    ensures
        s.previews() <==> s.preview_on,
        s.selected_entry() == s.listing()->0[s.ranked[s.selected as int] as int],
        s.wanted_key(stamp) == key_text(
            lossy_text(s.listing()->0[s.ranked[s.selected as int] as int].path@),
            s.preview_w as nat,
            (if s.box_h >= 4 {
                s.box_h - 3
            } else {
                1
            }) as nat,
            s.listing()->0[s.ranked[s.selected as int] as int].kind == FileKind::Dir,
            stamp,
        ),
{
}

/// A finished render is shown exactly if it is the one in flight, the pane is on
/// and the key is still the wanted one; whatever became of it, it is no longer
/// in flight, unless it goes on.
pub proof fn law_finished_renders_are_shown(
    s: AppView,
    key: String,
    pane: Pane,
    kitty: Option<String>,
)
    ensures
        ({
            let (t, changed) = s.polled(PaneEvent::Ready { key, pane, kitty });
            &&& changed <==> s.rendering && s.preview_on && s.pane_key == Some(key@)
            &&& !t.rendering
            &&& changed ==> t.pane.len() == s.rows() && t.pane_kitty == opt_text(kitty)
                && t.pane_key == s.pane_key
            &&& !changed ==> t == (AppView { rendering: false, ..s })
        }),
        s.polled(PaneEvent::Pending) == (s, false),
        s.polled(PaneEvent::Gone) == (AppView { rendering: false, ..s }, false),
{
}

/// The rows of a shown text: each line of the preview in its place, in the dim
/// colour where it is dim, as wide as the pane, and blank rows behind the last.
/// An image is drawn over blank rows.
pub proof fn law_the_pane_shows_the_lines(s: AppView, pane: Pane, image: Seq<char>, i: int)
    requires
        0 <= i < s.rows(),
    ensures
        s.showing(pane, None).pane.len() == s.rows(),
        i < pane.lines@.len() && !pane.dim ==> s.showing(pane, None).pane[i] == padded(
            pane.lines@[i]@,
            s.preview_w as nat,
        ),
        i < pane.lines@.len() && pane.dim ==> s.showing(pane, None).pane[i] == padded(
            seq!['\u{1b}'] + "[38;2;140;150;165m"@ + pane.lines@[i]@,
            s.preview_w as nat,
        ),
        i >= pane.lines@.len() ==> s.showing(pane, None).pane[i] == spaces(s.preview_w as nat),
        s.showing(pane, None).pane_kind == (if pane.dim {
            1u8
        } else {
            2u8
        }),
        s.showing(pane, None).pane_kitty is None,
        s.showing(pane, Some(image)).pane.len() == s.rows(),
        s.showing(pane, Some(image)).pane[i] == spaces(s.preview_w as nat),
        s.showing(pane, Some(image)).pane_kitty == Some(image),
        s.showing(pane, Some(image)).kitty_key is None,
        s.showing(pane, Some(image)).pane_kind == 2,
{
    if i < pane.lines@.len() && !pane.dim {
        assert(dim_text(false) + pane.lines@[i]@ =~= pane.lines@[i]@);
    }
}

/// A cleared pane shows nothing, and nothing is asked for or in flight.
pub proof fn law_clearing_the_pane(s: AppView)
    ensures
        s.without_pane() == (AppView {
            pane: Seq::empty(),
            pane_kind: 0,
            pane_key: None,
            rendering: false,
            pane_kitty: None,
            ..s
        }),
{
}

} // verus!
