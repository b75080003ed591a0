//! The frames that the picker draws.

use crate::listing::{Entry, FileKind};
use crate::number::{decimal, push_decimal};
use crate::protocol::ESC;
use crate::text::{
    chars_of, chars_start_with, ends_with, lossy_text, pieces, split, starts_with, str_eq, string_of,
    texts_of, utf8_lossy,
};
use crate::tui::app::{opt_text, App, AppView};
use crate::tui::geometry::{at_least, at_most};
use crate::tui::highlight::{highlighted, match_at};
use crate::tui::icons::{entry_icon, icon_for, ICON_DIR};
use crate::tui::theme::{sel_style, sel_text, Theme};
use crate::tui::width::{ansi_pad, padded};
use vstd::prelude::*;
use vstd::slice::slice_subrange;
use vstd::string::*;

verus! {

// ---------------------------------------------------------------------------
// Sequences
// ---------------------------------------------------------------------------

/// A sequence that sets colours and attributes.
pub open spec fn sgr(params: Seq<char>) -> Seq<char> {
    seq![ESC] + "["@ + params + "m"@
}

fn push_sgr(out: &mut String, params: &str)
    ensures
        final(out)@ == old(out)@ + sgr(params@),
{
    let ghost start = out@;
    out.push(ESC);
    out.push_str("[");
    out.push_str(params);
    out.push_str("m");
    assert(out@ =~= start + sgr(params@));
}

/// A sequence that moves the cursor to a row and a column, counted from one.
pub open spec fn goto(row: nat, col: nat) -> Seq<char> {
    seq![ESC] + "["@ + decimal(row) + ";"@ + decimal(col) + "H"@
}

/// Appends the sequence that moves the cursor.
pub fn push_goto(out: &mut String, row: u128, col: u128)
    ensures
        final(out)@ == old(out)@ + goto(row as nat, col as nat),
{
    let ghost start = out@;
    out.push(ESC);
    out.push_str("[");
    push_decimal(out, row);
    out.push_str(";");
    push_decimal(out, col);
    out.push_str("H");
    assert(out@ =~= start + goto(row as nat, col as nat));
}

/// The background of the popup.
pub const BG: &'static str = "48;2;0;0;0";

/// The colour of borders and of what is dimmed.
pub const BORDER: &'static str = "38;2;108;126;150";

/// Default colours on the background of the popup.
pub const REVERT: &'static str = "22;23;24;39;48;2;0;0;0";

/// Deletes placed images.
pub const DELETE_IMAGES: &'static str = "\u{1b}_Ga=d\u{1b}\\";

/// Resets the colours and clears the rest of the row.
pub const ROW_END: &'static str = "\u{1b}[0m\u{1b}[K";

// ---------------------------------------------------------------------------
// The prompt
// ---------------------------------------------------------------------------

/// A text in a colour. An empty text is left out with its colour.
pub open spec fn painted(text: Seq<char>, code: Seq<char>) -> Seq<char> {
    if text.len() == 0 {
        text
    } else {
        sgr(code) + text
    }
}

fn push_painted(out: &mut String, text: &str, code: &str)
    ensures
        final(out)@ == old(out)@ + painted(text@, code@),
{
    let ghost start = out@;
    if !text.is_empty() {
        push_sgr(out, code);
        out.push_str(text);
    }
    assert(out@ =~= start + painted(text@, code@));
}

/// A path in colours: its parts in one, the slashes between them in another.
pub open spec fn painted_parts(parts: Seq<Seq<char>>) -> Seq<char>
    decreases parts.len(),
{
    if parts.len() == 0 {
        Seq::empty()
    } else if parts.len() == 1 {
        painted(parts[0], "38;2;149;167;188"@)
    } else {
        painted_parts(parts.drop_last()) + painted("/"@, "38;2;0;95;175"@) + painted(
            parts.last(),
            "38;2;149;167;188"@,
        )
    }
}

/// A path with the home directory written as a tilde.
pub open spec fn with_tilde(path: Seq<char>, home: Option<&str>) -> Seq<char> {
    match home {
        Some(h) => if starts_with(path, h@) {
            "~"@ + path.skip(h@.len() as int)
        } else {
            path
        },
        None => path,
    }
}

/// A path in colours, with a colour for a leading tilde.
pub open spec fn painted_path(path: Seq<char>) -> Seq<char> {
    if path.len() > 0 && path[0] == '~' {
        painted("~"@, "38;2;40;115;115"@) + painted_parts(pieces(path.skip(1), '/'))
    } else {
        painted_parts(pieces(path, '/'))
    }
}

/// The prompt: the path, the query and the search depth.
pub open spec fn prompt_text(
    path: Seq<char>,
    query: Seq<char>,
    depth: nat,
    icons: bool,
    home: Option<&str>,
) -> Seq<char> {
    (if icons {
        sgr(BORDER@) + ICON_DIR@ + " "@
    } else {
        Seq::empty()
    }) + painted_path(with_tilde(path, home)) + painted(" \u{f105} "@, "38;2;0;95;175"@) + painted(
        query,
        "1;38;2;255;255;255"@,
    ) + painted("  d"@ + decimal(depth), BORDER@) + sgr("22;23;24;39"@)
}

fn push_parts(out: &mut String, path: &[char])
    ensures
        final(out)@ == old(out)@ + painted_parts(pieces(path@, '/')),
{
    let ghost start = out@;
    let parts = split(path, '/');
    let ghost texts = texts_of(parts@);
    let mut i: usize = 0;
    assert(out@ =~= start + painted_parts(texts.take(0)));
    while i < parts.len()
        invariant
            i <= parts@.len(),
            texts == texts_of(parts@),
            out@ == start + painted_parts(texts.take(i as int)),
        decreases parts@.len() - i,
    {
        assert(texts.take(i + 1).drop_last() == texts.take(i as int));
        assert(texts.take(i + 1).last() == parts@[i as int]@);
        if i > 0 {
            push_painted(out, "/", "38;2;0;95;175");
        }
        push_painted(out, string_of(parts[i]).as_str(), "38;2;149;167;188");
        assert(out@ =~= start + painted_parts(texts.take(i + 1)));
        i += 1;
    }
    assert(texts.take(i as int) == texts);
}

fn push_path(out: &mut String, path: &[char])
    ensures
        final(out)@ == old(out)@ + painted_path(path@),
{
    let ghost start = out@;
    if path.len() > 0 && path[0] == '~' {
        push_painted(out, "~", "38;2;40;115;115");
        let rest = slice_subrange(path, 1, path.len());
        assert(rest@ == path@.skip(1));
        push_parts(out, rest);
    } else {
        push_parts(out, path);
    }
    assert(out@ =~= start + painted_path(path@));
}

/// The prompt line for a path as it is shown.
pub fn prompt(
    path: &str,
    query: &str,
    depth: usize,
    icons: bool,
    home: Option<&str>,
) -> (out: String)
    ensures
        out@ == prompt_text(path@, query@, depth as nat, icons, home),
{
    let mut out = String::new();
    if icons {
        push_sgr(&mut out, BORDER);
        out.push_str(ICON_DIR);
        out.push_str(" ");
    }
    let chars = chars_of(path);
    let mut shown = chars_of(path);
    match home {
        Some(h) => {
            let prefix = chars_of(h);
            if chars_start_with(chars.as_slice(), prefix.as_slice()) {
                let rest = slice_subrange(chars.as_slice(), prefix.len(), chars.len());
                let mut s = String::new();
                s.push_str("~");
                s.push_str(string_of(rest).as_str());
                shown = chars_of(s.as_str());
                assert(rest@ =~= path@.skip(h@.len() as int));
                assert(shown@ =~= "~"@ + path@.skip(h@.len() as int));
            }
        },
        None => {},
    }
    assert(shown@ =~= with_tilde(path@, home));
    push_path(&mut out, shown.as_slice());
    push_painted(&mut out, " \u{f105} ", "38;2;0;95;175");
    push_painted(&mut out, query, "1;38;2;255;255;255");
    let mut d = String::new();
    d.push_str("  d");
    push_decimal(&mut d, depth as u128);
    assert(d@ =~= "  d"@ + decimal(depth as nat));
    push_painted(&mut out, d.as_str(), BORDER);
    push_sgr(&mut out, "22;23;24;39");
    assert(out@ =~= prompt_text(path@, query@, depth as nat, icons, home));
    out
}

// ---------------------------------------------------------------------------
// Cells
// ---------------------------------------------------------------------------

/// What is known of an entry from the outside: its metadata line, and the
/// colour of its name.
#[derive(Debug)]
pub struct Decor {
    pub meta: Option<String>,
    pub code: Option<String>,
}

pub struct DecorView {
    pub meta: Option<Seq<char>>,
    pub code: Option<Seq<char>>,
}

impl View for Decor {
    type V = DecorView;

    open spec fn view(&self) -> DecorView {
        DecorView {
            meta: opt_text(self.meta),
            code: opt_text(self.code),
        }
    }
}

/// The decoration at a place; nothing is known behind the end.
pub open spec fn decor_at(decor: Seq<Decor>, k: int) -> DecorView {
    if k < decor.len() {
        decor[k]@
    } else {
        DecorView { meta: None, code: None }
    }
}

/// A label with the matched part underlined.
pub open spec fn label_text(label: Seq<char>, query: Seq<char>, underline: bool) -> Seq<char> {
    match highlighted(label, query) {
        Some(i) => {
            let end = i + query.len();
            if underline {
                label.take(i) + sgr("4"@) + label.subrange(i, end) + sgr("24"@) + label.skip(end)
            } else {
                label
            }
        },
        None => label,
    }
}

/// The metadata before an entry of the long view.
pub open spec fn meta_text(long: bool, meta: Option<Seq<char>>) -> Seq<char> {
    match meta {
        Some(m) => if long {
            sgr(BORDER@) + m + sgr(REVERT@) + " "@
        } else {
            Seq::empty()
        },
        None => Seq::empty(),
    }
}

/// The colours of an entry: those of the selection, or its own.
pub open spec fn style_text(selected: bool, code: Option<Seq<char>>, theme: Theme) -> Seq<char> {
    if selected {
        sgr(sel_text(theme))
    } else {
        match code {
            Some(code) => sgr(code),
            None => Seq::empty(),
        }
    }
}

/// The icon of an entry.
pub open spec fn icon_text(e: Entry, icons: bool) -> Seq<char> {
    if icons {
        entry_icon(e) + " "@
    } else {
        Seq::empty()
    }
}

/// The slash that marks a directory where there are no icons.
pub open spec fn dir_mark(e: Entry, icons: bool) -> Seq<char> {
    if e.kind == FileKind::Dir && !icons {
        "/"@
    } else {
        Seq::empty()
    }
}

/// An entry as it stands in its cell.
pub open spec fn entry_text(
    s: AppView,
    e: Entry,
    selected: bool,
    decor: DecorView,
    theme: Theme,
) -> Seq<char> {
    meta_text(s.long, decor.meta) + style_text(selected, decor.code, theme) + icon_text(e, s.icons)
        + label_text(e.label@, s.query, theme.match_underline) + dir_mark(e, s.icons) + sgr(REVERT@)
}

fn push_meta(out: &mut String, long: bool, meta: &Option<String>)
    ensures
        final(out)@ == old(out)@ + meta_text(long, opt_text(*meta)),
{
    let ghost start = out@;
    match meta {
        Some(m) => if long {
            push_sgr(out, BORDER);
            out.push_str(m.as_str());
            push_sgr(out, REVERT);
            out.push_str(" ");
        },
        None => {},
    }
    assert(out@ =~= start + meta_text(long, opt_text(*meta)));
}

fn push_style(out: &mut String, selected: bool, code: &Option<String>, theme: &Theme)
    ensures
        final(out)@ == old(out)@ + style_text(selected, opt_text(*code), *theme),
{
    let ghost start = out@;
    if selected {
        push_sgr(out, sel_style(theme).as_str());
    } else {
        match code {
            Some(code) => push_sgr(out, code.as_str()),
            None => {},
        }
    }
    assert(out@ =~= start + style_text(selected, opt_text(*code), *theme));
}

fn push_icon(out: &mut String, e: &Entry, icons: bool)
    ensures
        final(out)@ == old(out)@ + icon_text(*e, icons),
{
    let ghost start = out@;
    if icons {
        out.push_str(icon_for(e));
        out.push_str(" ");
    }
    assert(out@ =~= start + icon_text(*e, icons));
}

fn push_dir_mark(out: &mut String, e: &Entry, icons: bool)
    ensures
        final(out)@ == old(out)@ + dir_mark(*e, icons),
{
    let ghost start = out@;
    if e.kind == FileKind::Dir && !icons {
        out.push_str("/");
    }
    assert(out@ =~= start + dir_mark(*e, icons));
}

fn push_label(out: &mut String, label: &str, query: &str, underline: bool)
    ensures
        final(out)@ == old(out)@ + label_text(label@, query@, underline),
{
    let ghost start = out@;
    let chars = chars_of(label);
    let needle = chars_of(query);
    match match_at(chars.as_slice(), needle.as_slice()) {
        Some(i) => {
            assert(i + needle@.len() <= chars.len());
            if underline {
                let end: usize = i + needle.len();
                let before = slice_subrange(chars.as_slice(), 0, i);
                let hit = slice_subrange(chars.as_slice(), i, end);
                let after = slice_subrange(chars.as_slice(), end, chars.len());
                assert(before@ =~= label@.take(i as int));
                assert(after@ =~= label@.skip(end as int));
                out.push_str(string_of(before).as_str());
                push_sgr(out, "4");
                out.push_str(string_of(hit).as_str());
                push_sgr(out, "24");
                out.push_str(string_of(after).as_str());
            } else {
                out.push_str(label);
            }
        },
        None => {
            out.push_str(label);
        },
    }
    assert(out@ =~= start + label_text(label@, query@, underline));
}

impl App {
    fn entry_cell(&self, e: &Entry, selected: bool, decor: &Decor, theme: &Theme) -> (cell: String)
        ensures
            cell@ == entry_text(self@, *e, selected, decor@, *theme),
    {
        let mut cell = String::new();
        push_meta(&mut cell, self.long, &decor.meta);
        assert(cell@ =~= meta_text(self.long, decor@.meta));
        push_style(&mut cell, selected, &decor.code, theme);
        push_icon(&mut cell, e, self.icons);
        push_label(&mut cell, e.label.as_str(), self.query.as_str(), theme.match_underline);
        push_dir_mark(&mut cell, e, self.icons);
        push_sgr(&mut cell, REVERT);
        cell
    }
}

// ---------------------------------------------------------------------------
// The grid
// ---------------------------------------------------------------------------

impl AppView {
    /// How many entries are drawn side by side.
    pub open spec fn drawn_cols(self) -> int {
        if self.long {
            1
        } else {
            self.grid_cols()
        }
    }

    /// How wide the cell of an entry is.
    pub open spec fn drawn_col_w(self) -> int {
        if self.long {
            self.list_cols()
        } else {
            self.grid_col_w()
        }
    }

    /// The cell at a place of the grid, before it is padded.
    pub open spec fn cell_text(self, k: int, decor: Seq<Decor>, theme: Theme) -> Seq<char> {
        let pos = self.offset + k;
        if pos < self.ranked.len() {
            entry_text(
                self,
                self.listing()->0[self.ranked[pos] as int],
                pos == self.selected,
                decor_at(decor, k),
                theme,
            )
        } else {
            Seq::empty()
        }
    }

    /// The first `n` cells of a row of the grid, two cells apart.
    pub open spec fn grid_line(self, r: int, n: nat, decor: Seq<Decor>, theme: Theme) -> Seq<char>
        decreases n,
    {
        if n == 0 {
            Seq::empty()
        } else {
            self.grid_line(r, (n - 1) as nat, decor, theme) + padded(
                self.cell_text(r * self.drawn_cols() + (n - 1), decor, theme),
                self.drawn_col_w() as nat,
            ) + (if n < self.drawn_cols() {
                "  "@
            } else {
                Seq::empty()
            })
        }
    }

    /// What stands between the borders in a row of the grid: the list, and
    /// the pane behind a divider where it is on.
    pub open spec fn grid_row(self, r: int, decor: Seq<Decor>, theme: Theme) -> Seq<char> {
        let line = self.grid_line(r, self.drawn_cols() as nat, decor, theme);
        if self.preview_on {
            padded(line, self.list_cols() as nat) + sgr(BORDER@) + seq!['\u{2502}'] + sgr("0"@)
                + (if r < self.pane.len() {
                self.pane[r]
            } else {
                Seq::empty()
            }) + sgr(BG@)
        } else {
            padded(line, self.box_w as nat)
        }
    }

    /// What stands between the borders in a row of the popup: the grid, and
    /// the prompt below it.
    pub open spec fn inner_row(
        self,
        r: int,
        decor: Seq<Decor>,
        theme: Theme,
        home: Option<&str>,
    ) -> Seq<char> {
        if r < self.rows() {
            self.grid_row(r, decor, theme)
        } else if r == self.rows() {
            padded(self.prompt(home), self.box_w as nat)
        } else {
            Seq::empty()
        }
    }

    pub open spec fn prompt(self, home: Option<&str>) -> Seq<char> {
        prompt_text(
            lossy_text(self.root),
            self.query,
            self.opts.depth as nat,
            self.icons,
            home,
        )
    }

    /// A row of the popup with its borders.
    pub open spec fn popup_row(
        self,
        r: int,
        decor: Seq<Decor>,
        theme: Theme,
        home: Option<&str>,
    ) -> Seq<char> {
        goto((self.pop_top + 2 + r) as nat, 1) + sgr(BG@) + sgr(BORDER@) + seq!['\u{2502}']
            + self.inner_row(r, decor, theme, home) + sgr(BORDER@) + seq!['\u{2502}'] + ROW_END@
    }

    /// The first `n` rows of the popup.
    pub open spec fn popup_rows(
        self,
        n: nat,
        decor: Seq<Decor>,
        theme: Theme,
        home: Option<&str>,
    ) -> Seq<char>
        decreases n,
    {
        if n == 0 {
            Seq::empty()
        } else {
            self.popup_rows((n - 1) as nat, decor, theme, home) + self.popup_row(
                n - 1,
                decor,
                theme,
                home,
            )
        }
    }

    /// The image of the pane is not on the screen yet.
    pub open spec fn places_image(self) -> bool {
        self.pane_kitty is Some && self.kitty_key != self.pane_key
    }

    /// An image is on the screen that the pane no longer shows.
    pub open spec fn removes_image(self) -> bool {
        self.pane_kitty is None && self.kitty_drawn
    }

    /// What places the image of the pane, or removes the last one. An image
    /// is sent once.
    pub open spec fn image_text(self) -> Seq<char> {
        if self.places_image() {
            (if self.kitty_drawn {
                DELETE_IMAGES@
            } else {
                Seq::empty()
            }) + goto((self.pop_top + 2) as nat, (self.list_cols() + 3) as nat)
                + self.pane_kitty->0
        } else if self.removes_image() {
            DELETE_IMAGES@
        } else {
            Seq::empty()
        }
    }

    /// The popup: its borders and its rows.
    pub open spec fn popup(
        self,
        decor: Seq<Decor>,
        theme: Theme,
        home: Option<&str>,
    ) -> Seq<char> {
        goto((self.pop_top + 1) as nat, 1) + edge('\u{250c}', self.box_w as nat, '\u{2510}')
            + self.popup_rows(at_least(self.box_h - 2, 0) as nat, decor, theme, home) + goto(
            (self.pop_top + self.box_h) as nat,
            1,
        ) + edge('\u{2514}', self.box_w as nat, '\u{2518}')
    }

    /// The whole frame: the popup, and the image over it.
    pub open spec fn frame(
        self,
        decor: Seq<Decor>,
        theme: Theme,
        home: Option<&str>,
    ) -> Seq<char> {
        self.popup(decor, theme, home) + self.image_text()
    }

    /// The state after a frame: which image is on the screen.
    pub open spec fn drawn(self) -> AppView {
        if self.places_image() {
            AppView { kitty_key: self.pane_key, kitty_drawn: true, ..self }
        } else if self.removes_image() {
            AppView { kitty_key: None, kitty_drawn: false, ..self }
        } else {
            self
        }
    }
}

/// The upper or lower border of the popup.
pub open spec fn edge(left: char, width: nat, right: char) -> Seq<char> {
    sgr(BG@) + sgr(BORDER@) + seq![left] + Seq::new(width, |i: int| '\u{2500}') + seq![right]
        + ROW_END@
}

fn edge_string(left: char, width: usize, right: char) -> (out: String)
    ensures
        out@ == edge(left, width as nat, right),
{
    let mut out = String::new();
    push_sgr(&mut out, BG);
    push_sgr(&mut out, BORDER);
    out.push(left);
    assert(out@ =~= sgr(BG@) + sgr(BORDER@) + seq![left]);
    let ghost start = out@;
    let mut i: usize = 0;
    assert(out@ =~= start + Seq::new(0, |k: int| '\u{2500}'));
    while i < width
        invariant
            i <= width,
            out@ == start + Seq::new(i as nat, |k: int| '\u{2500}'),
        decreases width - i,
    {
        out.push('\u{2500}');
        assert(out@ =~= start + Seq::new((i + 1) as nat, |k: int| '\u{2500}'));
        i += 1;
    }
    let ghost before = out@;
    out.push(right);
    assert(out@ =~= before + seq![right]);
    out.push_str(ROW_END);
    out
}

impl App {
    fn cell_cols(&self) -> (r: usize)
        requires
            self.wf(),
        ensures
            r == self@.drawn_cols(),
            1 <= r <= 8,
    {
        if self.long {
            1
        } else {
            self.max_cols()
        }
    }

    fn cell_width(&self) -> (r: usize)
        requires
            self.wf(),
        ensures
            r == self@.drawn_col_w(),
    {
        if self.long {
            self.content_w()
        } else {
            self.col_width()
        }
    }

    /// How many entries a frame shows, from the offset on.
    pub fn drawn_count(&self) -> (n: usize)
        requires
            self.wf(),
        ensures
            n == at_least(
                at_most(
                    self@.rows() * self@.drawn_cols(),
                    self.ranked@.len() - self.offset,
                ),
                0,
            ),
    {
        let rows: usize = self.list_rows();
        let cols: usize = self.cell_cols();
        assert(0 <= rows * cols <= 1600) by (nonlinear_arith)
            requires
                0 <= rows <= 200,
                0 <= cols <= 8,
        ;
        let places: usize = rows * cols;
        let total: usize = self.ranked.len();
        if self.offset >= total {
            0
        } else if places > total - self.offset {
            total - self.offset
        } else {
            places
        }
    }

    fn cell(&self, k: usize, decor: &Vec<Decor>, theme: &Theme) -> (cell: String)
        requires
            self.wf(),
            !self.needs_rank,
        ensures
            cell@ == self@.cell_text(k as int, decor@, *theme),
    {
        let total: usize = self.ranked.len();
        if self.offset < total && k < total - self.offset {
            let pos: usize = self.offset + k;
            let unknown = Decor { meta: None, code: None };
            let d = if k < decor.len() {
                &decor[k]
            } else {
                &unknown
            };
            assert(d@ == decor_at(decor@, k as int));
            self.entry_cell(self.entry_at(pos), pos == self.selected, d, theme)
        } else {
            String::new()
        }
    }

    fn grid_string(&self, r: usize, decor: &Vec<Decor>, theme: &Theme) -> (line: String)
        requires
            self.wf(),
            !self.needs_rank,
            r < 200,
        ensures
            line@ == self@.grid_line(r as int, self@.drawn_cols() as nat, decor@, *theme),
    {
        let cols: usize = self.cell_cols();
        let width: usize = self.cell_width();
        assert(0 <= r * cols <= 1600) by (nonlinear_arith)
            requires
                0 <= r <= 200,
                0 <= cols <= 8,
        ;
        let first: usize = r * cols;
        let mut line = String::new();
        let mut c: usize = 0;
        while c < cols
            invariant
                self.wf(),
                !self.needs_rank,
                c <= cols <= 8,
                cols == self@.drawn_cols(),
                width == self@.drawn_col_w(),
                first == r * cols,
                first <= 1600,
                line@ == self@.grid_line(r as int, c as nat, decor@, *theme),
            decreases cols - c,
        {
            let ghost before = line@;
            let mut cell = self.cell(first + c, decor, theme);
            ansi_pad(&mut cell, width);
            line.push_str(cell.as_str());
            let ghost mid = line@;
            if c + 1 < cols {
                line.push_str("  ");
            }
            assert(line@ =~= mid + (if c + 1 < cols {
                "  "@
            } else {
                Seq::<char>::empty()
            }));
            c += 1;
        }
        line
    }

    fn grid_row_string(&self, r: usize, decor: &Vec<Decor>, theme: &Theme) -> (out: String)
        requires
            self.wf(),
            !self.needs_rank,
            r < 200,
        ensures
            out@ == self@.grid_row(r as int, decor@, *theme),
    {
        let mut out = self.grid_string(r, decor, theme);
        if self.preview_on {
            ansi_pad(&mut out, self.content_w());
            push_sgr(&mut out, BORDER);
            let ghost before = out@;
            out.push('\u{2502}');
            assert(out@ =~= before + seq!['\u{2502}']);
            push_sgr(&mut out, "0");
            let ghost before = out@;
            if r < self.pane.len() {
                out.push_str(self.pane[r].as_str());
            }
            assert(out@ =~= before + (if r < self@.pane.len() {
                self@.pane[r as int]
            } else {
                Seq::empty()
            }));
            push_sgr(&mut out, BG);
        } else {
            ansi_pad(&mut out, self.box_w);
        }
        out
    }

    /// The prompt line.
    pub fn prompt_line(&self, home: Option<&str>) -> (out: String)
        ensures
            out@ == self@.prompt(home),
    {
        let path = utf8_lossy(self.root.as_slice());
        prompt(path.as_str(), self.query.as_str(), self.opts.depth, self.icons, home)
    }

    fn inner_string(
        &self,
        r: usize,
        decor: &Vec<Decor>,
        theme: &Theme,
        home: Option<&str>,
    ) -> (out: String)
        requires
            self.wf(),
            !self.needs_rank,
            r < 200,
        ensures
            out@ == self@.inner_row(r as int, decor@, *theme, home),
    {
        let rows: usize = self.list_rows();
        if r < rows {
            self.grid_row_string(r, decor, theme)
        } else if r == rows {
            let mut out = self.prompt_line(home);
            ansi_pad(&mut out, self.box_w);
            out
        } else {
            String::new()
        }
    }

    fn row_string(
        &self,
        r: usize,
        decor: &Vec<Decor>,
        theme: &Theme,
        home: Option<&str>,
    ) -> (out: String)
        requires
            self.wf(),
            !self.needs_rank,
            r < 200,
        ensures
            out@ == self@.popup_row(r as int, decor@, *theme, home),
    {
        let mut out = String::new();
        push_goto(&mut out, self.pop_top as u128 + 2 + r as u128, 1);
        assert(out@ =~= goto((self.pop_top + 2 + r) as nat, 1));
        push_sgr(&mut out, BG);
        push_sgr(&mut out, BORDER);
        let ghost before = out@;
        out.push('\u{2502}');
        assert(out@ =~= before + seq!['\u{2502}']);
        out.push_str(self.inner_string(r, decor, theme, home).as_str());
        push_sgr(&mut out, BORDER);
        let ghost before = out@;
        out.push('\u{2502}');
        assert(out@ =~= before + seq!['\u{2502}']);
        out.push_str(ROW_END);
        out
    }

    fn image_string(&self) -> (out: String)
        requires
            self.wf(),
        ensures
            out@ == self@.image_text(),
    {
        let mut out = String::new();
        match &self.pane_kitty {
            Some(image) => if !self.image_is_placed() {
                if self.kitty_drawn {
                    out.push_str(DELETE_IMAGES);
                }
                assert(out@ =~= if self.kitty_drawn {
                    DELETE_IMAGES@
                } else {
                    Seq::<char>::empty()
                });
                push_goto(&mut out, self.pop_top as u128 + 2, self.content_w() as u128 + 3);
                out.push_str(image.as_str());
            },
            None => if self.kitty_drawn {
                out.push_str(DELETE_IMAGES);
                assert(out@ =~= DELETE_IMAGES@);
            },
        }
        out
    }

    fn image_is_placed(&self) -> (r: bool)
        ensures
            r == (self@.kitty_key == self@.pane_key),
    {
        match (&self.kitty_key, &self.pane_key) {
            (Some(a), Some(b)) => str_eq(a.as_str(), b.as_str()),
            (None, None) => true,
            _ => false,
        }
    }

    fn note_image(&mut self)
        requires
            old(self).wf(),
        ensures
            final(self)@ == old(self)@.drawn(),
            final(self).wf(),
    {
        let key = match &self.pane_key {
            Some(k) => Some(k.clone()),
            None => None,
        };
        if self.pane_kitty.is_some() {
            if !self.image_is_placed() {
                self.kitty_key = key;
                self.kitty_drawn = true;
            }
        } else if self.kitty_drawn {
            self.kitty_key = None;
            self.kitty_drawn = false;
        }
    }

    /// Draws the popup. The decorations are those of the entries from the
    /// offset on.
    pub fn draw(&mut self, decor: &Vec<Decor>, theme: &Theme, home: Option<&str>) -> (out: String)
        requires
            old(self).wf(),
            !old(self).needs_rank,
        ensures
            out@ == old(self)@.frame(decor@, *theme, home),
            final(self)@ == old(self)@.drawn(),
            final(self).wf(),
            !final(self).needs_rank,
    {
        let out = self.frame_string(decor, theme, home);
        self.note_image();
        out
    }

    fn frame_string(&self, decor: &Vec<Decor>, theme: &Theme, home: Option<&str>) -> (out: String)
        requires
            self.wf(),
            !self.needs_rank,
        ensures
            out@ == self@.frame(decor@, *theme, home),
    {
        let mut out = String::new();
        push_goto(&mut out, self.pop_top as u128 + 1, 1);
        assert(out@ =~= goto((self.pop_top + 1) as nat, 1));
        out.push_str(edge_string('\u{250c}', self.box_w, '\u{2510}').as_str());
        let ghost start = out@;
        let n: usize = if self.box_h > 2 {
            self.box_h - 2
        } else {
            0
        };
        let mut r: usize = 0;
        assert(out@ =~= start + self@.popup_rows(0, decor@, *theme, home));
        while r < n
            invariant
                self.wf(),
                !self.needs_rank,
                r <= n < 200,
                out@ == start + self@.popup_rows(r as nat, decor@, *theme, home),
            decreases n - r,
        {
            let ghost before = self@.popup_rows(r as nat, decor@, *theme, home);
            let row = self.row_string(r, decor, theme, home);
            out.push_str(row.as_str());
            assert(out@ =~= start + (before + row@));
            r += 1;
        }
        push_goto(&mut out, self.pop_top as u128 + self.box_h as u128, 1);
        out.push_str(edge_string('\u{2514}', self.box_w, '\u{2518}').as_str());
        out.push_str(self.image_string().as_str());
        out
    }
}

// ---------------------------------------------------------------------------
// Leaving
// ---------------------------------------------------------------------------

/// Clears `n` rows of the screen from a row on.
pub open spec fn cleared_rows(top: nat, n: nat) -> Seq<char>
    decreases n,
{
    if n == 0 {
        Seq::empty()
    } else {
        cleared_rows(top, (n - 1) as nat) + goto(top + n, 1) + "\u{1b}[K"@
    }
}

impl App {
    /// Erases the popup and the placed image.
    pub fn clear_panel(&self) -> (out: String)
        ensures
            out@ == cleared_rows(self.pop_top as nat, self.box_h as nat) + (if self.kitty_drawn {
                DELETE_IMAGES@
            } else {
                Seq::empty()
            }),
    {
        let mut out = String::new();
        let mut r: usize = 0;
        while r < self.box_h
            invariant
                r <= self.box_h,
                out@ == cleared_rows(self.pop_top as nat, r as nat),
            decreases self.box_h - r,
        {
            push_goto(&mut out, self.pop_top as u128 + r as u128 + 1, 1);
            out.push_str("\u{1b}[K");
            r += 1;
        }
        let ghost before = out@;
        if self.kitty_drawn {
            out.push_str(DELETE_IMAGES);
        }
        assert(out@ =~= before + (if self.kitty_drawn {
            DELETE_IMAGES@
        } else {
            Seq::<char>::empty()
        }));
        out
    }

    /// Parks the cursor at the first row of the popup.
    pub fn park_cursor(&self) -> (out: String)
        ensures
            out@ == goto((self.pop_top + 1) as nat, 1),
    {
        let mut out = String::new();
        push_goto(&mut out, self.panel_top() as u128 + 1, 1);
        assert(out@ =~= goto((self.pop_top + 1) as nat, 1));
        out
    }
}

proof fn lemma_line_without_images(
    s: AppView,
    r: int,
    n: nat,
    decor: Seq<Decor>,
    theme: Theme,
)
    ensures
        s.drawn().grid_line(r, n, decor, theme) == s.grid_line(r, n, decor, theme),
    decreases n,
{
    if n > 0 {
        lemma_line_without_images(s, r, (n - 1) as nat, decor, theme);
        let t = s.drawn();
        let k = r * s.drawn_cols() + (n - 1);
        assert(t.listing() == s.listing());
        assert(t.drawn_cols() == s.drawn_cols());
        assert(t.drawn_col_w() == s.drawn_col_w());
        assert(t.cell_text(k, decor, theme) == s.cell_text(k, decor, theme));
    }
}

proof fn lemma_rows_without_images(
    s: AppView,
    n: nat,
    decor: Seq<Decor>,
    theme: Theme,
    home: Option<&str>,
)
    ensures
        s.drawn().popup_rows(n, decor, theme, home) == s.popup_rows(n, decor, theme, home),
    decreases n,
{
    if n > 0 {
        lemma_rows_without_images(s, (n - 1) as nat, decor, theme, home);
        let t = s.drawn();
        let r = n - 1;
        lemma_line_without_images(s, r, s.drawn_cols() as nat, decor, theme);
        assert(t.drawn_cols() == s.drawn_cols());
        assert(t.list_cols() == s.list_cols());
        assert(t.rows() == s.rows());
        assert(t.grid_row(r, decor, theme) == s.grid_row(r, decor, theme));
        assert(t.inner_row(r, decor, theme, home) == s.inner_row(r, decor, theme, home));
    }
}

/// An image that is not on the screen yet ends the frame, and is noted as
/// placed. The next frame is the popup alone: the image is not sent again, and
/// occurs there only if its sequence occurs in the popup itself.
pub proof fn law_an_image_is_sent_once(
    s: AppView,
    decor: Seq<Decor>,
    theme: Theme,
    home: Option<&str>,
)
    requires
        s.places_image(),
    ensures
        ends_with(s.frame(decor, theme, home), s.pane_kitty->0),
        s.drawn().kitty_drawn,
        s.drawn().kitty_key == s.pane_key,
        s.drawn().frame(decor, theme, home) == s.popup(decor, theme, home),
        s.drawn().drawn() == s.drawn(),
{
    let image = s.pane_kitty->0;
    let frame = s.frame(decor, theme, home);
    assert(frame.skip(frame.len() - image.len()) =~= image);
    lemma_rows_without_images(s, at_least(s.box_h - 2, 0) as nat, decor, theme, home);
    let t = s.drawn();
    assert(t.image_text() =~= Seq::<char>::empty());
    assert(t.popup(decor, theme, home) == s.popup(decor, theme, home));
    assert(t.frame(decor, theme, home) =~= t.popup(decor, theme, home));
}

/// An image that the pane no longer shows is deleted once.
pub proof fn law_an_image_is_removed_once(s: AppView)
    requires
        s.removes_image(),
    ensures
        s.image_text() == DELETE_IMAGES@,
        !s.drawn().kitty_drawn,
        s.drawn().image_text() == Seq::<char>::empty(),
{
}

/// The sequences, letter by letter: colours and attributes end with `m`, moves of
/// the cursor with `H`.
pub proof fn law_sequences_are_spelled_out(params: Seq<char>, row: nat, col: nat)
    ensures
        sgr(params) == seq!['\u{1b}', '['] + params + seq!['m'],
        goto(row, col) == seq!['\u{1b}', '['] + decimal(row) + seq![';'] + decimal(col) + seq!['H'],
        ROW_END@ == seq!['\u{1b}', '[', '0', 'm', '\u{1b}', '[', 'K'],
        DELETE_IMAGES@ == seq!['\u{1b}', '_', 'G', 'a', '=', 'd', '\u{1b}', '\\'],
{
    reveal_strlit("[");
    reveal_strlit("m");
    reveal_strlit(";");
    reveal_strlit("H");
    reveal_strlit("\u{1b}[0m\u{1b}[K");
    reveal_strlit("\u{1b}_Ga=d\u{1b}\\");
    assert(sgr(params) =~= seq!['\u{1b}', '['] + params + seq!['m']);
    assert(goto(row, col) =~= seq!['\u{1b}', '['] + decimal(row) + seq![';'] + decimal(col) + seq![
        'H',
    ]);
    assert(ROW_END@ =~= seq!['\u{1b}', '[', '0', 'm', '\u{1b}', '[', 'K']);
    assert(DELETE_IMAGES@ =~= seq!['\u{1b}', '_', 'G', 'a', '=', 'd', '\u{1b}', '\\']);
}

/// The colours: black behind everything, grey-blue borders.
pub proof fn law_the_colours_of_the_popup()
    ensures
        BG@ == seq!['4', '8', ';', '2', ';', '0', ';', '0', ';', '0'],
        BORDER@ == seq![
            '3',
            '8',
            ';',
            '2',
            ';',
            '1',
            '0',
            '8',
            ';',
            '1',
            '2',
            '6',
            ';',
            '1',
            '5',
            '0',
        ],
        REVERT@ == seq!['2', '2', ';', '2', '3', ';', '2', '4', ';', '3', '9', ';'] + BG@,
{
    reveal_strlit("48;2;0;0;0");
    reveal_strlit("38;2;108;126;150");
    reveal_strlit("22;23;24;39;48;2;0;0;0");
    assert(BG@ =~= seq!['4', '8', ';', '2', ';', '0', ';', '0', ';', '0']);
    assert(BORDER@ =~= seq![
        '3',
        '8',
        ';',
        '2',
        ';',
        '1',
        '0',
        '8',
        ';',
        '1',
        '2',
        '6',
        ';',
        '1',
        '5',
        '0',
    ]);
    assert(REVERT@ =~= seq!['2', '2', ';', '2', '3', ';', '2', '4', ';', '3', '9', ';'] + BG@);
}

/// What the cell of an entry holds, from its front: the metadata in the long
/// view, the colours, the icon, the label, the mark of a directory. The colours
/// are those of the selection exactly in the cell of the selected position of
/// the view, wherever the list has been scrolled to; every other cell has its
/// own.
pub proof fn law_exactly_the_selected_cell_has_the_colours_of_the_selection(
    s: AppView,
    k: int,
    decor: Seq<Decor>,
    theme: Theme,
    e: Entry,
)
    requires
        0 <= k,
        s.offset + k < s.ranked.len(),
        e == s.listing()->0[s.ranked[s.offset + k] as int],
    ensures
        ({
            let d = if k < decor.len() {
                (opt_text(decor[k].meta), opt_text(decor[k].code))
            } else {
                (None, None)
            };
            let meta = if s.long && d.0 is Some {
                sgr(BORDER@) + d.0->0 + sgr(REVERT@) + seq![' ']
            } else {
                Seq::empty()
            };
            let own = if d.1 is Some {
                sgr(d.1->0)
            } else {
                Seq::empty()
            };
            let icon = if s.icons {
                entry_icon(e) + seq![' ']
            } else {
                Seq::empty()
            };
            let mark = if e.kind == FileKind::Dir && !s.icons {
                seq!['/']
            } else {
                Seq::empty()
            };
            let label = label_text(e.label@, s.query, theme.match_underline);
            &&& s.offset + k == s.selected ==> s.cell_text(k, decor, theme) == meta + sgr(
                sel_text(theme),
            ) + icon + label + mark + sgr(REVERT@)
            &&& s.offset + k != s.selected ==> s.cell_text(k, decor, theme) == meta + own + icon
                + label + mark + sgr(REVERT@)
        }),
{
    reveal_strlit(" ");
    reveal_strlit("/");
    assert(" "@ =~= seq![' ']);
    assert("/"@ =~= seq!['/']);
}

/// Behind the last position of the view there is nothing to draw.
pub proof fn law_cells_behind_the_end_are_empty(
    s: AppView,
    k: int,
    decor: Seq<Decor>,
    theme: Theme,
)
    requires
        s.offset + k >= s.ranked.len(),
    ensures
        s.cell_text(k, decor, theme) == Seq::<char>::empty(),
{
}

/// The matched part of a label is underlined where the theme says so, and the
/// label is whole.
pub proof fn law_the_match_is_underlined(label: Seq<char>, query: Seq<char>, i: int)
    requires
        highlighted(label, query) == Some(i),
        0 <= i,
        i + query.len() <= label.len(),
    ensures
        label_text(label, query, false) == label,
        label_text(label, query, true) == label.subrange(0, i) + sgr(seq!['4']) + label.subrange(
            i,
            i + query.len(),
        ) + sgr(seq!['2', '4']) + label.subrange(i + query.len(), label.len() as int),
{
    reveal_strlit("4");
    reveal_strlit("24");
    assert("4"@ =~= seq!['4']);
    assert("24"@ =~= seq!['2', '4']);
    assert(label.take(i) =~= label.subrange(0, i));
    assert(label.skip(i + query.len()) =~= label.subrange(i + query.len(), label.len() as int));
}

/// A label without a match is drawn as it is.
pub proof fn law_other_labels_are_drawn_as_they_are(
    label: Seq<char>,
    query: Seq<char>,
    underline: bool,
)
    requires
        highlighted(label, query) is None,
    ensures
        label_text(label, query, underline) == label,
{
}

/// The grid goes row by row: the cell in row `r` and column `c` is that of the
/// place `r` times the columns and `c`, padded to the column, with two cells
/// before the next. The long view has one column as wide as the list.
pub proof fn law_the_grid_goes_row_by_row(
    s: AppView,
    r: int,
    c: nat,
    decor: Seq<Decor>,
    theme: Theme,
    cols: int,
    width: nat,
)
    requires
        cols == (if s.long {
            1
        } else {
            s.grid_cols()
        }),
        width == (if s.long {
            s.list_cols()
        } else {
            s.grid_col_w()
        }) as nat,
    ensures
        s.grid_line(r, 0, decor, theme) == Seq::<char>::empty(),
        c + 1 < cols ==> s.grid_line(r, c + 1, decor, theme) == s.grid_line(r, c, decor, theme)
            + padded(s.cell_text(r * cols + c, decor, theme), width) + seq![' ', ' '],
        c + 1 >= cols ==> s.grid_line(r, c + 1, decor, theme) == s.grid_line(r, c, decor, theme)
            + padded(s.cell_text(r * cols + c, decor, theme), width),
{
    reveal_strlit("  ");
    assert("  "@ =~= seq![' ', ' ']);
    let line = s.grid_line(r, c, decor, theme) + padded(
        s.cell_text(r * cols + c, decor, theme),
        width,
    );
    assert(line + Seq::<char>::empty() =~= line);
}

/// The rows of the popup: the rows of the grid, padded to the box, with the pane
/// behind a divider where it is on, and the prompt below them.
pub proof fn law_the_rows_of_the_popup(
    s: AppView,
    r: int,
    decor: Seq<Decor>,
    theme: Theme,
    home: Option<&str>,
    line: Seq<char>,
)
    requires
        0 <= r,
        line == s.grid_line(
            r,
            (if s.long {
                1
            } else {
                s.grid_cols()
            }) as nat,
            decor,
            theme,
        ),
    ensures
        r < s.rows() && !s.preview_on ==> s.inner_row(r, decor, theme, home) == padded(
            line,
            s.box_w as nat,
        ),
        r < s.rows() && s.preview_on && r < s.pane.len() ==> s.inner_row(r, decor, theme, home)
            == padded(line, s.list_cols() as nat) + sgr(BORDER@) + seq!['\u{2502}'] + sgr(seq!['0'])
            + s.pane[r] + sgr(BG@),
        r < s.rows() && s.preview_on && r >= s.pane.len() ==> s.inner_row(r, decor, theme, home)
            == padded(line, s.list_cols() as nat) + sgr(BORDER@) + seq!['\u{2502}'] + sgr(seq!['0'])
            + sgr(BG@),
        r == s.rows() ==> s.inner_row(r, decor, theme, home) == padded(
            s.prompt(home),
            s.box_w as nat,
        ),
{
    reveal_strlit("0");
    assert("0"@ =~= seq!['0']);
    let front = padded(line, s.list_cols() as nat) + sgr(BORDER@) + seq!['\u{2502}'] + sgr(seq![
        '0',
    ]);
    assert(front + Seq::<char>::empty() =~= front);
}

/// The frame: each row of the popup on its row of the screen, between borders,
/// and a border above and below.
pub proof fn law_the_frame_stands_row_below_row(
    s: AppView,
    n: nat,
    decor: Seq<Decor>,
    theme: Theme,
    home: Option<&str>,
)
    requires
        s.box_h >= 2,
    ensures
        s.popup_rows(0, decor, theme, home) == Seq::<char>::empty(),
        s.popup_rows(n + 1, decor, theme, home) == s.popup_rows(n, decor, theme, home) + (goto(
            s.pop_top as nat + 2 + n,
            1,
        ) + sgr(BG@) + sgr(BORDER@) + seq!['\u{2502}'] + s.inner_row(n as int, decor, theme, home)
            + sgr(BORDER@) + seq!['\u{2502}'] + ROW_END@),
        s.frame(decor, theme, home) == goto(s.pop_top as nat + 1, 1) + edge(
            '\u{250c}',
            s.box_w as nat,
            '\u{2510}',
        ) + s.popup_rows((s.box_h - 2) as nat, decor, theme, home) + goto(
            s.pop_top as nat + s.box_h as nat,
            1,
        ) + edge('\u{2514}', s.box_w as nat, '\u{2518}') + s.image_text(),
        forall|left: char, right: char|
            #[trigger] edge(left, s.box_w as nat, right) == sgr(BG@) + sgr(BORDER@) + seq![left]
                + Seq::new(s.box_w as nat, |i: int| '\u{2500}') + seq![right] + ROW_END@,
{
}

/// An image is placed behind the list and its divider, below the border; the one
/// before it is deleted first.
pub proof fn law_where_images_are_placed(s: AppView)
    requires
        s.pane_kitty is Some,
        s.kitty_key != s.pane_key,
        s.wf(),
    ensures
        s.kitty_drawn ==> s.image_text() == DELETE_IMAGES@ + goto(
            s.pop_top as nat + 2,
            (s.list_cols() + 3) as nat,
        ) + s.pane_kitty->0,
        !s.kitty_drawn ==> s.image_text() == goto(
            s.pop_top as nat + 2,
            (s.list_cols() + 3) as nat,
        ) + s.pane_kitty->0,
{
    let g = goto(s.pop_top as nat + 2, (s.list_cols() + 3) as nat);
    assert(Seq::<char>::empty() + g =~= g);
}

/// Leaving clears every row of the popup, from its first to its last.
pub proof fn law_every_row_of_the_popup_is_cleared(top: nat, n: nat)
    ensures
        cleared_rows(top, 0) == Seq::<char>::empty(),
        cleared_rows(top, n + 1) == cleared_rows(top, n) + goto(top + n + 1, 1) + seq![
            '\u{1b}',
            '[',
            'K',
        ],
{
    reveal_strlit("\u{1b}[K");
    assert("\u{1b}[K"@ =~= seq!['\u{1b}', '[', 'K']);
}

/// A path below the home directory is shown with a tilde in its place, every
/// other one as it is.
pub proof fn law_the_home_directory_is_a_tilde(home: &str, rest: Seq<char>, path: Seq<char>)
    ensures
        with_tilde(home@ + rest, Some(home)) == seq!['~'] + rest,
        !starts_with(path, home@) ==> with_tilde(path, Some(home)) == path,
        with_tilde(path, None) == path,
{
    reveal_strlit("~");
    assert("~"@ =~= seq!['~']);
    assert((home@ + rest).take(home@.len() as int) =~= home@);
    assert((home@ + rest).skip(home@.len() as int) =~= rest);
}

} // verus!
