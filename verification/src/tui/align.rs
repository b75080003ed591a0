//! The alignment of the grid: names of any script take the cells that they are
//! given.

use crate::listing::Entry;
use crate::number::{decimal, is_digit, lemma_decimal};
use crate::protocol::ESC;
use crate::text::{ascii_lower_text, ends_with, pieces};
use crate::tui::app::AppView;
use crate::tui::draw::{
    decor_at, dir_mark, entry_text, icon_text, label_text, meta_text, painted, painted_parts,
    painted_path, prompt_text, sgr, style_text, with_tilde, Decor, DecorView, BORDER, REVERT,
};
use crate::tui::highlight::{base_at, highlighted, occurrence, occurs_at};
use crate::tui::icons::{entry_icon, icon_in, icon_table, ICON_DIR, ICON_FILE, ICON_LINK};
use crate::tui::theme::{rgb_text, sel_params, sel_text, Rgb, Theme};
use crate::tui::width::{
    ends_in_escape, escape_goes_on, law_padded_lines_have_the_width, lemma_closed_front,
    lemma_open_front, padded, shown_text, text_cells,
};
use vstd::prelude::*;

verus! {

/// Whether a text holds no escape character.
pub open spec fn plain(s: Seq<char>) -> bool {
    forall|i: int| 0 <= i < s.len() ==> #[trigger] s[i] != ESC
}

/// Whether a text can stand inside an escape sequence without ending it.
pub open spec fn inside(s: Seq<char>) -> bool {
    forall|i: int| 0 <= i < s.len() ==> escape_goes_on(#[trigger] s[i])
}

/// Whether every escape sequence of a text ends in it.
pub open spec fn closed_text(s: Seq<char>) -> bool {
    !ends_in_escape(s)
}

proof fn lemma_plain(s: Seq<char>)
    requires
        plain(s),
    ensures
        closed_text(s),
        shown_text(s) == s,
    decreases s.len(),
{
    if s.len() > 0 {
        let front = s.drop_last();
        assert forall|i: int| 0 <= i < front.len() implies #[trigger] front[i] != ESC by {
            assert(s[i] != ESC);
        }
        lemma_plain(front);
        assert(s[s.len() - 1] != ESC);
        assert(front.push(s.last()) =~= s);
    }
}

proof fn lemma_closed_concat(a: Seq<char>, b: Seq<char>)
    requires
        closed_text(a),
        closed_text(b),
    ensures
        closed_text(a + b),
{
    lemma_closed_front(a, b);
}

proof fn lemma_shown_concat(a: Seq<char>, b: Seq<char>)
    requires
        closed_text(a),
    ensures
        shown_text(a + b) == shown_text(a) + shown_text(b),
    decreases b.len(),
{
    if b.len() > 0 {
        let front = b.drop_last();
        lemma_shown_concat(a, front);
        lemma_closed_front(a, front);
        assert((a + b).drop_last() == a + front);
        assert((a + b).last() == b.last());
        assert(shown_text(a + b) =~= shown_text(a) + shown_text(b));
    } else {
        assert(a + b == a);
        assert(shown_text(a) + shown_text(b) =~= shown_text(a));
    }
}

proof fn lemma_cells_concat(a: Seq<char>, b: Seq<char>)
    ensures
        text_cells(a + b) == text_cells(a) + text_cells(b),
    decreases b.len(),
{
    if b.len() > 0 {
        lemma_cells_concat(a, b.drop_last());
        assert((a + b).drop_last() == a + b.drop_last());
    } else {
        assert(a + b == a);
    }
}

proof fn lemma_sgr_closed(params: Seq<char>)
    requires
        inside(params),
    ensures
        closed_text(sgr(params)),
{
    reveal_strlit("[");
    reveal_strlit("m");
    let esc = seq![ESC];
    let body = seq!['['] + params;
    assert(esc.drop_last() == Seq::<char>::empty());
    assert(ends_in_escape(esc));
    assert forall|i: int| 0 <= i < body.len() implies escape_goes_on(#[trigger] body[i]) by {
        if i > 0 {
            assert(body[i] == params[i - 1]);
        }
    }
    lemma_open_front(esc, body);
    assert(sgr(params).drop_last() =~= esc + body);
    assert(sgr(params).last() == 'm');
}

proof fn lemma_inside_concat(a: Seq<char>, b: Seq<char>)
    requires
        inside(a),
        inside(b),
    ensures
        inside(a + b),
{
    assert forall|i: int| 0 <= i < (a + b).len() implies escape_goes_on(#[trigger] (a + b)[i]) by {
        if i < a.len() {
            assert((a + b)[i] == a[i]);
        } else {
            assert((a + b)[i] == b[i - a.len()]);
        }
    }
}

proof fn lemma_numeral_inside(n: nat)
    ensures
        inside(decimal(n)),
{
    lemma_decimal(n);
    assert forall|i: int| 0 <= i < decimal(n).len() implies escape_goes_on(
        #[trigger] decimal(n)[i],
    ) by {
        assert(is_digit(decimal(n)[i]));
    }
}

proof fn lemma_rgb_inside(lead: Seq<char>, c: Option<Rgb>)
    requires
        inside(lead),
    ensures
        inside(rgb_text(lead, c)),
{
    match c {
        Some(c) => {
            reveal_strlit(";");
            assert(inside(";"@));
            let (r, g, b) = (decimal(c.r as nat), decimal(c.g as nat), decimal(c.b as nat));
            lemma_numeral_inside(c.r as nat);
            lemma_numeral_inside(c.g as nat);
            lemma_numeral_inside(c.b as nat);
            lemma_inside_concat(lead, r);
            lemma_inside_concat(lead + r, ";"@);
            lemma_inside_concat(lead + r + ";"@, g);
            lemma_inside_concat(lead + r + ";"@ + g, ";"@);
            lemma_inside_concat(lead + r + ";"@ + g + ";"@, b);
            lemma_inside_concat(lead + r + ";"@ + g + ";"@ + b, ";"@);
        },
        None => {},
    }
}

proof fn lemma_selection_inside(t: Theme)
    ensures
        inside(sel_text(t)),
{
    reveal_strlit("1;48;2;0;95;175;38;2;209;229;255");
    reveal_strlit("1;");
    reveal_strlit("7;");
    reveal_strlit("48;2;");
    reveal_strlit("38;2;");
    let bold = if t.sel_bold {
        "1;"@
    } else {
        Seq::empty()
    };
    let reverse = if t.sel_reverse {
        "7;"@
    } else {
        Seq::empty()
    };
    assert(inside(bold));
    assert(inside(reverse));
    lemma_rgb_inside("48;2;"@, t.sel_bg);
    lemma_rgb_inside("38;2;"@, t.sel_fg);
    let (bg, fg) = (rgb_text("48;2;"@, t.sel_bg), rgb_text("38;2;"@, t.sel_fg));
    lemma_inside_concat(bold, reverse);
    lemma_inside_concat(bold + reverse, bg);
    lemma_inside_concat(bold + reverse + bg, fg);
    let all = sel_params(t);
    assert(all == bold + reverse + bg + fg);
    let s = sel_text(t);
    assert forall|i: int| 0 <= i < s.len() implies escape_goes_on(#[trigger] s[i]) by {
        if all.len() > 0 {
            assert(s[i] == all[i]);
        }
    }
}

proof fn lemma_label_closed(label: Seq<char>, query: Seq<char>, underline: bool)
    requires
        plain(label),
    ensures
        closed_text(label_text(label, query, underline)),
{
    lemma_plain(label);
    match highlighted(label, query) {
        Some(i) => if underline && 0 <= i && i + query.len() <= label.len() {
            reveal_strlit("4");
            reveal_strlit("24");
            let end = i + query.len();
            let (a, b, c) = (label.take(i), label.subrange(i, end), label.skip(end));
            lemma_plain(a);
            lemma_plain(b);
            lemma_plain(c);
            assert(inside("4"@));
            assert(inside("24"@));
            lemma_sgr_closed("4"@);
            lemma_sgr_closed("24"@);
            lemma_closed_concat(a, sgr("4"@));
            lemma_closed_concat(a + sgr("4"@), b);
            lemma_closed_concat(a + sgr("4"@) + b, sgr("24"@));
            lemma_closed_concat(a + sgr("4"@) + b + sgr("24"@), c);
        } else if underline {
            lemma_highlighted_in_label(label, query);
        },
        None => {},
    }
}

proof fn lemma_occurrence(label: Seq<char>, query: Seq<char>, from: int)
    requires
        0 <= from,
    ensures
        occurrence(label, query, from) matches Some(i) ==> 0 <= i && i
            + query.len() <= label.len(),
    decreases label.len() - from,
{
    if from < label.len() && !occurs_at(label, query, from) {
        lemma_occurrence(label, query, from + 1);
    }
}

proof fn lemma_base_at(label: Seq<char>)
    ensures
        0 <= base_at(label) <= label.len(),
    decreases label.len(),
{
    if label.len() > 0 {
        lemma_base_at(label.drop_last());
    }
}

proof fn lemma_highlighted_in_label(label: Seq<char>, query: Seq<char>)
    ensures
        highlighted(label, query) matches Some(i) ==> 0 <= i && i + query.len() <= label.len(),
{
    lemma_base_at(label);
    lemma_occurrence(label, query, base_at(label));
}

/// Whether nothing about an entry breaks its cell: no escape characters in its
/// name or its metadata, and a colour that is made of parameters.
pub open spec fn well_behaved(e: Entry, decor: DecorView) -> bool {
    &&& plain(e.label@)
    &&& decor.meta matches Some(m) ==> plain(m)
    &&& decor.code matches Some(c) ==> inside(c)
}

proof fn lemma_icon_plain(e: Entry)
    ensures
        plain(entry_icon(e)),
{
    lemma_icons_plain();
    lemma_table_plain(
        icon_table(),
        ascii_lower_text(e.basename@),
    );
}

proof fn lemma_icons_plain()
    ensures
        plain(ICON_DIR@),
        plain(ICON_FILE@),
        plain(ICON_LINK@),
        forall|i: int|
            0 <= i < icon_table().len() ==> plain(
                (#[trigger] icon_table()[i]).1,
            ),
{
    reveal_strlit("\u{f115}");
    reveal_strlit("\u{f15b}");
    reveal_strlit("\u{f481}");
    reveal_strlit("\u{f48a}");
    reveal_strlit("\u{e7a8}");
    reveal_strlit("\u{e620}");
    reveal_strlit("\u{f1c5}");
    reveal_strlit("\u{f001}");
    reveal_strlit("\u{f03d}");
    reveal_strlit("\u{f410}");
}

proof fn lemma_table_plain(table: Seq<(Seq<char>, Seq<char>)>, name: Seq<char>)
    requires
        forall|i: int| 0 <= i < table.len() ==> plain((#[trigger] table[i]).1),
    ensures
        icon_in(table, name) matches Some(icon) ==> plain(icon),
    decreases table.len(),
{
    if table.len() > 0 && !ends_with(name, table[0].0) {
        let rest = table.drop_first();
        assert forall|i: int| 0 <= i < rest.len() implies plain((#[trigger] rest[i]).1) by {
            assert(rest[i] == table[i + 1]);
        }
        lemma_table_plain(rest, name);
    } else if table.len() > 0 {
        assert(plain(table[0].1));
    }
}

proof fn lemma_entry_closed(
    s: AppView,
    e: Entry,
    selected: bool,
    decor: DecorView,
    theme: Theme,
)
    requires
        well_behaved(e, decor),
    ensures
        closed_text(entry_text(s, e, selected, decor, theme)),
{
    reveal_strlit(" ");
    reveal_strlit("/");
    reveal_strlit("38;2;108;126;150");
    reveal_strlit("22;23;24;39;48;2;0;0;0");
    assert(inside(BORDER@));
    assert(inside(REVERT@));
    lemma_sgr_closed(BORDER@);
    lemma_sgr_closed(REVERT@);
    lemma_plain(" "@);
    lemma_plain("/"@);
    lemma_plain(Seq::<char>::empty());
    let meta = meta_text(s.long, decor.meta);
    match decor.meta {
        Some(m) => {
            lemma_plain(m);
            lemma_closed_concat(sgr(BORDER@), m);
            lemma_closed_concat(sgr(BORDER@) + m, sgr(REVERT@));
            lemma_closed_concat(sgr(BORDER@) + m + sgr(REVERT@), " "@);
        },
        None => {},
    }
    let style = style_text(selected, decor.code, theme);
    lemma_selection_inside(theme);
    lemma_sgr_closed(sel_text(theme));
    match decor.code {
        Some(c) => lemma_sgr_closed(c),
        None => {},
    }
    let icon = icon_text(e, s.icons);
    lemma_icon_plain(e);
    lemma_plain(entry_icon(e));
    lemma_closed_concat(entry_icon(e), " "@);
    let label = label_text(e.label@, s.query, theme.match_underline);
    lemma_label_closed(e.label@, s.query, theme.match_underline);
    let mark = dir_mark(e, s.icons);
    lemma_closed_concat(meta, style);
    lemma_closed_concat(meta + style, icon);
    lemma_closed_concat(meta + style + icon, label);
    lemma_closed_concat(meta + style + icon + label, mark);
    lemma_closed_concat(meta + style + icon + label + mark, sgr(REVERT@));
}

impl AppView {
    /// Nothing about the entries of the view breaks their cells.
    pub open spec fn is_well_behaved(self, decor: Seq<Decor>) -> bool {
        forall|k: int|
            0 <= k && self.offset + k < self.ranked.len() ==> well_behaved(
                self.listing()->0[#[trigger] self.ranked[self.offset + k] as int],
                decor_at(decor, k),
            )
    }
}

/// Every cell of the grid takes exactly the width of its column, whatever the
/// script of the name in it.
pub proof fn law_cells_are_aligned(s: AppView, k: int, decor: Seq<Decor>, theme: Theme)
    requires
        s.is_well_behaved(decor),
        0 <= k,
    ensures
        closed_text(padded(s.cell_text(k, decor, theme), s.drawn_col_w() as nat)),
        text_cells(shown_text(padded(s.cell_text(k, decor, theme), s.drawn_col_w() as nat)))
            == s.drawn_col_w() as nat,
{
    let cell = s.cell_text(k, decor, theme);
    let pos = s.offset + k;
    if pos < s.ranked.len() {
        let e = s.listing()->0[s.ranked[pos] as int];
        lemma_entry_closed(s, e, pos == s.selected, decor_at(decor, k), theme);
    } else {
        lemma_plain(cell);
    }
    law_padded_lines_have_the_width(cell, s.drawn_col_w() as nat);
}

proof fn lemma_row_start(s: AppView, r: int)
    requires
        0 <= r,
    ensures
        0 <= r * s.drawn_cols(),
{
    let cols = s.drawn_cols();
    assert(1 <= cols);
    assert(0 <= r * cols) by (nonlinear_arith)
        requires
            0 <= r,
            1 <= cols,
    ;
}

proof fn lemma_line_closed(s: AppView, r: int, n: nat, decor: Seq<Decor>, theme: Theme)
    requires
        s.is_well_behaved(decor),
        0 <= r,
    ensures
        closed_text(s.grid_line(r, n, decor, theme)),
    decreases n,
{
    if n > 0 {
        reveal_strlit("  ");
        let m = (n - 1) as nat;
        lemma_line_closed(s, r, m, decor, theme);
        lemma_row_start(s, r);
        law_cells_are_aligned(s, r * s.drawn_cols() + m, decor, theme);
        let before = s.grid_line(r, m, decor, theme);
        let cell = padded(
            s.cell_text(r * s.drawn_cols() + (n - 1), decor, theme),
            s.drawn_col_w() as nat,
        );
        let gap = if n < s.drawn_cols() {
            "  "@
        } else {
            Seq::empty()
        };
        assert(plain(gap));
        lemma_plain(gap);
        lemma_closed_concat(before, cell);
        lemma_closed_concat(before + cell, gap);
    }
}

/// Where the first `n` columns of a row end: each takes its width, and two
/// cells stand before the next.
pub proof fn law_columns_are_aligned(s: AppView, r: int, n: nat, decor: Seq<Decor>, theme: Theme)
    requires
        s.is_well_behaved(decor),
        0 <= r,
        n < s.drawn_cols(),
    ensures
        text_cells(shown_text(s.grid_line(r, n, decor, theme))) == n * (s.drawn_col_w() as nat + 2),
    decreases n,
{
    let width = s.drawn_col_w() as nat;
    if n > 0 {
        reveal_strlit("  ");
        let m = (n - 1) as nat;
        law_columns_are_aligned(s, r, m, decor, theme);
        lemma_row_start(s, r);
        law_cells_are_aligned(s, r * s.drawn_cols() + m, decor, theme);
        lemma_line_closed(s, r, m, decor, theme);
        let before = s.grid_line(r, m, decor, theme);
        let cell = padded(s.cell_text(r * s.drawn_cols() + (n - 1), decor, theme), width);
        let gap = "  "@;
        lemma_plain(gap);
        lemma_closed_concat(before, cell);
        lemma_shown_concat(before, cell);
        lemma_shown_concat(before + cell, gap);
        lemma_cells_concat(shown_text(before), shown_text(cell));
        lemma_cells_concat(shown_text(before) + shown_text(cell), gap);
        assert(text_cells(gap) == 2) by {
            reveal_with_fuel(text_cells, 3);
        }
        assert(n * (width + 2) == m * (width + 2) + (width + 2)) by (nonlinear_arith)
            requires
                n == m + 1,
        ;
    } else {
        assert(s.grid_line(r, n, decor, theme) =~= Seq::<char>::empty());
        assert(n * (width + 2) == 0) by (nonlinear_arith)
            requires
                n == 0,
        ;
    }
}

/// Without the pane every row of the grid fills the box exactly.
pub proof fn law_rows_fill_the_box(s: AppView, r: int, decor: Seq<Decor>, theme: Theme)
    requires
        s.is_well_behaved(decor),
        !s.preview_on,
        0 <= r,
    ensures
        text_cells(shown_text(s.grid_row(r, decor, theme))) == s.box_w,
{
    lemma_line_closed(s, r, s.drawn_cols() as nat, decor, theme);
    law_padded_lines_have_the_width(
        s.grid_line(r, s.drawn_cols() as nat, decor, theme),
        s.box_w as nat,
    );
}

// ---------------------------------------------------------------------------
// What is shown
// ---------------------------------------------------------------------------

proof fn lemma_sgr_shows_nothing(params: Seq<char>)
    requires
        inside(params),
    ensures
        shown_text(sgr(params)) == Seq::<char>::empty(),
        closed_text(sgr(params)),
{
    lemma_sgr_closed(params);
    reveal_strlit("[");
    reveal_strlit("m");
    let esc = seq![ESC];
    let body = seq!['['] + params;
    assert(esc.drop_last() =~= Seq::<char>::empty());
    assert(shown_text(esc.drop_last()) =~= Seq::<char>::empty());
    assert(shown_text(esc) == shown_text(esc.drop_last()));
    assert(ends_in_escape(esc));
    assert forall|i: int| 0 <= i < body.len() implies escape_goes_on(#[trigger] body[i]) by {
        if i > 0 {
            assert(body[i] == params[i - 1]);
        }
    }
    lemma_inside_shows_nothing(esc, body);
    lemma_open_front(esc, body);
    assert(sgr(params).drop_last() =~= esc + body);
}

proof fn lemma_inside_shows_nothing(a: Seq<char>, b: Seq<char>)
    requires
        ends_in_escape(a),
        inside(b),
    ensures
        shown_text(a + b) == shown_text(a),
    decreases b.len(),
{
    if b.len() > 0 {
        let front = b.drop_last();
        assert forall|i: int| 0 <= i < front.len() implies escape_goes_on(#[trigger] front[i]) by {
            assert(front[i] == b[i]);
        }
        lemma_inside_shows_nothing(a, front);
        lemma_open_front(a, front);
        assert((a + b).drop_last() =~= a + front);
    } else {
        assert(a + b =~= a);
    }
}

/// A text that is closed and what it shows.
spec fn shows(s: Seq<char>, t: Seq<char>) -> bool {
    closed_text(s) && shown_text(s) == t
}

proof fn lemma_shows_concat(a: Seq<char>, x: Seq<char>, b: Seq<char>, y: Seq<char>)
    requires
        shows(a, x),
        shows(b, y),
    ensures
        shows(a + b, x + y),
{
    lemma_closed_concat(a, b);
    lemma_shown_concat(a, b);
}

proof fn lemma_shows_plain(s: Seq<char>)
    requires
        plain(s),
    ensures
        shows(s, s),
{
    lemma_plain(s);
}

proof fn lemma_shows_sgr(params: Seq<char>)
    requires
        inside(params),
    ensures
        shows(sgr(params), Seq::empty()),
{
    lemma_sgr_shows_nothing(params);
}

proof fn lemma_label_shows(label: Seq<char>, query: Seq<char>, underline: bool)
    requires
        plain(label),
    ensures
        shows(label_text(label, query, underline), label),
{
    lemma_shows_plain(label);
    lemma_highlighted_in_label(label, query);
    match highlighted(label, query) {
        Some(i) => if underline {
            reveal_strlit("4");
            reveal_strlit("24");
            let end = i + query.len();
            let none = Seq::<char>::empty();
            let (a, b, c) = (label.take(i), label.subrange(i, end), label.skip(end));
            lemma_shows_plain(a);
            lemma_shows_plain(b);
            lemma_shows_plain(c);
            assert(inside("4"@));
            assert(inside("24"@));
            lemma_shows_sgr("4"@);
            lemma_shows_sgr("24"@);
            lemma_shows_concat(a, a, sgr("4"@), none);
            assert(a + none =~= a);
            lemma_shows_concat(a + sgr("4"@), a, b, b);
            lemma_shows_concat(a + sgr("4"@) + b, a + b, sgr("24"@), none);
            assert(a + b + none =~= a + b);
            lemma_shows_concat(a + sgr("4"@) + b + sgr("24"@), a + b, c, c);
            assert(a + b + c =~= label);
        },
        None => {},
    }
}

/// What a cell shows: the metadata in the long view, the icon, the whole label,
/// and a slash behind a directory where there are no icons.
pub proof fn law_cells_show_the_entry(
    s: AppView,
    e: Entry,
    selected: bool,
    decor: DecorView,
    theme: Theme,
)
    requires
        well_behaved(e, decor),
    ensures
        shown_text(entry_text(s, e, selected, decor, theme)) == (if s.long && decor.meta is Some {
            decor.meta->0 + seq![' ']
        } else {
            Seq::empty()
        }) + (if s.icons {
            entry_icon(e) + seq![' ']
        } else {
            Seq::empty()
        }) + e.label@ + (if e.kind == crate::listing::FileKind::Dir && !s.icons {
            seq!['/']
        } else {
            Seq::empty()
        }),
{
    reveal_strlit(" ");
    reveal_strlit("/");
    reveal_strlit("38;2;108;126;150");
    reveal_strlit("22;23;24;39;48;2;0;0;0");
    assert(" "@ =~= seq![' ']);
    assert("/"@ =~= seq!['/']);
    let none = Seq::<char>::empty();
    assert(inside(BORDER@));
    assert(inside(REVERT@));
    lemma_shows_sgr(BORDER@);
    lemma_shows_sgr(REVERT@);
    lemma_shows_plain(" "@);
    lemma_shows_plain("/"@);
    lemma_shows_plain(none);
    let meta = meta_text(s.long, decor.meta);
    let meta_shown = if s.long && decor.meta is Some {
        decor.meta->0 + seq![' ']
    } else {
        none
    };
    match decor.meta {
        Some(m) => {
            lemma_shows_plain(m);
            lemma_shows_concat(sgr(BORDER@), none, m, m);
            assert(none + m =~= m);
            lemma_shows_concat(sgr(BORDER@) + m, m, sgr(REVERT@), none);
            assert(m + none =~= m);
            lemma_shows_concat(sgr(BORDER@) + m + sgr(REVERT@), m, " "@, " "@);
        },
        None => {},
    }
    assert(shows(meta, meta_shown));
    let style = style_text(selected, decor.code, theme);
    lemma_selection_inside(theme);
    lemma_shows_sgr(sel_text(theme));
    match decor.code {
        Some(c) => lemma_shows_sgr(c),
        None => {},
    }
    assert(shows(style, none));
    let icon = icon_text(e, s.icons);
    let icon_shown = if s.icons {
        entry_icon(e) + seq![' ']
    } else {
        none
    };
    lemma_icon_plain(e);
    lemma_shows_plain(entry_icon(e));
    lemma_shows_concat(entry_icon(e), entry_icon(e), " "@, " "@);
    assert(shows(icon, icon_shown));
    let label = label_text(e.label@, s.query, theme.match_underline);
    lemma_label_shows(e.label@, s.query, theme.match_underline);
    let mark = dir_mark(e, s.icons);
    lemma_shows_concat(meta, meta_shown, style, none);
    assert(meta_shown + none =~= meta_shown);
    lemma_shows_concat(meta + style, meta_shown, icon, icon_shown);
    lemma_shows_concat(meta + style + icon, meta_shown + icon_shown, label, e.label@);
    lemma_shows_concat(
        meta + style + icon + label,
        meta_shown + icon_shown + e.label@,
        mark,
        mark,
    );
    let all = meta_shown + icon_shown + e.label@ + mark;
    lemma_shows_concat(meta + style + icon + label + mark, all, sgr(REVERT@), none);
    assert(all + none =~= all);
}

proof fn lemma_painted_shows(text: Seq<char>, code: Seq<char>)
    requires
        plain(text),
        inside(code),
    ensures
        shows(painted(text, code), text),
{
    let none = Seq::<char>::empty();
    lemma_shows_plain(text);
    lemma_shows_sgr(code);
    lemma_shows_concat(sgr(code), none, text, text);
    assert(none + text =~= text);
}

/// The parts of a path with slashes between them.
spec fn slashed(parts: Seq<Seq<char>>) -> Seq<char>
    decreases parts.len(),
{
    if parts.len() == 0 {
        Seq::empty()
    } else if parts.len() == 1 {
        parts[0]
    } else {
        slashed(parts.drop_last()) + seq!['/'] + parts.last()
    }
}

proof fn lemma_slashed_pieces(s: Seq<char>)
    ensures
        pieces(s, '/').len() >= 1,
        slashed(pieces(s, '/')) == s,
    decreases s.len(),
{
    let none = Seq::<char>::empty();
    if s.len() == 0 {
        assert(s =~= none);
    } else {
        let front = s.drop_last();
        lemma_slashed_pieces(front);
        let before = pieces(front, '/');
        let parts = pieces(s, '/');
        assert(front.push(s.last()) =~= s);
        if s.last() == '/' {
            assert(parts.drop_last() =~= before);
            assert(slashed(parts) =~= front + seq!['/'] + none);
        } else {
            let last = before.last().push(s.last());
            assert(parts.last() == last);
            assert(parts.drop_last() =~= before.drop_last());
            if parts.len() == 1 {
                assert(slashed(before) == before[0]);
                assert(slashed(parts) =~= s);
            } else {
                assert(slashed(before) == slashed(before.drop_last()) + seq!['/'] + before.last());
                assert(slashed(parts) =~= s);
            }
        }
    }
}

proof fn lemma_parts_show(parts: Seq<Seq<char>>)
    requires
        parts.len() > 0,
        forall|i: int| 0 <= i < parts.len() ==> plain(#[trigger] parts[i]),
    ensures
        shows(painted_parts(parts), slashed(parts)),
    decreases parts.len(),
{
    reveal_strlit("/");
    reveal_strlit("38;2;149;167;188");
    reveal_strlit("38;2;0;95;175");
    assert("/"@ =~= seq!['/']);
    assert(inside("38;2;149;167;188"@));
    assert(inside("38;2;0;95;175"@));
    assert(plain(parts[parts.len() - 1]));
    lemma_painted_shows(parts.last(), "38;2;149;167;188"@);
    lemma_painted_shows("/"@, "38;2;0;95;175"@);
    if parts.len() > 1 {
        let front = parts.drop_last();
        assert forall|i: int| 0 <= i < front.len() implies plain(#[trigger] front[i]) by {
            assert(front[i] == parts[i]);
        }
        lemma_parts_show(front);
        lemma_shows_concat(
            painted_parts(front),
            slashed(front),
            painted("/"@, "38;2;0;95;175"@),
            "/"@,
        );
        lemma_shows_concat(
            painted_parts(front) + painted("/"@, "38;2;0;95;175"@),
            slashed(front) + "/"@,
            painted(parts.last(), "38;2;149;167;188"@),
            parts.last(),
        );
    }
}

proof fn lemma_pieces_plain(s: Seq<char>)
    requires
        plain(s),
    ensures
        pieces(s, '/').len() >= 1,
        forall|i: int| 0 <= i < pieces(s, '/').len() ==> plain(#[trigger] pieces(s, '/')[i]),
    decreases s.len(),
{
    if s.len() > 0 {
        let front = s.drop_last();
        assert forall|i: int| 0 <= i < front.len() implies #[trigger] front[i] != ESC by {
            assert(front[i] == s[i]);
        }
        lemma_pieces_plain(front);
        let before = pieces(front, '/');
        let parts = pieces(s, '/');
        assert(s[s.len() - 1] != ESC);
        assert forall|i: int| 0 <= i < parts.len() implies plain(#[trigger] parts[i]) by {
            if s.last() == '/' {
                if i < before.len() {
                    assert(parts[i] == before[i]);
                }
            } else if i < before.len() - 1 {
                assert(parts[i] == before[i]);
            } else {
                assert(plain(before[before.len() - 1]));
                let last = before.last().push(s.last());
                assert(parts[i] == last);
            }
        }
    }
}

proof fn lemma_path_shows(path: Seq<char>)
    requires
        plain(path),
    ensures
        shows(painted_path(path), path),
{
    reveal_strlit("~");
    reveal_strlit("38;2;40;115;115");
    assert("~"@ =~= seq!['~']);
    assert(inside("38;2;40;115;115"@));
    if path.len() > 0 && path[0] == '~' {
        let rest = path.skip(1);
        lemma_pieces_plain(rest);
        lemma_slashed_pieces(rest);
        lemma_parts_show(pieces(rest, '/'));
        lemma_painted_shows("~"@, "38;2;40;115;115"@);
        lemma_shows_concat(
            painted("~"@, "38;2;40;115;115"@),
            "~"@,
            painted_parts(pieces(rest, '/')),
            rest,
        );
        assert("~"@ + rest =~= path);
    } else {
        lemma_pieces_plain(path);
        lemma_slashed_pieces(path);
        lemma_parts_show(pieces(path, '/'));
    }
}

/// What the prompt shows: the icon of a directory where icons are on, the path
/// with a tilde for the home directory, the arrow, the query, and the search
/// depth.
pub proof fn law_the_prompt_shows_path_query_and_depth(
    path: Seq<char>,
    query: Seq<char>,
    depth: nat,
    icons: bool,
    home: Option<&str>,
)
    requires
        plain(with_tilde(path, home)),
        plain(query),
    ensures
        shown_text(prompt_text(path, query, depth, icons, home)) == (if icons {
            seq!['\u{f115}', ' ']
        } else {
            Seq::empty()
        }) + with_tilde(path, home) + seq![' ', '\u{f105}', ' '] + query + seq![' ', ' ', 'd']
            + decimal(depth),
{
    reveal_strlit(" ");
    reveal_strlit("  d");
    reveal_strlit("\u{f115}");
    reveal_strlit(" \u{f105} ");
    reveal_strlit("38;2;0;95;175");
    reveal_strlit("1;38;2;255;255;255");
    reveal_strlit("38;2;108;126;150");
    reveal_strlit("22;23;24;39");
    let none = Seq::<char>::empty();
    let arrow = " \u{f105} "@;
    assert(arrow =~= seq![' ', '\u{f105}', ' ']);
    assert(inside("38;2;0;95;175"@));
    assert(inside("1;38;2;255;255;255"@));
    assert(inside(BORDER@));
    assert(inside("22;23;24;39"@));
    lemma_shows_plain(none);
    lemma_shows_plain(ICON_DIR@);
    lemma_shows_plain(" "@);
    lemma_shows_sgr(BORDER@);
    lemma_shows_sgr("22;23;24;39"@);
    lemma_shows_concat(sgr(BORDER@), none, ICON_DIR@, ICON_DIR@);
    assert(none + ICON_DIR@ =~= ICON_DIR@);
    lemma_shows_concat(sgr(BORDER@) + ICON_DIR@, ICON_DIR@, " "@, " "@);
    let lead = if icons {
        sgr(BORDER@) + ICON_DIR@ + " "@
    } else {
        none
    };
    let lead_shown = if icons {
        seq!['\u{f115}', ' ']
    } else {
        none
    };
    assert(ICON_DIR@ + " "@ =~= seq!['\u{f115}', ' ']);
    assert(shows(lead, lead_shown));
    let shown_path = with_tilde(path, home);
    lemma_path_shows(shown_path);
    lemma_painted_shows(arrow, "38;2;0;95;175"@);
    lemma_painted_shows(query, "1;38;2;255;255;255"@);
    lemma_decimal(depth);
    let d = "  d"@ + decimal(depth);
    assert forall|i: int| 0 <= i < d.len() implies #[trigger] d[i] != ESC by {
        if i >= 3 {
            assert(d[i] == decimal(depth)[i - 3]);
            assert(is_digit(decimal(depth)[i - 3]));
        }
    }
    lemma_painted_shows(d, BORDER@);
    let p1 = lead + painted_path(shown_path);
    let t1 = lead_shown + shown_path;
    lemma_shows_concat(lead, lead_shown, painted_path(shown_path), shown_path);
    let p2 = p1 + painted(arrow, "38;2;0;95;175"@);
    lemma_shows_concat(p1, t1, painted(arrow, "38;2;0;95;175"@), arrow);
    let p3 = p2 + painted(query, "1;38;2;255;255;255"@);
    lemma_shows_concat(p2, t1 + arrow, painted(query, "1;38;2;255;255;255"@), query);
    let p4 = p3 + painted(d, BORDER@);
    lemma_shows_concat(p3, t1 + arrow + query, painted(d, BORDER@), d);
    lemma_shows_concat(p4, t1 + arrow + query + d, sgr("22;23;24;39"@), none);
    assert(t1 + arrow + query + d + none =~= t1 + arrow + query + seq![' ', ' ', 'd'] + decimal(
        depth,
    ));
}

} // verus!
