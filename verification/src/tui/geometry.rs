//! Where the popup stands, how its grid is cut, and how the selection moves.

use crate::tui::app::{App, AppView, OUTER_ROWS};
use crate::tui::settings::{env_usize, number_in};
use vstd::arithmetic::div_mod::{
    lemma_add_mod_noop, lemma_fundamental_div_mod, lemma_mod_bound, lemma_mod_multiples_vanish,
    lemma_small_mod,
};
use vstd::prelude::*;

verus! {

pub open spec fn at_least(a: int, low: int) -> int {
    if a < low {
        low
    } else {
        a
    }
}

pub open spec fn at_most(a: int, high: int) -> int {
    if a > high {
        high
    } else {
        a
    }
}

/// A number moved into a range.
pub open spec fn clamped(a: int, low: int, high: int) -> int {
    at_most(at_least(a, low), high)
}

/// A division, rounded up.
pub open spec fn ceil_div(a: int, b: int) -> int {
    if a % b == 0 {
        a / b
    } else {
        a / b + 1
    }
}

fn clamp_to(a: usize, low: usize, high: usize) -> (r: usize)
    requires
        low <= high,
    ensures
        r == clamped(a as int, low as int, high as int),
{
    if a < low {
        low
    } else if a > high {
        high
    } else {
        a
    }
}

fn less(a: usize, b: usize) -> (r: usize)
    ensures
        r == at_least(a - b, 0),
{
    if a > b {
        a - b
    } else {
        0
    }
}

// ---------------------------------------------------------------------------
// The box
// ---------------------------------------------------------------------------

/// The outer height of the popup in a terminal of `h` rows.
pub open spec fn outer_rows(ui_rows: Option<usize>, h: int) -> int {
    at_least(
        match ui_rows {
            Some(r) => at_most(clamped(r as int, 5, 200), h),
            None => at_most(OUTER_ROWS as int, h),
        },
        1,
    )
}

/// The outer width of the popup in a terminal of `w` columns.
pub open spec fn outer_cols(ui_width: Option<usize>, w: int) -> int {
    match ui_width {
        Some(uw) => at_most(clamped(uw as int, 10, 400), w),
        None => w,
    }
}

/// The width of the preview pane in a popup of `box_w` content columns: what
/// was asked for or a third of them, with room left for the list.
pub open spec fn pane_cols(asked: Option<nat>, box_w: int) -> int {
    let pw = match asked {
        Some(n) => n as int,
        None => clamped(box_w / 3, 24, 80),
    };
    clamped(pw, 20, at_least(box_w - 21, 20))
}

/// Where the popup should begin: under the cursor, or at the bottom of the
/// screen.
pub open spec fn wanted_top(cursor_row: Option<usize>, box_h: int, h: int) -> int {
    match cursor_row {
        Some(r) => at_most(r as int, at_least(h - 1, 0)),
        None => at_least(h - box_h, 0),
    }
}

/// How many rows of the popup do not fit below where it should begin.
pub open spec fn overhang(cursor_row: Option<usize>, box_h: int, h: int) -> int {
    at_least(wanted_top(cursor_row, box_h, h) + box_h - h, 0)
}

/// Where the popup begins, once the rows that do not fit have been scrolled
/// away. Without an answer from the terminal it stands at the bottom instead.
pub open spec fn top_row(cursor_row: Option<usize>, box_h: int, h: int, probed: bool) -> int {
    if overhang(cursor_row, box_h, h) == 0 {
        wanted_top(cursor_row, box_h, h)
    } else if probed {
        wanted_top(cursor_row, box_h, h) - overhang(cursor_row, box_h, h)
    } else {
        at_least(h - box_h, 0)
    }
}

impl AppView {
    /// The state with the box for its terminal.
    pub open spec fn boxed(self, asked: Option<nat>) -> AppView {
        let box_w = at_least(outer_cols(self.ui_width, self.size.0 as int) - 2, 0);
        AppView {
            box_h: outer_rows(self.ui_rows, self.size.1 as int) as usize,
            box_w: box_w as usize,
            preview_w: pane_cols(asked, box_w) as usize,
            ..self
        }
    }

    /// Rows of the entry grid: what the borders and the prompt leave.
    pub open spec fn rows(self) -> int {
        at_least(self.box_h - 3, 1)
    }

    /// Columns of the entry grid: all, or what the pane and its divider leave.
    pub open spec fn list_cols(self) -> int {
        if self.preview_on {
            at_least(self.box_w - (self.preview_w + 1), 0)
        } else {
            self.box_w as int
        }
    }

    /// How many entries stand side by side: as many as the rows ask for and
    /// the widest name leaves room for, eight at most.
    pub open spec fn grid_cols(self) -> int {
        let needed = at_least(ceil_div(at_least(self.ranked.len() as int, 1), self.rows()), 1);
        let name_w = clamped(self.maxw as int, 1, 20);
        let by_width = at_least((self.list_cols() + 2) / (name_w + 4), 1);
        clamped(at_most(needed, by_width), 1, 8)
    }

    /// How wide a column of the grid is.
    pub open spec fn grid_col_w(self) -> int {
        let cols = self.grid_cols();
        at_least(at_least(self.list_cols() - 2 * (cols - 1), 0) / cols, 6)
    }

    /// The state with the popup placed.
    pub open spec fn placed(self, probed: bool) -> AppView {
        AppView {
            pop_top: top_row(self.cursor_row, self.box_h as int, self.size.1 as int, probed) as usize,
            ..self
        }
    }

    /// The state in a terminal of another size: the popup is pulled up where
    /// it does not fit.
    pub open spec fn resized(self, size: (usize, usize), asked: Option<nat>) -> AppView {
        let s = (AppView { size, ..self }).boxed(asked);
        AppView {
            pop_top: (if s.pop_top + s.box_h > size.1 {
                at_least(size.1 - s.box_h, 0)
            } else {
                s.pop_top as int
            }) as usize,
            ..s
        }
    }
}

fn box_rows(ui_rows: Option<usize>, h: usize) -> (r: usize)
    ensures
        r == outer_rows(ui_rows, h as int),
        1 <= r <= 200,
        r <= at_least(h as int, 1),
{
    let asked: usize = match ui_rows {
        Some(r) => clamp_to(r, 5, 200),
        None => OUTER_ROWS,
    };
    let fit: usize = if asked > h {
        h
    } else {
        asked
    };
    if fit < 1 {
        1
    } else {
        fit
    }
}

fn fit_cols(ui_width: Option<usize>, w: usize) -> (r: usize)
    ensures
        r == outer_cols(ui_width, w as int),
        r <= w,
{
    match ui_width {
        Some(uw) => {
            let asked: usize = clamp_to(uw, 10, 400);
            if asked > w {
                w
            } else {
                asked
            }
        },
        None => w,
    }
}

fn fit_pane(asked: Option<usize>, box_w: usize) -> (r: usize)
    requires
        box_w <= usize::MAX - 2,
    ensures
        r == pane_cols(
            match asked {
                Some(n) => Some(n as nat),
                None => None,
            },
            box_w as int,
        ),
        r < usize::MAX,
{
    let pw: usize = match asked {
        Some(n) => n,
        None => clamp_to(box_w / 3, 24, 80),
    };
    let room: usize = less(box_w, 21);
    let most: usize = if room < 20 {
        20
    } else {
        room
    };
    clamp_to(pw, 20, most)
}

/// The size of the terminal: what it told, else what the system tells, with a
/// floor.
pub fn terminal_size(probed: Option<(usize, usize)>, told: (u16, u16)) -> (r: (usize, usize))
    ensures
        r == match probed {
            Some(size) => size,
            None => (at_least(told.0 as int, 40) as usize, at_least(told.1 as int, 10) as usize),
        },
{
    match probed {
        Some(size) => size,
        None => {
            let (c, r) = told;
            (
                if c < 40 {
                    40
                } else {
                    c as usize
                },
                if r < 10 {
                    10
                } else {
                    r as usize
                },
            )
        },
    }
}

fn find_top(cursor_row: Option<usize>, box_h: usize, h: usize, probed: bool) -> (r: (usize, usize))
    requires
        1 <= box_h <= h,
    ensures
        r.0 == top_row(cursor_row, box_h as int, h as int, probed),
        r.1 == (if probed {
            overhang(cursor_row, box_h as int, h as int)
        } else {
            0
        }),
        r.0 + box_h <= h,
{
    let wanted: usize = match cursor_row {
        Some(r) => if r > h - 1 {
            h - 1
        } else {
            r
        },
        None => h - box_h,
    };
    let over: usize = less(box_h, h - wanted);
    if over == 0 {
        (wanted, 0)
    } else if probed {
        (wanted - over, over)
    } else {
        (h - box_h, 0)
    }
}

fn pulled_up(top: usize, box_h: usize, h: usize) -> (r: usize)
    ensures
        r == (if top + box_h > h {
            at_least(h - box_h, 0)
        } else {
            top as int
        }),
        box_h <= h ==> r + box_h <= h,
{
    if box_h > h || top > h - box_h {
        less(h, box_h)
    } else {
        top
    }
}

impl App {
    /// Recompute the popup box from the screen size and what the user asked
    /// for. The outer box never exceeds the terminal; by default it has
    /// fourteen rows and spans the whole width.
    pub fn compute_box(&mut self, lusty_preview_width: Option<&str>)
        requires
            old(self).wf(),
        ensures
            final(self)@ == old(self)@.boxed(number_in(lusty_preview_width)),
            final(self).box_h <= at_least(final(self).size.1 as int, 1),
            final(self).box_w + 2 <= at_least(final(self).size.0 as int, 2),
            final(self).wf(),
    {
        let (w, h) = self.size;
        let box_h: usize = box_rows(self.ui_rows, h);
        let box_w: usize = less(fit_cols(self.ui_width, w), 2);
        let preview_w: usize = fit_pane(env_usize(lusty_preview_width), box_w);
        self.box_h = box_h;
        self.box_w = box_w;
        self.preview_w = preview_w;
    }

    /// Content rows inside the borders without the prompt line.
    pub fn list_rows(&self) -> (r: usize)
        ensures
            r == self@.rows(),
    {
        if self.box_h > 4 {
            self.box_h - 3
        } else {
            1
        }
    }

    /// Width of the entry grid: the whole box, or the left part when the
    /// preview pane is shown.
    pub fn content_w(&self) -> (r: usize)
        requires
            self.wf(),
        ensures
            r == self@.list_cols(),
    {
        if self.preview_on {
            less(self.box_w, self.preview_w + 1)
        } else {
            self.box_w
        }
    }

    /// The screen row of the top border, counted from zero.
    pub fn panel_top(&self) -> (r: usize)
        ensures
            r == self.pop_top,
    {
        self.pop_top
    }

    /// Cells of the widest label of the listing.
    pub fn max_name_w(&self) -> (r: usize)
        ensures
            r == self.maxw,
    {
        self.maxw
    }

    /// Adaptive columns: as many as the content needs, no more than fit the
    /// popup width given the widest name (capped at 20), eight at most.
    pub fn max_cols(&self) -> (r: usize)
        requires
            self.wf(),
        ensures
            r == self@.grid_cols(),
            1 <= r <= 8,
    {
        let w: usize = self.content_w();
        let rows: usize = self.list_rows();
        let n: usize = self.ranked.len();
        let total: usize = if n < 1 {
            1
        } else {
            n
        };
        let whole: usize = total / rows;
        assert(whole <= total) by (nonlinear_arith)
            requires
                whole == total / rows,
                rows >= 1,
        ;
        assert(rows == 1 ==> total % rows == 0);
        assert(rows > 1 ==> whole < total) by (nonlinear_arith)
            requires
                whole == total / rows,
                rows >= 1,
                total >= 1,
        ;
        let ceil: usize = if total % rows == 0 {
            whole
        } else {
            whole + 1
        };
        let needed: usize = if ceil < 1 {
            1
        } else {
            ceil
        };
        let name_w: usize = clamp_to(self.max_name_w(), 1, 20);
        let fit: usize = (w + 2) / (name_w + 4);
        let by_width: usize = if fit < 1 {
            1
        } else {
            fit
        };
        clamp_to(
            if needed > by_width {
                by_width
            } else {
                needed
            },
            1,
            8,
        )
    }

    /// The width of one column of the grid. Two cells stand between columns.
    pub fn col_width(&self) -> (r: usize)
        requires
            self.wf(),
        ensures
            r == self@.grid_col_w(),
    {
        let cols: usize = self.max_cols();
        let w: usize = self.content_w();
        let text_w: usize = less(w, 2 * (cols - 1));
        let col: usize = text_w / cols;
        if col < 6 {
            6
        } else {
            col
        }
    }

    /// Place the popup directly under the command line. Returns how many lines
    /// the screen has to be scrolled up first.
    pub fn place(&mut self, probed: bool) -> (scroll_by: usize)
        requires
            old(self).wf(),
            old(self).box_h <= old(self).size.1,
        ensures
            final(self)@ == old(self)@.placed(probed),
            scroll_by == (if probed {
                overhang(old(self).cursor_row, old(self).box_h as int, old(self).size.1 as int)
            } else {
                0
            }),
            final(self).pop_top + final(self).box_h <= final(self).size.1,
            final(self).wf(),
    {
        let (top, scroll_by): (usize, usize) = find_top(
            self.cursor_row,
            self.box_h,
            self.size.1,
            probed,
        );
        self.pop_top = top;
        scroll_by
    }

    /// Keep the box inside a grid of another size.
    pub fn resize(&mut self, cols: u16, rows: u16, lusty_preview_width: Option<&str>)
        requires
            old(self).wf(),
        ensures
            final(self)@ == old(self)@.resized(
                (cols as usize, rows as usize),
                number_in(lusty_preview_width),
            ),
            rows >= 1 ==> final(self).pop_top + final(self).box_h <= rows,
            final(self).wf(),
    {
        self.size = (cols as usize, rows as usize);
        self.compute_box(lusty_preview_width);
        let top: usize = pulled_up(self.pop_top, self.box_h, rows as usize);
        self.pop_top = top;
    }
}

/// The columns of the grid and the two cells between each two of them fit into
/// the list, wherever the list has six cells for each column.
pub proof fn law_the_grid_fits_the_list(s: AppView)
    requires
        s.wf(),
        s.list_cols() >= 6 * s.grid_cols() + 2 * (s.grid_cols() - 1),
    ensures
        s.grid_cols() * s.grid_col_w() + 2 * (s.grid_cols() - 1) <= s.list_cols(),
{
    let cols = s.grid_cols();
    let text = s.list_cols() - 2 * (cols - 1);
    lemma_fundamental_div_mod(text, cols);
    lemma_mod_bound(text, cols);
    assert(text / cols >= 6) by (nonlinear_arith)
        requires
            text >= 6 * cols,
            1 <= cols,
    ;
}

/// The list, the divider and the pane fill the box, where the pane leaves room
/// for a list.
pub proof fn law_list_and_pane_fill_the_box(s: AppView)
    requires
        s.preview_on,
        s.preview_w < s.box_w,
    ensures
        s.list_cols() + 1 + s.preview_w == s.box_w,
{
}

// ---------------------------------------------------------------------------
// The selection
// ---------------------------------------------------------------------------

/// The selection a number of positions further on, around the end.
pub open spec fn moved(selected: int, delta: int, n: int) -> int {
    if n == 0 {
        0
    } else {
        (selected + delta) % n
    }
}

/// The selection a number of columns further on, around the end. Columns hold
/// `rows` positions each; where the target column is not full, the selection
/// goes to the first column or to the last full one.
pub open spec fn moved_by_columns(selected: int, delta: int, rows: int, n: int) -> int {
    if n == 0 || rows == 0 {
        0
    } else {
        let columns = ceil_div(n, rows);
        let to = (selected / rows + delta) % columns;
        let col = if (to + 1) * (rows + 1) > n {
            if delta > 0 {
                0
            } else {
                at_least(columns - 2, 0)
            }
        } else {
            to
        };
        at_most(col * rows + selected % rows, n - 1)
    }
}

/// The first position to draw, so that the selection is among `rows` of them.
pub open spec fn scrolled(offset: int, selected: int, n: int, rows: int) -> int {
    if n == 0 {
        0
    } else {
        let near = if selected < offset {
            selected
        } else if selected >= offset + rows {
            selected + 1 - rows
        } else {
            offset
        };
        let low = if near + rows > n && n >= rows {
            n - rows
        } else {
            near
        };
        at_most(low, selected)
    }
}

/// `(a + delta) % n`, for any `delta`.
fn add_around(a: usize, delta: isize, n: usize) -> (r: usize)
    requires
        n > 0,
    ensures
        r == (a + delta) % (n as int),
{
    let d: u128 = if delta >= 0 {
        delta as u128 % n as u128
    } else {
        let back: u128 = (-(delta as i128)) as u128 % n as u128;
        n as u128 - back
    };
    proof {
        let m = n as int;
        if delta >= 0 {
            lemma_add_mod_noop(a as int, delta as int, m);
            lemma_add_mod_noop(a as int, d as int, m);
            lemma_small_mod(d as nat, n as nat);
        } else {
            let k = (-(delta as int)) / m;
            lemma_fundamental_div_mod(-(delta as int), m);
            assert(a + d == m * (k + 1) + (a + delta)) by (nonlinear_arith)
                requires
                    -(delta as int) == m * k + (m - d),
            ;
            lemma_mod_multiples_vanish(k + 1, a + delta, m);
        }
        lemma_mod_bound(a + d, m);
    }
    ((a as u128 + d) % n as u128) as usize
}

fn column_target(selected: usize, delta: isize, row_count: usize, n: usize) -> (r: usize)
    ensures
        r == moved_by_columns(selected as int, delta as int, row_count as int, n as int),
        n > 0 ==> r < n,
{
    if n == 0 || row_count == 0 {
        return 0;
    }
    let whole: usize = n / row_count;
    proof {
        lemma_fundamental_div_mod(n as int, row_count as int);
        lemma_fundamental_div_mod(selected as int, row_count as int);
        lemma_mod_bound(n as int, row_count as int);
        lemma_mod_bound(selected as int, row_count as int);
    }
    assert(whole < n || n % row_count == 0) by (nonlinear_arith)
        requires
            n == row_count * whole + n % row_count,
            n > 0,
            row_count > 0,
            whole >= 0,
    ;
    assert(whole <= n) by (nonlinear_arith)
        requires
            n == row_count * whole + n % row_count,
            row_count > 0,
            n % row_count >= 0,
            whole >= 0,
    ;
    let columns: usize = if n % row_count == 0 {
        whole
    } else {
        whole + 1
    };
    assert(columns > 0) by (nonlinear_arith)
        requires
            n == row_count * whole + n % row_count,
            n > 0,
            columns == whole || n % row_count != 0,
            columns >= whole,
            n % row_count != 0 ==> columns == whole + 1,
    ;
    let cur_col: usize = selected / row_count;
    let cur_row: usize = selected % row_count;
    let to: usize = add_around(cur_col, delta, columns);
    proof {
        lemma_mod_bound(cur_col + delta, columns as int);
    }
    assert(0 <= (to + 1) * (row_count + 1) <= 0x1_0000_0000_0000_0000 * 0x1_0000_0000_0000_0000)
        by (nonlinear_arith)
        requires
            0 <= to + 1 <= 0x1_0000_0000_0000_0000,
            0 <= row_count + 1 <= 0x1_0000_0000_0000_0000,
    ;
    assert((to + 1) * (row_count + 1) <= columns * row_count + columns) by (nonlinear_arith)
        requires
            to < columns,
            row_count >= 0,
    ;
    assert(columns * row_count <= n + row_count) by (nonlinear_arith)
        requires
            n == row_count * whole + n % row_count,
            columns == whole || columns == whole + 1,
            n % row_count >= 0,
            row_count > 0,
    ;
    let col: usize = if (to as u128 + 1) * (row_count as u128 + 1) > n as u128 {
        if delta > 0 {
            0
        } else {
            less(columns, 2)
        }
    } else {
        to
    };
    assert(0 <= col * row_count <= columns * row_count) by (nonlinear_arith)
        requires
            0 <= col <= columns,
            row_count >= 0,
    ;
    let s: u128 = col as u128 * row_count as u128 + cur_row as u128;
    if s >= n as u128 {
        n - 1
    } else {
        s as usize
    }
}

fn scroll_target(offset: usize, selected: usize, n: usize, rows: usize) -> (r: usize)
    requires
        rows > 0,
    ensures
        r == scrolled(offset as int, selected as int, n as int, rows as int),
{
    if n == 0 {
        return 0;
    }
    let near: usize = if selected < offset {
        selected
    } else if selected - offset >= rows {
        selected - rows + 1
    } else {
        offset
    };
    let low: usize = if n >= rows && near > n - rows {
        n - rows
    } else {
        near
    };
    if low > selected {
        selected
    } else {
        low
    }
}

impl App {
    /// Move the selection, around the end of the view.
    pub fn move_sel(&mut self, delta: isize)
        requires
            old(self).wf(),
            !old(self).needs_rank,
        ensures
            final(self)@ == (AppView {
                selected: moved(
                    old(self).selected as int,
                    delta as int,
                    old(self).ranked@.len() as int,
                ) as usize,
                ..old(self)@
            }),
            final(self).wf(),
    {
        let n: usize = self.ranked.len();
        if n == 0 {
            self.selected = 0;
            return;
        }
        self.selected = add_around(self.selected, delta, n);
        proof {
            lemma_mod_bound(old(self).selected + delta, n as int);
        }
    }

    /// Move the selection to the same row of another column.
    pub fn column_nav(&mut self, delta: isize, row_count: usize)
        requires
            old(self).wf(),
            !old(self).needs_rank,
        ensures
            final(self)@ == (AppView {
                selected: moved_by_columns(
                    old(self).selected as int,
                    delta as int,
                    row_count as int,
                    old(self).ranked@.len() as int,
                ) as usize,
                ..old(self)@
            }),
            final(self).wf(),
    {
        let n: usize = self.ranked.len();
        let selected: usize = column_target(self.selected, delta, row_count, n);
        self.selected = selected;
    }

    /// Scroll so that the selection is drawn.
    pub fn clamp_offset(&mut self, rows: usize)
        requires
            old(self).wf(),
            rows > 0,
        ensures
            final(self)@ == (AppView {
                offset: scrolled(
                    old(self).offset as int,
                    old(self).selected as int,
                    old(self).ranked@.len() as int,
                    rows as int,
                ) as usize,
                ..old(self)@
            }),
            final(self).wf(),
    {
        let n: usize = self.ranked.len();
        let offset: usize = scroll_target(self.offset, self.selected, n, rows);
        self.offset = offset;
    }
}

/// After scrolling, the selection is among the rows that are drawn.
pub proof fn law_the_selection_is_drawn(offset: int, selected: int, n: int, rows: int)
    requires
        0 <= offset,
        0 <= selected < n,
        0 < rows,
    ensures
        scrolled(offset, selected, n, rows) <= selected < scrolled(offset, selected, n, rows)
            + rows,
        0 <= scrolled(offset, selected, n, rows),
{
}

/// Moving on and moving back again leaves the selection where it was.
pub proof fn law_moving_back_undoes_moving(selected: int, delta: int, n: int)
    requires
        0 <= selected < n,
    ensures
        0 <= moved(selected, delta, n) < n,
        moved(moved(selected, delta, n), -delta, n) == selected,
{
    lemma_mod_bound(selected + delta, n);
    lemma_add_mod_noop(selected + delta, -delta, n);
    lemma_add_mod_noop((selected + delta) % n, -delta, n);
    vstd::arithmetic::div_mod::lemma_mod_twice(selected + delta, n);
    lemma_small_mod(selected as nat, n as nat);
}

/// The height of the popup: fourteen rows, or what was asked for between 5 and
/// 200, and never more than the terminal has.
pub proof fn law_the_popup_height(r: usize, h: int)
    requires
        0 <= h,
    ensures
        outer_rows(None, h) == (if h >= 14 {
            14
        } else if h >= 1 {
            h
        } else {
            1
        }),
        5 <= r <= 200 && r <= h ==> outer_rows(Some(r), h) == r,
        r < 5 <= h ==> outer_rows(Some(r), h) == 5,
        r > 200 && h >= 200 ==> outer_rows(Some(r), h) == 200,
        r >= 5 && 1 <= h < r && h <= 200 ==> outer_rows(Some(r), h) == h,
        r < 5 && 1 <= h < 5 ==> outer_rows(Some(r), h) == h,
        h < 1 ==> outer_rows(Some(r), h) == 1,
        1 <= outer_rows(Some(r), h) <= 200,
        h >= 1 ==> outer_rows(Some(r), h) <= h,
{
}

/// The width of the popup: the whole terminal, or what was asked for between 10
/// and 400, and never more than the terminal has.
pub proof fn law_the_popup_width(uw: usize, w: int)
    requires
        0 <= w,
    ensures
        outer_cols(None, w) == w,
        10 <= uw <= 400 && uw <= w ==> outer_cols(Some(uw), w) == uw,
        uw < 10 <= w ==> outer_cols(Some(uw), w) == 10,
        uw > 400 && w >= 400 ==> outer_cols(Some(uw), w) == 400,
        outer_cols(Some(uw), w) <= w,
{
}

/// The width of the pane: what was asked for, or a third of the box between 24
/// and 80, at least 20 and with 21 columns left for the list where there are as
/// many.
pub proof fn law_the_pane_width(n: nat, box_w: int)
    requires
        0 <= box_w,
    ensures
        20 <= pane_cols(Some(n), box_w),
        20 <= pane_cols(None, box_w),
        box_w >= 41 ==> pane_cols(Some(n), box_w) + 21 <= box_w,
        box_w >= 41 ==> pane_cols(None, box_w) + 21 <= box_w,
        20 <= n && n + 21 <= box_w ==> pane_cols(Some(n), box_w) == n,
        n < 20 ==> pane_cols(Some(n), box_w) == 20,
        box_w >= 41 && n + 21 > box_w ==> pane_cols(Some(n), box_w) == box_w - 21,
        72 <= box_w <= 242 ==> pane_cols(None, box_w) == box_w / 3,
        box_w > 242 ==> pane_cols(None, box_w) == 80,
        45 <= box_w < 72 ==> pane_cols(None, box_w) == 24,
        41 <= box_w < 45 ==> pane_cols(None, box_w) == box_w - 21,
        box_w < 41 ==> pane_cols(None, box_w) == 20 && pane_cols(Some(n), box_w) == 20,
{
}

/// The box holds two borders and the prompt besides the list, where it has four
/// rows; the list has the whole width, or what pane and divider leave.
pub proof fn law_the_list_is_what_is_left(s: AppView)
    ensures
        s.box_h >= 4 ==> s.rows() == s.box_h - 3,
        s.box_h < 4 ==> s.rows() == 1,
        !s.preview_on ==> s.list_cols() == s.box_w,
        s.preview_on && s.preview_w < s.box_w ==> s.list_cols() == s.box_w - s.preview_w - 1,
        s.preview_on && s.preview_w >= s.box_w ==> s.list_cols() == 0,
{
}

/// Computing the box follows the terminal and what was asked for, and changes
/// nothing but the box.
pub proof fn law_the_box_follows_the_terminal(s: AppView, asked: Option<nat>)
    requires
        s.size.0 >= 2,
    ensures
        ({
            let t = s.boxed(asked);
            &&& t.box_h == outer_rows(s.ui_rows, s.size.1 as int)
            &&& t.box_w == outer_cols(s.ui_width, s.size.0 as int) - 2 || outer_cols(
                s.ui_width,
                s.size.0 as int,
            ) < 2
            &&& t == (AppView {
                box_h: t.box_h,
                box_w: t.box_w,
                preview_w: t.preview_w,
                ..s
            })
        }),
{
    if let Some(r) = s.ui_rows {
        law_the_popup_height(r, s.size.1 as int);
    }
    if let Some(w) = s.ui_width {
        law_the_popup_width(w, s.size.0 as int);
    }
}

/// As many columns as the entries ask for, and no more than the widest name, of
/// which at most 20 cells count, leaves room for: eight at most. A column less
/// would not hold all entries; a column more would not fit, be needed or be
/// allowed.
pub proof fn law_the_grid_has_the_columns_it_needs(s: AppView, name_w: int, cols: int)
    requires
        s.wf(),
        name_w == (if s.maxw < 1 {
            1
        } else if s.maxw > 20 {
            20
        } else {
            s.maxw as int
        }),
        cols == s.grid_cols(),
    ensures
        1 <= cols <= 8,
        cols > 1 ==> (cols - 1) * s.rows() < s.ranked.len(),
        cols > 1 ==> cols * (name_w + 4) <= s.list_cols() + 2,
        cols < 8 && (cols + 1) * (name_w + 4) <= s.list_cols() + 2 ==> cols * s.rows()
            >= s.ranked.len(),
{
    let rows = s.rows();
    let n = s.ranked.len() as int;
    let total = at_least(n, 1);
    let w = s.list_cols() + 2;
    let d = name_w + 4;
    lemma_fundamental_div_mod(total, rows);
    lemma_mod_bound(total, rows);
    lemma_fundamental_div_mod(w, d);
    lemma_mod_bound(w, d);
    let whole = total / rows;
    let needed = at_least(ceil_div(total, rows), 1);
    let fit = w / d;
    assert(needed * rows >= total) by (nonlinear_arith)
        requires
            total == rows * whole + total % rows,
            0 <= total % rows < rows,
            total % rows == 0 ==> needed >= whole,
            total % rows != 0 ==> needed >= whole + 1,
            rows >= 1,
    ;
    assert(needed > 1 ==> (needed - 1) * rows < total) by (nonlinear_arith)
        requires
            total == rows * whole + total % rows,
            0 <= total % rows < rows,
            needed > 1 && total % rows == 0 ==> needed == whole,
            needed > 1 && total % rows != 0 ==> needed == whole + 1,
            rows >= 1,
    ;
    assert(cols > 1 ==> cols <= needed && cols <= fit);
    if cols > 1 {
        assert((needed - 1) * rows >= 1) by (nonlinear_arith)
            requires
                needed >= 2,
                rows >= 1,
        ;
        assert((cols - 1) * rows <= (needed - 1) * rows) by (nonlinear_arith)
            requires
                cols <= needed,
                rows >= 1,
        ;
        assert(cols * d <= fit * d) by (nonlinear_arith)
            requires
                cols <= fit,
                d >= 1,
        ;
        assert(fit * d == d * fit) by (nonlinear_arith);
    }
    if cols < 8 && (cols + 1) * d <= w {
        assert(cols + 1 <= fit) by (nonlinear_arith)
            requires
                w == d * fit + w % d,
                0 <= w % d < d,
                (cols + 1) * d <= w,
                d >= 1,
        ;
        assert(cols == needed);
    }
}

/// A column is as wide as the list allows, six cells at least.
pub proof fn law_columns_take_the_room_there_is(s: AppView, cols: int, w: int)
    requires
        s.wf(),
        cols == s.grid_cols(),
        w == s.grid_col_w(),
    ensures
        w >= 6,
        cols * (w + 1) + 2 * (cols - 1) > s.list_cols(),
{
    let text = at_least(s.list_cols() - 2 * (cols - 1), 0);
    lemma_fundamental_div_mod(text, cols);
    lemma_mod_bound(text, cols);
    let q = text / cols;
    assert(cols * (w + 1) > text) by (nonlinear_arith)
        requires
            text == cols * q + text % cols,
            0 <= text % cols < cols,
            w >= q,
            cols >= 1,
    ;
}

/// The popup begins at the cursor where it fits below it. Where it does not, the
/// screen is scrolled by as many lines as are missing, or the popup stands at the
/// bottom where the terminal did not answer.
pub proof fn law_the_popup_begins_under_the_cursor(r: usize, box_h: int, h: int)
    requires
        1 <= box_h <= h,
    ensures
        r + box_h <= h ==> overhang(Some(r), box_h, h) == 0,
        r + box_h <= h ==> top_row(Some(r), box_h, h, true) == r,
        r + box_h <= h ==> top_row(Some(r), box_h, h, false) == r,
        r + box_h > h && r < h ==> overhang(Some(r), box_h, h) == r + box_h - h,
        r >= h ==> overhang(Some(r), box_h, h) == box_h - 1,
        r + box_h > h ==> top_row(Some(r), box_h, h, true) == h - box_h,
        r + box_h > h ==> top_row(Some(r), box_h, h, false) == h - box_h,
        top_row(None, box_h, h, true) == h - box_h,
        overhang(None, box_h, h) == 0,
{
}

/// In a terminal of another size the popup stays where it is, if it still fits,
/// and is pulled up by what is missing, if it does not.
pub proof fn law_the_popup_is_pulled_up(s: AppView, size: (usize, usize), asked: Option<nat>)
    requires
        size.1 >= 1,
    ensures
        ({
            let t = s.resized(size, asked);
            &&& t.size == size
            &&& t.box_h == outer_rows(s.ui_rows, size.1 as int)
            &&& s.pop_top + t.box_h <= size.1 ==> t.pop_top == s.pop_top
            &&& s.pop_top + t.box_h > size.1 ==> t.pop_top + t.box_h == size.1
            &&& t.root == s.root && t.query == s.query && t.ranked == s.ranked && t.selected
                == s.selected
        }),
{
    if let Some(r) = s.ui_rows {
        law_the_popup_height(r, size.1 as int);
    }
}

/// One step on or back, around the ends.
pub proof fn law_steps_go_around(selected: int, n: int)
    requires
        0 <= selected < n,
    ensures
        moved(selected, 1, n) == (if selected + 1 == n {
            0
        } else {
            selected + 1
        }),
        moved(selected, -1, n) == (if selected == 0 {
            n - 1
        } else {
            selected - 1
        }),
        moved(selected, 1, 0) == 0,
{
    if selected + 1 < n {
        lemma_small_mod((selected + 1) as nat, n as nat);
    } else {
        vstd::arithmetic::div_mod::lemma_mod_self_0(n);
    }
    if selected > 0 {
        lemma_small_mod((selected - 1) as nat, n as nat);
    } else {
        lemma_mod_multiples_vanish(1, -1, n);
        assert(n * 1 + (-1) == n - 1);
        lemma_small_mod((n - 1) as nat, n as nat);
    }
}

/// One column on or back, around the ends: the same row of that column where it
/// counts as full, else of the first column on the way on, and of the last but
/// one on the way back. Where there is no such position, the last one.
pub proof fn law_columns_are_walked_by_row(rows: int, n: int, col: int, row: int, columns: int)
    requires
        0 < rows,
        0 < n,
        0 <= row < rows,
        0 <= col,
        col * rows + row < n,
        (columns - 1) * rows < n <= columns * rows,
    ensures
        ({
            let at = col * rows + row;
            let on_col = if col + 1 < columns && (col + 2) * (rows + 1) <= n {
                col + 1
            } else {
                0
            };
            let last_col = if col == 0 {
                columns - 1
            } else {
                col - 1
            };
            let back_col = if (last_col + 1) * (rows + 1) <= n {
                last_col
            } else if columns >= 2 {
                columns - 2
            } else {
                0
            };
            let on = on_col * rows + row;
            let back = back_col * rows + row;
            &&& moved_by_columns(at, 1, rows, n) == (if on < n {
                on
            } else {
                n - 1
            })
            &&& moved_by_columns(at, -1, rows, n) == (if back < n {
                back
            } else {
                n - 1
            })
        }),
{
    let at = col * rows + row;
    assert(rows * col + row == at) by (nonlinear_arith)
        requires
            at == col * rows + row,
    ;
    vstd::arithmetic::div_mod::lemma_fundamental_div_mod_converse(at, rows, col, row);
    lemma_fundamental_div_mod(n, rows);
    lemma_mod_bound(n, rows);
    let whole = n / rows;
    let ceil = ceil_div(n, rows);
    assert(ceil == columns) by (nonlinear_arith)
        requires
            n == rows * whole + n % rows,
            0 <= n % rows < rows,
            n % rows == 0 ==> ceil == whole,
            n % rows != 0 ==> ceil == whole + 1,
            (columns - 1) * rows < n <= columns * rows,
            0 < rows,
    ;
    assert(col < columns) by (nonlinear_arith)
        requires
            col * rows + row < n <= columns * rows,
            0 <= row,
            0 < rows,
    ;
    law_steps_go_around(col, columns);
    let on_col = if col + 1 == columns {
        0
    } else {
        col + 1
    };
    let back_col = if col == 0 {
        columns - 1
    } else {
        col - 1
    };
    assert((col + 1) % columns == on_col);
    assert((col + -1) % columns == back_col);
    assert((col - 1 + 1) * (rows + 1) == col * (rows + 1));
    assert((columns - 1 + 1) * (rows + 1) == columns * (rows + 1));
    assert(0 * rows == 0);
    assert(0 <= on_col * rows && 0 <= back_col * rows) by (nonlinear_arith)
        requires
            0 <= on_col,
            0 <= back_col,
            0 < rows,
    ;
    assert(0 <= at_least(columns - 2, 0) * rows) by (nonlinear_arith)
        requires
            0 <= at_least(columns - 2, 0),
            0 < rows,
    ;
    assert(col > 0 ==> (col - 1) * rows + row <= at) by (nonlinear_arith)
        requires
            at == col * rows + row,
            0 < rows,
    ;
}

/// Where the selection is drawn and the rows are filled, nothing is scrolled.
pub proof fn law_scrolling_only_where_needed(offset: int, selected: int, n: int, rows: int)
    requires
        0 <= offset <= selected < offset + rows,
        selected < n,
        offset + rows <= n,
    ensures
        scrolled(offset, selected, n, rows) == offset,
{
}

/// Scrolling shows as many entries as there are rows, where there are as many.
pub proof fn law_scrolling_fills_the_rows(offset: int, selected: int, n: int, rows: int)
    requires
        0 <= offset,
        0 <= selected < n,
        0 < rows <= n,
    ensures
        scrolled(offset, selected, n, rows) + rows <= n,
{
}

} // verus!
