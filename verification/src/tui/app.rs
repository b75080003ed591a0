//! The state of the picker: the listing, the ranking and the selection.

use crate::listing::{Entry, Options};
use crate::rank::{law_ranking_lists_each_index_once, rank_indices, ranking};
use crate::score::Score;
use crate::serve::Sorting;
use crate::text::{chars_are, chars_of, pieces, split, texts_of, trim, trimmed};
use crate::tui::settings::{env_usize, number_in};
use crate::tui::width::{str_width, text_cells};
use vstd::prelude::*;
use vstd::string::*;

verus! {

/// Outer popup height: two border rows plus up to 12 content rows.
pub const OUTER_ROWS: usize = 14;

/// The state of the picker.
#[derive(Debug)]
pub struct App {
    /// The directory that is listed, as raw bytes.
    pub root: Vec<u8>,
    pub opts: Options,
    /// The listing without dot files, once it has been made.
    pub hidden: Option<Vec<Entry>>,
    /// The listing with dot files, once it has been made.
    pub dots: Option<Vec<Entry>>,
    pub query: String,
    /// Indices into the listing, in the order of the view.
    pub ranked: Vec<usize>,
    pub needs_rank: bool,
    /// The selected position of the view.
    pub selected: usize,
    /// The first position of the view that is drawn.
    pub offset: usize,
    /// Columns and rows of the terminal.
    pub size: (usize, usize),
    /// The row of the cursor at the start, counted from zero.
    pub cursor_row: Option<usize>,
    /// Content columns between the borders of the popup.
    pub box_w: usize,
    /// Rows of the popup with its two borders.
    pub box_h: usize,
    /// The row of the top border, counted from zero.
    pub pop_top: usize,
    /// Rows that the user asked for, borders included.
    pub ui_rows: Option<usize>,
    /// Columns that the user asked for, borders included.
    pub ui_width: Option<usize>,
    /// One entry per row, with its metadata.
    pub long: bool,
    pub icons: bool,
    pub reverse: bool,
    pub dirs_first: bool,
    /// The sort key: 0 name, 1 extension, 2 size, 3 time.
    pub sort_mode: u8,
    /// Fields of the long view: 1 permissions, 2 user, 4 size, 8 time.
    pub cols_mask: u8,
    /// Cells of the widest label of the listing that backs the view, or zero
    /// while there is none.
    pub maxw: usize,
    pub preview_on: bool,
    /// Columns of the preview pane.
    pub preview_w: usize,
    /// What the pane shows: 0 nothing, 1 dim text, 2 art.
    pub pane_kind: u8,
    /// The rows of the pane, as wide as the pane.
    pub pane: Vec<String>,
    /// What the pane was rendered for, or is being rendered for.
    pub pane_key: Option<String>,
    /// Whether a render is in flight.
    pub rendering: bool,
    /// The graphics sequence of an image in the pane.
    pub pane_kitty: Option<String>,
    /// Whether the terminal speaks the kitty graphics protocol.
    pub kitty: bool,
    /// Whether an image is placed on the screen.
    pub kitty_drawn: bool,
    /// What the placed image was rendered for.
    pub kitty_key: Option<String>,
}

/// The state as a mathematical value.
pub struct AppView {
    pub root: Seq<u8>,
    pub opts: Options,
    pub hidden: Option<Seq<Entry>>,
    pub dots: Option<Seq<Entry>>,
    pub query: Seq<char>,
    pub ranked: Seq<usize>,
    pub needs_rank: bool,
    pub selected: usize,
    pub offset: usize,
    pub size: (usize, usize),
    pub cursor_row: Option<usize>,
    pub box_w: usize,
    pub box_h: usize,
    pub pop_top: usize,
    pub ui_rows: Option<usize>,
    pub ui_width: Option<usize>,
    pub long: bool,
    pub icons: bool,
    pub reverse: bool,
    pub dirs_first: bool,
    pub sort_mode: u8,
    pub cols_mask: u8,
    pub maxw: usize,
    pub preview_on: bool,
    pub preview_w: usize,
    pub pane_kind: u8,
    pub pane: Seq<Seq<char>>,
    pub pane_key: Option<Seq<char>>,
    pub rendering: bool,
    pub pane_kitty: Option<Seq<char>>,
    pub kitty: bool,
    pub kitty_drawn: bool,
    pub kitty_key: Option<Seq<char>>,
}

pub open spec fn opt_text(s: Option<String>) -> Option<Seq<char>> {
    match s {
        Some(s) => Some(s@),
        None => None,
    }
}

pub open spec fn opt_entries(v: Option<Vec<Entry>>) -> Option<Seq<Entry>> {
    match v {
        Some(v) => Some(v@),
        None => None,
    }
}

pub open spec fn row_texts(rows: Seq<String>) -> Seq<Seq<char>> {
    rows.map_values(|s: String| s@)
}

impl View for App {
    type V = AppView;

    open spec fn view(&self) -> AppView {
        AppView {
            root: self.root@,
            opts: self.opts,
            hidden: opt_entries(self.hidden),
            dots: opt_entries(self.dots),
            query: self.query@,
            ranked: self.ranked@,
            needs_rank: self.needs_rank,
            selected: self.selected,
            offset: self.offset,
            size: self.size,
            cursor_row: self.cursor_row,
            box_w: self.box_w,
            box_h: self.box_h,
            pop_top: self.pop_top,
            ui_rows: self.ui_rows,
            ui_width: self.ui_width,
            long: self.long,
            icons: self.icons,
            reverse: self.reverse,
            dirs_first: self.dirs_first,
            sort_mode: self.sort_mode,
            cols_mask: self.cols_mask,
            maxw: self.maxw,
            preview_on: self.preview_on,
            preview_w: self.preview_w,
            pane_kind: self.pane_kind,
            pane: row_texts(self.pane@),
            pane_key: opt_text(self.pane_key),
            rendering: self.rendering,
            pane_kitty: opt_text(self.pane_kitty),
            kitty: self.kitty,
            kitty_drawn: self.kitty_drawn,
            kitty_key: opt_text(self.kitty_key),
        }
    }
}

impl AppView {
    /// A query that begins with a dot shows dot files.
    pub open spec fn shows_dots(self) -> bool {
        self.query.len() > 0 && self.query[0] == '.'
    }

    /// The listing that backs the view.
    pub open spec fn listing(self) -> Option<Seq<Entry>> {
        if self.shows_dots() {
            self.dots
        } else {
            self.hidden
        }
    }

    /// The view is ranked: its positions hold entries of the listing, and one
    /// of them is selected, if there is any.
    pub open spec fn ranks_the_listing(self) -> bool {
        &&& self.listing() is Some
        &&& forall|k: int|
            0 <= k < self.ranked.len() ==> (#[trigger] self.ranked[k]) < self.listing()->0.len()
        &&& self.ranked.len() > 0 ==> self.selected < self.ranked.len()
    }

    /// What holds of the state at all times.
    pub open spec fn wf(self) -> bool {
        &&& 1 <= self.box_h <= 200
        &&& self.box_w <= usize::MAX - 2
        &&& self.preview_w < usize::MAX
        &&& self.maxw == cells_needed(self.listing())
        &&& cells_needed(self.hidden) <= usize::MAX
        &&& cells_needed(self.dots) <= usize::MAX
        &&& self.needs_rank || self.ranks_the_listing()
    }
}

/// The state at the start.
pub open spec fn fresh(
    root: Seq<u8>,
    opts: Options,
    query: Seq<char>,
    icons: bool,
    kitty: bool,
) -> AppView {
    AppView {
        root,
        opts,
        hidden: None,
        dots: None,
        query,
        ranked: Seq::empty(),
        needs_rank: true,
        selected: 0,
        offset: 0,
        size: (80, 24),
        cursor_row: None,
        box_w: 78,
        box_h: OUTER_ROWS,
        pop_top: 0,
        ui_rows: None,
        ui_width: None,
        long: false,
        icons,
        reverse: false,
        dirs_first: false,
        sort_mode: 0,
        cols_mask: 15,
        maxw: 0,
        preview_on: false,
        preview_w: 40,
        pane_kind: 0,
        pane: Seq::empty(),
        pane_key: None,
        rendering: false,
        pane_kitty: None,
        kitty,
        kitty_drawn: false,
        kitty_key: None,
    }
}

// ---------------------------------------------------------------------------
// Columns of the long view
// ---------------------------------------------------------------------------

/// The field that a word names.
pub open spec fn column_bit(word: Seq<char>) -> u8 {
    if word == "perm"@ {
        1
    } else if word == "user"@ {
        2
    } else if word == "size"@ {
        4
    } else if word == "time"@ {
        8
    } else {
        0
    }
}

/// Whether a field is named among some words.
pub open spec fn names_column(words: Seq<Seq<char>>, bit: u8) -> bool {
    exists|i: int| 0 <= i < words.len() && column_bit(trimmed(#[trigger] words[i])) == bit
}

/// The fields that are named among some words.
pub open spec fn columns_named(words: Seq<Seq<char>>) -> int {
    (if names_column(words, 1) {
        1int
    } else {
        0
    }) + (if names_column(words, 2) {
        2int
    } else {
        0
    }) + (if names_column(words, 4) {
        4int
    } else {
        0
    }) + (if names_column(words, 8) {
        8int
    } else {
        0
    })
}

fn bit_of(word: &[char]) -> (r: u8)
    ensures
        r == column_bit(word@),
{
    if chars_are(word, "perm") {
        1
    } else if chars_are(word, "user") {
        2
    } else if chars_are(word, "size") {
        4
    } else if chars_are(word, "time") {
        8
    } else {
        0
    }
}

fn has_column(words: &Vec<&[char]>, bit: u8) -> (r: bool)
    ensures
        r == names_column(texts_of(words@), bit),
{
    let ghost texts = texts_of(words@);
    let mut i: usize = 0;
    while i < words.len()
        invariant
            i <= words@.len(),
            texts == texts_of(words@),
            forall|j: int| 0 <= j < i ==> column_bit(trimmed(#[trigger] texts[j])) != bit,
        decreases words@.len() - i,
    {
        assert(texts[i as int] == words@[i as int]@);
        if bit_of(trim(words[i])) == bit {
            return true;
        }
        i += 1;
    }
    false
}

// ---------------------------------------------------------------------------
// Listing and ranking
// ---------------------------------------------------------------------------

/// The cells of the widest label of a listing.
pub open spec fn widest_cells(entries: Seq<Entry>) -> nat
    decreases entries.len(),
{
    if entries.len() == 0 {
        0
    } else {
        let before = widest_cells(entries.drop_last());
        let here = text_cells(entries.last().label@);
        if here > before {
            here
        } else {
            before
        }
    }
}

/// The cells that the labels of a listing need, where there is one.
pub open spec fn cells_needed(listing: Option<Seq<Entry>>) -> nat {
    match listing {
        Some(entries) => widest_cells(entries),
        None => 0,
    }
}

fn widest_label_cells(entries: &Vec<Entry>) -> (w: usize)
    ensures
        w == widest_cells(entries@),
{
    let mut w: usize = 0;
    let mut i: usize = 0;
    while i < entries.len()
        invariant
            i <= entries@.len(),
            w == widest_cells(entries@.take(i as int)),
        decreases entries@.len() - i,
    {
        assert(entries@.take(i + 1).drop_last() == entries@.take(i as int));
        let here: usize = str_width(entries[i].label.as_str());
        if here > w {
            w = here;
        }
        i += 1;
    }
    assert(entries@.take(i as int) == entries@);
    w
}

/// How a fresh listing is sorted.
pub open spec fn listing_order(sort_mode: u8, dirs_first: bool, reverse: bool) -> Sorting {
    if sort_mode == 1 {
        Sorting::ByExt
    } else if sort_mode == 2 {
        Sorting::BySize
    } else if sort_mode == 3 {
        Sorting::ByTime
    } else {
        Sorting::Reorder { dirs_first, reverse }
    }
}

impl AppView {
    /// The state with a listing for its view.
    pub open spec fn listed(self, entries: Seq<Entry>) -> AppView {
        AppView {
            maxw: widest_cells(entries) as usize,
            dots: if self.shows_dots() {
                Some(entries)
            } else {
                self.dots
            },
            hidden: if self.shows_dots() {
                self.hidden
            } else {
                Some(entries)
            },
            needs_rank: true,
            ..self
        }
    }

    /// The state with a ranking. The selection stays inside it.
    pub open spec fn with_ranking(self, ranked: Seq<usize>) -> AppView {
        AppView {
            ranked,
            needs_rank: false,
            selected: if self.selected >= ranked.len() && ranked.len() > 0 {
                (ranked.len() - 1) as usize
            } else {
                self.selected
            },
            ..self
        }
    }

    /// The state with everything of another root.
    pub open spec fn rooted_at(self, dir: Seq<u8>) -> AppView {
        AppView {
            root: dir,
            hidden: None,
            dots: None,
            query: Seq::empty(),
            ranked: Seq::empty(),
            needs_rank: true,
            selected: 0,
            offset: 0,
            maxw: 0,
            ..self
        }
    }

    /// The state with another query, and with the width of the listing that
    /// backs it.
    pub open spec fn with_query(self, query: Seq<char>) -> AppView {
        let s = AppView { query, needs_rank: true, selected: 0, ..self };
        AppView { maxw: cells_needed(s.listing()) as usize, ..s }
    }
}

/// `after` is the state `before` with its ranking up to date.
pub open spec fn brought_up_to_date<S: Fn(&str, &str) -> Score>(
    scorer: S,
    before: AppView,
    after: AppView,
) -> bool {
    if before.needs_rank {
        exists|ranked: Seq<usize>, width: nat|
            #[trigger] ranking(scorer, before.listing()->0, before.query, ranked, width) && after
                == before.with_ranking(ranked)
    } else {
        after == before
    }
}

impl App {
    pub open spec fn wf(&self) -> bool {
        self@.wf()
    }

    /// A picker for a root directory. The query is that of the last run.
    pub fn new(root: Vec<u8>, opts: Options, query: String, icons: bool, kitty: bool) -> (r: App)
        ensures
            r@ == fresh(root@, opts, query@, icons, kitty),
            r.wf(),
    {
        let r = App {
            root,
            opts,
            hidden: None,
            dots: None,
            query,
            ranked: Vec::new(),
            needs_rank: true,
            selected: 0,
            offset: 0,
            size: (80, 24),
            cursor_row: None,
            box_w: 78,
            box_h: OUTER_ROWS,
            pop_top: 0,
            ui_rows: None,
            ui_width: None,
            long: false,
            icons,
            reverse: false,
            dirs_first: false,
            sort_mode: 0,
            cols_mask: 15,
            maxw: 0,
            preview_on: false,
            preview_w: 40,
            pane_kind: 0,
            pane: Vec::new(),
            pane_key: None,
            rendering: false,
            pane_kitty: None,
            kitty,
            kitty_drawn: false,
            kitty_key: None,
        };
        assert(r@.pane =~= Seq::<Seq<char>>::empty());
        r
    }

    /// Apply eza-style order tweaks to listings that are made from now on.
    pub fn set_sort(&mut self, reverse: bool, dirs_first: bool)
        ensures
            final(self)@ == (AppView { reverse, dirs_first, ..old(self)@ }),
    {
        self.reverse = reverse;
        self.dirs_first = dirs_first;
    }

    pub fn set_sort_mode(&mut self, mode: u8)
        ensures
            final(self)@ == (AppView { sort_mode: mode, ..old(self)@ }),
    {
        self.sort_mode = mode;
    }

    /// Set the long-view columns from a comma list (perm,user,size,time). A
    /// list that names none keeps the columns.
    pub fn set_columns(&mut self, spec_text: &str)
        ensures
            ({
                let mask = columns_named(pieces(spec_text@, ','));
                if mask == 0 {
                    final(self)@ == old(self)@
                } else {
                    final(self)@ == (AppView { cols_mask: mask as u8, ..old(self)@ })
                }
            }),
    {
        let chars = chars_of(spec_text);
        let words = split(chars.as_slice(), ',');
        let mut mask: u8 = 0;
        if has_column(&words, 1) {
            mask += 1;
        }
        if has_column(&words, 2) {
            mask += 2;
        }
        if has_column(&words, 4) {
            mask += 4;
        }
        if has_column(&words, 8) {
            mask += 8;
        }
        if mask != 0 {
            self.cols_mask = mask;
        }
    }

    /// Enable the long listing view (metadata and name per row).
    pub fn set_long(&mut self, on: bool)
        ensures
            final(self)@ == (AppView { long: on, ..old(self)@ }),
    {
        self.long = on;
    }

    /// Override the popup size. What was asked for wins over `LUSTY_ROWS` and
    /// `LUSTY_WIDTH`; with neither the default stays.
    pub fn set_ui(
        &mut self,
        rows: Option<usize>,
        width: Option<usize>,
        lusty_rows: Option<&str>,
        lusty_width: Option<&str>,
    )
        ensures
            final(self)@ == (AppView {
                ui_rows: final(self).ui_rows,
                ui_width: final(self).ui_width,
                ..old(self)@
            }),
            rows is Some ==> final(self).ui_rows == rows,
            rows is None ==> match final(self).ui_rows {
                Some(n) => number_in(lusty_rows) == Some(n as nat),
                None => number_in(lusty_rows) is None,
            },
            width is Some ==> final(self).ui_width == width,
            width is None ==> match final(self).ui_width {
                Some(n) => number_in(lusty_width) == Some(n as nat),
                None => number_in(lusty_width) is None,
            },
    {
        self.ui_rows = if rows.is_some() {
            rows
        } else {
            env_usize(lusty_rows)
        };
        self.ui_width = if width.is_some() {
            width
        } else {
            env_usize(lusty_width)
        };
    }

    /// Whether the view shows dot files.
    pub fn show_dots(&self) -> (r: bool)
        ensures
            r == self@.shows_dots(),
    {
        let chars = chars_of(self.query.as_str());
        chars.len() > 0 && chars[0] == '.'
    }

    /// Whether the listing that backs the view has still to be made.
    pub fn needs_listing(&self) -> (r: bool)
        ensures
            r == (self@.listing() is None),
    {
        if self.show_dots() {
            self.dots.is_none()
        } else {
            self.hidden.is_none()
        }
    }

    /// How the listing that backs the view has to be sorted.
    pub fn sorting(&self) -> (r: Sorting)
        ensures
            r == listing_order(self.sort_mode, self.dirs_first, self.reverse),
    {
        match self.sort_mode {
            1 => Sorting::ByExt,
            2 => Sorting::BySize,
            3 => Sorting::ByTime,
            _ => Sorting::Reorder { dirs_first: self.dirs_first, reverse: self.reverse },
        }
    }

    /// Installs the sorted listing that backs the view.
    pub fn install_listing(&mut self, listed: Vec<Entry>)
        requires
            old(self).wf(),
        ensures
            final(self)@ == old(self)@.listed(listed@),
            final(self).wf(),
    {
        let w: usize = widest_label_cells(&listed);
        self.maxw = w;
        if self.show_dots() {
            self.dots = Some(listed);
        } else {
            self.hidden = Some(listed);
        }
        self.needs_rank = true;
    }

    /// The listing that backs the view.
    pub fn listing(&self) -> (r: &Vec<Entry>)
        requires
            self@.listing() is Some,
        ensures
            r@ == self@.listing()->0,
    {
        let found = if self.show_dots() {
            &self.dots
        } else {
            &self.hidden
        };
        match found {
            Some(v) => v,
            None => vstd::pervasive::unreached(),
        }
    }

    /// Brings the ranking up to date.
    pub fn ensure_ranked<S: Fn(&str, &str) -> Score + Sync>(&mut self, scorer: &S)
        requires
            forall|l: &str, q: &str| call_requires(*scorer, (l, q)),
            old(self).wf(),
            old(self)@.listing() is Some,
        ensures
            brought_up_to_date(*scorer, old(self)@, final(self)@),
            final(self).wf(),
            !final(self).needs_rank,
    {
        if !self.needs_rank {
            return;
        }
        let ghost before = self@;
        let listing = self.listing();
        let ranked = rank_indices(listing.as_slice(), self.query.as_str(), scorer);
        let ghost entries = before.listing()->0;
        assert(entries.len() == listing.len());
        let ghost width = choose|width: nat|
            #[trigger] ranking(*scorer, entries, before.query, ranked@, width);
        proof {
            law_ranking_lists_each_index_once(*scorer, entries, before.query, ranked@, width);
        }
        let n: usize = ranked.len();
        self.ranked = ranked;
        self.needs_rank = false;
        if self.selected >= n && n > 0 {
            self.selected = n - 1;
        }
        assert(self@ == before.with_ranking(ranked@));
    }

    /// How many entries the view holds.
    pub fn ranked_len<S: Fn(&str, &str) -> Score + Sync>(&mut self, scorer: &S) -> (n: usize)
        requires
            forall|l: &str, q: &str| call_requires(*scorer, (l, q)),
            old(self).wf(),
            old(self)@.listing() is Some,
        ensures
            brought_up_to_date(*scorer, old(self)@, final(self)@),
            final(self).wf(),
            n == final(self).ranked@.len(),
    {
        self.ensure_ranked(scorer);
        self.ranked.len()
    }

    /// The entry at a position of the view.
    pub fn entry_at(&self, list_i: usize) -> (r: &Entry)
        requires
            self.wf(),
            !self.needs_rank,
            list_i < self.ranked@.len(),
        ensures
            *r == self@.listing()->0[self.ranked@[list_i as int] as int],
    {
        let i: usize = self.ranked[list_i];
        assert(i == self@.ranked[list_i as int]);
        &self.listing()[i]
    }

    /// Moves the picker to another directory.
    pub fn re_root(&mut self, dir: Vec<u8>)
        requires
            old(self).wf(),
        ensures
            final(self)@ == old(self)@.rooted_at(dir@),
            final(self).wf(),
    {
        self.root = dir;
        self.hidden = None;
        self.dots = None;
        self.query = String::new();
        self.ranked = Vec::new();
        self.needs_rank = true;
        self.selected = 0;
        self.offset = 0;
        self.maxw = 0;
    }

    fn listing_cells(&self) -> (w: usize)
        ensures
            w == cells_needed(self@.listing()),
    {
        let found = if self.show_dots() {
            &self.dots
        } else {
            &self.hidden
        };
        match found {
            Some(v) => widest_label_cells(v),
            None => 0,
        }
    }

    /// Sets the query. The width is measured anew only where another listing
    /// backs the view.
    pub fn set_query(&mut self, query: String)
        requires
            old(self).wf(),
        ensures
            final(self)@ == old(self)@.with_query(query@),
            final(self).wf(),
    {
        let dots = self.show_dots();
        self.query = query;
        self.needs_rank = true;
        self.selected = 0;
        if self.show_dots() != dots {
            let w: usize = self.listing_cells();
            self.maxw = w;
        }
    }
}

// ---------------------------------------------------------------------------
// Laws
// ---------------------------------------------------------------------------

/// Whether a word, white space around it aside, is among some words.
pub open spec fn has_word(words: Seq<Seq<char>>, word: Seq<char>) -> bool {
    exists|i: int| 0 <= i < words.len() && trimmed(#[trigger] words[i]) == word
}

/// The bits of the long view: permissions, user, size and time, each set exactly
/// if its word is among those given.
pub proof fn law_columns_are_named_by_their_words(words: Seq<Seq<char>>)
    ensures
        0 <= columns_named(words) <= 15,
        columns_named(words) % 2 == 1 <==> has_word(words, seq!['p', 'e', 'r', 'm']),
        columns_named(words) / 2 % 2 == 1 <==> has_word(words, seq!['u', 's', 'e', 'r']),
        columns_named(words) / 4 % 2 == 1 <==> has_word(words, seq!['s', 'i', 'z', 'e']),
        columns_named(words) / 8 == 1 <==> has_word(words, seq!['t', 'i', 'm', 'e']),
{
    reveal_strlit("perm");
    reveal_strlit("user");
    reveal_strlit("size");
    reveal_strlit("time");
    assert("perm"@ =~= seq!['p', 'e', 'r', 'm']);
    assert("user"@ =~= seq!['u', 's', 'e', 'r']);
    assert("size"@ =~= seq!['s', 'i', 'z', 'e']);
    assert("time"@ =~= seq!['t', 'i', 'm', 'e']);
    assert("perm"@[0] == 'p' && "user"@[0] == 'u' && "size"@[0] == 's' && "time"@[0] == 't');
    lemma_named(words, "perm"@, 1);
    lemma_named(words, "user"@, 2);
    lemma_named(words, "size"@, 4);
    lemma_named(words, "time"@, 8);
}

proof fn lemma_named(words: Seq<Seq<char>>, word: Seq<char>, bit: u8)
    requires
        column_bit(word) == bit,
        forall|w: Seq<char>| #[trigger] column_bit(w) == bit ==> w == word,
    ensures
        names_column(words, bit) == has_word(words, word),
{
    if has_word(words, word) {
        let i = choose|i: int| 0 <= i < words.len() && trimmed(#[trigger] words[i]) == word;
        assert(column_bit(trimmed(words[i])) == bit);
    }
    if names_column(words, bit) {
        let i = choose|i: int|
            0 <= i < words.len() && column_bit(trimmed(#[trigger] words[i])) == bit;
        assert(trimmed(words[i]) == word);
    }
}

/// No label of a listing takes more cells than the width of the listing, and one
/// takes as many.
pub proof fn law_the_width_is_that_of_the_widest_label(entries: Seq<Entry>, i: int)
    requires
        0 <= i < entries.len(),
    ensures
        text_cells(entries[i].label@) <= widest_cells(entries),
        exists|k: int|
            0 <= k < entries.len() && text_cells((#[trigger] entries[k]).label@) == widest_cells(
                entries,
            ),
    decreases entries.len(),
{
    let front = entries.drop_last();
    let n = entries.len() - 1;
    if n > 0 {
        let j = if i < n {
            i
        } else {
            0
        };
        law_the_width_is_that_of_the_widest_label(front, j);
        assert(front[j] == entries[j]);
        let k = choose|k: int|
            0 <= k < front.len() && text_cells((#[trigger] front[k]).label@) == widest_cells(front);
        assert(front[k] == entries[k]);
        if text_cells(entries[n].label@) > widest_cells(front) {
            assert(text_cells(entries[n].label@) == widest_cells(entries));
        } else {
            assert(text_cells(entries[k].label@) == widest_cells(entries));
        }
    } else {
        assert(widest_cells(front) == 0);
        assert(text_cells(entries[n].label@) == widest_cells(entries));
    }
}

/// A fresh listing is sorted by the sort key: 1 extension, 2 size, 3 time. By
/// name, the two tweaks are applied.
pub proof fn law_listings_follow_the_sort_key(mode: u8, dirs_first: bool, reverse: bool)
    ensures
        listing_order(1, dirs_first, reverse) == Sorting::ByExt,
        listing_order(2, dirs_first, reverse) == Sorting::BySize,
        listing_order(3, dirs_first, reverse) == Sorting::ByTime,
        mode == 0 || mode > 3 ==> listing_order(mode, dirs_first, reverse) == (Sorting::Reorder {
            dirs_first,
            reverse,
        }),
{
}

/// A query that begins with a dot is answered from the listing with dot files,
/// every other one from the listing without them. A fresh listing becomes the
/// one of its view and leaves the other.
pub proof fn law_the_dot_chooses_the_listing(s: AppView, entries: Seq<Entry>)
    ensures
        s.query.len() > 0 && s.query[0] == '.' ==> s.listing() == s.dots,
        s.query.len() == 0 || s.query[0] != '.' ==> s.listing() == s.hidden,
        s.listed(entries).listing() == Some(entries),
        s.query.len() > 0 && s.query[0] == '.' ==> s.listed(entries).hidden == s.hidden,
        s.query.len() == 0 || s.query[0] != '.' ==> s.listed(entries).dots == s.dots,
        s.listed(entries).needs_rank,
        s.listed(entries).query == s.query,
        s.listed(entries).selected == s.selected,
{
}

/// Ranking keeps the selected position, or takes the last one where there are
/// fewer. Everything else but the ranking stays.
pub proof fn law_ranking_keeps_the_selection(s: AppView, ranked: Seq<usize>)
    requires
        ranked.len() <= usize::MAX,
    ensures
        s.selected < ranked.len() ==> s.with_ranking(ranked).selected == s.selected,
        s.selected >= ranked.len() > 0 ==> s.with_ranking(ranked).selected == ranked.len() - 1,
        s.with_ranking(ranked).ranked == ranked,
        !s.with_ranking(ranked).needs_rank,
        s.with_ranking(ranked).query == s.query,
        s.with_ranking(ranked).root == s.root,
        s.with_ranking(ranked).listing() == s.listing(),
{
}

/// What is brought up to date is the ranking of the listing that backs the view,
/// for the query; an up-to-date view is left alone.
pub proof fn law_views_are_ranked_by_their_query<S: Fn(&str, &str) -> Score>(
    scorer: S,
    before: AppView,
    after: AppView,
)
    requires
        brought_up_to_date(scorer, before, after),
    ensures
        !before.needs_rank ==> after == before,
        before.needs_rank ==> exists|width: nat|
            #[trigger] ranking(
                scorer,
                before.listing()->0,
                before.query,
                after.ranked,
                width,
            ),
{
    if before.needs_rank {
        let (ranked, width) = choose|ranked: Seq<usize>, width: nat|
            #[trigger] ranking(scorer, before.listing()->0, before.query, ranked, width) && after
                == before.with_ranking(ranked);
        assert(ranking(scorer, before.listing()->0, before.query, after.ranked, width));
    }
}

/// Another root leaves nothing of the view: no listing, no query, no ranking, and
/// the selection at the start.
pub proof fn law_another_root_starts_afresh(s: AppView, dir: Seq<u8>)
    ensures
        ({
            let t = s.rooted_at(dir);
            &&& t.root == dir
            &&& t.listing() is None && t.hidden is None && t.dots is None
            &&& t.query.len() == 0 && t.ranked.len() == 0 && t.needs_rank
            &&& t.selected == 0 && t.offset == 0
            &&& t.opts == s.opts && t.sort_mode == s.sort_mode && t.preview_on == s.preview_on
            &&& t.box_h == s.box_h && t.box_w == s.box_w && t.pop_top == s.pop_top
        }),
{
}

/// Another query ranks anew from the first position and leaves the rest.
pub proof fn law_another_query_starts_at_the_top(s: AppView, query: Seq<char>)
    ensures
        ({
            let t = s.with_query(query);
            &&& t.query == query && t.needs_rank && t.selected == 0
            &&& t.root == s.root && t.offset == s.offset && t.ranked == s.ranked
            &&& t.hidden == s.hidden && t.dots == s.dots
            &&& t.opts == s.opts && t.sort_mode == s.sort_mode && t.preview_on == s.preview_on
            &&& t.box_h == s.box_h && t.box_w == s.box_w && t.pop_top == s.pop_top
        }),
{
}

/// The state at the start: what was given, a popup of fourteen rows on a screen
/// of 80 by 24, all fields of the long view, and nothing listed, typed, ranked,
/// asked for or drawn.
pub proof fn law_the_state_at_the_start(
    root: Seq<u8>,
    opts: Options,
    query: Seq<char>,
    icons: bool,
    kitty: bool,
)
    ensures
        ({
            let s = fresh(root, opts, query, icons, kitty);
            &&& s.root == root && s.opts == opts && s.query == query
            &&& s.icons == icons && s.kitty == kitty
            &&& s.hidden is None && s.dots is None && s.ranked.len() == 0 && s.needs_rank
            &&& s.selected == 0 && s.offset == 0 && s.maxw == 0
            &&& s.size.0 == 80 && s.size.1 == 24 && s.cursor_row is None
            &&& s.box_w == 78 && s.box_h == 14 && s.pop_top == 0
            &&& s.ui_rows is None && s.ui_width is None
            &&& !s.long && !s.reverse && !s.dirs_first && s.sort_mode == 0 && s.cols_mask == 15
            &&& !s.preview_on && s.preview_w == 40 && s.pane_kind == 0 && s.pane.len() == 0
            &&& s.pane_key is None && !s.rendering && s.pane_kitty is None
            &&& !s.kitty_drawn && s.kitty_key is None
        }),
{
}

} // verus!
