//! What the keys do.

use crate::fuzzy::layout::{normalize_query_char, printable_ascii, query_char};
use crate::listing::{Entry, FileKind, Options};
use crate::text::{chars_of, chars_start_with, lowercase_text, starts_with, str_eq};
use crate::tui::app::{cells_needed, App, AppView};
use crate::tui::geometry::{
    at_least, at_most, ceil_div, law_steps_go_around, law_the_selection_is_drawn, moved,
    moved_by_columns, scrolled,
};
use crate::tui::path::{parent, parent_of, SLASH};
use vstd::arithmetic::div_mod::{lemma_fundamental_div_mod, lemma_mod_bound};
use vstd::prelude::*;
use vstd::string::*;
use vstd::utf8::encode_utf8;

verus! {

#[derive(Clone, Copy, Debug, PartialEq, Eq, Structural)]
pub enum Key {
    Esc,
    Enter,
    Tab,
    Up,
    Down,
    Left,
    Right,
    Home,
    End,
    PageUp,
    PageDown,
    Backspace,
    Char(char),
    Other,
}

/// What is left to do after a key.
#[derive(Debug)]
pub enum Reaction {
    /// Go on.
    Stay,
    /// Leave without a selection.
    Cancel,
    /// Print the line and leave.
    Pick(Vec<u8>),
}

pub enum ReactionView {
    Stay,
    Cancel,
    Pick(Seq<u8>),
}

impl View for Reaction {
    type V = ReactionView;

    open spec fn view(&self) -> ReactionView {
        match self {
            Reaction::Stay => ReactionView::Stay,
            Reaction::Cancel => ReactionView::Cancel,
            Reaction::Pick(line) => ReactionView::Pick(line@),
        }
    }
}

// ---------------------------------------------------------------------------
// The slash
// ---------------------------------------------------------------------------

/// Whether a path is the root of the file system: it begins with a slash and
/// has no component but `.`.
pub open spec fn is_fs_root(path: Seq<u8>) -> bool {
    &&& path.len() > 0
    &&& path[0] == 0x2f
    &&& forall|i: int| 0 <= i < path.len() ==> slash_or_dot(path, i)
}

/// Whether a slash or a whole component `.` stands at a place of a path.
pub open spec fn slash_or_dot(path: Seq<u8>, i: int) -> bool {
    path[i] == 0x2f || (path[i] == 0x2e && i > 0 && path[i - 1] == 0x2f && (i + 1 == path.len()
        || path[i + 1] == 0x2f))
}

fn check_fs_root(path: &Vec<u8>) -> (r: bool)
    ensures
        r == is_fs_root(path@),
{
    let n: usize = path.len();
    if n == 0 || path[0] != 0x2f {
        return false;
    }
    let mut i: usize = 0;
    while i < n
        invariant
            i <= n == path@.len(),
            forall|j: int| 0 <= j < i ==> slash_or_dot(path@, j),
        decreases n - i,
    {
        let fits = path[i] == 0x2f || (path[i] == 0x2e && i > 0 && path[i - 1] == 0x2f && (i + 1
            == n || path[i + 1] == 0x2f));
        if !fits {
            assert(!slash_or_dot(path@, i as int));
            return false;
        }
        i += 1;
    }
    true
}

/// Whether an entry is a directory directly below the root.
pub open spec fn is_child_dir(e: Entry) -> bool {
    e.kind == FileKind::Dir && e.depth == 1
}

/// Whether an entry is a child directory with a given name.
pub open spec fn has_name(e: Entry, name: Seq<char>, typed: Seq<char>) -> bool {
    is_child_dir(e) && name == typed
}

/// Whether an entry is a child directory whose name begins as given.
pub open spec fn has_prefix(e: Entry, name: Seq<char>, typed: Seq<char>) -> bool {
    is_child_dir(e) && starts_with(name, typed)
}

pub fn dir_has_name(e: &Entry, name: &str, typed: &str) -> (r: bool)
    ensures
        r == has_name(*e, name@, typed@),
{
    e.kind == FileKind::Dir && e.depth == 1 && str_eq(name, typed)
}

pub fn dir_has_prefix(e: &Entry, name: &str, typed: &str) -> (r: bool)
    ensures
        r == has_prefix(*e, name@, typed@),
{
    e.kind == FileKind::Dir && e.depth == 1 && chars_start_with(
        chars_of(name).as_slice(),
        chars_of(typed).as_slice(),
    )
}

/// The child directories with the typed name. Names are compared in small
/// letters.
pub open spec fn exact_dirs(entries: Seq<Entry>, query: Seq<char>) -> Seq<bool> {
    entries.map_values(
        |e: Entry| has_name(e, lowercase_text(e.basename@), lowercase_text(query)),
    )
}

/// The child directories whose names begin with what was typed.
pub open spec fn prefixed_dirs(entries: Seq<Entry>, query: Seq<char>) -> Seq<bool> {
    entries.map_values(
        |e: Entry| has_prefix(e, lowercase_text(e.basename@), lowercase_text(query)),
    )
}

/// The directory that is uniquely named: by its exact name, or, where no single
/// one has it, by a prefix.
pub open spec fn unique_of(exact: Seq<bool>, prefixed: Seq<bool>) -> Option<int> {
    if marked(exact).len() == 1 {
        Some(marked(exact)[0])
    } else if marked(prefixed).len() == 1 {
        Some(marked(prefixed)[0])
    } else {
        None
    }
}

/// The directory that is uniquely named.
pub fn unique_dir(exact: &Vec<bool>, prefixed: &Vec<bool>) -> (r: Option<usize>)
    requires
        exact@.len() == prefixed@.len(),
    ensures
        match r {
            Some(i) => unique_of(exact@, prefixed@) == Some(i as int) && i < exact@.len(),
            None => unique_of(exact@, prefixed@) is None,
        },
{
    match only_marked(exact) {
        Some(i) => Some(i),
        None => only_marked(prefixed),
    }
}

/// The places that are marked.
pub open spec fn marked(flags: Seq<bool>) -> Seq<int>
    decreases flags.len(),
{
    if flags.len() == 0 {
        Seq::empty()
    } else if flags.last() {
        marked(flags.drop_last()).push(flags.len() - 1)
    } else {
        marked(flags.drop_last())
    }
}

/// The place that is marked, if it is the only one.
pub fn only_marked(flags: &Vec<bool>) -> (r: Option<usize>)
    ensures
        match r {
            Some(i) => marked(flags@) == seq![i as int] && i < flags@.len(),
            None => marked(flags@).len() != 1,
        },
{
    let mut first: Option<usize> = None;
    let mut more = false;
    let mut i: usize = 0;
    while i < flags.len()
        invariant
            i <= flags@.len(),
            match first {
                Some(k) => k < i && if more {
                    marked(flags@.take(i as int)).len() > 1
                } else {
                    marked(flags@.take(i as int)) == seq![k as int]
                },
                None => !more && marked(flags@.take(i as int)).len() == 0,
            },
        decreases flags@.len() - i,
    {
        assert(flags@.take(i + 1).drop_last() == flags@.take(i as int));
        if flags[i] {
            if first.is_some() {
                more = true;
            } else {
                first = Some(i);
                assert(marked(flags@.take(i + 1)) =~= seq![i as int]);
            }
        }
        i += 1;
    }
    assert(flags@.take(i as int) == flags@);
    if more {
        None
    } else {
        first
    }
}

// ---------------------------------------------------------------------------
// The next state
// ---------------------------------------------------------------------------

/// The line that is printed for a selection: the action, a tab, the path.
pub open spec fn pick_line(action: Seq<char>, path: Seq<u8>) -> Seq<u8> {
    encode_utf8(action).push(0x09u8) + path.push(0x0au8)
}

impl AppView {
    pub open spec fn erased(self) -> AppView {
        if self.query.len() > 0 {
            self.with_query(self.query.drop_last())
        } else {
            self
        }
    }

    pub open spec fn typed(self, c: Option<char>) -> AppView {
        match c {
            Some(c) => self.with_query(self.query.push(c)),
            None => self,
        }
    }

    pub open spec fn select(self, at: int) -> AppView {
        AppView { selected: at as usize, ..self }
    }

    /// The state without its listings.
    pub open spec fn unlisted(self) -> AppView {
        AppView {
            hidden: None,
            dots: None,
            needs_rank: true,
            selected: 0,
            offset: 0,
            maxw: 0,
            ..self
        }
    }

    pub open spec fn without_pane(self) -> AppView {
        AppView {
            pane: Seq::empty(),
            pane_kind: 0,
            pane_key: None,
            rendering: false,
            pane_kitty: None,
            ..self
        }
    }

    /// A slash goes into the directory that the query uniquely names, or to
    /// the root of the file system where there is no query. Else it is typed.
    pub open spec fn slashed(self) -> AppView {
        let entries = self.listing()->0;
        if self.query.len() == 0 {
            if is_fs_root(self.root) {
                self
            } else {
                self.rooted_at(seq![0x2fu8])
            }
        } else {
            match unique_of(exact_dirs(entries, self.query), prefixed_dirs(entries, self.query)) {
                Some(i) => self.rooted_at(entries[i].path@),
                None => AppView { offset: 0, ..self.with_query(self.query.push('/')) },
            }
        }
    }

    /// Opening a directory moves the picker into it, opening anything else
    /// picks it.
    pub open spec fn opened(self, action: Seq<char>) -> (AppView, ReactionView) {
        let e = self.listing()->0[self.ranked[self.selected as int] as int];
        if self.ranked.len() == 0 {
            (self, ReactionView::Stay)
        } else if e.kind == FileKind::Dir {
            (self.rooted_at(e.path@), ReactionView::Stay)
        } else {
            (self, ReactionView::Pick(pick_line(action, e.path@)))
        }
    }

    /// The first C-w clears the query, the next one goes to the parent
    /// directory, where there is one.
    pub open spec fn word_erased(self) -> AppView {
        if self.query.len() > 0 {
            AppView { offset: 0, ..self.with_query(Seq::empty()) }
        } else {
            match parent(self.root) {
                Some(dir) => self.rooted_at(dir),
                None => self,
            }
        }
    }

    /// What a key with Control does.
    pub open spec fn after_ctrl(self, c: char) -> (AppView, ReactionView) {
        let n = self.ranked.len() as int;
        if c == 'c' || c == 'g' {
            (self, ReactionView::Cancel)
        } else if c == 't' {
            self.opened("tabedit"@)
        } else if c == 'o' {
            self.opened("split"@)
        } else if c == 'v' {
            self.opened("vsplit"@)
        } else if c == 'n' || c == 'j' {
            self.after_plain(Key::Down)
        } else if c == 'p' || c == 'k' {
            self.after_plain(Key::Up)
        } else if c == 'f' {
            self.after_plain(Key::Right)
        } else if c == 'b' {
            self.after_plain(Key::Left)
        } else if c == 'w' {
            (self.word_erased(), ReactionView::Stay)
        } else if c == 'l' {
            (AppView { long: !self.long, ..self }, ReactionView::Stay)
        } else if c == 'y' {
            (
                AppView { sort_mode: ((self.sort_mode + 1) % 4) as u8, ..self.unlisted() },
                ReactionView::Stay,
            )
        } else if c == 'u' {
            (
                if self.query.len() > 0 {
                    self.with_query(Seq::empty())
                } else {
                    self
                },
                ReactionView::Stay,
            )
        } else if c == 'd' {
            (
                AppView {
                    opts: Options { depth: (self.opts.depth % 6 + 1) as usize, ..self.opts },
                    ..self.unlisted()
                },
                ReactionView::Stay,
            )
        } else if c == 'h' {
            (self.erased(), ReactionView::Stay)
        } else if c == 'a' {
            self.after_plain(Key::Home)
        } else if c == 'e' {
            self.after_plain(Key::End)
        } else if c == ' ' {
            (
                (AppView { preview_on: !self.preview_on, ..self }).without_pane(),
                ReactionView::Stay,
            )
        } else {
            (self, ReactionView::Stay)
        }
    }

    /// What a key without Control does. Keys that are no characters do the
    /// same with it.
    pub open spec fn after_plain(self, key: Key) -> (AppView, ReactionView) {
        let n = self.ranked.len() as int;
        match key {
            Key::Esc => (self, ReactionView::Cancel),
            Key::Enter | Key::Tab => self.opened("edit"@),
            Key::Down => (self.select(moved(self.selected as int, 1, n)), ReactionView::Stay),
            Key::Up => (self.select(moved(self.selected as int, -1, n)), ReactionView::Stay),
            Key::Right => (
                self.select(moved_by_columns(self.selected as int, 1, self.rows(), n)),
                ReactionView::Stay,
            ),
            Key::Left => (
                self.select(moved_by_columns(self.selected as int, -1, self.rows(), n)),
                ReactionView::Stay,
            ),
            Key::Home => (
                if n > 0 {
                    self.select(0)
                } else {
                    self
                },
                ReactionView::Stay,
            ),
            Key::End => (
                if n > 0 {
                    self.select(n - 1)
                } else {
                    self
                },
                ReactionView::Stay,
            ),
            Key::PageUp => (
                if n > 0 {
                    self.select(at_least(self.selected - self.rows(), 0))
                } else {
                    self
                },
                ReactionView::Stay,
            ),
            Key::PageDown => (
                if n > 0 {
                    self.select(at_most(self.selected + self.rows(), n - 1))
                } else {
                    self
                },
                ReactionView::Stay,
            ),
            Key::Backspace => (self.erased(), ReactionView::Stay),
            Key::Char(c) => if c == '/' {
                (self.slashed(), ReactionView::Stay)
            } else if c == 'P' {
                (
                    (AppView { preview_on: !self.preview_on, ..self }).without_pane(),
                    ReactionView::Stay,
                )
            } else {
                (self.typed(query_char(c)), ReactionView::Stay)
            },
            Key::Other => (self, ReactionView::Stay),
        }
    }

    /// What a key does.
    pub open spec fn after_key(self, key: Key, ctrl: bool) -> (AppView, ReactionView) {
        match key {
            Key::Char(c) => if ctrl {
                self.after_ctrl(c)
            } else {
                self.after_plain(key)
            },
            _ => self.after_plain(key),
        }
    }

    /// The state scrolled to its selection.
    pub open spec fn in_view(self) -> AppView {
        AppView {
            offset: scrolled(
                self.offset as int,
                self.selected as int,
                self.ranked.len() as int,
                self.rows(),
            ) as usize,
            ..self
        }
    }
}

fn page_up(selected: usize, page: usize) -> (r: usize)
    ensures
        r == at_least(selected - page, 0),
{
    if selected > page {
        selected - page
    } else {
        0
    }
}

fn page_down(selected: usize, page: usize, n: usize) -> (r: usize)
    requires
        selected < n,
    ensures
        r == at_most(selected + page, n - 1),
{
    if page > n - 1 - selected {
        n - 1
    } else {
        selected + page
    }
}

impl App {
    /// Removes the last character of the query.
    pub fn erase(&mut self)
        requires
            old(self).wf(),
        ensures
            final(self)@ == old(self)@.erased(),
            final(self).wf(),
    {
        let mut query = self.query.clone();
        if query.pop().is_some() {
            self.set_query(query);
        }
    }

    /// Appends a character to the query, where the layout accepts one.
    pub fn type_char(&mut self, c: Option<char>)
        requires
            old(self).wf(),
        ensures
            final(self)@ == old(self)@.typed(c),
            final(self).wf(),
    {
        match c {
            Some(c) => {
                let mut query = self.query.clone();
                query.push(c);
                self.set_query(query);
            },
            None => {},
        }
    }

    fn select_at(&mut self, at: usize)
        requires
            old(self).wf(),
            at < old(self).ranked@.len(),
        ensures
            final(self)@ == old(self)@.select(at as int),
            final(self).wf(),
    {
        self.selected = at;
    }

    fn drop_listings(&mut self)
        requires
            old(self).wf(),
        ensures
            final(self)@ == old(self)@.unlisted(),
            final(self).wf(),
    {
        self.hidden = None;
        self.dots = None;
        self.needs_rank = true;
        self.selected = 0;
        self.offset = 0;
        self.maxw = 0;
    }

    /// Empties the preview pane and forgets a render that is in flight.
    pub fn clear_pane(&mut self)
        requires
            old(self).wf(),
        ensures
            final(self)@ == old(self)@.without_pane(),
            final(self).wf(),
    {
        let pane: Vec<String> = Vec::new();
        assert(crate::tui::app::row_texts(pane@) =~= Seq::<Seq<char>>::empty());
        self.pane = pane;
        self.pane_kind = 0;
        self.pane_key = None;
        self.rendering = false;
        self.pane_kitty = None;
    }

    fn toggle_preview(&mut self)
        requires
            old(self).wf(),
        ensures
            final(self)@ == (AppView {
                preview_on: !old(self).preview_on,
                ..old(self)@
            }).without_pane(),
            final(self).wf(),
    {
        self.preview_on = !self.preview_on;
        self.clear_pane();
    }

    /// Descends into the directory that the query uniquely names, by its exact
    /// name or by a prefix, shell style; a lone slash goes to the root of the
    /// file system. Where no directory is uniquely named, the slash is typed.
    pub fn slash_enter(&mut self)
        requires
            old(self).wf(),
            !old(self).needs_rank,
        ensures
            final(self)@ == old(self)@.slashed(),
            final(self).wf(),
    {
        if self.query.as_str().is_empty() {
            if !check_fs_root(&self.root) {
                let top: Vec<u8> = vec![0x2fu8];
                assert(top@ =~= seq![0x2fu8]);
                self.re_root(top);
            }
            return;
        }
        let typed = self.query.as_str().to_lowercase();
        let entries = self.listing();
        let mut exact: Vec<bool> = Vec::new();
        let mut prefixed: Vec<bool> = Vec::new();
        let mut i: usize = 0;
        while i < entries.len()
            invariant
                i <= entries@.len(),
                typed@ == lowercase_text(self.query@),
                exact@ == exact_dirs(entries@.take(i as int), self.query@),
                prefixed@ == prefixed_dirs(entries@.take(i as int), self.query@),
            decreases entries@.len() - i,
        {
            let name = entries[i].basename.as_str().to_lowercase();
            exact.push(dir_has_name(&entries[i], name.as_str(), typed.as_str()));
            prefixed.push(dir_has_prefix(&entries[i], name.as_str(), typed.as_str()));
            assert(exact@ =~= exact_dirs(entries@.take(i + 1), self.query@));
            assert(prefixed@ =~= prefixed_dirs(entries@.take(i + 1), self.query@));
            i += 1;
        }
        assert(entries@.take(i as int) == entries@);
        match unique_dir(&exact, &prefixed) {
            Some(at) => {
                let path = entries[at].path.clone();
                assert(path@ =~= entries@[at as int].path@);
                self.re_root(path);
            },
            None => {
                self.type_char(Some('/'));
                self.offset = 0;
            },
        }
    }

    /// Opens the selected entry: a directory becomes the root, anything else
    /// is picked with an action.
    pub fn open(&mut self, action: &str) -> (r: Reaction)
        requires
            old(self).wf(),
            !old(self).needs_rank,
        ensures
            (final(self)@, r@) == old(self)@.opened(action@),
            final(self).wf(),
    {
        if self.ranked.len() == 0 {
            return Reaction::Stay;
        }
        let e = self.entry_at(self.selected);
        let path = e.path.clone();
        assert(path@ =~= e.path@);
        if e.kind == FileKind::Dir {
            self.re_root(path);
            return Reaction::Stay;
        }
        let mut line: Vec<u8> = Vec::new();
        line.extend_from_slice(action.as_bytes());
        line.push(0x09);
        line.extend_from_slice(path.as_slice());
        line.push(0x0a);
        assert(line@ =~= pick_line(action@, path@));
        Reaction::Pick(line)
    }

    /// Clears the query, or goes to the parent directory where there is no
    /// query.
    pub fn erase_word(&mut self)
        requires
            old(self).wf(),
        ensures
            final(self)@ == old(self)@.word_erased(),
            final(self).wf(),
    {
        if self.query.as_str().is_empty() {
            match parent_of(&self.root) {
                Some(dir) => self.re_root(dir),
                None => {},
            }
        } else {
            self.set_query(String::new());
            self.offset = 0;
        }
    }

    fn plain_key(&mut self, key: Key) -> (r: Reaction)
        requires
            old(self).wf(),
            !old(self).needs_rank,
        ensures
            (final(self)@, r@) == old(self)@.after_plain(key),
            final(self).wf(),
    {
        let n: usize = self.ranked.len();
        match key {
            Key::Esc => return Reaction::Cancel,
            Key::Enter | Key::Tab => return self.open("edit"),
            Key::Down => self.move_sel(1),
            Key::Up => self.move_sel(-1),
            Key::Right => {
                let rows: usize = self.list_rows();
                self.column_nav(1, rows);
            },
            Key::Left => {
                let rows: usize = self.list_rows();
                self.column_nav(-1, rows);
            },
            Key::Home => if n > 0 {
                self.select_at(0);
            },
            Key::End => if n > 0 {
                self.select_at(n - 1);
            },
            Key::PageUp => if n > 0 {
                let at: usize = page_up(self.selected, self.list_rows());
                self.select_at(at);
            },
            Key::PageDown => if n > 0 {
                let at: usize = page_down(self.selected, self.list_rows(), n);
                self.select_at(at);
            },
            Key::Backspace => self.erase(),
            Key::Char(c) => if c == '/' {
                self.slash_enter();
            } else if c == 'P' {
                self.toggle_preview();
            } else {
                self.type_char(normalize_query_char(c));
            },
            Key::Other => {},
        }
        Reaction::Stay
    }

    fn ctrl_key(&mut self, c: char) -> (r: Reaction)
        requires
            old(self).wf(),
            !old(self).needs_rank,
        ensures
            (final(self)@, r@) == old(self)@.after_ctrl(c),
            final(self).wf(),
    {
        match c {
            'c' | 'g' => return Reaction::Cancel,
            't' => return self.open("tabedit"),
            'o' => return self.open("split"),
            'v' => return self.open("vsplit"),
            'n' | 'j' => return self.plain_key(Key::Down),
            'p' | 'k' => return self.plain_key(Key::Up),
            'f' => return self.plain_key(Key::Right),
            'b' => return self.plain_key(Key::Left),
            'w' => self.erase_word(),
            'l' => {
                self.long = !self.long;
            },
            'y' => {
                self.drop_listings();
                self.sort_mode = (self.sort_mode % 4 + 1) % 4;
            },
            'u' => if !self.query.as_str().is_empty() {
                self.set_query(String::new());
            },
            'd' => {
                self.drop_listings();
                self.opts.depth = self.opts.depth % 6 + 1;
            },
            'h' => self.erase(),
            'a' => return self.plain_key(Key::Home),
            'e' => return self.plain_key(Key::End),
            ' ' => self.toggle_preview(),
            _ => {},
        }
        Reaction::Stay
    }

    /// Handles a key on a view that has been drawn, and scrolls to the
    /// selection. What is left to do is the caller's.
    pub fn handle_key(&mut self, key: Key, ctrl: bool) -> (r: Reaction)
        requires
            old(self).wf(),
            !old(self).needs_rank,
        ensures
            ({
                let (s, reaction) = old(self)@.after_key(key, ctrl);
                final(self)@ == s.in_view() && r@ == reaction
            }),
            final(self).wf(),
    {
        let r = match key {
            Key::Char(c) => if ctrl {
                self.ctrl_key(c)
            } else {
                self.plain_key(key)
            },
            _ => self.plain_key(key),
        };
        let rows: usize = self.list_rows();
        self.clamp_offset(rows);
        r
    }
}

// ---------------------------------------------------------------------------
// Laws
// ---------------------------------------------------------------------------

/// Whether a text is made of printable ASCII.
pub open spec fn all_printable(s: Seq<char>) -> bool {
    forall|i: int| 0 <= i < s.len() ==> printable_ascii(#[trigger] s[i])
}

/// No key puts anything but printable ASCII into the query.
pub proof fn law_queries_stay_printable(s: AppView, key: Key, ctrl: bool)
    requires
        all_printable(s.query),
    ensures
        all_printable(s.after_key(key, ctrl).0.query),
{
    let t = s.after_key(key, ctrl).0.query;
    assert forall|i: int| 0 <= i < t.len() implies printable_ascii(#[trigger] t[i]) by {
        if i < s.query.len() {
            assert(printable_ascii(s.query[i]));
        }
    }
}

/// Backspace takes back what was typed.
pub proof fn law_backspace_undoes_typing(s: AppView, c: char)
    ensures
        s.typed(Some(c)).erased() == s.with_query(s.query),
{
    assert(s.query.push(c).drop_last() =~= s.query);
}

/// C-y goes round the four sort orders.
pub proof fn law_the_sort_order_cycles(s: AppView)
    requires
        s.sort_mode < 4,
    ensures
        s.after_ctrl('y').0.sort_mode == (s.sort_mode + 1) % 4,
        s.after_ctrl('y').0.after_ctrl('y').0.after_ctrl('y').0.after_ctrl('y').0.sort_mode
            == s.sort_mode,
{
}

/// C-d goes round the search depths from one to six.
pub proof fn law_the_search_depth_cycles(s: AppView)
    ensures
        1 <= s.after_ctrl('d').0.opts.depth <= 6,
        1 <= s.opts.depth < 6 ==> s.after_ctrl('d').0.opts.depth == s.opts.depth + 1,
        s.opts.depth == 6 ==> s.after_ctrl('d').0.opts.depth == 1,
{
}

/// The first C-w clears a query and leaves the root, the next one goes to the
/// parent directory. At the root of the file system it leaves everything.
pub proof fn law_the_second_word_erase_goes_up(s: AppView)
    requires
        s.query.len() > 0,
    ensures
        ({
            let first = s.after_ctrl('w').0;
            let second = first.after_ctrl('w').0;
            &&& first.query.len() == 0
            &&& first.root == s.root
            &&& first.selected == 0
            &&& first.offset == 0
            &&& second.query.len() == 0
            &&& second.root == (match parent(s.root) {
                Some(dir) => dir,
                None => s.root,
            })
            &&& s.root == seq![SLASH] ==> second == first
        }),
{
    assert(s.root == seq![SLASH] ==> parent(s.root) is None);
}

proof fn lemma_moves_stay_in_view(selected: int, delta: int, rows: int, n: int)
    requires
        0 <= selected < n,
        0 < rows,
    ensures
        0 <= moved(selected, delta, n) < n,
        0 <= moved_by_columns(selected, delta, rows, n) < n,
{
    lemma_mod_bound(selected + delta, n);
    lemma_mod_bound(selected, rows);
    lemma_fundamental_div_mod(n, rows);
    lemma_mod_bound(n, rows);
    let columns = ceil_div(n, rows);
    let whole = n / rows;
    assert(columns > 0) by (nonlinear_arith)
        requires
            n == rows * whole + n % rows,
            0 < n,
            n % rows == 0 ==> columns == whole,
            n % rows != 0 ==> columns == whole + 1,
            0 <= n % rows,
            0 < rows,
            0 <= whole,
    ;
    let to = (selected / rows + delta) % columns;
    lemma_mod_bound(selected / rows + delta, columns);
    let col = if (to + 1) * (rows + 1) > n {
        if delta > 0 {
            0
        } else {
            at_least(columns - 2, 0)
        }
    } else {
        to
    };
    assert(0 <= col * rows) by (nonlinear_arith)
        requires
            0 <= col,
            0 < rows,
    ;
}

proof fn lemma_select_valid(s: AppView, at: int)
    requires
        s.wf(),
        !s.needs_rank,
        0 <= at <= usize::MAX,
        s.ranked.len() > 0 ==> at < s.ranked.len(),
    ensures
        s.select(at).wf(),
{
    let t = s.select(at);
    assert(t.listing() == s.listing());
    assert(t.ranked == s.ranked);
}

proof fn lemma_query_valid(s: AppView, query: Seq<char>)
    requires
        s.wf(),
    ensures
        s.with_query(query).wf(),
        (AppView { offset: 0, ..s.with_query(query) }).wf(),
{
}

proof fn lemma_rooted_valid(s: AppView, dir: Seq<u8>)
    requires
        s.wf(),
    ensures
        s.rooted_at(dir).wf(),
{
}

proof fn lemma_toggled_valid(s: AppView)
    requires
        s.wf(),
    ensures
        (AppView { preview_on: !s.preview_on, ..s }).without_pane().wf(),
        (AppView { long: !s.long, ..s }).wf(),
{
    let t = (AppView { preview_on: !s.preview_on, ..s }).without_pane();
    assert(t.listing() == s.listing());
    let u = AppView { long: !s.long, ..s };
    assert(u.listing() == s.listing());
}

proof fn lemma_opened_valid(s: AppView, action: Seq<char>)
    requires
        s.wf(),
    ensures
        s.opened(action).0.wf(),
{
    lemma_rooted_valid(s, s.listing()->0[s.ranked[s.selected as int] as int].path@);
}

proof fn lemma_slashed_valid(s: AppView)
    requires
        s.wf(),
    ensures
        s.slashed().wf(),
{
    let entries = s.listing()->0;
    lemma_rooted_valid(s, seq![0x2fu8]);
    lemma_query_valid(s, s.query.push('/'));
    match unique_of(exact_dirs(entries, s.query), prefixed_dirs(entries, s.query)) {
        Some(i) => lemma_rooted_valid(s, entries[i].path@),
        None => {},
    }
}

proof fn lemma_erased_valid(s: AppView)
    requires
        s.wf(),
    ensures
        s.erased().wf(),
        s.word_erased().wf(),
{
    lemma_query_valid(s, s.query.drop_last());
    lemma_query_valid(s, Seq::<char>::empty());
    match parent(s.root) {
        Some(dir) => lemma_rooted_valid(s, dir),
        None => {},
    }
}

proof fn lemma_typed_valid(s: AppView, c: Option<char>)
    requires
        s.wf(),
    ensures
        s.typed(c).wf(),
{
    match c {
        Some(c) => lemma_query_valid(s, s.query.push(c)),
        None => {},
    }
}

proof fn lemma_unlisted_valid(s: AppView)
    requires
        s.wf(),
    ensures
        s.after_ctrl('y').0.wf(),
        s.after_ctrl('d').0.wf(),
{
}

proof fn lemma_plain_keeps_valid(s: AppView, key: Key)
    requires
        s.wf(),
        !s.needs_rank,
        s.ranked.len() <= usize::MAX,
    ensures
        s.after_plain(key).0.wf(),
{
    let n = s.ranked.len() as int;
    let at = s.selected as int;
    if n > 0 {
        lemma_moves_stay_in_view(at, 1, s.rows(), n);
        lemma_moves_stay_in_view(at, -1, s.rows(), n);
    }
    match key {
        Key::Enter | Key::Tab => lemma_opened_valid(s, "edit"@),
        Key::Down => lemma_select_valid(s, moved(at, 1, n)),
        Key::Up => lemma_select_valid(s, moved(at, -1, n)),
        Key::Right => lemma_select_valid(s, moved_by_columns(at, 1, s.rows(), n)),
        Key::Left => lemma_select_valid(s, moved_by_columns(at, -1, s.rows(), n)),
        Key::Home => lemma_select_valid(s, 0),
        Key::End => if n > 0 {
            lemma_select_valid(s, n - 1);
        },
        Key::PageUp => if n > 0 {
            lemma_select_valid(s, at_least(at - s.rows(), 0));
        },
        Key::PageDown => if n > 0 {
            lemma_select_valid(s, at_most(at + s.rows(), n - 1));
        },
        Key::Backspace => lemma_erased_valid(s),
        Key::Char(c) => {
            lemma_slashed_valid(s);
            lemma_toggled_valid(s);
            lemma_typed_valid(s, query_char(c));
        },
        Key::Esc | Key::Other => {},
    }
}

proof fn lemma_ctrl_keeps_valid(s: AppView, c: char)
    requires
        s.wf(),
        !s.needs_rank,
        s.ranked.len() <= usize::MAX,
    ensures
        s.after_ctrl(c).0.wf(),
{
    if c == 't' {
        lemma_opened_valid(s, "tabedit"@);
    } else if c == 'o' {
        lemma_opened_valid(s, "split"@);
    } else if c == 'v' {
        lemma_opened_valid(s, "vsplit"@);
    } else if c == 'n' || c == 'j' {
        lemma_plain_keeps_valid(s, Key::Down);
    } else if c == 'p' || c == 'k' {
        lemma_plain_keeps_valid(s, Key::Up);
    } else if c == 'f' {
        lemma_plain_keeps_valid(s, Key::Right);
    } else if c == 'b' {
        lemma_plain_keeps_valid(s, Key::Left);
    } else if c == 'w' || c == 'h' {
        lemma_erased_valid(s);
    } else if c == 'l' || c == ' ' {
        lemma_toggled_valid(s);
    } else if c == 'y' || c == 'd' {
        lemma_unlisted_valid(s);
    } else if c == 'u' {
        lemma_query_valid(s, Seq::<char>::empty());
    } else if c == 'a' {
        lemma_plain_keeps_valid(s, Key::Home);
    } else if c == 'e' {
        lemma_plain_keeps_valid(s, Key::End);
    }
}

/// Keys lead from one valid state to another.
pub proof fn law_keys_keep_the_state_valid(s: AppView, key: Key, ctrl: bool)
    requires
        s.wf(),
        !s.needs_rank,
        s.ranked.len() <= usize::MAX,
    ensures
        s.after_key(key, ctrl).0.wf(),
{
    match key {
        Key::Char(c) => if ctrl {
            lemma_ctrl_keeps_valid(s, c);
        } else {
            lemma_plain_keeps_valid(s, key);
        },
        _ => lemma_plain_keeps_valid(s, key),
    }
}

/// Typing and erasing a dot goes back to the width of the listing that is
/// shown.
pub proof fn law_the_width_follows_the_listing(s: AppView, c: char)
    requires
        s.wf(),
    ensures
        s.typed(Some(c)).maxw == cells_needed(s.typed(Some(c)).listing()),
        s.typed(Some(c)).erased().maxw == s.maxw,
{
    law_backspace_undoes_typing(s, c);
    lemma_typed_valid(s, Some(c));
}

/// After any key the selection is among the rows that are drawn, unless the
/// view has to be ranked anew.
pub proof fn law_keys_keep_the_selection_drawn(s: AppView, key: Key, ctrl: bool)
    requires
        s.wf(),
        !s.needs_rank,
        s.ranked.len() <= usize::MAX,
    ensures
        ({
            let t = s.after_key(key, ctrl).0.in_view();
            !t.needs_rank && t.ranked.len() > 0 ==> t.offset <= t.selected < t.offset + t.rows()
        }),
{
    law_keys_keep_the_state_valid(s, key, ctrl);
    let t = s.after_key(key, ctrl).0;
    if !t.needs_rank && t.ranked.len() > 0 {
        law_the_selection_is_drawn(
            t.offset as int,
            t.selected as int,
            t.ranked.len() as int,
            t.rows(),
        );
    }
}

// ---------------------------------------------------------------------------
// What each key does
// ---------------------------------------------------------------------------

/// Whether a state differs from another one in the selected position alone.
pub open spec fn only_selects(s: AppView, t: AppView, at: int) -> bool {
    0 <= at <= usize::MAX && t == (AppView { selected: at as usize, ..s })
}

/// The arrows and their letters go to the next and to the last position, around
/// the ends; Home and End go to the ends, the page keys as far as the list is
/// high.
pub proof fn law_movement_keys(s: AppView, n: int, page: int)
    requires
        s.wf(),
        !s.needs_rank,
        n == s.ranked.len(),
        0 < n <= usize::MAX,
        page == (if s.box_h >= 4 {
            s.box_h - 3
        } else {
            1
        }),
    ensures
        ({
            let at = s.selected as int;
            let next = if at + 1 == n {
                0
            } else {
                at + 1
            };
            let last = if at == 0 {
                n - 1
            } else {
                at - 1
            };
            let up = if at >= page {
                at - page
            } else {
                0
            };
            let down = if at + page < n {
                at + page
            } else {
                n - 1
            };
            &&& only_selects(s, s.after_key(Key::Down, false).0, next)
            &&& only_selects(s, s.after_key(Key::Char('n'), true).0, next)
            &&& only_selects(s, s.after_key(Key::Char('j'), true).0, next)
            &&& only_selects(s, s.after_key(Key::Up, false).0, last)
            &&& only_selects(s, s.after_key(Key::Char('p'), true).0, last)
            &&& only_selects(s, s.after_key(Key::Char('k'), true).0, last)
            &&& only_selects(s, s.after_key(Key::Home, false).0, 0)
            &&& only_selects(s, s.after_key(Key::Char('a'), true).0, 0)
            &&& only_selects(s, s.after_key(Key::End, false).0, n - 1)
            &&& only_selects(s, s.after_key(Key::Char('e'), true).0, n - 1)
            &&& only_selects(s, s.after_key(Key::PageUp, false).0, up)
            &&& only_selects(s, s.after_key(Key::PageDown, false).0, down)
        }),
{
    law_steps_go_around(s.selected as int, n);
}

/// Right and Left, and their letters, go one column of the list on and back.
pub proof fn law_column_keys(s: AppView, page: int)
    requires
        page == (if s.box_h >= 4 {
            s.box_h - 3
        } else {
            1
        }),
    ensures
        ({
            let n = s.ranked.len() as int;
            let at = s.selected as int;
            let right = moved_by_columns(at, 1, page, n) as usize;
            let left = moved_by_columns(at, -1, page, n) as usize;
            &&& s.after_key(Key::Right, false).0 == (AppView { selected: right, ..s })
            &&& s.after_key(Key::Char('f'), true).0 == (AppView { selected: right, ..s })
            &&& s.after_key(Key::Left, false).0 == (AppView { selected: left, ..s })
            &&& s.after_key(Key::Char('b'), true).0 == (AppView { selected: left, ..s })
        }),
{
}

/// Escape, C-c and C-g leave without a selection and leave the state; no other
/// key cancels.
pub proof fn law_cancelling_keys(s: AppView, key: Key, ctrl: bool)
    ensures
        s.after_key(Key::Esc, ctrl) == (s, ReactionView::Cancel),
        s.after_key(Key::Char('c'), true) == (s, ReactionView::Cancel),
        s.after_key(Key::Char('g'), true) == (s, ReactionView::Cancel),
        s.after_key(key, ctrl).1 is Cancel ==> key == Key::Esc || (ctrl && (key == Key::Char('c')
            || key == Key::Char('g'))),
{
}

/// A selected file is printed with the action of the key: its raw path behind a
/// TAB, on one line. A selected directory becomes the root.
pub proof fn law_opening_keys(s: AppView, ctrl: bool, e: Entry)
    requires
        s.wf(),
        !s.needs_rank,
        s.ranked.len() > 0,
        e == s.listing()->0[s.ranked[s.selected as int] as int],
    ensures
        e.kind != FileKind::Dir ==> {
            let line = |action: Seq<char>|
                encode_utf8(action) + seq![0x09u8] + e.path@ + seq![0x0au8];
            &&& s.after_key(Key::Enter, ctrl) == (s, ReactionView::Pick(line("edit"@)))
            &&& s.after_key(Key::Tab, ctrl) == (s, ReactionView::Pick(line("edit"@)))
            &&& s.after_key(Key::Char('t'), true) == (s, ReactionView::Pick(line("tabedit"@)))
            &&& s.after_key(Key::Char('o'), true) == (s, ReactionView::Pick(line("split"@)))
            &&& s.after_key(Key::Char('v'), true) == (s, ReactionView::Pick(line("vsplit"@)))
        },
        e.kind == FileKind::Dir ==> {
            let t = s.after_key(Key::Enter, ctrl);
            &&& t.1 is Stay
            &&& t.0.root == e.path@ && t.0.query.len() == 0 && t.0.needs_rank
            &&& s.after_key(Key::Tab, ctrl) == t
            &&& s.after_key(Key::Char('t'), true) == t
            &&& s.after_key(Key::Char('o'), true) == t
            &&& s.after_key(Key::Char('v'), true) == t
        },
{
    lemma_pick_line("edit"@, e.path@);
    lemma_pick_line("tabedit"@, e.path@);
    lemma_pick_line("split"@, e.path@);
    lemma_pick_line("vsplit"@, e.path@);
}

proof fn lemma_pick_line(action: Seq<char>, path: Seq<u8>)
    ensures
        pick_line(action, path) == encode_utf8(action) + seq![0x09u8] + path + seq![0x0au8],
{
    assert(pick_line(action, path) =~= encode_utf8(action) + seq![0x09u8] + path + seq![0x0au8]);
}

/// Where nothing is ranked there is nothing to open.
pub proof fn law_nothing_to_open(s: AppView, ctrl: bool)
    requires
        s.ranked.len() == 0,
    ensures
        s.after_key(Key::Enter, ctrl) == (s, ReactionView::Stay),
        s.after_key(Key::Char('t'), true) == (s, ReactionView::Stay),
{
}

/// Characters are typed as the layout accepts them, other than the slash and the
/// capital P; Backspace and C-h take the last one, C-u and C-w the whole query.
pub proof fn law_typing_keys(s: AppView, c: char)
    requires
        c != '/',
        c != 'P',
    ensures
        ({
            let t = s.after_key(Key::Char(c), false).0;
            match query_char(c) {
                Some(x) => t == s.with_query(s.query.push(x)),
                None => t == s,
            }
        }),
        s.query.len() > 0 ==> s.after_key(Key::Backspace, false).0 == s.with_query(
            s.query.subrange(0, s.query.len() - 1),
        ),
        s.query.len() > 0 ==> s.after_key(Key::Char('h'), true).0 == s.with_query(
            s.query.subrange(0, s.query.len() - 1),
        ),
        s.query.len() > 0 ==> s.after_key(Key::Char('u'), true).0 == s.with_query(Seq::empty()),
        s.query.len() == 0 ==> s.after_key(Key::Backspace, false).0 == s,
        s.query.len() == 0 ==> s.after_key(Key::Char('h'), true).0 == s,
        s.query.len() == 0 ==> s.after_key(Key::Char('u'), true).0 == s,
{
    if s.query.len() > 0 {
        assert(s.query.drop_last() =~= s.query.subrange(0, s.query.len() - 1));
    }
}

/// C-l switches the long view, C-Space and the capital P the pane, which is
/// emptied. Nothing else changes.
pub proof fn law_switching_keys(s: AppView)
    ensures
        s.after_key(Key::Char('l'), true).0 == (AppView { long: !s.long, ..s }),
        ({
            let t = AppView {
                preview_on: !s.preview_on,
                pane: Seq::empty(),
                pane_kind: 0,
                pane_key: None,
                rendering: false,
                pane_kitty: None,
                ..s
            };
            &&& s.after_key(Key::Char(' '), true).0 == t
            &&& s.after_key(Key::Char('P'), false).0 == t
        }),
{
}

/// C-y takes the next sort key and C-d the next depth; both have the directory
/// listed anew, with the same query and root.
pub proof fn law_relisting_keys(s: AppView)
    ensures
        ({
            let t = s.after_key(Key::Char('y'), true).0;
            &&& s.sort_mode < 3 ==> t.sort_mode == s.sort_mode + 1
            &&& s.sort_mode == 3 ==> t.sort_mode == 0
            &&& t.hidden is None && t.dots is None && t.needs_rank && t.selected == 0 && t.offset
                == 0
            &&& t.query == s.query && t.root == s.root && t.opts == s.opts
        }),
        ({
            let t = s.after_key(Key::Char('d'), true).0;
            &&& t.opts.depth == s.opts.depth % 6 + 1
            &&& t.opts.skip_dirs == s.opts.skip_dirs && t.opts.follow_mounts
                == s.opts.follow_mounts
            &&& t.hidden is None && t.dots is None && t.needs_rank && t.selected == 0 && t.offset
                == 0
            &&& t.query == s.query && t.root == s.root && t.sort_mode == s.sort_mode
        }),
{
}

/// Other letters with Control, and other keys, do nothing.
pub proof fn law_other_keys_do_nothing(s: AppView, c: char, ctrl: bool)
    ensures
        s.after_key(Key::Other, ctrl) == (s, ReactionView::Stay),
        !(c == 'a' || c == 'b' || c == 'c' || c == 'd' || c == 'e' || c == 'f' || c == 'g' || c
            == 'h' || c == 'j' || c == 'k' || c == 'l' || c == 'n' || c == 'o' || c == 'p' || c
            == 't' || c == 'u' || c == 'v' || c == 'w' || c == 'y' || c == ' ') ==> s.after_key(
            Key::Char(c),
            true,
        ) == (s, ReactionView::Stay),
{
}

/// Keys that are no characters do the same with and without Control.
pub proof fn law_control_only_counts_for_characters(s: AppView, key: Key)
    requires
        !(key is Char),
    ensures
        s.after_key(key, true) == s.after_key(key, false),
{
}

// ---------------------------------------------------------------------------
// What the slash does
// ---------------------------------------------------------------------------

proof fn lemma_marked(flags: Seq<bool>)
    ensures
        forall|k: int|
            0 <= k < marked(flags).len() ==> 0 <= (#[trigger] marked(flags)[k]) < flags.len()
                && flags[marked(flags)[k]],
        forall|j: int, k: int|
            0 <= j < k < marked(flags).len() ==> (#[trigger] marked(flags)[j]) < (
            #[trigger] marked(flags)[k]),
        forall|i: int| 0 <= i < flags.len() && #[trigger] flags[i] ==> marked(flags).contains(i),
    decreases flags.len(),
{
    if flags.len() > 0 {
        let front = flags.drop_last();
        lemma_marked(front);
        let m = marked(front);
        let all = marked(flags);
        assert forall|k: int| 0 <= k < all.len() implies 0 <= (#[trigger] all[k]) < flags.len()
            && flags[all[k]] by {
            if k < m.len() {
                assert(all[k] == m[k]);
                assert(front[m[k]] == flags[m[k]]);
            }
        }
        assert forall|j: int, k: int| 0 <= j < k < all.len() implies (#[trigger] all[j]) < (
        #[trigger] all[k]) by {
            assert(all[j] == m[j]);
            if k < m.len() {
                assert(all[k] == m[k]);
            }
        }
        assert forall|i: int| 0 <= i < flags.len() && #[trigger] flags[i] implies all.contains(
            i,
        ) by {
            if i < front.len() {
                assert(front[i]);
                let k = choose|k: int| 0 <= k < m.len() && m[k] == i;
                assert(all[k] == i);
            } else {
                assert(all[all.len() - 1] == i);
            }
        }
    }
}

proof fn lemma_only_marked(flags: Seq<bool>, i: int)
    requires
        0 <= i < flags.len(),
        flags[i],
        forall|j: int| 0 <= j < flags.len() && #[trigger] flags[j] ==> j == i,
    ensures
        marked(flags) == seq![i],
{
    lemma_marked(flags);
    let m = marked(flags);
    assert(m.contains(i));
    if m.len() > 1 {
        assert(m[0] < m[1]);
        assert(flags[m[0]] && flags[m[1]]);
    }
    assert(m =~= seq![i]);
}

/// A directory directly below the root whose name is the query, in small
/// letters, is entered by a slash if it is the only one of that name, whatever
/// other names begin with the query.
pub proof fn law_a_slash_enters_the_exact_name(s: AppView, i: int)
    requires
        s.query.len() > 0,
        s.listing() is Some,
        0 <= i < s.listing()->0.len(),
        s.listing()->0[i].kind == FileKind::Dir,
        s.listing()->0[i].depth == 1,
        lowercase_text(s.listing()->0[i].basename@) == lowercase_text(s.query),
        forall|j: int|
            0 <= j < s.listing()->0.len() && j != i && (#[trigger] s.listing()->0[j]).kind
                == FileKind::Dir && s.listing()->0[j].depth == 1 ==> lowercase_text(
                s.listing()->0[j].basename@,
            ) != lowercase_text(s.query),
    ensures
        s.after_key(Key::Char('/'), false).0.root == s.listing()->0[i].path@,
        s.after_key(Key::Char('/'), false).0.query.len() == 0,
{
    let entries = s.listing()->0;
    let exact = exact_dirs(entries, s.query);
    assert forall|j: int| 0 <= j < exact.len() && #[trigger] exact[j] implies j == i by {
        assert(has_name(entries[j], lowercase_text(entries[j].basename@), lowercase_text(s.query)));
    }
    assert(exact[i]);
    lemma_only_marked(exact, i);
}

/// Where no directory has the name, the only one whose name begins with the
/// query is entered.
pub proof fn law_a_slash_enters_the_only_prefix(s: AppView, i: int)
    requires
        s.query.len() > 0,
        s.listing() is Some,
        0 <= i < s.listing()->0.len(),
        s.listing()->0[i].kind == FileKind::Dir,
        s.listing()->0[i].depth == 1,
        starts_with(lowercase_text(s.listing()->0[i].basename@), lowercase_text(s.query)),
        forall|j: int|
            0 <= j < s.listing()->0.len() && j != i && (#[trigger] s.listing()->0[j]).kind
                == FileKind::Dir && s.listing()->0[j].depth == 1 ==> !starts_with(
                lowercase_text(s.listing()->0[j].basename@),
                lowercase_text(s.query),
            ),
    ensures
        s.after_key(Key::Char('/'), false).0.root == s.listing()->0[i].path@,
        s.after_key(Key::Char('/'), false).0.query.len() == 0,
{
    let entries = s.listing()->0;
    let q = lowercase_text(s.query);
    let exact = exact_dirs(entries, s.query);
    let prefixed = prefixed_dirs(entries, s.query);
    assert(q.take(q.len() as int) =~= q);
    assert forall|j: int| 0 <= j < prefixed.len() && #[trigger] prefixed[j] implies j == i by {
        assert(has_prefix(entries[j], lowercase_text(entries[j].basename@), q));
    }
    assert(prefixed[i]);
    lemma_only_marked(prefixed, i);
    lemma_marked(exact);
    let m = marked(exact);
    if m.len() == 1 {
        let j = m[0];
        assert(exact[j]);
        assert(has_name(entries[j], lowercase_text(entries[j].basename@), q));
        assert(has_prefix(entries[j], lowercase_text(entries[j].basename@), q));
        assert(prefixed[j]);
    }
}

/// Where two directories have the name, or none has it and the query begins no
/// name or more than one, the slash is typed.
pub proof fn law_an_ambiguous_slash_is_typed(s: AppView, i: int, j: int)
    requires
        s.query.len() > 0,
        s.listing() is Some,
        0 <= i < j < s.listing()->0.len(),
        s.listing()->0[i].kind == FileKind::Dir && s.listing()->0[i].depth == 1,
        s.listing()->0[j].kind == FileKind::Dir && s.listing()->0[j].depth == 1,
        starts_with(lowercase_text(s.listing()->0[i].basename@), lowercase_text(s.query)),
        starts_with(lowercase_text(s.listing()->0[j].basename@), lowercase_text(s.query)),
        (lowercase_text(s.listing()->0[i].basename@) == lowercase_text(s.query) && lowercase_text(
            s.listing()->0[j].basename@,
        ) == lowercase_text(s.query)) || (forall|k: int|
            0 <= k < s.listing()->0.len() ==> lowercase_text(
                (#[trigger] s.listing()->0[k]).basename@,
            ) != lowercase_text(s.query)),
    ensures
        s.after_key(Key::Char('/'), false).0.query == s.query.push('/'),
        s.after_key(Key::Char('/'), false).0.root == s.root,
        s.after_key(Key::Char('/'), false).0.selected == 0,
        s.after_key(Key::Char('/'), false).0.offset == 0,
{
    let entries = s.listing()->0;
    let q = lowercase_text(s.query);
    let exact = exact_dirs(entries, s.query);
    let prefixed = prefixed_dirs(entries, s.query);
    lemma_marked(exact);
    lemma_marked(prefixed);
    assert(prefixed[i] && prefixed[j]);
    lemma_two_marked(prefixed, i, j);
    if lowercase_text(entries[i].basename@) == q && lowercase_text(entries[j].basename@) == q {
        assert(exact[i] && exact[j]);
        lemma_two_marked(exact, i, j);
    } else {
        let m = marked(exact);
        if m.len() > 0 {
            assert(exact[m[0]]);
            assert(has_name(entries[m[0]], lowercase_text(entries[m[0]].basename@), q));
        }
    }
}

proof fn lemma_two_marked(flags: Seq<bool>, i: int, j: int)
    requires
        0 <= i < j < flags.len(),
        flags[i],
        flags[j],
    ensures
        marked(flags).len() > 1,
{
    lemma_marked(flags);
    let m = marked(flags);
    assert(m.contains(i) && m.contains(j));
    let a = choose|a: int| 0 <= a < m.len() && m[a] == i;
    let b = choose|b: int| 0 <= b < m.len() && m[b] == j;
    assert(a != b);
}

/// A slash that names no directory at all is typed.
pub proof fn law_a_slash_without_a_directory_is_typed(s: AppView)
    requires
        s.query.len() > 0,
        s.listing() is Some,
        forall|j: int|
            0 <= j < s.listing()->0.len() && (#[trigger] s.listing()->0[j]).kind == FileKind::Dir
                && s.listing()->0[j].depth == 1 ==> !starts_with(
                lowercase_text(s.listing()->0[j].basename@),
                lowercase_text(s.query),
            ),
    ensures
        s.after_key(Key::Char('/'), false).0.query == s.query.push('/'),
        s.after_key(Key::Char('/'), false).0.root == s.root,
{
    let entries = s.listing()->0;
    let q = lowercase_text(s.query);
    let exact = exact_dirs(entries, s.query);
    let prefixed = prefixed_dirs(entries, s.query);
    assert(q.take(q.len() as int) =~= q);
    lemma_marked(exact);
    lemma_marked(prefixed);
    if marked(exact).len() > 0 {
        let k = marked(exact)[0];
        assert(exact[k]);
        assert(has_name(entries[k], lowercase_text(entries[k].basename@), q));
    }
    if marked(prefixed).len() > 0 {
        let k = marked(prefixed)[0];
        assert(prefixed[k]);
        assert(has_prefix(entries[k], lowercase_text(entries[k].basename@), q));
    }
}

/// A lone slash goes to the root of the file system.
pub proof fn law_a_lone_slash_goes_to_the_root(s: AppView)
    requires
        s.query.len() == 0,
    ensures
        s.root == seq![0x2fu8] ==> s.after_key(Key::Char('/'), false).0 == s,
        s.root.len() > 0 && s.root[0] != 0x2f ==> s.after_key(Key::Char('/'), false).0.root
            == seq![0x2fu8],
        (exists|i: int|
            0 <= i < s.root.len() && #[trigger] s.root[i] != 0x2f && s.root[i] != 0x2e)
            ==> s.after_key(Key::Char('/'), false).0.root == seq![0x2fu8],
{
    if exists|i: int| 0 <= i < s.root.len() && #[trigger] s.root[i] != 0x2f && s.root[i] != 0x2e {
        let i = choose|i: int|
            0 <= i < s.root.len() && #[trigger] s.root[i] != 0x2f && s.root[i] != 0x2e;
        assert(!slash_or_dot(s.root, i));
    }
    if s.root == seq![0x2fu8] {
        assert forall|i: int| 0 <= i < s.root.len() implies slash_or_dot(s.root, i) by {}
    }
}

/// Bringing the selection into view changes the first drawn position alone.
pub proof fn law_coming_into_view_scrolls_only(s: AppView)
    ensures
        s.in_view() == (AppView { offset: s.in_view().offset, ..s }),
        s.ranked.len() == 0 ==> s.in_view().offset == 0,
{
}

} // verus!
