//! The headless backend: one listing in memory, answering requests.
//!
//! The ranking of the latest query is kept, because navigation and redraws
//! send the same query again. A change of the sort order starts from the
//! canonical listing, never from an order that was sorted before.

use crate::frecency::Frecency;
use crate::listing::{copy_entries, views, Entry, EntryView, FileKind};
use crate::number::{decimal, is_digit, lemma_decimal, push_decimal};
use crate::order::arranged;
use crate::protocol::{
    escaped, law_escaped_names_keep_the_framing, law_preview_rows_are_lines,
    law_unescaping_undoes_escaping, preview_line, preview_row, unescaped, write_escaped, Query, LF,
    TAB,
};
use crate::rank::{
    by_frecency, law_ranking_lists_each_index_once, order_by_frecency, rank_indices_mw, ranking,
    widest_label,
};
use crate::score::Score;
use crate::text::{lemma_encode_avoids, lossy_text, str_eq, utf8_lossy};
use vstd::prelude::*;
use vstd::string::*;
use vstd::utf8::encode_utf8;

verus! {

/// A rendered preview.
#[derive(Debug)]
pub struct Pane {
    /// Whether the rows are shown dimmed.
    pub dim: bool,
    pub lines: Vec<String>,
}

impl Pane {
    /// The preview of an entry that the listing does not have: no rows.
    pub fn missing() -> (r: Pane)
        ensures
            r.dim,
            r.lines@.len() == 0,
    {
        Pane { dim: true, lines: Vec::new() }
    }
}

/// What has to be done to a canonical listing.
#[derive(Clone, Copy, Debug, PartialEq, Eq, Structural)]
pub enum Sorting {
    /// Nothing.
    Keep,
    /// Sort by extension.
    ByExt,
    /// Sort by size, the largest first.
    BySize,
    /// Sort by modification time, the latest first.
    ByTime,
    /// Group directories first or reverse, within each depth.
    Reorder { dirs_first: bool, reverse: bool },
}

/// What the sort key asks for.
pub open spec fn sorting_by(sort: u8) -> Sorting {
    if sort == 1 {
        Sorting::ByExt
    } else if sort == 2 {
        Sorting::BySize
    } else if sort == 3 {
        Sorting::ByTime
    } else {
        Sorting::Keep
    }
}

/// What the sort key and the two tweaks ask for; the tweaks reshape the
/// canonical order alone.
pub open spec fn sorting_for(sort: u8, dirs_first: bool, reverse: bool) -> Sorting {
    if sort != 0 {
        sorting_by(sort)
    } else if dirs_first || reverse {
        Sorting::Reorder { dirs_first, reverse }
    } else {
        Sorting::Keep
    }
}

/// The sorting that a sort key asks for.
pub fn apply_sort(sort: u8) -> (r: Sorting)
    ensures
        r == sorting_by(sort),
{
    match sort {
        1 => Sorting::ByExt,
        2 => Sorting::BySize,
        3 => Sorting::ByTime,
        _ => Sorting::Keep,
    }
}

/// The state of the backend.
#[derive(Debug)]
pub struct Server {
    /// The listing in the order that was last asked for.
    pub entries: Vec<Entry>,
    /// The canonical listing, once another order has been asked for.
    pub base: Option<Vec<Entry>>,
    /// The frecency journal of the client.
    pub frec: Frecency,
    /// The query that the kept ranking belongs to.
    pub memo_q: String,
    pub memo_sort: u8,
    pub memo_dirs: bool,
    pub memo_rev: bool,
    /// Whether there is a kept ranking.
    pub memo_hit: bool,
    pub memo_ranked: Vec<usize>,
    pub memo_maxw: usize,
}

/// What a query is answered with: the order of the entries and the width of
/// the longest label.
pub open spec fn served<S: Fn(&str, &str) -> Score>(
    scorer: S,
    entries: Seq<Entry>,
    frec: Map<Seq<u8>, Score>,
    query: Seq<char>,
    ranked: Seq<usize>,
    width: nat,
) -> bool {
    if query.len() == 0 && frec.len() > 0 {
        arranged(by_frecency(entries, frec), 0, entries.len() as int, ranked) && width
            == widest_label(entries)
    } else {
        ranking(scorer, entries, query, ranked, width)
    }
}

pub open spec fn path_view(path: Option<Vec<u8>>) -> Option<Seq<u8>> {
    match path {
        Some(p) => Some(p@),
        None => None,
    }
}

/// A journal with one more record. Only a positive score counts.
pub open spec fn journal_with(
    frec: Map<Seq<u8>, Score>,
    path: Option<Seq<u8>>,
    score: Option<Score>,
) -> Map<Seq<u8>, Score> {
    match (path, score) {
        (Some(p), Some(s)) => if s.key() > 0 {
            frec.insert(p, s)
        } else {
            frec
        },
        _ => frec,
    }
}

/// `after` is the state `before` with a record. A ranking that was made with
/// other records is not kept.
pub open spec fn recorded(
    before: Server,
    path: Option<Seq<u8>>,
    score: Option<Score>,
    after: Server,
) -> bool {
    &&& after.frec@ == journal_with(before.frec@, path, score)
    &&& after.memo_hit == (before.memo_hit && after.frec@ == before.frec@)
    &&& after.entries == before.entries
    &&& after.base == before.base
    &&& after.memo_q == before.memo_q
    &&& after.memo_sort == before.memo_sort
    &&& after.memo_dirs == before.memo_dirs
    &&& after.memo_rev == before.memo_rev
    &&& after.memo_ranked == before.memo_ranked
    &&& after.memo_maxw == before.memo_maxw
}

/// Whether sorting the canonical listing can give some entries.
pub open spec fn ordered<O: Fn(Vec<Entry>, Sorting) -> Vec<Entry>>(
    sorter: O,
    canonical: Seq<EntryView>,
    sorting: Sorting,
    entries: Seq<EntryView>,
) -> bool {
    if sorting == Sorting::Keep {
        entries == canonical
    } else {
        exists|v: Vec<Entry>, r: Vec<Entry>|
            views(v@) == canonical && views(r@) == entries && #[trigger] call_ensures(
                sorter,
                (v, sorting),
                r,
            )
    }
}

/// `after` is the state `before` once a query has been answered: the kept
/// ranking is the one of the query, and the canonical listing and the records
/// are what they were.
pub open spec fn asked<
    O: Fn(Vec<Entry>, Sorting) -> Vec<Entry>,
    S: Fn(&str, &str) -> Score,
>(sorter: O, scorer: S, before: Server, q: Query, after: Server) -> bool {
    &&& after.canonical() == before.canonical()
    &&& after.frec@ == before.frec@
    &&& after.keeps(q)
    &&& if before.keeps(q) {
        after == before
    } else {
        &&& served(
            scorer,
            after.entries@,
            after.frec@,
            q.query@,
            after.memo_ranked@,
            after.memo_maxw as nat,
        )
        &&& if before.other_order(q) {
            ordered(sorter, before.canonical(), after.order(), views(after.entries@))
        } else {
            after.entries == before.entries
        }
    }
}

impl Server {
    /// The kept ranking points into the listing, and there is a canonical
    /// listing behind every other order.
    pub open spec fn wf(self) -> bool {
        &&& self.frec.wf()
        &&& self.base is None ==> self.memo_sort == 0 && !self.memo_dirs && !self.memo_rev
        &&& self.memo_hit ==> forall|k: int|
            0 <= k < self.memo_ranked@.len() ==> (#[trigger] self.memo_ranked@[k])
                < self.entries@.len()
    }

    /// The canonical listing.
    pub open spec fn canonical(self) -> Seq<EntryView> {
        match self.base {
            Some(b) => views(b@),
            None => views(self.entries@),
        }
    }

    /// Whether a query asks for another order of the listing.
    pub open spec fn other_order(self, q: Query) -> bool {
        q.sort != self.memo_sort || q.dirs_first != self.memo_dirs || q.reverse != self.memo_rev
    }

    /// Whether the kept ranking does not answer a query.
    pub open spec fn stale(self, q: Query) -> bool {
        !self.memo_hit || q.query@ != self.memo_q@ || self.other_order(q)
    }

    /// Whether the kept ranking is the one of a query.
    pub open spec fn keeps(self, q: Query) -> bool {
        !self.stale(q)
    }

    /// The order that the listing is in.
    pub open spec fn order(self) -> Sorting {
        sorting_for(self.memo_sort, self.memo_dirs, self.memo_rev)
    }

    /// A backend for a listing.
    pub fn new(entries: Vec<Entry>) -> (r: Server)
        ensures
            r.wf(),
            r.entries == entries,
            r.base is None,
            r.frec@ == Map::<Seq<u8>, Score>::empty(),
            !r.memo_hit,
            r.memo_q@ == Seq::<char>::empty(),
            r.memo_sort == 0,
            !r.memo_dirs,
            !r.memo_rev,
            r.memo_ranked@ == Seq::<usize>::empty(),
            r.memo_maxw == 0,
            forall|q: Query| #[trigger] r.stale(q),
    {
        Server {
            entries,
            base: None,
            frec: Frecency::new(),
            memo_q: String::new(),
            memo_sort: 0,
            memo_dirs: false,
            memo_rev: false,
            memo_hit: false,
            memo_ranked: Vec::new(),
            memo_maxw: 0,
        }
    }

    /// Takes a frecency record. Only a positive score counts; a text that is
    /// no number has none. A ranking that was made with other records is
    /// dropped.
    pub fn record(&mut self, path: Option<Vec<u8>>, score: Option<Score>)
        requires
            old(self).wf(),
        ensures
            recorded(*old(self), path_view(path), score, *final(self)),
            final(self).wf(),
    {
        match (path, score) {
            (Some(p), Some(s)) => {
                if s.is_positive() {
                    let known = match self.frec.get(p.as_slice()) {
                        Some(k) => k == s,
                        None => false,
                    };
                    if !known {
                        self.frec.insert(p, s);
                        self.memo_hit = false;
                        assert(self.frec@.contains_key(p@) && self.frec@[p@] == s);
                    } else {
                        assert(self.frec@.insert(p@, s) =~= self.frec@);
                    }
                }
            },
            _ => {},
        }
    }

    /// Prepares the listing for a query: drops a ranking that does not answer
    /// it, restores the canonical listing where another order is asked for,
    /// and says how the restored listing has to be sorted.
    pub fn prepare(&mut self, q: &Query) -> (r: Sorting)
        requires
            old(self).wf(),
        ensures
            final(self).wf(),
            !old(self).stale(*q) ==> r == Sorting::Keep && *final(self) == *old(self),
            old(self).stale(*q) ==> {
                &&& !final(self).memo_hit
                &&& final(self).frec == old(self).frec
                &&& final(self).memo_sort == q.sort
                &&& final(self).memo_dirs == q.dirs_first
                &&& final(self).memo_rev == q.reverse
                &&& final(self).canonical() == old(self).canonical()
                &&& if old(self).other_order(*q) {
                    &&& r == sorting_for(q.sort, q.dirs_first, q.reverse)
                    &&& views(final(self).entries@) == old(self).canonical()
                    &&& q.sort != 0 || q.dirs_first || q.reverse ==> final(self).base is Some
                } else {
                    &&& r == Sorting::Keep
                    &&& final(self).entries == old(self).entries
                    &&& final(self).base == old(self).base
                }
            },
    {
        if self.memo_hit && str_eq(q.query.as_str(), self.memo_q.as_str()) && q.sort
            == self.memo_sort && q.dirs_first == self.memo_dirs && q.reverse == self.memo_rev {
            return Sorting::Keep;
        }
        self.memo_hit = false;
        if q.sort == self.memo_sort && q.dirs_first == self.memo_dirs && q.reverse
            == self.memo_rev {
            return Sorting::Keep;
        }
        let ghost canonical = self.canonical();
        match &self.base {
            Some(b) => {
                self.entries = copy_entries(b);
            },
            None => {},
        }
        let r = if q.sort != 0 {
            apply_sort(q.sort)
        } else if q.dirs_first || q.reverse {
            Sorting::Reorder { dirs_first: q.dirs_first, reverse: q.reverse }
        } else {
            Sorting::Keep
        };
        if (q.sort != 0 || q.dirs_first || q.reverse) && self.base.is_none() {
            self.base = Some(copy_entries(&self.entries));
        }
        self.memo_sort = q.sort;
        self.memo_dirs = q.dirs_first;
        self.memo_rev = q.reverse;
        r
    }

    /// Ranks the listing for a query, unless the kept ranking answers it.
    pub fn rerank<S: Fn(&str, &str) -> Score + Sync>(&mut self, query: &str, scorer: &S)
        requires
            old(self).wf(),
            old(self).memo_hit ==> old(self).memo_q@ == query@,
            forall|l: &str, q: &str| call_requires(*scorer, (l, q)),
        ensures
            final(self).wf(),
            final(self).memo_hit,
            final(self).memo_q@ == query@,
            old(self).memo_hit ==> *final(self) == *old(self),
            !old(self).memo_hit ==> {
                &&& served(
                    *scorer,
                    final(self).entries@,
                    final(self).frec@,
                    query@,
                    final(self).memo_ranked@,
                    final(self).memo_maxw as nat,
                )
                &&& final(self).entries == old(self).entries
                &&& final(self).base == old(self).base
                &&& final(self).frec == old(self).frec
                &&& final(self).memo_sort == old(self).memo_sort
                &&& final(self).memo_dirs == old(self).memo_dirs
                &&& final(self).memo_rev == old(self).memo_rev
            },
    {
        if self.memo_hit {
            return ;
        }
        let known: usize = self.frec.len();
        let n: usize = self.entries.len();
        let (ranked, width) = if query.is_empty() && known > 0 {
            order_by_frecency(self.entries.as_slice(), &self.frec)
        } else {
            rank_indices_mw(self.entries.as_slice(), query, scorer)
        };
        proof {
            if !(query@.len() == 0 && known > 0) {
                law_ranking_lists_each_index_once(
                    *scorer,
                    self.entries@,
                    query@,
                    ranked@,
                    width as nat,
                );
            }
        }
        self.memo_q = query.to_owned();
        self.memo_ranked = ranked;
        self.memo_maxw = width;
        self.memo_hit = true;
    }
}

// ---------------------------------------------------------------------------
// Replies
// ---------------------------------------------------------------------------

/// Appends a text.
fn push_text(out: &mut Vec<u8>, s: &str)
    ensures
        final(out)@ == old(out)@ + encode_utf8(s@),
{
    let ghost start = out@;
    let b = s.as_bytes();
    out.extend_from_slice(b);
    assert(out@ =~= start + b@);
}

/// A line of a word, a number and a line end.
pub open spec fn count_line(word: Seq<char>, n: nat) -> Seq<char> {
    word + decimal(n) + "\n"@
}

fn push_count_line(out: &mut Vec<u8>, word: &str, n: usize)
    ensures
        final(out)@ == old(out)@ + encode_utf8(count_line(word@, n as nat)),
{
    let mut line = word.to_owned();
    push_decimal(&mut line, n as u128);
    line.push_str("\n");
    push_text(out, line.as_str());
}

/// The letter of an entry's kind.
pub open spec fn kind_letter(kind: FileKind) -> char {
    match kind {
        FileKind::Dir => 'd',
        FileKind::Link => 'l',
        FileKind::File => 'f',
    }
}

/// What stands before the label in a row.
pub open spec fn row_head(i: nat, kind: FileKind) -> Seq<char> {
    ("R "@ + decimal(i) + " "@).push(kind_letter(kind)) + " "@
}

/// The row of an entry: its index and kind, then label and path, escaped.
pub open spec fn row(i: nat, e: EntryView) -> Seq<u8> {
    (encode_utf8(row_head(i, e.kind)) + escaped(encode_utf8(e.label))).push(TAB) + escaped(
        e.path,
    ).push(LF)
}

/// The rows of some entries.
pub open spec fn rows(entries: Seq<EntryView>, idx: Seq<usize>) -> Seq<u8>
    decreases idx.len(),
{
    if idx.len() == 0 {
        Seq::empty()
    } else {
        rows(entries, idx.drop_last()) + row(idx.last() as nat, entries[idx.last() as int])
    }
}

pub open spec fn least(a: nat, b: nat) -> nat {
    if a < b {
        a
    } else {
        b
    }
}

/// What stands in the half-open range from `from` to `to`: nothing where the
/// range ends before it begins.
pub open spec fn in_range(ranked: Seq<usize>, from: nat, to: nat) -> Seq<usize> {
    let end = least(to, ranked.len());
    ranked.subrange(least(from, end) as int, end as int)
}

/// The reply to a query: the number of matches, the width of the longest
/// label, the rows from `from` up to `to`, and the end.
pub open spec fn rows_reply(
    entries: Seq<EntryView>,
    ranked: Seq<usize>,
    width: nat,
    from: nat,
    to: nat,
) -> Seq<u8> {
    encode_utf8(count_line("N "@, ranked.len())) + encode_utf8(count_line("W "@, width)) + rows(
        entries,
        in_range(ranked, from, to),
    ) + encode_utf8("E\n"@)
}

fn push_row(out: &mut Vec<u8>, i: usize, e: &Entry)
    ensures
        final(out)@ == old(out)@ + row(i as nat, e@),
{
    let ghost start = out@;
    let mut head = "R ".to_owned();
    push_decimal(&mut head, i as u128);
    head.push_str(" ");
    match e.kind {
        FileKind::Dir => head.push('d'),
        FileKind::Link => head.push('l'),
        FileKind::File => head.push('f'),
    }
    head.push_str(" ");
    push_text(out, head.as_str());
    write_escaped(out, e.label.as_str().as_bytes());
    out.push(TAB);
    write_escaped(out, e.path.as_slice());
    out.push(LF);
    assert(out@ =~= start + row(i as nat, e@));
}

/// The top-level directories among some entries.
pub open spec fn dir_rows(entries: Seq<EntryView>) -> Seq<u8>
    decreases entries.len(),
{
    if entries.len() == 0 {
        Seq::empty()
    } else {
        let before = dir_rows(entries.drop_last());
        let e = entries.last();
        if e.depth == 1 && e.kind == FileKind::Dir {
            before + (encode_utf8("D "@) + escaped(e.raw_basename)).push(LF)
        } else {
            before
        }
    }
}

/// The metadata row of an entry; a missing block is empty.
pub open spec fn meta_row(i: nat, meta: Option<String>) -> Seq<char> {
    "K "@ + decimal(i) + " "@ + (match meta {
        Some(m) => m@,
        None => Seq::empty(),
    }) + "\n"@
}

pub open spec fn meta_rows(indices: Seq<usize>, metas: Seq<Option<String>>) -> Seq<u8>
    decreases indices.len(),
{
    if indices.len() == 0 {
        Seq::empty()
    } else {
        meta_rows(indices.drop_last(), metas.drop_last()) + encode_utf8(
            meta_row(indices.last() as nat, metas.last()),
        )
    }
}

/// The row of a preview line.
pub open spec fn pane_row(line: Seq<char>, width: nat) -> Seq<u8> {
    encode_utf8("L "@) + encode_utf8(preview_row(line, width, 0)) + encode_utf8("\n"@)
}

pub open spec fn pane_rows(lines: Seq<String>, width: nat) -> Seq<u8>
    decreases lines.len(),
{
    if lines.len() == 0 {
        Seq::empty()
    } else {
        pane_rows(lines.drop_last(), width) + pane_row(lines.last()@, width)
    }
}

/// The head of a preview reply: how many rows there are, and whether they are
/// dimmed.
pub open spec fn pane_head(n: nat, dim: bool) -> Seq<char> {
    "V "@ + decimal(n) + (if dim {
        " 1\n"@
    } else {
        " 0\n"@
    })
}

/// The reply to a preview request: as many rows as fit the height.
pub open spec fn pane_reply(pane: Pane, width: nat, height: nat) -> Seq<u8> {
    let n = least(height, pane.lines@.len());
    encode_utf8(pane_head(n, pane.dim)) + pane_rows(pane.lines@.take(n as int), width)
        + encode_utf8("E\n"@)
}

/// The ready banner, and the line that announces previews.
pub open spec fn banner_text(total: nat, depth: nat, root: Seq<char>) -> Seq<char> {
    "C "@ + decimal(total) + " "@ + decimal(depth) + " "@ + root + "\nX preview\n"@
}

/// The ready banner for a root as it is shown.
pub fn banner_for(total: usize, depth: usize, root: &str) -> (out: Vec<u8>)
    ensures
        out@ == encode_utf8(banner_text(total as nat, depth as nat, root@)),
{
    let mut line = "C ".to_owned();
    push_decimal(&mut line, total as u128);
    line.push_str(" ");
    push_decimal(&mut line, depth as u128);
    line.push_str(" ");
    line.push_str(root);
    line.push_str("\nX preview\n");
    let mut out: Vec<u8> = Vec::new();
    push_text(&mut out, line.as_str());
    assert(out@ =~= encode_utf8(line@));
    out
}

impl Server {
    /// The ready banner, and the line that announces previews.
    pub fn banner(&self, depth: usize, root: &[u8]) -> (out: Vec<u8>)
        ensures
            out@ == encode_utf8(
                banner_text(self.entries@.len(), depth as nat, lossy_text(root@)),
            ),
    {
        let shown = utf8_lossy(root);
        banner_for(self.entries.len(), depth, shown.as_str())
    }

    /// What a query is answered with from the kept ranking.
    pub open spec fn reply_text(self, from: nat, to: nat) -> Seq<u8> {
        rows_reply(
            views(self.entries@),
            self.memo_ranked@,
            self.memo_maxw as nat,
            from,
            to,
        )
    }

    /// The reply with the rows of the kept ranking. A range that ends before it
    /// begins has no rows.
    pub fn reply(&self, from: usize, to: usize) -> (out: Vec<u8>)
        requires
            self.wf(),
            self.memo_hit,
        ensures
            out@ == self.reply_text(from as nat, to as nat),
    {
        let n: usize = self.memo_ranked.len();
        let end: usize = if to < n {
            to
        } else {
            n
        };
        let start: usize = if from < end {
            from
        } else {
            end
        };
        let mut out: Vec<u8> = Vec::new();
        push_count_line(&mut out, "N ", n);
        push_count_line(&mut out, "W ", self.memo_maxw);
        let ghost head = out@;
        let ghost part = self.memo_ranked@.subrange(start as int, end as int);
        assert(head =~= encode_utf8(count_line("N "@, n as nat)) + encode_utf8(
            count_line("W "@, self.memo_maxw as nat),
        ));
        let mut k: usize = start;
        assert(part.take(0) == Seq::<usize>::empty());
        assert(out@ =~= head + rows(views(self.entries@), part.take(0)));
        while k < end
            invariant
                start <= k <= end <= self.memo_ranked@.len(),
                self.wf(),
                self.memo_hit,
                part == self.memo_ranked@.subrange(start as int, end as int),
                out@ == head + rows(views(self.entries@), part.take(k - start)),
            decreases end - k,
        {
            let i: usize = self.memo_ranked[k];
            let ghost before = out@;
            push_row(&mut out, i, &self.entries[i]);
            assert(part.take(k - start + 1).drop_last() == part.take(k - start));
            assert(part.take(k - start + 1).last() == i);
            assert(views(self.entries@)[i as int] == self.entries@[i as int]@);
            assert(out@ =~= head + rows(views(self.entries@), part.take(k - start + 1)));
            k += 1;
        }
        assert(part.take(k - start) == part);
        push_text(&mut out, "E\n");
        out
    }

    /// Answers a query: brings the listing into the order that is asked for,
    /// ranks it unless the kept ranking answers the query, and gives the rows.
    /// The sorting function sorts a canonical listing.
    pub fn answer<
        O: Fn(Vec<Entry>, Sorting) -> Vec<Entry>,
        S: Fn(&str, &str) -> Score + Sync,
    >(&mut self, q: &Query, sorter: &O, scorer: &S) -> (out: Vec<u8>)
        requires
            old(self).wf(),
            forall|v: Vec<Entry>, s: Sorting| call_requires(*sorter, (v, s)),
            forall|l: &str, q: &str| call_requires(*scorer, (l, q)),
        ensures
            asked(*sorter, *scorer, *old(self), *q, *final(self)),
            out@ == final(self).reply_text(q.from as nat, q.to as nat),
            final(self).wf(),
    {
        let sorting = self.prepare(q);
        if sorting != Sorting::Keep {
            let mut canonical: Vec<Entry> = Vec::new();
            core::mem::swap(&mut self.entries, &mut canonical);
            self.entries = sorter(canonical, sorting);
        }
        let ghost listed = *self;
        self.rerank(q.query.as_str(), scorer);
        assert(self.canonical() == listed.canonical());
        self.reply(q.from, q.to)
    }

    /// The reply with the top-level directories.
    pub fn dirs_reply(&self) -> (out: Vec<u8>)
        ensures
            out@ == dir_rows(views(self.entries@)) + encode_utf8("E\n"@),
    {
        let mut out: Vec<u8> = Vec::new();
        let ghost all = views(self.entries@);
        let mut i: usize = 0;
        assert(all.take(0) == Seq::<EntryView>::empty());
        while i < self.entries.len()
            invariant
                i <= self.entries@.len(),
                all == views(self.entries@),
                out@ == dir_rows(all.take(i as int)),
            decreases self.entries@.len() - i,
        {
            let e = &self.entries[i];
            let ghost before = out@;
            assert(all.take(i + 1).drop_last() == all.take(i as int));
            assert(all.take(i + 1).last() == e@);
            if e.depth == 1 && e.kind == FileKind::Dir {
                push_text(&mut out, "D ");
                write_escaped(&mut out, e.raw_basename.as_slice());
                out.push(LF);
                assert(out@ =~= before + (encode_utf8("D "@) + escaped(e.raw_basename@)).push(LF));
            }
            i += 1;
        }
        assert(all.take(i as int) == all);
        push_text(&mut out, "E\n");
        out
    }

    /// The entry that a preview is asked for, where the listing has it.
    pub fn preview_entry(&self, index: usize) -> (r: Option<&Entry>)
        ensures
            match r {
                Some(e) => index < self.entries@.len() && *e == self.entries@[index as int],
                None => index >= self.entries@.len(),
            },
    {
        if index < self.entries.len() {
            Some(&self.entries[index])
        } else {
            None
        }
    }

    /// The requested indices that the listing has.
    pub fn meta_targets(&self, wanted: &Vec<usize>) -> (r: Vec<usize>)
        ensures
            r@ == wanted@.filter(|i: usize| i < self.entries@.len()),
    {
        let ghost has = |i: usize| i < self.entries@.len();
        let n: usize = self.entries.len();
        let mut r: Vec<usize> = Vec::new();
        let mut k: usize = 0;
        assert(wanted@.take(0).filter(has) =~= Seq::<usize>::empty());
        while k < wanted.len()
            invariant
                k <= wanted@.len(),
                n == self.entries@.len(),
                has == (|i: usize| i < self.entries@.len()),
                r@ == wanted@.take(k as int).filter(has),
            decreases wanted@.len() - k,
        {
            let i: usize = wanted[k];
            assert(wanted@.take(k + 1) == wanted@.take(k as int).push(i));
            proof {
                wanted@.take(k as int).lemma_filter_push(i, has);
            }
            if i < n {
                r.push(i);
            }
            k += 1;
        }
        assert(wanted@.take(k as int) == wanted@);
        r
    }
}

/// The reply with the metadata of entries.
pub fn meta_reply(indices: &Vec<usize>, metas: &Vec<Option<String>>) -> (out: Vec<u8>)
    requires
        indices@.len() == metas@.len(),
    ensures
        out@ == meta_rows(indices@, metas@) + encode_utf8("E\n"@),
{
    let mut out: Vec<u8> = Vec::new();
    let mut k: usize = 0;
    assert(indices@.take(0) == Seq::<usize>::empty());
    while k < indices.len()
        invariant
            k <= indices@.len(),
            indices@.len() == metas@.len(),
            out@ == meta_rows(indices@.take(k as int), metas@.take(k as int)),
        decreases indices@.len() - k,
    {
        let mut line = "K ".to_owned();
        push_decimal(&mut line, indices[k] as u128);
        line.push_str(" ");
        match &metas[k] {
            Some(m) => line.push_str(m.as_str()),
            None => line.push_str(""),
        }
        line.push_str("\n");
        proof {
            reveal_strlit("");
            assert(""@ =~= Seq::<char>::empty());
        }
        assert(line@ == meta_row(indices@[k as int] as nat, metas@[k as int]));
        push_text(&mut out, line.as_str());
        assert(indices@.take(k + 1).drop_last() == indices@.take(k as int));
        assert(metas@.take(k + 1).drop_last() == metas@.take(k as int));
        k += 1;
    }
    assert(indices@.take(k as int) == indices@);
    assert(metas@.take(k as int) == metas@);
    push_text(&mut out, "E\n");
    out
}

/// The reply with a preview pane.
pub fn preview_reply(pane: &Pane, width: usize, height: usize) -> (out: Vec<u8>)
    ensures
        out@ == pane_reply(*pane, width as nat, height as nat),
{
    let n: usize = if height < pane.lines.len() {
        height
    } else {
        pane.lines.len()
    };
    let mut head = "V ".to_owned();
    push_decimal(&mut head, n as u128);
    if pane.dim {
        head.push_str(" 1\n");
    } else {
        head.push_str(" 0\n");
    }
    let mut out: Vec<u8> = Vec::new();
    push_text(&mut out, head.as_str());
    let ghost first = encode_utf8(pane_head(n as nat, pane.dim));
    assert(out@ =~= first);
    let mut k: usize = 0;
    assert(pane.lines@.take(0) == Seq::<String>::empty());
    assert(out@ =~= first + pane_rows(pane.lines@.take(0), width as nat));
    while k < n
        invariant
            k <= n <= pane.lines@.len(),
            out@ == first + pane_rows(pane.lines@.take(k as int), width as nat),
        decreases n - k,
    {
        let ghost before = out@;
        let row = preview_line(pane.lines[k].as_str(), width);
        push_text(&mut out, "L ");
        push_text(&mut out, row.as_str());
        push_text(&mut out, "\n");
        assert(pane.lines@.take(k + 1).drop_last() == pane.lines@.take(k as int));
        assert(out@ =~= before + pane_row(pane.lines@[k as int]@, width as nat));
        assert(out@ =~= first + pane_rows(pane.lines@.take(k + 1), width as nat));
        k += 1;
    }
    push_text(&mut out, "E\n");
    out
}

// ---------------------------------------------------------------------------
// Laws
// ---------------------------------------------------------------------------

proof fn lemma_decimal_avoids(n: nat, c: char)
    requires
        (c as u32) < 0x30,
    ensures
        !decimal(n).contains(c),
{
    lemma_decimal(n);
    assert forall|i: int| 0 <= i < decimal(n).len() implies decimal(n)[i] != c by {
        assert(is_digit(decimal(n)[i]));
    }
}

proof fn lemma_head_avoids(i: nat, kind: FileKind, c: char)
    requires
        c == '\t' || c == '\n',
    ensures
        !encode_utf8(row_head(i, kind)).contains(c as u8),
{
    reveal_strlit("R ");
    reveal_strlit(" ");
    lemma_decimal_avoids(i, c);
    let head = row_head(i, kind);
    let d = decimal(i);
    assert forall|j: int| 0 <= j < head.len() implies head[j] != c by {
        if 2 <= j < 2 + d.len() {
            assert(head[j] == d[j - 2]);
            assert(d.contains(d[j - 2]));
        }
    }
    lemma_encode_avoids(head, c);
}

/// Where the TAB of a row stands.
pub open spec fn row_tab(i: nat, e: EntryView) -> int {
    (encode_utf8(row_head(i, e.kind)).len() + escaped(encode_utf8(e.label)).len()) as int
}

/// A row is one line with one TAB, whatever bytes the names hold: the only LF
/// is the last byte, and the only TAB stands between label and path.
pub proof fn law_rows_keep_the_framing(i: nat, e: EntryView)
    ensures
        ({
            let r = row(i, e);
            let tab = row_tab(i, e);
            &&& 0 <= tab < r.len() - 1
            &&& forall|j: int| 0 <= j < r.len() ==> ((#[trigger] r[j]) == TAB <==> j == tab)
            &&& forall|j: int| 0 <= j < r.len() ==> ((#[trigger] r[j]) == LF <==> j == r.len() - 1)
        }),
{
    let head = encode_utf8(row_head(i, e.kind));
    let label = escaped(encode_utf8(e.label));
    let path = escaped(e.path);
    lemma_head_avoids(i, e.kind, '\t');
    lemma_head_avoids(i, e.kind, '\n');
    law_escaped_names_keep_the_framing(encode_utf8(e.label));
    law_escaped_names_keep_the_framing(e.path);
    let r = row(i, e);
    let tab = row_tab(i, e);
    assert forall|j: int| 0 <= j < r.len() implies ((#[trigger] r[j]) == TAB <==> j == tab) && (r[j]
        == LF <==> j == r.len() - 1) by {
        if j < head.len() {
            assert(head.contains(head[j]));
        } else if j < tab {
            assert(label.contains(label[j - head.len()]));
        } else if j > tab && j < r.len() - 1 {
            assert(path.contains(path[j - tab - 1]));
        }
    }
}

/// The client gets back from a row exactly the label and the path of the
/// entry.
pub proof fn law_rows_carry_the_names(i: nat, e: EntryView)
    ensures
        ({
            let r = row(i, e);
            let tab = row_tab(i, e);
            let head = encode_utf8(row_head(i, e.kind)).len() as int;
            &&& unescaped(r.subrange(head, tab)) == encode_utf8(e.label)
            &&& unescaped(r.subrange(tab + 1, r.len() - 1)) == e.path
        }),
{
    let r = row(i, e);
    let tab = row_tab(i, e);
    let head = encode_utf8(row_head(i, e.kind)).len() as int;
    assert(r.subrange(head, tab) =~= escaped(encode_utf8(e.label)));
    assert(r.subrange(tab + 1, r.len() - 1) =~= escaped(e.path));
    law_unescaping_undoes_escaping(encode_utf8(e.label));
    law_unescaping_undoes_escaping(e.path);
}

/// A preview row is one line that does not end the reply, whatever the preview
/// holds: it begins with `L`, and its only LF is its last byte.
pub proof fn law_pane_rows_keep_the_framing(line: Seq<char>, width: nat)
    ensures
        ({
            let r = pane_row(line, width);
            &&& r.len() >= 3
            &&& r[0] == 'L' as u8
            &&& forall|j: int| 0 <= j < r.len() ==> ((#[trigger] r[j]) == LF <==> j == r.len() - 1)
        }),
{
    reveal_strlit("L ");
    reveal_strlit("\n");
    law_preview_rows_are_lines(line, width, 0);
    lemma_encode_avoids(preview_row(line, width, 0), '\n');
    vstd::utf8::is_ascii_chars_encode_utf8("L "@);
    vstd::utf8::is_ascii_chars_encode_utf8("\n"@);
    let text = encode_utf8(preview_row(line, width, 0));
    let r = pane_row(line, width);
    assert forall|j: int| 0 <= j < r.len() implies ((#[trigger] r[j]) == LF <==> j == r.len() - 1) by {
        if 2 <= j < r.len() - 1 {
            assert(text.contains(text[j - 2]));
        }
    }
}

/// Once a query has been answered, the same query is answered from the kept
/// ranking, as long as the records stay as they are.
pub proof fn law_a_repeated_query_is_not_ranked_again<
    O: Fn(Vec<Entry>, Sorting) -> Vec<Entry>,
    S: Fn(&str, &str) -> Score,
>(
    sorter: O,
    scorer: S,
    before: Server,
    q: Query,
    after: Server,
    path: Option<Seq<u8>>,
    score: Option<Score>,
    later: Server,
)
    requires
        asked(sorter, scorer, before, q, after),
        recorded(after, path, score, later),
        later.frec@ == after.frec@,
    ensures
        after.keeps(q),
        later.keeps(q),
{
}

/// A record that changes the journal, be it a further path or a newer score,
/// has every query ranked anew.
pub proof fn law_a_new_record_is_ranked(
    before: Server,
    path: Option<Seq<u8>>,
    score: Option<Score>,
    after: Server,
    q: Query,
)
    requires
        recorded(before, path, score, after),
        after.frec@ != before.frec@,
    ensures
        after.stale(q),
{
}

// ---------------------------------------------------------------------------
// Laws of orders and records
// ---------------------------------------------------------------------------

/// The sort keys: 1 by extension, 2 by size, 3 by time, whatever the tweaks. The
/// tweaks reshape the order by name, which is the canonical one without them.
pub proof fn law_sort_keys_are_followed(dirs_first: bool, reverse: bool)
    ensures
        sorting_for(1, dirs_first, reverse) == Sorting::ByExt,
        sorting_for(2, dirs_first, reverse) == Sorting::BySize,
        sorting_for(3, dirs_first, reverse) == Sorting::ByTime,
        sorting_by(0) == Sorting::Keep,
        sorting_by(1) == Sorting::ByExt,
        sorting_by(2) == Sorting::BySize,
        sorting_by(3) == Sorting::ByTime,
        dirs_first || reverse ==> sorting_for(0, dirs_first, reverse) == (Sorting::Reorder {
            dirs_first,
            reverse,
        }),
        !dirs_first && !reverse ==> sorting_for(0, dirs_first, reverse) == Sorting::Keep,
{
}

/// A record with a positive score sets the score of its path and of no other; a
/// record without one changes nothing. Nothing else of the state is touched but
/// the ranking that was kept.
pub proof fn law_records_set_the_score_of_their_path(
    before: Server,
    path: Option<Seq<u8>>,
    score: Option<Score>,
    after: Server,
    other: Seq<u8>,
)
    requires
        recorded(before, path, score, after),
    ensures
        path is Some && score is Some && score->0.key() > 0 ==> after.frec@.contains_key(path->0)
            && after.frec@[path->0] == score->0,
        path is None || score is None || score->0.key() <= 0 ==> after.frec@ == before.frec@,
        path != Some(other) ==> after.frec@.contains_key(other) == before.frec@.contains_key(other),
        path != Some(other) && before.frec@.contains_key(other) ==> after.frec@[other]
            == before.frec@[other],
        views(after.entries@) == views(before.entries@),
        after.canonical() == before.canonical(),
{
}

/// With records, the empty query gives every entry once, the shallower first,
/// and within one depth a path with a positive score before every path with a
/// lower one or with none.
pub proof fn law_records_order_the_empty_query<S: Fn(&str, &str) -> Score>(
    scorer: S,
    entries: Seq<Entry>,
    frec: Map<Seq<u8>, Score>,
    query: Seq<char>,
    ranked: Seq<usize>,
    width: nat,
    path: Seq<u8>,
    j: int,
    k: int,
)
    requires
        served(scorer, entries, frec, query, ranked, width),
        query.len() == 0,
        entries.len() <= usize::MAX,
        frec.dom().finite(),
        frec.contains_key(path),
        0 <= j < ranked.len(),
        0 <= k < ranked.len(),
    ensures
        ranked.len() == entries.len(),
        j != k ==> ranked[j] != ranked[k],
        entries[ranked[j] as int].depth < entries[ranked[k] as int].depth ==> j < k,
        entries[ranked[j] as int].depth == entries[ranked[k] as int].depth && frec.contains_key(
            entries[ranked[j] as int].path@,
        ) && frec[entries[ranked[j] as int].path@].key() > 0 && (frec.contains_key(
            entries[ranked[k] as int].path@,
        ) ==> frec[entries[ranked[k] as int].path@].key()
            < frec[entries[ranked[j] as int].path@].key()) ==> j < k,
{
    assert(frec.dom().contains(path));
    if frec.dom().len() == 0 {
        assert(frec.dom() =~= Set::<Seq<u8>>::empty());
    }
    let n = entries.len() as int;
    crate::order::law_arrangement_sorts_every_position_once(
        by_frecency(entries, frec),
        0,
        n,
        ranked,
    );
    let (x, y) = (entries[ranked[j] as int], entries[ranked[k] as int]);
    if k < j {
        crate::rank::law_frecency_orders_within_depth(entries, frec, ranked, k, j);
    }
    if x.depth == y.depth && frec.contains_key(x.path@) && frec[x.path@].key() > 0 && (
    frec.contains_key(y.path@) ==> frec[y.path@].key() < frec[x.path@].key()) {
        crate::rank::law_recorded_paths_lead_their_depth(entries, frec, ranked, j, k);
    }
}

/// A query that is not empty is answered by its ranking, whatever was recorded;
/// so is the empty one as long as nothing was.
pub proof fn law_other_queries_do_not_depend_on_records<S: Fn(&str, &str) -> Score>(
    scorer: S,
    entries: Seq<Entry>,
    frec: Map<Seq<u8>, Score>,
    query: Seq<char>,
    ranked: Seq<usize>,
    width: nat,
)
    requires
        served(scorer, entries, frec, query, ranked, width),
        query.len() > 0 || frec == Map::<Seq<u8>, Score>::empty(),
    ensures
        ranking(scorer, entries, query, ranked, width),
{
    if frec == Map::<Seq<u8>, Score>::empty() {
        assert(frec.dom() =~= Set::<Seq<u8>>::empty());
    }
}

/// The width that goes with the empty query is that of the longest label, also
/// with records.
pub proof fn law_records_leave_the_width<S: Fn(&str, &str) -> Score>(
    scorer: S,
    entries: Seq<Entry>,
    frec: Map<Seq<u8>, Score>,
    ranked: Seq<usize>,
    width: nat,
    i: int,
)
    requires
        served(scorer, entries, frec, Seq::empty(), ranked, width),
        0 <= i < entries.len(),
    ensures
        entries[i].label@.len() <= width,
        exists|k: int| 0 <= k < entries.len() && (#[trigger] entries[k]).label@.len() == width,
{
    crate::rank::lemma_widest_label(entries);
}

// ---------------------------------------------------------------------------
// Laws of replies
// ---------------------------------------------------------------------------

proof fn lemma_reply_words()
    ensures
        "N "@ == seq!['N', ' '],
        "W "@ == seq!['W', ' '],
        "R "@ == seq!['R', ' '],
        "D "@ == seq!['D', ' '],
        "K "@ == seq!['K', ' '],
        "L "@ == seq!['L', ' '],
        "V "@ == seq!['V', ' '],
        "C "@ == seq!['C', ' '],
        " "@ == seq![' '],
        "\n"@ == seq!['\n'],
        "E\n"@ == seq!['E', '\n'],
        " 1\n"@ == seq![' ', '1', '\n'],
        " 0\n"@ == seq![' ', '0', '\n'],
{
    reveal_strlit("N ");
    reveal_strlit("W ");
    reveal_strlit("R ");
    reveal_strlit("D ");
    reveal_strlit("K ");
    reveal_strlit("L ");
    reveal_strlit("V ");
    reveal_strlit("C ");
    reveal_strlit(" ");
    reveal_strlit("\n");
    reveal_strlit("E\n");
    reveal_strlit(" 1\n");
    reveal_strlit(" 0\n");
    assert("N "@ =~= seq!['N', ' ']);
    assert("W "@ =~= seq!['W', ' ']);
    assert("R "@ =~= seq!['R', ' ']);
    assert("D "@ =~= seq!['D', ' ']);
    assert("K "@ =~= seq!['K', ' ']);
    assert("L "@ =~= seq!['L', ' ']);
    assert("V "@ =~= seq!['V', ' ']);
    assert("C "@ =~= seq!['C', ' ']);
    assert(" "@ =~= seq![' ']);
    assert("\n"@ =~= seq!['\n']);
    assert("E\n"@ =~= seq!['E', '\n']);
    assert(" 1\n"@ =~= seq![' ', '1', '\n']);
    assert(" 0\n"@ =~= seq![' ', '0', '\n']);
}

/// A row names the index, the kind by its letter, the label and the path.
pub proof fn law_rows_name_index_kind_label_and_path(i: nat, e: EntryView)
    ensures
        row(i, e) == encode_utf8(
            seq!['R', ' '] + decimal(i) + seq![
                ' ',
                match e.kind {
                    FileKind::Dir => 'd',
                    FileKind::File => 'f',
                    FileKind::Link => 'l',
                },
                ' ',
            ],
        ) + escaped(encode_utf8(e.label)) + seq![0x09u8] + escaped(e.path) + seq![0x0au8],
{
    lemma_reply_words();
    let letter = kind_letter(e.kind);
    assert(row_head(i, e.kind) =~= seq!['R', ' '] + decimal(i) + seq![' ', letter, ' ']);
    let head = encode_utf8(row_head(i, e.kind));
    let (l, p) = (escaped(encode_utf8(e.label)), escaped(e.path));
    assert((head + l).push(TAB) + p.push(LF) =~= head + l + seq![0x09u8] + p + seq![0x0au8]);
}

/// A reply gives the number of matches, the width, and the rows of the
/// half-open range: none where it is empty, and one more, at the end, for every
/// position that the range is longer.
pub proof fn law_replies_hold_the_rows_of_the_range(
    entries: Seq<EntryView>,
    ranked: Seq<usize>,
    width: nat,
    from: nat,
    to: nat,
)
    ensures
        from >= to || from >= ranked.len() ==> rows_reply(entries, ranked, width, from, to)
            == encode_utf8(seq!['N', ' '] + decimal(ranked.len()) + seq!['\n']) + encode_utf8(
            seq!['W', ' '] + decimal(width) + seq!['\n'],
        ) + encode_utf8(seq!['E', '\n']),
        from <= to < ranked.len() ==> rows_reply(entries, ranked, width, from, to + 1)
            == rows_reply(entries, ranked, width, from, to).subrange(
            0,
            rows_reply(entries, ranked, width, from, to).len() - encode_utf8(seq!['E', '\n']).len(),
        ) + row(ranked[to as int] as nat, entries[ranked[to as int] as int]) + encode_utf8(
            seq!['E', '\n'],
        ),
        to > ranked.len() ==> rows_reply(entries, ranked, width, from, to) == rows_reply(
            entries,
            ranked,
            width,
            from,
            ranked.len(),
        ),
{
    lemma_reply_words();
    let n = ranked.len();
    let head = encode_utf8(count_line("N "@, n)) + encode_utf8(count_line("W "@, width));
    let end = encode_utf8("E\n"@);
    if from >= to || from >= n {
        assert(in_range(ranked, from, to) =~= Seq::<usize>::empty());
        assert(head + Seq::<u8>::empty() =~= head);
    }
    if from <= to < n {
        let (a, b) = (in_range(ranked, from, to), in_range(ranked, from, to + 1));
        assert(b.drop_last() =~= a);
        assert(b.last() == ranked[to as int]);
        let body = rows(entries, a);
        let more = row(ranked[to as int] as nat, entries[ranked[to as int] as int]);
        assert((head + body + end).subrange(0, (head + body).len() as int) =~= head + body);
        assert(head + (body + more) + end =~= head + body + more + end);
    }
}

/// The directories in a reply are those directly below the root, in the order
/// of the listing.
pub proof fn law_child_directories_are_listed(entries: Seq<EntryView>, e: EntryView)
    ensures
        dir_rows(Seq::<EntryView>::empty()) == Seq::<u8>::empty(),
        e.kind == FileKind::Dir && e.depth == 1 ==> dir_rows(entries.push(e)) == dir_rows(entries)
            + encode_utf8(seq!['D', ' ']) + escaped(e.raw_basename) + seq![0x0au8],
        e.kind != FileKind::Dir || e.depth != 1 ==> dir_rows(entries.push(e)) == dir_rows(entries),
{
    lemma_reply_words();
    assert(entries.push(e).drop_last() =~= entries);
    let before = dir_rows(entries);
    let (d, x) = (encode_utf8("D "@), escaped(e.raw_basename));
    assert(before + (d + x).push(LF) =~= before + d + x + seq![0x0au8]);
}

/// The metadata of every index is on a line of its own, empty where there is
/// none.
pub proof fn law_metadata_is_given_by_index(
    indices: Seq<usize>,
    metas: Seq<Option<String>>,
    i: usize,
    meta: Option<String>,
)
    ensures
        meta_rows(Seq::<usize>::empty(), metas) == Seq::<u8>::empty(),
        meta_rows(indices.push(i), metas.push(meta)) == meta_rows(indices, metas) + encode_utf8(
            seq!['K', ' '] + decimal(i as nat) + seq![' '] + (match meta {
                Some(m) => m@,
                None => Seq::empty(),
            }) + seq!['\n'],
        ),
{
    lemma_reply_words();
    assert(indices.push(i).drop_last() =~= indices);
    assert(metas.push(meta).drop_last() =~= metas);
}

/// A preview reply counts its rows, says whether they are dim, and gives the
/// rows of the preview in order, as many as the height allows.
pub proof fn law_previews_are_given_row_by_row(
    pane: Pane,
    width: nat,
    height: nat,
    lines: Seq<String>,
    line: String,
)
    ensures
        ({
            let n = if height < pane.lines@.len() {
                height
            } else {
                pane.lines@.len()
            };
            let dim = if pane.dim {
                '1'
            } else {
                '0'
            };
            pane_reply(pane, width, height) == encode_utf8(
                seq!['V', ' '] + decimal(n) + seq![' ', dim, '\n'],
            ) + pane_rows(pane.lines@.take(n as int), width) + encode_utf8(seq!['E', '\n'])
        }),
        pane_rows(Seq::<String>::empty(), width) == Seq::<u8>::empty(),
        pane_rows(lines.push(line), width) == pane_rows(lines, width) + encode_utf8(seq!['L', ' '])
            + encode_utf8(preview_row(line@, width, 0)) + encode_utf8(seq!['\n']),
{
    lemma_reply_words();
    assert(lines.push(line).drop_last() =~= lines);
    let (a, b, c, d) = (
        pane_rows(lines, width),
        encode_utf8("L "@),
        encode_utf8(preview_row(line@, width, 0)),
        encode_utf8("\n"@),
    );
    assert(a + (b + c + d) =~= a + b + c + d);
}

/// The banner names the size of the listing, the depth and the root, and
/// announces previews.
pub proof fn law_the_banner_names_size_depth_and_root(total: nat, depth: nat, root: Seq<char>)
    ensures
        banner_text(total, depth, root) == seq!['C', ' '] + decimal(total) + seq![' '] + decimal(
            depth,
        ) + seq![' '] + root + seq!['\n', 'X', ' ', 'p', 'r', 'e', 'v', 'i', 'e', 'w', '\n'],
{
    lemma_reply_words();
    reveal_strlit("\nX preview\n");
    assert("\nX preview\n"@ =~= seq![
        '\n',
        'X',
        ' ',
        'p',
        'r',
        'e',
        'v',
        'i',
        'e',
        'w',
        '\n',
    ]);
}

} // verus!
