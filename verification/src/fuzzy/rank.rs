//! Query ranking over plain labels: ordering, anchor policy and match spans.
//!
//! The parts that are independent of what is being ranked: the anchor policy,
//! the layout fallback, case folding and the order of equally scored
//! candidates. The scoring function is the caller's: it takes a label and a
//! query and gives a score and the byte ranges of the label that matched.

use crate::fuzzy::layout::{normalize_query_char, on_en_key, printable_ascii, query_char};
use crate::order::{arrange, arranged, Compared};
use crate::score::Score;
use crate::text::{
    ascii_lower, ascii_lower_char, ascii_lower_text, chars_of, count_char_bytes, is_boundary,
    is_ru_small, lemma_boundary_grows, lemma_encode_concat, lemma_encode_len, lemma_encode_push,
    lowercase_chars, lowercase_of, str_eq, string_of, to_ascii_lower,
};
use vstd::prelude::*;
use vstd::string::*;
use vstd::utf8::{encode_utf8, is_ascii_chars};

verus! {

/// Whether the query's first character must equal the candidate's first
/// character. File pickers rely on it (`c` must not match `pic.jpg`); menu
/// lists turn it off, because there the user types a word from the middle.
#[derive(Clone, Copy, Debug, PartialEq, Eq, Structural)]
pub enum Anchor {
    Off,
    PrefixOnFirst,
}

/// How to treat a query typed in the wrong keyboard layout.
#[derive(Clone, Copy, Debug, PartialEq, Eq, Structural)]
pub enum Layout {
    Off,
    /// Also read the query through the layout mapping.
    RuToEnFallback,
}

#[derive(Clone, Copy, Debug, PartialEq, Eq, Structural)]
pub struct RankOpts {
    pub anchor: Anchor,
    pub layout: Layout,
    /// Case-fold with full Unicode: localized labels are found by a query in
    /// small letters. Without it the scoring function alone decides.
    pub fold_case: bool,
}

impl RankOpts {
    /// Tray and context menus: no anchor, layout fallback and case folding on.
    pub fn for_menus() -> (r: RankOpts)
        ensures
            r == (RankOpts {
                anchor: Anchor::Off,
                layout: Layout::RuToEnFallback,
                fold_case: true,
            }),
    {
        RankOpts { anchor: Anchor::Off, layout: Layout::RuToEnFallback, fold_case: true }
    }

    /// File and buffer pickers: anchored, layout fallback on, no case folding.
    pub fn for_files() -> (r: RankOpts)
        ensures
            r == (RankOpts {
                anchor: Anchor::PrefixOnFirst,
                layout: Layout::RuToEnFallback,
                fold_case: false,
            }),
    {
        RankOpts { anchor: Anchor::PrefixOnFirst, layout: Layout::RuToEnFallback, fold_case: false }
    }
}

impl Default for RankOpts {
    fn default() -> (r: RankOpts)
        ensures
            r == (RankOpts {
                anchor: Anchor::PrefixOnFirst,
                layout: Layout::RuToEnFallback,
                fold_case: false,
            }),
    {
        RankOpts::for_files()
    }
}

/// A byte range of a label.
pub type Span = (usize, usize);

/// One ranked candidate. The spans are byte ranges into the label and are
/// empty for an empty query.
#[derive(Clone, Debug, PartialEq)]
pub struct Match {
    pub index: usize,
    pub score: Score,
    pub spans: Vec<Span>,
}

pub struct MatchView {
    pub index: usize,
    pub score: Score,
    pub spans: Seq<Span>,
}

impl View for Match {
    type V = MatchView;

    open spec fn view(&self) -> MatchView {
        MatchView { index: self.index, score: self.score, spans: self.spans@ }
    }
}

/// What some matches are.
pub open spec fn match_views(ms: Seq<Match>) -> Seq<MatchView> {
    ms.map_values(|m: Match| m@)
}

/// What some labels say.
pub open spec fn label_texts(labels: Seq<&str>) -> Seq<Seq<char>> {
    labels.map_values(|l: &str| l@)
}

/// What a candidate is, where it matched.
pub open spec fn candidate_view(c: Option<Match>) -> Option<MatchView> {
    match c {
        Some(m) => Some(m@),
        None => None,
    }
}

pub open spec fn candidate_views(cs: Seq<Option<Match>>) -> Seq<Option<MatchView>> {
    cs.map_values(|c: Option<Match>| candidate_view(c))
}

// ---------------------------------------------------------------------------
// Queries
// ---------------------------------------------------------------------------

/// A query through the layout mapping: each character by its key, what the
/// layout does not know left out.
pub open spec fn mapped_query(query: Seq<char>) -> Seq<char>
    decreases query.len(),
{
    if query.len() == 0 {
        query
    } else {
        let before = mapped_query(query.drop_last());
        match query_char(query.last()) {
            Some(c) => before.push(c),
            None => before,
        }
    }
}

/// Maps a query typed in the RU layout onto the EN characters of the table.
/// What comes out is printable ASCII, and such a query comes out unchanged.
pub fn normalize_query(query: &str) -> (r: String)
    ensures
        r@ == mapped_query(query@),
        forall|i: int| 0 <= i < r@.len() ==> printable_ascii(#[trigger] r@[i]),
        (forall|i: int| 0 <= i < query@.len() ==> printable_ascii(#[trigger] query@[i])) ==> r@
            == query@,
        (forall|i: int| 0 <= i < query@.len() ==> is_ru_small(#[trigger] query@[i])) ==> r@
            == query@.map_values(|c: char| on_en_key(c)),
{
    let mut r = String::new();
    for c in it: query.chars()
        invariant
            it.seq() == query@,
            r@ == mapped_query(query@.take(it.index() as int)),
            forall|i: int| 0 <= i < r@.len() ==> printable_ascii(#[trigger] r@[i]),
            (forall|i: int| 0 <= i < query@.len() ==> printable_ascii(#[trigger] query@[i])) ==> r@
                == query@.take(it.index() as int),
            (forall|i: int| 0 <= i < query@.len() ==> is_ru_small(#[trigger] query@[i])) ==> r@
                == query@.take(it.index() as int).map_values(|c: char| on_en_key(c)),
    {
        let ghost i = it.index() as int;
        let ghost so_far = query@.take(i);
        assert(query@.take(i + 1).drop_last() == so_far);
        assert(query@.take(i + 1) == so_far.push(c));
        assert(query@[i] == c);
        assert(so_far.push(c).map_values(|c: char| on_en_key(c)) =~= so_far.map_values(
            |c: char| on_en_key(c),
        ).push(on_en_key(c)));
        match normalize_query_char(c) {
            Some(n) => r.push(n),
            None => {},
        }
    }
    assert(query@.take(query@.len() as int) == query@);
    r
}

// ---------------------------------------------------------------------------
// Case folding
// ---------------------------------------------------------------------------

/// Pieces of text, one behind the other.
pub open spec fn concatenated(parts: Seq<Seq<char>>) -> Seq<char>
    decreases parts.len(),
{
    if parts.len() == 0 {
        Seq::empty()
    } else {
        concatenated(parts.drop_last()) + parts.last()
    }
}

/// Where `parts` stand for the characters of `s`: for every byte of the parts
/// the offset of its character in `s`.
pub open spec fn origins(s: Seq<char>, parts: Seq<Seq<char>>) -> Seq<usize>
    decreases parts.len(),
{
    if parts.len() == 0 {
        Seq::empty()
    } else {
        let n = parts.len() - 1;
        origins(s, parts.drop_last()) + Seq::new(
            encode_utf8(parts.last()).len(),
            |k: int| encode_utf8(s.take(n)).len() as usize,
        )
    }
}

/// The small letters of each character.
pub open spec fn small_letters(s: Seq<char>) -> Seq<Seq<char>> {
    s.map_values(|c: char| lowercase_of(c))
}

/// A text in small letters, each character by itself.
pub open spec fn folded(s: Seq<char>) -> Seq<char> {
    concatenated(small_letters(s))
}

/// Where each offset of the folded text lies in `s`, the end included.
pub open spec fn offset_map(s: Seq<char>) -> Seq<usize> {
    origins(s, small_letters(s)).push(encode_utf8(s).len() as usize)
}

/// What each of some parts spells.
pub open spec fn part_texts(parts: Seq<Vec<char>>) -> Seq<Seq<char>> {
    parts.map_values(|p: Vec<char>| p@)
}

/// Joins parts that stand for the characters of a string, and remembers where
/// every byte came from.
pub fn join_with_map(s: &str, parts: &Vec<Vec<char>>) -> (r: (String, Vec<usize>))
    requires
        parts@.len() == s@.len(),
    ensures
        r.0@ == concatenated(part_texts(parts@)),
        r.1@ == origins(s@, part_texts(parts@)).push(encode_utf8(s@).len() as usize),
        r.1@.len() == encode_utf8(r.0@).len() + 1,
{
    let bytes = s.as_bytes();
    let total: usize = bytes.len();
    let count: usize = parts.len();
    let ghost texts = part_texts(parts@);
    let mut text = String::new();
    let mut map: Vec<usize> = Vec::new();
    let mut offset: usize = 0;
    let mut i: usize = 0;
    for c in it: s.chars()
        invariant
            it.seq() == s@,
            i == it.index(),
            count == parts@.len() == s@.len(),
            texts == part_texts(parts@),
            total == encode_utf8(s@).len(),
            offset == encode_utf8(s@.take(i as int)).len(),
            text@ == concatenated(texts.take(i as int)),
            map@ == origins(s@, texts.take(i as int)),
            map@.len() == encode_utf8(text@).len(),
    {
        let ghost so_far = s@.take(i as int);
        let ghost text_before = text@;
        let ghost map_before = map@;
        assert(texts.take(i + 1).drop_last() == texts.take(i as int));
        assert(s@.take(i + 1) == so_far.push(c));
        proof {
            lemma_encode_push(so_far, c);
            lemma_boundary_grows(s@, i + 1, s@.len() as int);
            assert(s@.take(s@.len() as int) == s@);
        }
        let part = &parts[i];
        assert(texts.take(i + 1).last() == part@);
        let mut k: usize = 0;
        assert(part@.take(0) == Seq::<char>::empty());
        assert(text_before + Seq::<char>::empty() == text_before);
        while k < part.len()
            invariant
                k <= part@.len(),
                text@ == text_before + part@.take(k as int),
                map@ == map_before + Seq::new(
                    encode_utf8(part@.take(k as int)).len(),
                    |j: int| offset,
                ),
            decreases part@.len() - k,
        {
            let l = part[k];
            text.push(l);
            assert(part@.take(k + 1) == part@.take(k as int).push(l));
            proof {
                lemma_encode_push(part@.take(k as int), l);
            }
            assert(text@ =~= text_before + part@.take(k + 1));
            let n: usize = count_char_bytes(l);
            let ghost map_here = map@;
            let mut j: usize = 0;
            while j < n
                invariant
                    j <= n,
                    map@ == map_here + Seq::new(j as nat, |m: int| offset),
                decreases n - j,
            {
                map.push(offset);
                assert(map@ =~= map_here + Seq::new((j + 1) as nat, |m: int| offset));
                j += 1;
            }
            assert(map@ =~= map_before + Seq::new(
                encode_utf8(part@.take(k + 1)).len(),
                |m: int| offset,
            ));
            k += 1;
        }
        assert(part@.take(k as int) == part@);
        assert(map@ =~= origins(s@, texts.take(i + 1)));
        proof {
            lemma_encode_concat(text_before, part@);
        }
        offset += count_char_bytes(c);
        i += 1;
    }
    assert(s@.take(s@.len() as int) == s@);
    assert(texts.take(s@.len() as int) == texts);
    map.push(total);
    (text, map)
}

/// Case-folds `s` and remembers where every folded byte came from, so that
/// spans can be told in the byte offsets of the label that was drawn. ASCII
/// folds byte by byte.
pub fn fold_with_map(s: &str) -> (r: (String, Vec<usize>))
    ensures
        r.0@ == folded(s@),
        r.1@ == offset_map(s@),
        r.1@.len() == encode_utf8(r.0@).len() + 1,
        is_ascii_chars(s@) ==> r.0@ == ascii_lower_text(s@),
{
    let mut parts: Vec<Vec<char>> = Vec::new();
    for c in it: s.chars()
        invariant
            it.seq() == s@,
            part_texts(parts@) == small_letters(s@.take(it.index() as int)),
            is_ascii_chars(s@) ==> concatenated(part_texts(parts@)) == ascii_lower_text(
                s@.take(it.index() as int),
            ),
    {
        let ghost i = it.index() as int;
        let ghost so_far = s@.take(i);
        let ghost before = part_texts(parts@);
        assert(s@.take(i + 1) == so_far.push(c));
        let lower = lowercase_chars(c);
        parts.push(lower);
        assert(part_texts(parts@) =~= before.push(lower@));
        assert(part_texts(parts@).drop_last() =~= before);
        assert(part_texts(parts@) =~= small_letters(so_far.push(c)));
        proof {
            if is_ascii_chars(s@) {
                assert(s@[i] == c);
                vstd::utf8::char_u32_cast(c, c as u32);
                assert(ascii_lower_text(so_far.push(c)) =~= ascii_lower_text(so_far) + seq![
                    ascii_lower_char(c),
                ]);
            }
        }
    }
    assert(s@.take(s@.len() as int) == s@);
    assert(part_texts(parts@).len() == parts@.len());
    join_with_map(s, &parts)
}

/// What stands at an offset of a map, or a given value behind its end.
pub open spec fn looked_up(map: Seq<usize>, at: usize, or: usize) -> usize {
    if at < map.len() {
        map[at as int]
    } else {
        or
    }
}

/// Folded byte ranges as ranges of the unfolded text: a range that begins
/// where the one before it ends continues it.
pub open spec fn unmapped(spans: Seq<Span>, map: Seq<usize>) -> Seq<Span>
    decreases spans.len(),
{
    if spans.len() == 0 {
        spans
    } else {
        let before = unmapped(spans.drop_last(), map);
        let start = looked_up(map, spans.last().0, 0);
        let end = looked_up(map, spans.last().1, start);
        if before.len() > 0 && before.last().1 == start {
            before.drop_last().push((before.last().0, end))
        } else {
            before.push((start, end))
        }
    }
}

/// Maps folded byte ranges back onto the unfolded string.
pub fn unmap_spans(spans: &Vec<Span>, map: &[usize]) -> (out: Vec<Span>)
    ensures
        out@ == unmapped(spans@, map@),
{
    let mut out: Vec<Span> = Vec::new();
    let mut i: usize = 0;
    while i < spans.len()
        invariant
            i <= spans@.len(),
            out@ == unmapped(spans@.take(i as int), map@),
        decreases spans@.len() - i,
    {
        assert(spans@.take(i + 1).drop_last() == spans@.take(i as int));
        let span: Span = spans[i];
        let start: usize = if span.0 < map.len() {
            map[span.0]
        } else {
            0
        };
        let end: usize = if span.1 < map.len() {
            map[span.1]
        } else {
            start
        };
        let n: usize = out.len();
        if n > 0 && out[n - 1].1 == start {
            let from: usize = out[n - 1].0;
            out.pop();
            out.push((from, end));
        } else {
            out.push((start, end));
        }
        i += 1;
    }
    assert(spans@.take(i as int) == spans@);
    out
}

// ---------------------------------------------------------------------------
// Candidates
// ---------------------------------------------------------------------------

/// What a text is scored as.
pub open spec fn as_scored(s: Seq<char>, opts: RankOpts) -> Seq<char> {
    if opts.fold_case {
        folded(s)
    } else {
        s
    }
}

/// The first byte of a text, in small letters.
pub open spec fn head(s: Seq<char>) -> Option<u8> {
    if s.len() > 0 {
        Some(ascii_lower(encode_utf8(s)[0]))
    } else {
        None
    }
}

/// Whether the anchor lets a label be scored.
pub open spec fn anchored(label: Seq<char>, query: Seq<char>, opts: RankOpts) -> bool {
    opts.anchor == Anchor::Off || head(as_scored(query, opts)) is None || head(
        as_scored(label, opts),
    ) == head(as_scored(query, opts))
}

/// The match of a label with a given outcome of scoring: a score of zero is
/// no match.
pub open spec fn matched(
    label: Seq<char>,
    index: usize,
    opts: RankOpts,
    score: Score,
    spans: Seq<Span>,
) -> Option<MatchView> {
    if score.key() == 0 {
        None
    } else if opts.fold_case {
        Some(MatchView { index, score, spans: unmapped(spans, offset_map(label)) })
    } else {
        Some(MatchView { index, score, spans })
    }
}

/// Whether a scoring function can give a score and spans to a label and a
/// query.
pub open spec fn may_mark<S: Fn(&str, &str) -> (Score, Vec<Span>)>(
    scorer: S,
    label: Seq<char>,
    query: Seq<char>,
    score: Score,
    spans: Seq<Span>,
) -> bool {
    exists|l: &str, q: &str, v: Vec<Span>|
        l@ == label && q@ == query && v@ == spans && #[trigger] call_ensures(
            scorer,
            (l, q),
            (score, v),
        )
}

/// Whether a label can become a candidate for a query.
pub open spec fn may_become<S: Fn(&str, &str) -> (Score, Vec<Span>)>(
    scorer: S,
    label: Seq<char>,
    index: usize,
    query: Seq<char>,
    opts: RankOpts,
    c: Option<MatchView>,
) -> bool {
    if anchored(label, query, opts) {
        exists|score: Score, spans: Seq<Span>|
            #[trigger] may_mark(
                scorer,
                as_scored(label, opts),
                as_scored(query, opts),
                score,
                spans,
            ) && c == matched(label, index, opts, score, spans)
    } else {
        c is None
    }
}

/// `cs` holds for each label whether and how it matches one reading of a query.
pub open spec fn reading<S: Fn(&str, &str) -> (Score, Vec<Span>)>(
    scorer: S,
    labels: Seq<Seq<char>>,
    query: Seq<char>,
    opts: RankOpts,
    cs: Seq<Option<MatchView>>,
) -> bool {
    &&& cs.len() == labels.len()
    &&& forall|i: int|
        0 <= i < labels.len() ==> may_become(
            scorer,
            #[trigger] labels[i],
            i as usize,
            query,
            opts,
            cs[i],
        )
}

/// The candidates that matched, in their order.
pub open spec fn kept(cs: Seq<Option<MatchView>>) -> Seq<MatchView>
    decreases cs.len(),
{
    if cs.len() == 0 {
        Seq::empty()
    } else {
        match cs.last() {
            Some(m) => kept(cs.drop_last()).push(m),
            None => kept(cs.drop_last()),
        }
    }
}

/// The better of two readings of one label, the first where they score alike.
pub open spec fn better(a: Option<MatchView>, b: Option<MatchView>) -> Option<MatchView> {
    match (a, b) {
        (Some(x), Some(y)) => if x.score.key() >= y.score.key() {
            a
        } else {
            b
        },
        (None, _) => b,
        (_, None) => a,
    }
}

/// For each label the better of two readings.
pub open spec fn merged(
    a: Seq<Option<MatchView>>,
    b: Seq<Option<MatchView>>,
) -> Seq<Option<MatchView>> {
    Seq::new(a.len(), |i: int| better(a[i], b[i]))
}

/// When a match need not stand behind another one: the best score first.
pub open spec fn by_score(ms: Seq<MatchView>) -> spec_fn(int, int) -> bool {
    |a: int, b: int| ms[a].score.key() >= ms[b].score.key()
}

/// `out` are the matches of `ms`, the best first, equal scores in their order.
pub open spec fn best_first(ms: Seq<MatchView>, out: Seq<MatchView>) -> bool {
    exists|p: Seq<usize>|
        #[trigger] arranged(by_score(ms), 0, ms.len() as int, p) && out == p.map_values(
            |k: usize| ms[k as int],
        )
}

fn copy_spans(spans: &Vec<Span>) -> (r: Vec<Span>)
    ensures
        r@ == spans@,
{
    let mut r: Vec<Span> = Vec::new();
    let mut i: usize = 0;
    while i < spans.len()
        invariant
            i <= spans@.len(),
            r@ == spans@.take(i as int),
        decreases spans@.len() - i,
    {
        r.push(spans[i]);
        assert(spans@.take(i + 1) == spans@.take(i as int).push(spans@[i as int]));
        i += 1;
    }
    assert(spans@.take(i as int) == spans@);
    r
}

fn copy_match(m: &Match) -> (r: Match)
    ensures
        r@ == m@,
{
    Match { index: m.index, score: m.score, spans: copy_spans(&m.spans) }
}

fn copy_candidate(c: &Option<Match>) -> (r: Option<Match>)
    ensures
        candidate_view(r) == candidate_view(*c),
{
    match c {
        Some(m) => Some(copy_match(m)),
        None => None,
    }
}

fn scored_text(s: &str, opts: RankOpts) -> (r: String)
    ensures
        r@ == as_scored(s@, opts),
{
    if opts.fold_case {
        fold_with_map(s).0
    } else {
        string_of(chars_of(s).as_slice())
    }
}

/// The first byte of a text, in small letters.
pub fn head_byte(s: &str) -> (r: Option<u8>)
    ensures
        r == head(s@),
{
    let bytes = s.as_bytes();
    proof {
        lemma_encode_len(s@);
        if s@.len() == 0 {
            assert(encode_utf8(s@) == Seq::<u8>::empty());
        }
    }
    if bytes.len() > 0 {
        Some(to_ascii_lower(bytes[0]))
    } else {
        None
    }
}

/// The match of a label, given what scoring it came to.
pub fn candidate(
    label: &str,
    index: usize,
    opts: RankOpts,
    outcome: (Score, Vec<Span>),
) -> (r: Option<Match>)
    ensures
        candidate_view(r) == matched(label@, index, opts, outcome.0, outcome.1@),
{
    let (score, spans) = outcome;
    if score.is_zero() {
        None
    } else if opts.fold_case {
        let (_, map) = fold_with_map(label);
        Some(Match { index, score, spans: unmap_spans(&spans, map.as_slice()) })
    } else {
        Some(Match { index, score, spans })
    }
}

/// Scores every label that the anchor admits against one reading of a query.
pub fn read_labels<S: Fn(&str, &str) -> (Score, Vec<Span>)>(
    labels: &[&str],
    query: &str,
    opts: RankOpts,
    scorer: &S,
) -> (cs: Vec<Option<Match>>)
    requires
        forall|l: &str, q: &str| call_requires(*scorer, (l, q)),
    ensures
        reading(*scorer, label_texts(labels@), query@, opts, candidate_views(cs@)),
{
    let needle = scored_text(query, opts);
    let first = match opts.anchor {
        Anchor::Off => None,
        Anchor::PrefixOnFirst => head_byte(needle.as_str()),
    };
    let mut cs: Vec<Option<Match>> = Vec::new();
    let mut i: usize = 0;
    while i < labels.len()
        invariant
            i <= labels@.len(),
            needle@ == as_scored(query@, opts),
            first == (if opts.anchor == Anchor::Off {
                None
            } else {
                head(needle@)
            }),
            forall|l: &str, q: &str| call_requires(*scorer, (l, q)),
            cs@.len() == i,
            forall|j: int|
                0 <= j < i ==> may_become(
                    *scorer,
                    (#[trigger] labels@[j])@,
                    j as usize,
                    query@,
                    opts,
                    candidate_view(cs@[j]),
                ),
        decreases labels@.len() - i,
    {
        let label = labels[i];
        let hay = scored_text(label, opts);
        let admitted = match first {
            Some(f) => match head_byte(hay.as_str()) {
                Some(h) => h == f,
                None => false,
            },
            None => true,
        };
        let c = if admitted {
            let outcome = scorer(hay.as_str(), needle.as_str());
            assert(may_mark(*scorer, hay@, needle@, outcome.0, outcome.1@));
            candidate(label, i, opts, outcome)
        } else {
            None
        };
        assert(may_become(*scorer, label@, i, query@, opts, candidate_view(c)));
        cs.push(c);
        i += 1;
    }
    cs
}

/// For each label the better of two readings, the first where they score
/// alike.
pub fn merge_readings(a: &Vec<Option<Match>>, b: &Vec<Option<Match>>) -> (r: Vec<Option<Match>>)
    requires
        a@.len() == b@.len(),
    ensures
        candidate_views(r@) == merged(candidate_views(a@), candidate_views(b@)),
{
    let mut r: Vec<Option<Match>> = Vec::new();
    let mut i: usize = 0;
    while i < a.len()
        invariant
            i <= a@.len(),
            a@.len() == b@.len(),
            r@.len() == i,
            forall|j: int|
                0 <= j < i ==> candidate_view(#[trigger] r@[j]) == better(
                    candidate_view(a@[j]),
                    candidate_view(b@[j]),
                ),
        decreases a@.len() - i,
    {
        let first_is_kept = match (&a[i], &b[i]) {
            (Some(x), Some(y)) => x.score.at_least(y.score),
            (None, _) => false,
            (_, None) => true,
        };
        let c = if first_is_kept {
            copy_candidate(&a[i])
        } else {
            copy_candidate(&b[i])
        };
        r.push(c);
        i += 1;
    }
    assert(candidate_views(r@) =~= merged(candidate_views(a@), candidate_views(b@)));
    r
}

fn keep(cs: &Vec<Option<Match>>) -> (ms: Vec<Match>)
    ensures
        match_views(ms@) == kept(candidate_views(cs@)),
{
    let mut ms: Vec<Match> = Vec::new();
    let mut i: usize = 0;
    assert(match_views(ms@) =~= kept(candidate_views(cs@.take(0))));
    while i < cs.len()
        invariant
            i <= cs@.len(),
            match_views(ms@) == kept(candidate_views(cs@.take(i as int))),
        decreases cs@.len() - i,
    {
        let ghost before = ms@;
        assert(candidate_views(cs@.take(i + 1)).drop_last() == candidate_views(cs@.take(i as int)));
        match &cs[i] {
            Some(m) => {
                let c = copy_match(m);
                ms.push(c);
                assert(match_views(ms@) =~= match_views(before).push(c@));
            },
            None => {},
        }
        i += 1;
    }
    assert(cs@.take(i as int) == cs@);
    ms
}

struct ByScore<'a> {
    ms: &'a Vec<Match>,
}

impl<'a> Compared for ByScore<'a> {
    closed spec fn size(&self) -> nat {
        self.ms@.len()
    }

    closed spec fn le(&self) -> spec_fn(int, int) -> bool {
        by_score(match_views(self.ms@))
    }

    proof fn lemma_total(&self) {
    }

    fn not_after(&self, a: usize, b: usize) -> (r: bool) {
        self.ms[a].score.at_least(self.ms[b].score)
    }
}

/// The candidates that matched, best first, ties in input order.
pub fn order_candidates(cs: &Vec<Option<Match>>) -> (out: Vec<Match>)
    ensures
        best_first(kept(candidate_views(cs@)), match_views(out@)),
{
    let ms = keep(cs);
    let by = ByScore { ms: &ms };
    let p = arrange(&by, 0, ms.len());
    let mut out: Vec<Match> = Vec::new();
    let mut i: usize = 0;
    while i < p.len()
        invariant
            i <= p@.len(),
            forall|k: int| 0 <= k < p@.len() ==> (#[trigger] p@[k]) < ms@.len(),
            out@.len() == i,
            forall|k: int| 0 <= k < i ==> (#[trigger] out@[k])@ == ms@[p@[k] as int]@,
        decreases p@.len() - i,
    {
        let at: usize = p[i];
        out.push(copy_match(&ms[at]));
        i += 1;
    }
    let ghost views = match_views(ms@);
    assert(match_views(out@) =~= p@.map_values(|k: usize| views[k as int]));
    assert(arranged(by_score(views), 0, views.len() as int, p@));
    out
}

// ---------------------------------------------------------------------------
// Ranking
// ---------------------------------------------------------------------------

/// Whether a query is also read through the layout mapping.
pub open spec fn has_second_reading(query: Seq<char>, opts: RankOpts) -> bool {
    opts.layout == Layout::RuToEnFallback && !is_ascii_chars(query) && mapped_query(query).len() > 0
}

/// Whether a label can stand in the answer to an empty query as `m`: in its
/// place, with the score for that query and no spans.
pub open spec fn unfiltered<S: Fn(&str, &str) -> (Score, Vec<Span>)>(
    scorer: S,
    label: Seq<char>,
    index: int,
    m: MatchView,
) -> bool {
    &&& m.index == index
    &&& m.spans.len() == 0
    &&& exists|spans: Seq<Span>|
        #[trigger] may_mark(scorer, label, Seq::<char>::empty(), m.score, spans)
}

/// What ranking labels against a query comes to.
pub open spec fn ranking<S: Fn(&str, &str) -> (Score, Vec<Span>)>(
    scorer: S,
    labels: Seq<Seq<char>>,
    query: Seq<char>,
    opts: RankOpts,
    out: Seq<MatchView>,
) -> bool {
    if query.len() == 0 {
        &&& out.len() == labels.len()
        &&& forall|i: int|
            0 <= i < labels.len() ==> unfiltered(scorer, labels[i], i, #[trigger] out[i])
    } else if has_second_reading(query, opts) {
        exists|a: Seq<Option<MatchView>>, b: Seq<Option<MatchView>>|
            #[trigger] reading(scorer, labels, query, opts, a) && #[trigger] reading(
                scorer,
                labels,
                mapped_query(query),
                opts,
                b,
            ) && best_first(kept(merged(a, b)), out)
    } else {
        exists|a: Seq<Option<MatchView>>|
            #[trigger] reading(scorer, labels, query, opts, a) && best_first(kept(a), out)
    }
}

/// Ranks labels against a query, best first, ties in input order.
///
/// An empty query returns every label in input order with its score for the
/// empty query and no spans. Labels that do not match are dropped. A query in
/// the wrong layout is read both as it stands and through the mapping: it can
/// hit a label literally while the same keys in the other layout hit others,
/// and the better score per label is kept.
pub fn rank<S: Fn(&str, &str) -> (Score, Vec<Span>)>(
    labels: &[&str],
    query: &str,
    opts: RankOpts,
    scorer: &S,
) -> (out: Vec<Match>)
    requires
        forall|l: &str, q: &str| call_requires(*scorer, (l, q)),
    ensures
        ranking(*scorer, label_texts(labels@), query@, opts, match_views(out@)),
{
    proof {
        reveal_strlit("");
    }
    if str_eq(query, "") {
        assert(query@ =~= Seq::<char>::empty());
        let mut out: Vec<Match> = Vec::new();
        let mut i: usize = 0;
        while i < labels.len()
            invariant
                i <= labels@.len(),
                query@.len() == 0,
                forall|l: &str, q: &str| call_requires(*scorer, (l, q)),
                out@.len() == i,
                forall|j: int|
                    0 <= j < i ==> unfiltered(*scorer, labels@[j]@, j, (#[trigger] out@[j])@),
            decreases labels@.len() - i,
        {
            let outcome = scorer(labels[i], query);
            let m = Match { index: i, score: outcome.0, spans: Vec::new() };
            assert(query@ =~= Seq::<char>::empty());
            assert(may_mark(*scorer, labels@[i as int]@, query@, outcome.0, outcome.1@));
            assert(m@.score == outcome.0);
            assert(unfiltered(*scorer, labels@[i as int]@, i as int, m@));
            out.push(m);
            i += 1;
        }
        return out;
    }
    assert(query@.len() > 0) by {
        if query@.len() == 0 {
            assert(query@ =~= ""@);
        }
    }
    let literal = read_labels(labels, query, opts, scorer);
    if opts.layout == Layout::RuToEnFallback && !query.is_ascii() {
        let mapped = normalize_query(query);
        assert(is_ascii_chars(mapped@)) by {
            assert forall|i: int| 0 <= i < mapped@.len() implies '\0' <= #[trigger] mapped@[i]
                <= '\u{7f}' by {
                assert(printable_ascii(mapped@[i]));
                vstd::utf8::char_u32_cast(mapped@[i], mapped@[i] as u32);
            }
        }
        if !str_eq(mapped.as_str(), query) && mapped.is_ascii() && !str_eq(mapped.as_str(), "") {
            assert(mapped@.len() > 0) by {
                if mapped@.len() == 0 {
                    assert(mapped@ =~= ""@);
                }
            }
            let alt = read_labels(labels, mapped.as_str(), opts, scorer);
            let both = merge_readings(&literal, &alt);
            return order_candidates(&both);
        }
        assert(mapped@.len() == 0);
    }
    order_candidates(&literal)
}

// ---------------------------------------------------------------------------
// Laws
// ---------------------------------------------------------------------------

/// The candidates stand under their own index and do not score zero.
pub open spec fn in_place(cs: Seq<Option<MatchView>>) -> bool {
    forall|i: int|
        0 <= i < cs.len() ==> match #[trigger] cs[i] {
            Some(m) => m.index == i && m.score.key() != 0,
            None => true,
        }
}

/// The candidates of a reading stand under their own index.
pub proof fn lemma_reading_in_place<S: Fn(&str, &str) -> (Score, Vec<Span>)>(
    scorer: S,
    labels: Seq<Seq<char>>,
    query: Seq<char>,
    opts: RankOpts,
    cs: Seq<Option<MatchView>>,
)
    requires
        reading(scorer, labels, query, opts, cs),
        labels.len() <= usize::MAX,
    ensures
        in_place(cs),
{
    assert forall|i: int| 0 <= i < cs.len() implies match #[trigger] cs[i] {
        Some(m) => m.index == i && m.score.key() != 0,
        None => true,
    } by {
        assert(may_become(scorer, labels[i], i as usize, query, opts, cs[i]));
    }
}

proof fn lemma_kept(cs: Seq<Option<MatchView>>)
    requires
        in_place(cs),
    ensures
        kept(cs).len() <= cs.len(),
        forall|k: int|
            0 <= k < kept(cs).len() ==> {
                let m = #[trigger] kept(cs)[k];
                m.index < cs.len() && cs[m.index as int] == Some(m)
            },
        forall|j: int, k: int|
            0 <= j < k < kept(cs).len() ==> (#[trigger] kept(cs)[j]).index < (#[trigger] kept(
                cs,
            )[k]).index,
        forall|i: int| 0 <= i < cs.len() && #[trigger] cs[i] is Some ==> kept(cs).contains(cs[i]->0),
    decreases cs.len(),
{
    if cs.len() > 0 {
        let front = cs.drop_last();
        assert(in_place(front)) by {
            assert forall|i: int| 0 <= i < front.len() implies match #[trigger] front[i] {
                Some(m) => m.index == i && m.score.key() != 0,
                None => true,
            } by {
                assert(cs[i] == front[i]);
            }
        }
        lemma_kept(front);
        let last = cs.last();
        assert(cs[cs.len() - 1] == last);
        assert forall|i: int| 0 <= i < cs.len() && #[trigger] cs[i] is Some implies kept(
            cs,
        ).contains(cs[i]->0) by {
            if i < cs.len() - 1 {
                assert(front[i] == cs[i]);
                let k = choose|k: int| 0 <= k < kept(front).len() && kept(front)[k] == cs[i]->0;
                assert(kept(cs)[k] == cs[i]->0);
            } else {
                assert(kept(cs)[kept(cs).len() - 1] == cs[i]->0);
            }
        }
    }
}

proof fn lemma_best_first(cs: Seq<Option<MatchView>>, out: Seq<MatchView>)
    requires
        in_place(cs),
        cs.len() <= usize::MAX,
        best_first(kept(cs), out),
    ensures
        forall|k: int|
            0 <= k < out.len() ==> {
                let m = #[trigger] out[k];
                m.index < cs.len() && cs[m.index as int] == Some(m)
            },
        forall|j: int, k: int|
            0 <= j < k < out.len() ==> goes_before(#[trigger] out[j], #[trigger] out[k]),
        forall|i: int| 0 <= i < cs.len() && #[trigger] cs[i] is Some ==> out.contains(cs[i]->0),
{
    let ms = kept(cs);
    lemma_kept(cs);
    let p = choose|p: Seq<usize>|
        #[trigger] arranged(by_score(ms), 0, ms.len() as int, p) && out == p.map_values(
            |k: usize| ms[k as int],
        );
    assert forall|j: int, k: int| 0 <= j < k < out.len() implies goes_before(
        #[trigger] out[j],
        #[trigger] out[k],
    ) by {
        assert(out[j] == ms[p[j] as int]);
        assert(out[k] == ms[p[k] as int]);
        assert(crate::order::stands_before(by_score(ms), p[j] as int, p[k] as int));
    }
    assert forall|i: int| 0 <= i < cs.len() && #[trigger] cs[i] is Some implies out.contains(
        cs[i]->0,
    ) by {
        let at = choose|k: int| 0 <= k < ms.len() && ms[k] == cs[i]->0;
        assert(p.contains(at as usize));
        let k = choose|k: int| 0 <= k < p.len() && p[k] == at as usize;
        assert(out[k] == ms[at]);
    }
    assert forall|k: int| 0 <= k < out.len() implies {
        let m = #[trigger] out[k];
        m.index < cs.len() && cs[m.index as int] == Some(m)
    } by {
        assert(out[k] == ms[p[k] as int]);
    }
}

/// Whether a match goes before another one: by score, then by index.
pub open spec fn goes_before(a: MatchView, b: MatchView) -> bool {
    a.score.key() > b.score.key() || (a.score.key() == b.score.key() && a.index < b.index)
}

/// A query that is not empty ranks every label at most once, the best first
/// and ties in input order, and keeps no label that scores zero.
pub proof fn law_ranking_is_ordered<S: Fn(&str, &str) -> (Score, Vec<Span>)>(
    scorer: S,
    labels: Seq<Seq<char>>,
    query: Seq<char>,
    opts: RankOpts,
    out: Seq<MatchView>,
)
    requires
        ranking(scorer, labels, query, opts, out),
        query.len() > 0,
        labels.len() <= usize::MAX,
    ensures
        forall|j: int, k: int|
            0 <= j < k < out.len() ==> goes_before(#[trigger] out[j], #[trigger] out[k]),
        forall|j: int, k: int|
            0 <= j < k < out.len() ==> (#[trigger] out[j]).index != (#[trigger] out[k]).index,
        forall|k: int|
            0 <= k < out.len() ==> (#[trigger] out[k]).index < labels.len() && out[k].score.key()
                != 0,
{
    let cs = if has_second_reading(query, opts) {
        let (a, b) = choose|a: Seq<Option<MatchView>>, b: Seq<Option<MatchView>>|
            #[trigger] reading(scorer, labels, query, opts, a) && #[trigger] reading(
                scorer,
                labels,
                mapped_query(query),
                opts,
                b,
            ) && best_first(kept(merged(a, b)), out);
        lemma_reading_in_place(scorer, labels, query, opts, a);
        lemma_reading_in_place(scorer, labels, mapped_query(query), opts, b);
        assert forall|i: int| 0 <= i < a.len() implies match #[trigger] merged(a, b)[i] {
            Some(m) => m.index == i && m.score.key() != 0,
            None => true,
        } by {
            assert(merged(a, b)[i] == better(a[i], b[i]));
        }
        merged(a, b)
    } else {
        let a = choose|a: Seq<Option<MatchView>>|
            #[trigger] reading(scorer, labels, query, opts, a) && best_first(kept(a), out);
        lemma_reading_in_place(scorer, labels, query, opts, a);
        a
    };
    lemma_best_first(cs, out);
    assert forall|k: int| 0 <= k < out.len() implies (#[trigger] out[k]).index < labels.len()
        && out[k].score.key() != 0 by {
        assert(cs[out[k].index as int] == Some(out[k]));
    }
}

/// Every label that one of the readings of a query matches is ranked, with at
/// least the score of that reading: neither reading hides the other.
pub proof fn law_neither_reading_hides_the_other(
    a: Seq<Option<MatchView>>,
    b: Seq<Option<MatchView>>,
    out: Seq<MatchView>,
    i: int,
)
    requires
        a.len() == b.len() <= usize::MAX,
        in_place(a),
        in_place(b),
        best_first(kept(merged(a, b)), out),
        0 <= i < a.len(),
    ensures
        a[i] matches Some(m) ==> exists|k: int|
            0 <= k < out.len() && (#[trigger] out[k]).index == i && out[k].score.key()
                >= m.score.key(),
        b[i] matches Some(m) ==> exists|k: int|
            0 <= k < out.len() && (#[trigger] out[k]).index == i && out[k].score.key()
                >= m.score.key(),
{
    let cs = merged(a, b);
    assert forall|j: int| 0 <= j < cs.len() implies match #[trigger] cs[j] {
        Some(m) => m.index == j && m.score.key() != 0,
        None => true,
    } by {
        assert(cs[j] == better(a[j], b[j]));
    }
    lemma_best_first(cs, out);
    assert(cs[i] == better(a[i], b[i]));
    if cs[i] is Some {
        let k = choose|k: int| 0 <= k < out.len() && out[k] == cs[i]->0;
        assert(out[k].index == i);
    }
}

/// With the anchor on, what matches begins with the first byte of the query,
/// whatever the case of ASCII letters.
pub proof fn law_the_anchor_holds<S: Fn(&str, &str) -> (Score, Vec<Span>)>(
    scorer: S,
    labels: Seq<Seq<char>>,
    query: Seq<char>,
    opts: RankOpts,
    cs: Seq<Option<MatchView>>,
    i: int,
)
    requires
        reading(scorer, labels, query, opts, cs),
        opts.anchor == Anchor::PrefixOnFirst,
        as_scored(query, opts).len() > 0,
        0 <= i < cs.len(),
        cs[i] is Some,
    ensures
        head(as_scored(labels[i], opts)) == head(as_scored(query, opts)),
{
    assert(may_become(scorer, labels[i], i as usize, query, opts, cs[i]));
}

/// What an offset map holds: offsets of characters of `s`, ascending, none
/// behind the end.
proof fn lemma_origins(s: Seq<char>, parts: Seq<Seq<char>>)
    requires
        parts.len() <= s.len(),
        encode_utf8(s).len() <= usize::MAX,
    ensures
        forall|k: int|
            0 <= k < origins(s, parts).len() ==> is_boundary(s, #[trigger] origins(s, parts)[k] as int)
                && origins(s, parts)[k] <= encode_utf8(s.take(parts.len() as int)).len(),
        forall|j: int, k: int|
            0 <= j <= k < origins(s, parts).len() ==> (#[trigger] origins(s, parts)[j])
                <= #[trigger] origins(s, parts)[k],
    decreases parts.len(),
{
    if parts.len() > 0 {
        let n = parts.len() - 1;
        let front = parts.drop_last();
        lemma_origins(s, front);
        lemma_boundary_grows(s, n, n + 1);
        lemma_boundary_grows(s, n, s.len() as int);
        assert(s.take(s.len() as int) == s);
        let here = encode_utf8(s.take(n)).len() as usize;
        assert(is_boundary(s, here as int));
        let before = origins(s, front);
        let all = origins(s, parts);
        assert forall|k: int| 0 <= k < all.len() implies is_boundary(s, #[trigger] all[k] as int)
            && all[k] <= encode_utf8(s.take(parts.len() as int)).len() by {
            if k < before.len() {
                assert(all[k] == before[k]);
            } else {
                assert(all[k] == here);
            }
        }
        assert forall|j: int, k: int| 0 <= j <= k < all.len() implies (#[trigger] all[j])
            <= #[trigger] all[k] by {
            if k < before.len() {
                assert(all[j] == before[j]);
                assert(all[k] == before[k]);
            } else if j < before.len() {
                assert(all[j] == before[j]);
                assert(all[k] == here);
            }
        }
    }
}

proof fn lemma_offset_map(s: Seq<char>)
    requires
        encode_utf8(s).len() <= usize::MAX,
    ensures
        forall|k: int|
            0 <= k < offset_map(s).len() ==> is_boundary(s, #[trigger] offset_map(s)[k] as int),
        forall|j: int, k: int|
            0 <= j <= k < offset_map(s).len() ==> (#[trigger] offset_map(s)[j])
                <= #[trigger] offset_map(s)[k],
{
    let n = s.len() as int;
    assert(s.take(n) == s);
    lemma_origins(s, small_letters(s));
    assert(is_boundary(s, encode_utf8(s).len() as int)) by {
        assert(encode_utf8(s.take(n)).len() == encode_utf8(s).len());
    }
}

/// Spans of the folded text, mapped back, begin and end at characters of the
/// label, and none ends before it begins.
pub proof fn law_spans_lie_on_label_characters(label: Seq<char>, spans: Seq<Span>, i: int)
    requires
        encode_utf8(label).len() <= usize::MAX,
        forall|j: int| 0 <= j < spans.len() ==> (#[trigger] spans[j]).0 <= spans[j].1,
        0 <= i < unmapped(spans, offset_map(label)).len(),
    ensures
        is_boundary(label, unmapped(spans, offset_map(label))[i].0 as int),
        is_boundary(label, unmapped(spans, offset_map(label))[i].1 as int),
        unmapped(spans, offset_map(label))[i].0 <= unmapped(spans, offset_map(label))[i].1,
    decreases spans.len(),
{
    let map = offset_map(label);
    lemma_offset_map(label);
    assert(is_boundary(label, 0)) by {
        assert(label.take(0) == Seq::<char>::empty());
        assert(encode_utf8(label.take(0)).len() == 0);
    }
    let front = spans.drop_last();
    let before = unmapped(front, map);
    assert forall|j: int| 0 <= j < front.len() implies (#[trigger] front[j]).0 <= front[j].1 by {
        assert(front[j] == spans[j]);
    }
    let last = spans.last();
    assert(spans[spans.len() - 1].0 <= spans[spans.len() - 1].1);
    let start = looked_up(map, last.0, 0);
    let end = looked_up(map, last.1, start);
    assert(is_boundary(label, start as int));
    assert(is_boundary(label, end as int));
    assert(start <= end);
    if before.len() > 0 && before.last().1 == start {
        let j = if i < before.len() - 1 {
            i
        } else {
            before.len() - 1
        };
        law_spans_lie_on_label_characters(label, front, j);
    } else if i < before.len() {
        law_spans_lie_on_label_characters(label, front, i);
    }
}

/// No two neighbours among mapped spans touch: what touches is one span.
pub proof fn law_touching_spans_are_joined(spans: Seq<Span>, map: Seq<usize>, i: int)
    requires
        0 <= i < unmapped(spans, map).len() - 1,
    ensures
        unmapped(spans, map)[i].1 != unmapped(spans, map)[i + 1].0,
    decreases spans.len(),
{
    let front = spans.drop_last();
    let before = unmapped(front, map);
    if i + 1 < before.len() {
        law_touching_spans_are_joined(front, map, i);
    }
}

/// Whether a scoring function always gives the same score and spans to the
/// same label and query.
pub open spec fn consistent<S: Fn(&str, &str) -> (Score, Vec<Span>)>(scorer: S) -> bool {
    forall|label: Seq<char>, query: Seq<char>, a: Score, x: Seq<Span>, b: Score, y: Seq<Span>|
        #[trigger] may_mark(scorer, label, query, a, x) && #[trigger] may_mark(
            scorer,
            label,
            query,
            b,
            y,
        ) ==> a == b && x == y
}

proof fn lemma_one_reading<S: Fn(&str, &str) -> (Score, Vec<Span>)>(
    scorer: S,
    labels: Seq<Seq<char>>,
    query: Seq<char>,
    opts: RankOpts,
    a: Seq<Option<MatchView>>,
    b: Seq<Option<MatchView>>,
)
    requires
        consistent(scorer),
        reading(scorer, labels, query, opts, a),
        reading(scorer, labels, query, opts, b),
    ensures
        a == b,
{
    assert forall|i: int| 0 <= i < labels.len() implies a[i] == b[i] by {
        assert(may_become(scorer, labels[i], i as usize, query, opts, a[i]));
        assert(may_become(scorer, labels[i], i as usize, query, opts, b[i]));
    }
    assert(a =~= b);
}

proof fn lemma_one_order(ms: Seq<MatchView>, a: Seq<MatchView>, b: Seq<MatchView>)
    requires
        ms.len() <= usize::MAX,
        best_first(ms, a),
        best_first(ms, b),
    ensures
        a == b,
{
    let p = choose|p: Seq<usize>|
        #[trigger] arranged(by_score(ms), 0, ms.len() as int, p) && a == p.map_values(
            |k: usize| ms[k as int],
        );
    let q = choose|q: Seq<usize>|
        #[trigger] arranged(by_score(ms), 0, ms.len() as int, q) && b == q.map_values(
            |k: usize| ms[k as int],
        );
    crate::order::law_arrangement_is_unique(by_score(ms), 0, ms.len() as int, p, q);
}

proof fn lemma_kept_len(cs: Seq<Option<MatchView>>)
    ensures
        kept(cs).len() <= cs.len(),
    decreases cs.len(),
{
    if cs.len() > 0 {
        lemma_kept_len(cs.drop_last());
    }
}

/// With a scoring function that is a function, there is only one ranking.
pub proof fn law_ranking_is_determined<S: Fn(&str, &str) -> (Score, Vec<Span>)>(
    scorer: S,
    labels: Seq<Seq<char>>,
    query: Seq<char>,
    opts: RankOpts,
    a: Seq<MatchView>,
    b: Seq<MatchView>,
)
    requires
        consistent(scorer),
        labels.len() <= usize::MAX,
        ranking(scorer, labels, query, opts, a),
        ranking(scorer, labels, query, opts, b),
    ensures
        a == b,
{
    if query.len() == 0 {
        assert forall|i: int| 0 <= i < labels.len() implies a[i] == b[i] by {
            assert(unfiltered(scorer, labels[i], i, a[i]));
            assert(unfiltered(scorer, labels[i], i, b[i]));
            assert(a[i].spans =~= b[i].spans);
        }
        assert(a =~= b);
    } else if has_second_reading(query, opts) {
        let mapped = mapped_query(query);
        let (x, y) = choose|x: Seq<Option<MatchView>>, y: Seq<Option<MatchView>>|
            #[trigger] reading(scorer, labels, query, opts, x) && #[trigger] reading(
                scorer,
                labels,
                mapped,
                opts,
                y,
            ) && best_first(kept(merged(x, y)), a);
        let (u, v) = choose|x: Seq<Option<MatchView>>, y: Seq<Option<MatchView>>|
            #[trigger] reading(scorer, labels, query, opts, x) && #[trigger] reading(
                scorer,
                labels,
                mapped,
                opts,
                y,
            ) && best_first(kept(merged(x, y)), b);
        lemma_one_reading(scorer, labels, query, opts, x, u);
        lemma_one_reading(scorer, labels, mapped, opts, y, v);
        lemma_kept_len(merged(x, y));
        lemma_one_order(kept(merged(x, y)), a, b);
    } else {
        let x = choose|x: Seq<Option<MatchView>>|
            #[trigger] reading(scorer, labels, query, opts, x) && best_first(kept(x), a);
        let u = choose|x: Seq<Option<MatchView>>|
            #[trigger] reading(scorer, labels, query, opts, x) && best_first(kept(x), b);
        lemma_one_reading(scorer, labels, query, opts, x, u);
        lemma_kept_len(x);
        lemma_one_order(kept(x), a, b);
    }
}

/// The match of a label among some matches.
pub open spec fn match_of(ms: Seq<MatchView>, i: int) -> Option<MatchView> {
    if exists|k: int| 0 <= k < ms.len() && (#[trigger] ms[k]).index == i {
        Some(ms[choose|k: int| 0 <= k < ms.len() && (#[trigger] ms[k]).index == i])
    } else {
        None
    }
}

/// A match of the same label under another index.
pub open spec fn under_index(c: Option<MatchView>, index: usize) -> Option<MatchView> {
    match c {
        Some(m) => Some(MatchView { index, ..m }),
        None => None,
    }
}

/// Whether a label can end up as a candidate once every reading of a query has
/// been tried.
spec fn may_end_as<S: Fn(&str, &str) -> (Score, Vec<Span>)>(
    scorer: S,
    label: Seq<char>,
    index: usize,
    query: Seq<char>,
    opts: RankOpts,
    c: Option<MatchView>,
) -> bool {
    if has_second_reading(query, opts) {
        exists|x: Option<MatchView>, y: Option<MatchView>|
            #[trigger] may_become(scorer, label, index, query, opts, x) && #[trigger] may_become(
                scorer,
                label,
                index,
                mapped_query(query),
                opts,
                y,
            ) && c == better(x, y)
    } else {
        may_become(scorer, label, index, query, opts, c)
    }
}

/// The candidates behind a ranking.
proof fn lemma_candidates<S: Fn(&str, &str) -> (Score, Vec<Span>)>(
    scorer: S,
    labels: Seq<Seq<char>>,
    query: Seq<char>,
    opts: RankOpts,
    out: Seq<MatchView>,
) -> (cs: Seq<Option<MatchView>>)
    requires
        ranking(scorer, labels, query, opts, out),
        query.len() > 0,
        labels.len() <= usize::MAX,
    ensures
        cs.len() == labels.len(),
        in_place(cs),
        best_first(kept(cs), out),
        forall|i: int|
            0 <= i < labels.len() ==> may_end_as(
                scorer,
                labels[i],
                i as usize,
                query,
                opts,
                #[trigger] cs[i],
            ),
{
    if has_second_reading(query, opts) {
        let (a, b) = choose|a: Seq<Option<MatchView>>, b: Seq<Option<MatchView>>|
            #[trigger] reading(scorer, labels, query, opts, a) && #[trigger] reading(
                scorer,
                labels,
                mapped_query(query),
                opts,
                b,
            ) && best_first(kept(merged(a, b)), out);
        lemma_reading_in_place(scorer, labels, query, opts, a);
        lemma_reading_in_place(scorer, labels, mapped_query(query), opts, b);
        let cs = merged(a, b);
        assert forall|i: int| 0 <= i < labels.len() implies may_end_as(
            scorer,
            labels[i],
            i as usize,
            query,
            opts,
            #[trigger] cs[i],
        ) by {
            assert(may_become(scorer, labels[i], i as usize, query, opts, a[i]));
            assert(may_become(scorer, labels[i], i as usize, mapped_query(query), opts, b[i]));
        }
        assert forall|i: int| 0 <= i < cs.len() implies match #[trigger] cs[i] {
            Some(m) => m.index == i && m.score.key() != 0,
            None => true,
        } by {
            assert(cs[i] == better(a[i], b[i]));
        }
        cs
    } else {
        let a = choose|a: Seq<Option<MatchView>>|
            #[trigger] reading(scorer, labels, query, opts, a) && best_first(kept(a), out);
        lemma_reading_in_place(scorer, labels, query, opts, a);
        assert forall|i: int| 0 <= i < labels.len() implies may_end_as(
            scorer,
            labels[i],
            i as usize,
            query,
            opts,
            #[trigger] a[i],
        ) by {
            assert(may_become(scorer, labels[i], i as usize, query, opts, a[i]));
        }
        a
    }
}

proof fn lemma_match_of(cs: Seq<Option<MatchView>>, out: Seq<MatchView>, i: int)
    requires
        in_place(cs),
        cs.len() <= usize::MAX,
        best_first(kept(cs), out),
        0 <= i < cs.len(),
    ensures
        match_of(out, i) == cs[i],
{
    lemma_best_first(cs, out);
    if cs[i] is Some {
        assert(out.contains(cs[i]->0));
        let k = choose|k: int| 0 <= k < out.len() && out[k] == cs[i]->0;
        assert(out[k].index == i);
    }
    if exists|k: int| 0 <= k < out.len() && (#[trigger] out[k]).index == i {
        let k = choose|k: int| 0 <= k < out.len() && (#[trigger] out[k]).index == i;
        assert(cs[out[k].index as int] == Some(out[k]));
    }
}

proof fn lemma_become_alike<S: Fn(&str, &str) -> (Score, Vec<Span>)>(
    scorer: S,
    label: Seq<char>,
    i: usize,
    j: usize,
    query: Seq<char>,
    opts: RankOpts,
    x: Option<MatchView>,
    y: Option<MatchView>,
)
    requires
        consistent(scorer),
        may_become(scorer, label, i, query, opts, x),
        may_become(scorer, label, j, query, opts, y),
    ensures
        y == under_index(x, j),
{
}

proof fn lemma_end_alike<S: Fn(&str, &str) -> (Score, Vec<Span>)>(
    scorer: S,
    label: Seq<char>,
    i: usize,
    j: usize,
    query: Seq<char>,
    opts: RankOpts,
    c: Option<MatchView>,
    d: Option<MatchView>,
)
    requires
        consistent(scorer),
        may_end_as(scorer, label, i, query, opts, c),
        may_end_as(scorer, label, j, query, opts, d),
    ensures
        d == under_index(c, j),
{
    if has_second_reading(query, opts) {
        let mapped = mapped_query(query);
        let (x, y) = choose|x: Option<MatchView>, y: Option<MatchView>|
            #[trigger] may_become(scorer, label, i, query, opts, x) && #[trigger] may_become(
                scorer,
                label,
                i,
                mapped,
                opts,
                y,
            ) && c == better(x, y);
        let (u, v) = choose|x: Option<MatchView>, y: Option<MatchView>|
            #[trigger] may_become(scorer, label, j, query, opts, x) && #[trigger] may_become(
                scorer,
                label,
                j,
                mapped,
                opts,
                y,
            ) && d == better(x, y);
        lemma_become_alike(scorer, label, i, j, query, opts, x, u);
        lemma_become_alike(scorer, label, i, j, mapped, opts, y, v);
    } else {
        lemma_become_alike(scorer, label, i, j, query, opts, c, d);
    }
}

/// A ranking of one label holds its match, or nothing.
proof fn lemma_one_label(c: Option<MatchView>, out: Seq<MatchView>)
    requires
        in_place(seq![c]),
        best_first(kept(seq![c]), out),
    ensures
        out == (match c {
            Some(m) => seq![m],
            None => Seq::empty(),
        }),
{
    let cs = seq![c];
    lemma_best_first(cs, out);
    assert forall|k: int| 0 <= k < out.len() implies cs[0] == Some(#[trigger] out[k]) by {
        assert(cs[out[k].index as int] == Some(out[k]));
    }
    if out.len() > 1 {
        assert(goes_before(out[0], out[1]));
    }
    match c {
        Some(m) => {
            assert(cs[0] is Some);
            assert(out.contains(m));
            assert(out =~= seq![m]);
        },
        None => {
            if out.len() > 0 {
                assert(cs[0] == Some(out[0]));
            }
            assert(out =~= Seq::<MatchView>::empty());
        },
    }
}

/// Whether and how a label matches does not depend on the other labels: ranked
/// alone it gives the match that it has among them, or none.
pub proof fn law_labels_match_on_their_own<S: Fn(&str, &str) -> (Score, Vec<Span>)>(
    scorer: S,
    labels: Seq<Seq<char>>,
    query: Seq<char>,
    opts: RankOpts,
    all: Seq<MatchView>,
    i: int,
    one: Seq<MatchView>,
)
    requires
        consistent(scorer),
        labels.len() <= usize::MAX,
        0 <= i < labels.len(),
        ranking(scorer, labels, query, opts, all),
        ranking(scorer, seq![labels[i]], query, opts, one),
    ensures
        one == (match match_of(all, i) {
            Some(m) => seq![MatchView { index: 0, ..m }],
            None => Seq::empty(),
        }),
{
    let alone = seq![labels[i]];
    if query.len() == 0 {
        assert(unfiltered(scorer, labels[i], i, all[i]));
        assert(unfiltered(scorer, alone[0], 0, one[0]));
        assert(all[i].index == i);
        let k = choose|k: int| 0 <= k < all.len() && (#[trigger] all[k]).index == i;
        assert(unfiltered(scorer, labels[k], k, all[k]));
        assert(one[0].spans =~= all[i].spans);
        assert(one =~= seq![MatchView { index: 0, ..all[i] }]);
    } else {
        let cs = lemma_candidates(scorer, labels, query, opts, all);
        let ds = lemma_candidates(scorer, alone, query, opts, one);
        assert(may_end_as(scorer, labels[i], i as usize, query, opts, cs[i]));
        assert(may_end_as(scorer, alone[0], 0, query, opts, ds[0]));
        lemma_end_alike(scorer, labels[i], i as usize, 0, query, opts, cs[i], ds[0]);
        lemma_match_of(cs, all, i);
        assert(ds =~= seq![ds[0]]);
        lemma_one_label(ds[0], one);
    }
}

/// With the fallback, a label is matched exactly where the query as it stands or
/// the mapped query matches it without the fallback, with the better match of
/// the two and the literal one where they score alike.
pub proof fn law_the_fallback_joins_both_readings<S: Fn(&str, &str) -> (Score, Vec<Span>)>(
    scorer: S,
    labels: Seq<Seq<char>>,
    query: Seq<char>,
    opts: RankOpts,
    both: Seq<MatchView>,
    literal: Seq<MatchView>,
    mapped: Seq<MatchView>,
    i: int,
)
    requires
        consistent(scorer),
        labels.len() <= usize::MAX,
        0 <= i < labels.len(),
        opts.layout == Layout::RuToEnFallback,
        !is_ascii_chars(query),
        mapped_query(query).len() > 0,
        ranking(scorer, labels, query, opts, both),
        ranking(scorer, labels, query, (RankOpts { layout: Layout::Off, ..opts }), literal),
        ranking(
            scorer,
            labels,
            mapped_query(query),
            (RankOpts { layout: Layout::Off, ..opts }),
            mapped,
        ),
    ensures
        match_of(both, i) == better(match_of(literal, i), match_of(mapped, i)),
        match_of(both, i) is Some <==> match_of(literal, i) is Some || match_of(mapped, i) is Some,
{
    let off = RankOpts { layout: Layout::Off, ..opts };
    let other = mapped_query(query);
    let label = labels[i];
    let index = i as usize;
    if query.len() == 0 {
        assert(other.len() == 0);
    }
    let cs = lemma_candidates(scorer, labels, query, opts, both);
    let xs = lemma_candidates(scorer, labels, query, off, literal);
    let ys = lemma_candidates(scorer, labels, other, off, mapped);
    lemma_match_of(cs, both, i);
    lemma_match_of(xs, literal, i);
    lemma_match_of(ys, mapped, i);
    assert(may_end_as(scorer, label, index, query, opts, cs[i]));
    assert(may_end_as(scorer, label, index, query, off, xs[i]));
    assert(may_end_as(scorer, label, index, other, off, ys[i]));
    let (x, y) = choose|x: Option<MatchView>, y: Option<MatchView>|
        #[trigger] may_become(scorer, label, index, query, opts, x) && #[trigger] may_become(
            scorer,
            label,
            index,
            other,
            opts,
            y,
        ) && cs[i] == better(x, y);
    lemma_layout_is_not_scored(scorer, label, index, query, opts, x);
    lemma_layout_is_not_scored(scorer, label, index, other, opts, y);
    lemma_become_alike(scorer, label, index, index, query, off, xs[i], x);
    lemma_become_alike(scorer, label, index, index, other, off, ys[i], y);
    assert(in_place(xs) && in_place(ys));
    assert(xs[i] matches Some(m) ==> m.index == index);
    assert(ys[i] matches Some(m) ==> m.index == index);
}

/// A query in ASCII, a query that the layout maps to nothing, and any query
/// without the fallback are ranked as they stand.
pub proof fn law_other_queries_are_read_once<S: Fn(&str, &str) -> (Score, Vec<Span>)>(
    scorer: S,
    labels: Seq<Seq<char>>,
    query: Seq<char>,
    opts: RankOpts,
    out: Seq<MatchView>,
    literal: Seq<MatchView>,
)
    requires
        consistent(scorer),
        labels.len() <= usize::MAX,
        opts.layout == Layout::Off || is_ascii_chars(query) || mapped_query(query).len() == 0,
        ranking(scorer, labels, query, opts, out),
        ranking(scorer, labels, query, (RankOpts { layout: Layout::Off, ..opts }), literal),
    ensures
        out == literal,
{
    let off = RankOpts { layout: Layout::Off, ..opts };
    if query.len() > 0 {
        let a = choose|a: Seq<Option<MatchView>>|
            #[trigger] reading(scorer, labels, query, opts, a) && best_first(kept(a), out);
        assert forall|i: int| 0 <= i < labels.len() implies may_become(
            scorer,
            #[trigger] labels[i],
            i as usize,
            query,
            off,
            a[i],
        ) by {
            lemma_layout_is_not_scored(scorer, labels[i], i as usize, query, opts, a[i]);
        }
        assert(reading(scorer, labels, query, off, a));
        assert(ranking(scorer, labels, query, off, out));
    } else {
        assert(ranking(scorer, labels, query, off, out));
    }
    law_ranking_is_determined(scorer, labels, query, off, out, literal);
}

/// Which labels match, told in the scores themselves: without the fallback, a
/// label is matched exactly if the anchor is off or its first byte is that of
/// the query, whatever the case of ASCII letters, and it does not score zero.
/// The match carries the score; without case folding it carries the spans as
/// they are.
pub proof fn law_a_label_matches_by_its_score<S: Fn(&str, &str) -> (Score, Vec<Span>)>(
    scorer: S,
    labels: Seq<Seq<char>>,
    query: Seq<char>,
    opts: RankOpts,
    out: Seq<MatchView>,
    i: int,
    score: Score,
    spans: Seq<Span>,
)
    requires
        consistent(scorer),
        labels.len() <= usize::MAX,
        0 <= i < labels.len(),
        query.len() > 0,
        labels[i].len() > 0,
        opts.layout == Layout::Off,
        !opts.fold_case,
        ranking(scorer, labels, query, opts, out),
        may_mark(scorer, labels[i], query, score, spans),
    ensures
        match_of(out, i) == (if score.key() != 0 && (opts.anchor == Anchor::Off || same_letter(
            encode_utf8(labels[i])[0],
            encode_utf8(query)[0],
        )) {
            Some(MatchView { index: i as usize, score, spans })
        } else {
            None
        }),
{
    let cs = lemma_candidates(scorer, labels, query, opts, out);
    lemma_match_of(cs, out, i);
    assert(may_end_as(scorer, labels[i], i as usize, query, opts, cs[i]));
    assert(as_scored(labels[i], opts) == labels[i]);
    assert(as_scored(query, opts) == query);
}

/// The same with case folding: label and query are scored in small letters,
/// each character by itself, and the spans are mapped back.
pub proof fn law_a_folded_label_matches_by_its_score<S: Fn(&str, &str) -> (Score, Vec<Span>)>(
    scorer: S,
    labels: Seq<Seq<char>>,
    query: Seq<char>,
    opts: RankOpts,
    out: Seq<MatchView>,
    i: int,
    label: Seq<char>,
    needle: Seq<char>,
    score: Score,
    spans: Seq<Span>,
)
    requires
        consistent(scorer),
        labels.len() <= usize::MAX,
        0 <= i < labels.len(),
        query.len() > 0,
        label == concatenated(labels[i].map_values(|c: char| lowercase_of(c))),
        needle == concatenated(query.map_values(|c: char| lowercase_of(c))),
        label.len() > 0,
        needle.len() > 0,
        opts.layout == Layout::Off,
        opts.fold_case,
        ranking(scorer, labels, query, opts, out),
        may_mark(scorer, label, needle, score, spans),
    ensures
        match_of(out, i) == (if score.key() != 0 && (opts.anchor == Anchor::Off || same_letter(
            encode_utf8(label)[0],
            encode_utf8(needle)[0],
        )) {
            Some(
                MatchView {
                    index: i as usize,
                    score,
                    spans: unmapped(spans, offset_map(labels[i])),
                },
            )
        } else {
            None
        }),
{
    let cs = lemma_candidates(scorer, labels, query, opts, out);
    lemma_match_of(cs, out, i);
    assert(may_end_as(scorer, labels[i], i as usize, query, opts, cs[i]));
    assert(labels[i].map_values(|c: char| lowercase_of(c)) =~= small_letters(labels[i]));
    assert(query.map_values(|c: char| lowercase_of(c)) =~= small_letters(query));
    assert(as_scored(labels[i], opts) == label);
    assert(as_scored(query, opts) == needle);
}

/// Whether two bytes are the same, or the same ASCII letter in two cases.
pub open spec fn same_letter(a: u8, b: u8) -> bool {
    a == b || (0x41 <= a <= 0x5a && b == a + 0x20) || (0x41 <= b <= 0x5a && a == b + 0x20)
}

/// The parts stand one behind the other.
pub proof fn law_parts_are_concatenated(a: Seq<Seq<char>>, part: Seq<char>)
    ensures
        concatenated(Seq::<Seq<char>>::empty()) == Seq::<char>::empty(),
        concatenated(a.push(part)) == concatenated(a) + part,
{
    assert(a.push(part).drop_last() =~= a);
}

/// Every byte of the folded text is mapped to the offset of the character that
/// it was folded from, and the end to the end.
pub proof fn law_offsets_lead_to_the_folded_character(s: Seq<char>, j: int, k: int)
    requires
        encode_utf8(s).len() <= usize::MAX,
        0 <= j < s.len(),
        encode_utf8(folded(s.take(j))).len() <= k < encode_utf8(folded(s.take(j + 1))).len(),
    ensures
        0 <= k < offset_map(s).len() - 1,
        offset_map(s)[k] == encode_utf8(s.take(j)).len(),
        offset_map(s).last() == encode_utf8(s).len(),
{
    lemma_origins_len(s, j + 1);
    lemma_origins_len(s, j);
    lemma_origins_len(s, s.len() as int);
    lemma_origins_front(s, j + 1);
    lemma_boundary_grows(s, j, s.len() as int);
    assert(s.take(s.len() as int) == s);
    let parts = small_letters(s);
    assert(parts.take(j + 1).drop_last() =~= parts.take(j));
    assert(small_letters(s.take(j + 1)) =~= parts.take(j + 1));
    assert(small_letters(s.take(j)) =~= parts.take(j));
    assert(parts.take(j + 1).last() == lowercase_of(s[j]));
    assert(parts.take(s.len() as int) =~= parts);
    assert(folded(s.take(j + 1)) == folded(s.take(j)) + lowercase_of(s[j]));
    lemma_encode_concat(folded(s.take(j)), lowercase_of(s[j]));
    assert(origins(s, parts.take(j + 1))[k] == encode_utf8(s.take(j)).len());
    assert(origins(s, parts)[k] == origins(s, parts.take(j + 1))[k]);
}

proof fn lemma_origins_len(s: Seq<char>, n: int)
    requires
        0 <= n <= s.len(),
    ensures
        origins(s, small_letters(s).take(n)).len() == encode_utf8(folded(s.take(n))).len(),
    decreases n,
{
    let parts = small_letters(s).take(n);
    assert(small_letters(s.take(n)) =~= parts);
    if n > 0 {
        lemma_origins_len(s, n - 1);
        assert(parts.drop_last() =~= small_letters(s).take(n - 1));
        assert(small_letters(s.take(n - 1)) =~= parts.drop_last());
        lemma_encode_concat(folded(s.take(n - 1)), parts.last());
    } else {
        assert(encode_utf8(folded(s.take(0))).len() == 0);
    }
}

/// Later parts leave the origins of earlier ones.
proof fn lemma_origins_front(s: Seq<char>, n: int)
    requires
        0 <= n <= s.len(),
    ensures
        ({
            let front = origins(s, small_letters(s).take(n));
            let all = origins(s, small_letters(s));
            &&& front.len() <= all.len()
            &&& forall|k: int| 0 <= k < front.len() ==> #[trigger] all[k] == front[k]
        }),
    decreases s.len() - n,
{
    let parts = small_letters(s);
    if n < s.len() {
        lemma_origins_front(s, n + 1);
        assert(parts.take(n + 1).drop_last() =~= parts.take(n));
        let front = origins(s, parts.take(n));
        let next = origins(s, parts.take(n + 1));
        assert forall|k: int| 0 <= k < front.len() implies #[trigger] origins(s, parts)[k]
            == front[k] by {
            assert(next[k] == front[k]);
            assert(origins(s, parts)[k] == next[k]);
        }
    } else {
        assert(parts.take(n) =~= parts);
    }
}

/// A span is mapped back by its two ends, and joined to the one before it only
/// where that one ends at its start.
pub proof fn law_spans_are_mapped_by_their_ends(spans: Seq<Span>, map: Seq<usize>, span: Span)
    requires
        span.0 < map.len(),
        span.1 < map.len(),
    ensures
        ({
            let before = unmapped(spans, map);
            let here = (map[span.0 as int], map[span.1 as int]);
            unmapped(spans.push(span), map) == if before.len() > 0 && before.last().1 == here.0 {
                before.drop_last().push((before.last().0, here.1))
            } else {
                before.push(here)
            }
        }),
        unmapped(Seq::<Span>::empty(), map) == Seq::<Span>::empty(),
{
    assert(spans.push(span).drop_last() =~= spans);
}

/// A query is mapped character by character: printable ASCII stays, and what
/// the layout does not know is left out.
pub proof fn law_queries_are_mapped_by_character(a: Seq<char>, c: char)
    ensures
        mapped_query(Seq::<char>::empty()) == Seq::<char>::empty(),
        mapped_query(a.push(c)) == (match query_char(c) {
            Some(x) => mapped_query(a).push(x),
            None => mapped_query(a),
        }),
{
    assert(a.push(c).drop_last() =~= a);
}

/// Scoring one reading does not depend on the layout policy.
proof fn lemma_layout_is_not_scored<S: Fn(&str, &str) -> (Score, Vec<Span>)>(
    scorer: S,
    label: Seq<char>,
    index: usize,
    query: Seq<char>,
    opts: RankOpts,
    c: Option<MatchView>,
)
    requires
        may_become(scorer, label, index, query, opts, c),
    ensures
        may_become(scorer, label, index, query, (RankOpts { layout: Layout::Off, ..opts }), c),
{
    let off = RankOpts { layout: Layout::Off, ..opts };
    assert(as_scored(label, off) == as_scored(label, opts));
    assert(as_scored(query, off) == as_scored(query, opts));
    if anchored(label, query, opts) {
        let (score, spans) = choose|score: Score, spans: Seq<Span>|
            #[trigger] may_mark(
                scorer,
                as_scored(label, opts),
                as_scored(query, opts),
                score,
                spans,
            ) && c == matched(label, index, opts, score, spans);
        assert(c == matched(label, index, off, score, spans));
    }
}

/// An empty query gives every label in its place, with the score that the
/// scoring function gives it for the empty query, and without spans, whatever the
/// policy.
pub proof fn law_an_empty_query_keeps_every_label<S: Fn(&str, &str) -> (Score, Vec<Span>)>(
    scorer: S,
    labels: Seq<Seq<char>>,
    query: Seq<char>,
    opts: RankOpts,
    out: Seq<MatchView>,
    i: int,
    score: Score,
    spans: Seq<Span>,
)
    requires
        consistent(scorer),
        query.len() == 0,
        ranking(scorer, labels, query, opts, out),
        0 <= i < labels.len(),
        may_mark(scorer, labels[i], Seq::empty(), score, spans),
    ensures
        out.len() == labels.len(),
        out[i].index == i,
        out[i].score == score,
        out[i].spans.len() == 0,
{
    assert(unfiltered(scorer, labels[i], i, out[i]));
}

} // verus!
