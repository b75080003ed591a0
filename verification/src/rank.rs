//! Filtering and ranking of listed entries.
//!
//! The first letter of a query must begin the entry's basename, so `c` cannot
//! match `pic.jpg`; the whole query is scored on the label; shallower entries
//! come first, then better scores. The query `.` reveals dot files: it admits
//! any basename.

use crate::bytes::{bytes_le, lemma_lex_total, lemma_lex_transitive, lex_le};
use crate::frecency::Frecency;
use crate::listing::Entry;
use crate::order::{arrange, arranged, stands_before, Compared};
use crate::parallel::{chunk_count, chunk_end, is_chunk, made_from_chunk, map_chunks};
use crate::score::Score;
use crate::text::{ascii_lower, lemma_encode_len, str_eq, to_ascii_lower};
use vstd::prelude::*;
use vstd::string::*;
use vstd::utf8::encode_utf8;

verus! {

/// Whether a scoring function can give a score to a label and a query.
pub open spec fn may_score<S: Fn(&str, &str) -> Score>(
    scorer: S,
    label: Seq<char>,
    query: Seq<char>,
    score: Score,
) -> bool {
    exists|l: &str, q: &str|
        l@ == label && q@ == query && call_ensures(scorer, (l, q), score)
}

/// Whether the first letter of the query admits an entry.
pub open spec fn admitted(e: Entry, query: Seq<char>) -> bool {
    query == "."@ || e.name0 == ascii_lower(encode_utf8(query)[0])
}

/// A candidate that matched: its index in the listing and its score.
pub type Hit = (usize, Score);

/// `hits` are the matches of a query among entries that stand at `base` and
/// after it in a listing: the admitted entries that do not score zero, in
/// their order.
pub open spec fn found<S: Fn(&str, &str) -> Score>(
    scorer: S,
    entries: Seq<Entry>,
    base: int,
    query: Seq<char>,
    hits: Seq<Hit>,
) -> bool {
    &&& forall|k: int|
        0 <= k < hits.len() ==> {
            let i = (#[trigger] hits[k]).0 - base;
            &&& 0 <= i < entries.len()
            &&& admitted(entries[i], query)
            &&& may_score(scorer, entries[i].label@, query, hits[k].1)
            &&& hits[k].1.key() != 0
        }
    &&& forall|j: int, k: int|
        0 <= j < k < hits.len() ==> (#[trigger] hits[j]).0 < (#[trigger] hits[k]).0
    &&& forall|i: int|
        0 <= i < entries.len() && admitted(#[trigger] entries[i], query) ==> {
            ||| exists|k: int| 0 <= k < hits.len() && (#[trigger] hits[k]).0 == base + i
            ||| exists|s: Score|
                s.key() == 0 && may_score(scorer, entries[i].label@, query, s)
        }
}

/// The number of characters of the longest label among some hits.
pub open spec fn widest(entries: Seq<Entry>, base: int, hits: Seq<Hit>) -> nat
    decreases hits.len(),
{
    if hits.len() == 0 {
        0
    } else {
        let before = widest(entries, base, hits.drop_last());
        let here = entries[hits.last().0 - base].label@.len();
        if here > before {
            here
        } else {
            before
        }
    }
}

/// The number of characters of the longest label of a listing.
pub open spec fn widest_label(entries: Seq<Entry>) -> nat
    decreases entries.len(),
{
    if entries.len() == 0 {
        0
    } else {
        let before = widest_label(entries.drop_last());
        let here = entries.last().label@.len();
        if here > before {
            here
        } else {
            before
        }
    }
}

/// When a hit need not stand behind another one: by depth, then by score, the
/// best first, then by basename.
pub open spec fn rank_le(entries: Seq<Entry>, hits: Seq<Hit>, a: int, b: int) -> bool {
    let ea = entries[hits[a].0 as int];
    let eb = entries[hits[b].0 as int];
    if ea.depth != eb.depth {
        ea.depth < eb.depth
    } else if hits[a].1.key() != hits[b].1.key() {
        hits[a].1.key() > hits[b].1.key()
    } else {
        lex_le(encode_utf8(ea.basename@), encode_utf8(eb.basename@))
    }
}

pub open spec fn by_rank(entries: Seq<Entry>, hits: Seq<Hit>) -> spec_fn(int, int) -> bool {
    |a: int, b: int| rank_le(entries, hits, a, b)
}

/// `ranked` are the indices of `hits` in the order of `rank_le`; hits that it
/// does not tell apart keep their order.
pub open spec fn ranked_hits(entries: Seq<Entry>, hits: Seq<Hit>, ranked: Seq<usize>) -> bool {
    exists|p: Seq<usize>|
        #[trigger] arranged(by_rank(entries, hits), 0, hits.len() as int, p)
            && ranked == p.map_values(|k: usize| hits[k as int].0)
}

/// The indices of a listing in their order.
pub open spec fn all_indices(n: nat) -> Seq<usize> {
    Seq::new(n, |i: int| i as usize)
}

struct ByRank<'a> {
    entries: &'a [Entry],
    hits: &'a Vec<Hit>,
}

impl<'a> ByRank<'a> {
    spec fn in_range(&self) -> bool {
        forall|k: int| 0 <= k < self.hits@.len() ==> (#[trigger] self.hits@[k]).0 < self.entries@.len()
    }
}

impl<'a> Compared for ByRank<'a> {
    closed spec fn size(&self) -> nat {
        if self.in_range() {
            self.hits@.len()
        } else {
            0
        }
    }

    closed spec fn le(&self) -> spec_fn(int, int) -> bool {
        by_rank(self.entries@, self.hits@)
    }

    proof fn lemma_total(&self) {
        let le = self.le();
        let n = self.size() as int;
        assert forall|a: int, b: int| 0 <= a < n && 0 <= b < n implies #[trigger] le(a, b) || le(
            b,
            a,
        ) by {
            lemma_lex_total(
                encode_utf8(self.entries@[self.hits@[a].0 as int].basename@),
                encode_utf8(self.entries@[self.hits@[b].0 as int].basename@),
            );
        }
        assert forall|a: int, b: int, c: int|
            0 <= a < n && 0 <= b < n && 0 <= c < n && #[trigger] le(a, b) && #[trigger] le(
                b,
                c,
            ) implies le(a, c) by {
            let x = encode_utf8(self.entries@[self.hits@[a].0 as int].basename@);
            let y = encode_utf8(self.entries@[self.hits@[b].0 as int].basename@);
            let z = encode_utf8(self.entries@[self.hits@[c].0 as int].basename@);
            if lex_le(x, y) && lex_le(y, z) {
                lemma_lex_transitive(x, y, z);
            }
        }
    }

    fn not_after(&self, a: usize, b: usize) -> (r: bool) {
        let ha: Hit = self.hits[a];
        let hb: Hit = self.hits[b];
        let ea = &self.entries[ha.0];
        let eb = &self.entries[hb.0];
        if ea.depth != eb.depth {
            ea.depth < eb.depth
        } else if !(hb.1.at_least(ha.1)) {
            true
        } else if !(ha.1.at_least(hb.1)) {
            false
        } else {
            bytes_le(ea.basename.as_str().as_bytes(), eb.basename.as_str().as_bytes())
        }
    }
}

/// Puts hits into their order.
pub fn order_hits(entries: &[Entry], hits: &Vec<Hit>) -> (ranked: Vec<usize>)
    requires
        forall|k: int| 0 <= k < hits@.len() ==> (#[trigger] hits@[k]).0 < entries@.len(),
    ensures
        ranked_hits(entries@, hits@, ranked@),
{
    let by = ByRank { entries, hits };
    let p = arrange(&by, 0, hits.len());
    let mut ranked: Vec<usize> = Vec::new();
    let mut i: usize = 0;
    while i < p.len()
        invariant
            i <= p@.len(),
            forall|k: int| 0 <= k < p@.len() ==> (#[trigger] p@[k]) < hits@.len(),
            ranked@ == p@.take(i as int).map_values(|k: usize| hits@[k as int].0),
        decreases p@.len() - i,
    {
        let at: usize = p[i];
        let h: Hit = hits[at];
        ranked.push(h.0);
        assert(p@.take(i + 1) == p@.take(i as int).push(at));
        assert(ranked@ =~= p@.take(i + 1).map_values(|k: usize| hits@[k as int].0));
        i += 1;
    }
    assert(p@.take(i as int) == p@);
    ranked
}

/// How many characters a string has.
pub fn char_count(s: &str) -> (n: usize)
    ensures
        n == s@.len(),
{
    let bytes = s.as_bytes();
    proof {
        lemma_encode_len(s@);
    }
    assert(s@.len() <= bytes.len());
    let mut n: usize = 0;
    for c in it: s.chars()
        invariant
            n == it.index(),
            it.seq() == s@,
            s@.len() <= usize::MAX,
    {
        n += 1;
    }
    n
}

/// The matches among some entries that stand at `base` and after it in a
/// listing, with the width of the longest matched label.
pub fn rank_chunk<S: Fn(&str, &str) -> Score>(
    entries: &[Entry],
    base: usize,
    query: &str,
    scorer: &S,
) -> (r: (Vec<Hit>, usize))
    requires
        forall|l: &str, q: &str| call_requires(*scorer, (l, q)),
        query@.len() > 0,
        base + entries@.len() <= usize::MAX,
    ensures
        found(*scorer, entries@, base as int, query@, r.0@),
        r.1 == widest(entries@, base as int, r.0@),
{
    let bytes = query.as_bytes();
    proof {
        lemma_encode_len(query@);
    }
    let any_name = str_eq(query, ".");
    let first = to_ascii_lower(bytes[0]);
    let mut hits: Vec<Hit> = Vec::new();
    let mut width: usize = 0;
    let mut i: usize = 0;
    while i < entries.len()
        invariant
            i <= entries@.len(),
            base + entries@.len() <= usize::MAX,
            forall|l: &str, q: &str| call_requires(*scorer, (l, q)),
            any_name == (query@ == "."@),
            first == ascii_lower(encode_utf8(query@)[0]),
            found(*scorer, entries@.take(i as int), base as int, query@, hits@),
            width == widest(entries@, base as int, hits@),
        decreases entries@.len() - i,
    {
        let e = &entries[i];
        let ghost seen = entries@.take(i as int);
        let ghost next = entries@.take(i + 1);
        let ghost before = hits@;
        assert(next == seen.push(*e));
        assert(forall|j: int| 0 <= j < i ==> next[j] == #[trigger] seen[j]);
        if any_name || e.name0 == first {
            let score = scorer(e.label.as_str(), query);
            assert(may_score(*scorer, e.label@, query@, score));
            if !score.is_zero() {
                hits.push((base + i, score));
                let w = char_count(e.label.as_str());
                if w > width {
                    width = w;
                }
                assert(hits@.drop_last() == before);
                proof {
                    assert forall|j: int|
                        0 <= j < next.len() && admitted(#[trigger] next[j], query@) implies {
                        ||| exists|k: int| 0 <= k < hits@.len() && (#[trigger] hits@[k]).0 == base + j
                        ||| exists|s: Score|
                            s.key() == 0 && may_score(*scorer, next[j].label@, query@, s)
                    } by {
                        if j < i {
                            assert(admitted(seen[j], query@));
                            if exists|k: int| 0 <= k < before.len() && (#[trigger] before[k]).0 == base + j {
                                let k = choose|k: int|
                                    0 <= k < before.len() && (#[trigger] before[k]).0 == base + j;
                                assert(hits@[k].0 == base + j);
                            }
                        } else {
                            assert(hits@[before.len() as int].0 == base + j);
                        }
                    }
                }
            }
        }
        assert(found(*scorer, next, base as int, query@, hits@));
        i += 1;
    }
    assert(entries@.take(i as int) == entries@);
    (hits, width)
}

proof fn lemma_found_concat<S: Fn(&str, &str) -> Score>(
    scorer: S,
    a: Seq<Entry>,
    b: Seq<Entry>,
    base: int,
    query: Seq<char>,
    ha: Seq<Hit>,
    hb: Seq<Hit>,
)
    requires
        found(scorer, a, base, query, ha),
        found(scorer, b, base + a.len(), query, hb),
    ensures
        found(scorer, a + b, base, query, ha + hb),
{
    let all = a + b;
    let hits = ha + hb;
    assert forall|k: int| 0 <= k < hits.len() implies {
        let i = (#[trigger] hits[k]).0 - base;
        &&& 0 <= i < all.len()
        &&& admitted(all[i], query)
        &&& may_score(scorer, all[i].label@, query, hits[k].1)
        &&& hits[k].1.key() != 0
    } by {
        if k < ha.len() {
            assert(hits[k] == ha[k]);
        } else {
            assert(hits[k] == hb[k - ha.len()]);
        }
    }
    assert forall|j: int, k: int| 0 <= j < k < hits.len() implies (#[trigger] hits[j]).0 < (
    #[trigger] hits[k]).0 by {
        if k < ha.len() {
            assert(ha[j].0 < ha[k].0);
        } else if j < ha.len() {
            assert(ha[j].0 - base < a.len());
            assert(hb[k - ha.len()].0 - (base + a.len()) >= 0);
        } else {
            assert(hb[j - ha.len()].0 < hb[k - ha.len()].0);
        }
    }
    assert forall|i: int| 0 <= i < all.len() && admitted(#[trigger] all[i], query) implies {
        ||| exists|k: int| 0 <= k < hits.len() && (#[trigger] hits[k]).0 == base + i
        ||| exists|s: Score| s.key() == 0 && may_score(scorer, all[i].label@, query, s)
    } by {
        if i < a.len() {
            assert(admitted(a[i], query));
            if exists|k: int| 0 <= k < ha.len() && (#[trigger] ha[k]).0 == base + i {
                let k = choose|k: int| 0 <= k < ha.len() && (#[trigger] ha[k]).0 == base + i;
                assert(hits[k].0 == base + i);
            }
        } else {
            let b_i = i - a.len();
            assert(admitted(b[b_i], query));
            if exists|k: int|
                0 <= k < hb.len() && (#[trigger] hb[k]).0 == base + a.len() + b_i {
                let k = choose|k: int|
                    0 <= k < hb.len() && (#[trigger] hb[k]).0 == base + a.len() + b_i;
                assert(hits[ha.len() + k].0 == base + i);
            }
        }
    }
}

/// The longest label among the hits of a chunk is the same in the whole
/// listing.
proof fn lemma_widest_of_chunk(
    entries: Seq<Entry>,
    chunk: Seq<Entry>,
    base: int,
    hits: Seq<Hit>,
)
    requires
        0 <= base,
        base + chunk.len() <= entries.len(),
        chunk == entries.subrange(base, base + chunk.len()),
        forall|k: int| 0 <= k < hits.len() ==> 0 <= (#[trigger] hits[k]).0 - base < chunk.len(),
    ensures
        widest(chunk, base, hits) == widest(entries, 0, hits),
    decreases hits.len(),
{
    if hits.len() > 0 {
        let rest = hits.drop_last();
        assert forall|k: int| 0 <= k < rest.len() implies 0 <= (#[trigger] rest[k]).0 - base
            < chunk.len() by {
            assert(rest[k] == hits[k]);
        }
        lemma_widest_of_chunk(entries, chunk, base, rest);
        assert(hits.last() == hits[hits.len() - 1]);
        assert(chunk[hits.last().0 - base] == entries[hits.last().0 as int]);
    }
}

proof fn lemma_widest_concat(entries: Seq<Entry>, a: Seq<Hit>, b: Seq<Hit>)
    ensures
        widest(entries, 0, a + b) == if widest(entries, 0, b) > widest(entries, 0, a) {
            widest(entries, 0, b)
        } else {
            widest(entries, 0, a)
        },
    decreases b.len(),
{
    if b.len() == 0 {
        assert(a + b == a);
    } else {
        assert((a + b).drop_last() == a + b.drop_last());
        lemma_widest_concat(entries, a, b.drop_last());
    }
}

/// Listings from this size on are ranked on the thread pool.
pub const PARALLEL_FROM: usize = 4096;

/// How many entries one task of the thread pool ranks.
pub const CHUNK: usize = 8192;

/// The matches among all entries of a large listing, found chunk by chunk.
fn rank_chunks<S: Fn(&str, &str) -> Score + Sync>(
    entries: &[Entry],
    query: &str,
    scorer: &S,
) -> (r: (Vec<Hit>, usize))
    requires
        forall|l: &str, q: &str| call_requires(*scorer, (l, q)),
        query@.len() > 0,
    ensures
        found(*scorer, entries@, 0, query@, r.0@),
        r.1 == widest(entries@, 0, r.0@),
{
    let n: usize = entries.len();
    let task = |ci: usize, chunk: &[Entry]| -> (r: (Vec<Hit>, usize))
        requires
            is_chunk(entries@, CHUNK as int, ci as int, chunk@),
            n == entries@.len(),
            query@.len() > 0,
            forall|l: &str, q: &str| call_requires(*scorer, (l, q)),
        ensures
            found(*scorer, chunk@, ci * CHUNK, query@, r.0@),
            r.1 == widest(chunk@, ci * CHUNK, r.0@),
    {
        rank_chunk(chunk, ci * CHUNK, query, scorer)
    };
    let chunks = map_chunks(entries, CHUNK, task);
    let mut merged: Vec<Hit> = Vec::new();
    let mut width: usize = 0;
    let mut i: usize = 0;
    assert(found(*scorer, entries@.take(0), 0, query@, merged@));
    while i < chunks.len()
        invariant
            n == entries@.len(),
            i <= chunks@.len(),
            chunks@.len() == chunk_count(n as int, CHUNK as int),
            forall|k: int|
                0 <= k < chunks@.len() ==> made_from_chunk(
                    entries@,
                    CHUNK as int,
                    task,
                    k,
                    #[trigger] chunks@[k],
                ),
            forall|k: usize, c: &[Entry], r: (Vec<Hit>, usize)|
                #[trigger] call_ensures(task, (k, c), r) ==> found(
                    *scorer,
                    c@,
                    k * CHUNK,
                    query@,
                    r.0@,
                ) && r.1 == widest(c@, k * CHUNK, r.0@),
            found(
                *scorer,
                entries@.take(if i * CHUNK < n { i * CHUNK } else { n as int }),
                0,
                query@,
                merged@,
            ),
            width == widest(entries@, 0, merged@),
        decreases chunks@.len() - i,
    {
        let part = &chunks[i];
        let ghost c = choose|c: &[Entry]|
            #[trigger] is_chunk(entries@, CHUNK as int, i as int, c@) && call_ensures(
                task,
                (i, c),
                chunks@[i as int],
            );
        let ghost start = i * CHUNK;
        let ghost end = chunk_end(n as int, CHUNK as int, i as int);
        let ghost before = merged@;
        assert(found(*scorer, c@, start, query@, part.0@));
        let mut k: usize = 0;
        while k < part.0.len()
            invariant
                k <= part.0@.len(),
                merged@ == before + part.0@.take(k as int),
            decreases part.0@.len() - k,
        {
            let h: Hit = part.0[k];
            merged.push(h);
            assert(part.0@.take(k + 1) == part.0@.take(k as int).push(h));
            assert(merged@ =~= before + part.0@.take(k + 1));
            k += 1;
        }
        assert(part.0@.take(k as int) == part.0@);
        proof {
            lemma_found_concat(
                *scorer,
                entries@.take(start),
                c@,
                0,
                query@,
                before,
                part.0@,
            );
            assert(entries@.take(start) + c@ == entries@.take(end));
            lemma_widest_of_chunk(entries@, c@, start, part.0@);
            lemma_widest_concat(entries@, before, part.0@);
        }
        if part.1 > width {
            width = part.1;
        }
        i += 1;
    }
    assert(entries@.take(n as int) == entries@);
    (merged, width)
}

/// The width of the longest label of a listing.
pub fn widest_of(entries: &[Entry]) -> (w: usize)
    ensures
        w == widest_label(entries@),
{
    let mut w: usize = 0;
    let mut i: usize = 0;
    assert(entries@.take(0) == Seq::<Entry>::empty());
    while i < entries.len()
        invariant
            i <= entries@.len(),
            w == widest_label(entries@.take(i as int)),
        decreases entries@.len() - i,
    {
        let here = char_count(entries[i].label.as_str());
        if here > w {
            w = here;
        }
        assert(entries@.take(i + 1).drop_last() == entries@.take(i as int));
        i += 1;
    }
    assert(entries@.take(i as int) == entries@);
    w
}

/// The indices of a listing, in their order.
pub fn indices(n: usize) -> (r: Vec<usize>)
    ensures
        r@ == all_indices(n as nat),
{
    let mut r: Vec<usize> = Vec::new();
    let mut i: usize = 0;
    while i < n
        invariant
            i <= n,
            r@ == all_indices(i as nat),
        decreases n - i,
    {
        r.push(i);
        assert(r@ =~= all_indices((i + 1) as nat));
        i += 1;
    }
    r
}

/// `r` is what ranking a listing for a query gives: the indices and the width
/// of the longest label among them.
pub open spec fn ranking<S: Fn(&str, &str) -> Score>(
    scorer: S,
    entries: Seq<Entry>,
    query: Seq<char>,
    ranked: Seq<usize>,
    width: nat,
) -> bool {
    if query.len() == 0 {
        ranked == all_indices(entries.len()) && width == widest_label(entries)
    } else {
        exists|hits: Seq<Hit>|
            #[trigger] found(scorer, entries, 0, query, hits) && ranked_hits(entries, hits, ranked)
                && width == widest(entries, 0, hits)
    }
}

/// Filters and ranks a listing for a typed query, and gives the width of the
/// longest matched label. An empty query keeps the whole listing as it is.
pub fn rank_indices_mw<S: Fn(&str, &str) -> Score + Sync>(
    entries: &[Entry],
    query: &str,
    scorer: &S,
) -> (r: (Vec<usize>, usize))
    requires
        forall|l: &str, q: &str| call_requires(*scorer, (l, q)),
    ensures
        ranking(*scorer, entries@, query@, r.0@, r.1 as nat),
{
    if query.is_empty() {
        return (indices(entries.len()), widest_of(entries));
    }
    let (hits, width) = if entries.len() >= PARALLEL_FROM {
        rank_chunks(entries, query, scorer)
    } else {
        rank_chunk(entries, 0, query, scorer)
    };
    assert forall|k: int| 0 <= k < hits@.len() implies (#[trigger] hits@[k]).0 < entries@.len() by {
        assert(hits@[k].0 - 0 < entries@.len());
    }
    (order_hits(entries, &hits), width)
}

/// Filters and ranks a listing for a typed query.
pub fn rank_indices<S: Fn(&str, &str) -> Score + Sync>(
    entries: &[Entry],
    query: &str,
    scorer: &S,
) -> (r: Vec<usize>)
    requires
        forall|l: &str, q: &str| call_requires(*scorer, (l, q)),
    ensures
        exists|width: nat| #[trigger] ranking(*scorer, entries@, query@, r@, width),
{
    rank_indices_mw(entries, query, scorer).0
}

// ---------------------------------------------------------------------------
// The empty query with frecency
// ---------------------------------------------------------------------------

/// The key of a path's positive score; zero for a path without one.
pub open spec fn frecency_key(frec: Map<Seq<u8>, Score>, path: Seq<u8>) -> int {
    if frec.contains_key(path) && frec[path].key() > 0 {
        frec[path].key()
    } else {
        0
    }
}

/// When an entry need not stand behind another one: by depth, then by
/// frecency, the highest first.
pub open spec fn frecency_le(
    entries: Seq<Entry>,
    frec: Map<Seq<u8>, Score>,
    a: int,
    b: int,
) -> bool {
    if entries[a].depth != entries[b].depth {
        entries[a].depth < entries[b].depth
    } else {
        frecency_key(frec, entries[a].path@) >= frecency_key(frec, entries[b].path@)
    }
}

pub open spec fn by_frecency(
    entries: Seq<Entry>,
    frec: Map<Seq<u8>, Score>,
) -> spec_fn(int, int) -> bool {
    |a: int, b: int| frecency_le(entries, frec, a, b)
}

struct ByFrecency<'a> {
    entries: &'a [Entry],
    scores: Vec<Option<Score>>,
    frec: Ghost<Map<Seq<u8>, Score>>,
}

impl<'a> ByFrecency<'a> {
    spec fn scored(&self) -> bool {
        &&& self.scores@.len() == self.entries@.len()
        &&& forall|i: int|
            0 <= i < self.entries@.len() ==> (match #[trigger] self.scores@[i] {
                Some(s) => s.key() > 0 && s.key() == frecency_key(
                    self.frec@,
                    self.entries@[i].path@,
                ),
                None => frecency_key(self.frec@, self.entries@[i].path@) == 0,
            })
    }
}

impl<'a> Compared for ByFrecency<'a> {
    closed spec fn size(&self) -> nat {
        if self.scored() {
            self.entries@.len()
        } else {
            0
        }
    }

    closed spec fn le(&self) -> spec_fn(int, int) -> bool {
        by_frecency(self.entries@, self.frec@)
    }

    proof fn lemma_total(&self) {
    }

    fn not_after(&self, a: usize, b: usize) -> (r: bool) {
        let ea = &self.entries[a];
        let eb = &self.entries[b];
        if ea.depth != eb.depth {
            return ea.depth < eb.depth;
        }
        let (sa, sb): (Option<Score>, Option<Score>) = (self.scores[a], self.scores[b]);
        match (sa, sb) {
            (Some(x), Some(y)) => x.at_least(y),
            (Some(_), None) => true,
            (None, Some(_)) => false,
            (None, None) => true,
        }
    }
}

/// The empty query with frecency: shallower entries first, then the most
/// frequent and recent paths, then the order of the listing.
pub fn order_by_frecency(entries: &[Entry], frec: &Frecency) -> (r: (Vec<usize>, usize))
    requires
        frec.wf(),
    ensures
        arranged(by_frecency(entries@, frec@), 0, entries@.len() as int, r.0@),
        r.1 == widest_label(entries@),
{
    let mut scores: Vec<Option<Score>> = Vec::new();
    let mut i: usize = 0;
    while i < entries.len()
        invariant
            i <= entries@.len(),
            frec.wf(),
            scores@.len() == i,
            forall|k: int|
                0 <= k < i ==> (match #[trigger] scores@[k] {
                    Some(s) => s.key() > 0 && s.key() == frecency_key(frec@, entries@[k].path@),
                    None => frecency_key(frec@, entries@[k].path@) == 0,
                }),
        decreases entries@.len() - i,
    {
        let s: Option<Score> = match frec.get(entries[i].path.as_slice()) {
            Some(s) => if s.is_positive() {
                Some(s)
            } else {
                None
            },
            None => None,
        };
        scores.push(s);
        i += 1;
    }
    let by = ByFrecency { entries, scores, frec: Ghost(frec@) };
    (arrange(&by, 0, entries.len()), widest_of(entries))
}

// ---------------------------------------------------------------------------
// Laws
// ---------------------------------------------------------------------------

/// A ranking lists indices of the listing, each at most once.
pub proof fn law_ranking_lists_each_index_once<S: Fn(&str, &str) -> Score>(
    scorer: S,
    entries: Seq<Entry>,
    query: Seq<char>,
    ranked: Seq<usize>,
    width: nat,
)
    requires
        entries.len() <= usize::MAX,
        ranking(scorer, entries, query, ranked, width),
    ensures
        ranked.no_duplicates(),
        forall|k: int| 0 <= k < ranked.len() ==> (#[trigger] ranked[k]) < entries.len(),
{
    if query.len() > 0 {
        let hits = choose|hits: Seq<Hit>|
            #[trigger] found(scorer, entries, 0, query, hits) && ranked_hits(entries, hits, ranked)
                && width == widest(entries, 0, hits);
        let p = choose|p: Seq<usize>|
            #[trigger] arranged(by_rank(entries, hits), 0, hits.len() as int, p) && ranked
                == p.map_values(|k: usize| hits[k as int].0);
        assert forall|j: int, k: int|
            0 <= j < ranked.len() && 0 <= k < ranked.len() && j != k implies ranked[j]
            != ranked[k] by {
            let a = p[j] as int;
            let b = p[k] as int;
            assert(0 <= a < hits.len() && 0 <= b < hits.len());
            if j < k {
                assert(stands_before(by_rank(entries, hits), p[j] as int, p[k] as int));
            } else {
                assert(stands_before(by_rank(entries, hits), p[k] as int, p[j] as int));
            }
            assert(a != b);
            if a < b {
                assert(hits[a].0 < hits[b].0);
            } else {
                assert(hits[b].0 < hits[a].0);
            }
        }
        assert forall|k: int| 0 <= k < ranked.len() implies (#[trigger] ranked[k])
            < entries.len() by {
            let a = p[k] as int;
            assert(hits[a].0 - 0 < entries.len());
        }
    }
}

/// Every ranked entry begins with the first letter of the query, unless the
/// query is a lone dot.
pub proof fn law_first_letter_begins_the_basename<S: Fn(&str, &str) -> Score>(
    scorer: S,
    entries: Seq<Entry>,
    query: Seq<char>,
    ranked: Seq<usize>,
    width: nat,
    k: int,
)
    requires
        ranking(scorer, entries, query, ranked, width),
        query.len() > 0,
        query != "."@,
        0 <= k < ranked.len(),
    ensures
        entries[ranked[k] as int].name0 == ascii_lower(encode_utf8(query)[0]),
{
    let hits = choose|hits: Seq<Hit>|
        #[trigger] found(scorer, entries, 0, query, hits) && ranked_hits(entries, hits, ranked)
            && width == widest(entries, 0, hits);
    let p = choose|p: Seq<usize>|
        #[trigger] arranged(by_rank(entries, hits), 0, hits.len() as int, p) && ranked
            == p.map_values(|k: usize| hits[k as int].0);
    let a = p[k] as int;
    assert(0 <= a < hits.len());
    assert(admitted(entries[hits[a].0 - 0], query));
}

/// A shallower entry is never ranked behind a deeper one.
pub proof fn law_shallower_entries_rank_first<S: Fn(&str, &str) -> Score>(
    scorer: S,
    entries: Seq<Entry>,
    query: Seq<char>,
    ranked: Seq<usize>,
    width: nat,
    j: int,
    k: int,
)
    requires
        ranking(scorer, entries, query, ranked, width),
        query.len() > 0,
        0 <= j < k < ranked.len(),
    ensures
        entries[ranked[j] as int].depth <= entries[ranked[k] as int].depth,
{
    let hits = choose|hits: Seq<Hit>|
        #[trigger] found(scorer, entries, 0, query, hits) && ranked_hits(entries, hits, ranked)
            && width == widest(entries, 0, hits);
    let p = choose|p: Seq<usize>|
        #[trigger] arranged(by_rank(entries, hits), 0, hits.len() as int, p) && ranked
            == p.map_values(|k: usize| hits[k as int].0);
    assert(stands_before(by_rank(entries, hits), p[j] as int, p[k] as int));
}

/// With frecency, too, a shallower entry is never behind a deeper one, and
/// within one depth a lower score is never before a higher one.
pub proof fn law_frecency_orders_within_depth(
    entries: Seq<Entry>,
    frec: Map<Seq<u8>, Score>,
    order: Seq<usize>,
    j: int,
    k: int,
)
    requires
        arranged(by_frecency(entries, frec), 0, entries.len() as int, order),
        0 <= j < k < order.len(),
    ensures
        ({
            let a = entries[order[j] as int];
            let b = entries[order[k] as int];
            &&& a.depth <= b.depth
            &&& a.depth == b.depth ==> frecency_key(frec, a.path@) >= frecency_key(frec, b.path@)
        }),
{
    assert(stands_before(by_frecency(entries, frec), order[j] as int, order[k] as int));
}

/// Entries of one depth with the same frecency, such as those without any,
/// keep the order of the listing.
pub proof fn law_equal_frecency_keeps_the_listing_order(
    entries: Seq<Entry>,
    frec: Map<Seq<u8>, Score>,
    order: Seq<usize>,
    j: int,
    k: int,
)
    requires
        arranged(by_frecency(entries, frec), 0, entries.len() as int, order),
        0 <= j < k < order.len(),
        entries[order[j] as int].depth == entries[order[k] as int].depth,
        frecency_key(frec, entries[order[j] as int].path@) == frecency_key(
            frec,
            entries[order[k] as int].path@,
        ),
    ensures
        order[j] < order[k],
{
    assert(stands_before(by_frecency(entries, frec), order[j] as int, order[k] as int));
}

/// Without any record a listing that is sorted by depth keeps its order.
pub proof fn law_no_records_keep_the_listing(entries: Seq<Entry>, order: Seq<usize>)
    requires
        entries.len() <= usize::MAX,
        forall|i: int, j: int|
            0 <= i < j < entries.len() ==> (#[trigger] entries[i]).depth <= (
            #[trigger] entries[j]).depth,
        arranged(
            by_frecency(entries, Map::<Seq<u8>, Score>::empty()),
            0,
            entries.len() as int,
            order,
        ),
    ensures
        order == all_indices(entries.len()),
{
    let le = by_frecency(entries, Map::<Seq<u8>, Score>::empty());
    let plain = all_indices(entries.len());
    assert forall|i: int| 0 <= i < entries.len() implies #[trigger] plain.contains(i as usize) by {
        assert(plain[i] == i as usize);
    }
    assert(arranged(le, 0, entries.len() as int, plain));
    crate::order::law_arrangement_is_unique(le, 0, entries.len() as int, order, plain);
}

/// Whether a scoring function always gives the same score to the same label
/// and query.
pub open spec fn consistent<S: Fn(&str, &str) -> Score>(scorer: S) -> bool {
    forall|label: Seq<char>, query: Seq<char>, a: Score, b: Score|
        #[trigger] may_score(scorer, label, query, a) && #[trigger] may_score(
            scorer,
            label,
            query,
            b,
        ) ==> a == b
}

spec fn ascending(hits: Seq<Hit>) -> bool {
    forall|j: int, k: int|
        0 <= j < k < hits.len() ==> (#[trigger] hits[j]).0 < (#[trigger] hits[k]).0
}

proof fn lemma_same_hits(a: Seq<Hit>, b: Seq<Hit>)
    requires
        ascending(a),
        ascending(b),
        forall|k: int| 0 <= k < a.len() ==> b.contains(#[trigger] a[k]),
        forall|k: int| 0 <= k < b.len() ==> a.contains(#[trigger] b[k]),
    ensures
        a == b,
    decreases a.len(),
{
    if a.len() == 0 {
        if b.len() > 0 {
            assert(a.contains(b[0]));
        }
        assert(a =~= b);
    } else {
        let n = a.len() - 1;
        assert(b.contains(a[n]));
        let m = b.len() - 1;
        let j = choose|j: int| 0 <= j < b.len() && b[j] == a[n];
        assert(a.contains(b[m]));
        let i = choose|i: int| 0 <= i < a.len() && a[i] == b[m];
        if j < m {
            assert(b[j].0 < b[m].0);
            if i < n {
                assert(a[i].0 < a[n].0);
            }
        }
        let x = a.drop_last();
        let y = b.drop_last();
        assert forall|k: int| 0 <= k < x.len() implies y.contains(#[trigger] x[k]) by {
            assert(x[k] == a[k]);
            assert(b.contains(a[k]));
            let l = choose|l: int| 0 <= l < b.len() && b[l] == a[k];
            assert(a[k].0 < a[n].0);
            assert(y[l] == b[l]);
        }
        assert forall|k: int| 0 <= k < y.len() implies x.contains(#[trigger] y[k]) by {
            assert(y[k] == b[k]);
            assert(a.contains(b[k]));
            let l = choose|l: int| 0 <= l < a.len() && a[l] == b[k];
            assert(b[k].0 < b[m].0);
            assert(x[l] == a[l]);
        }
        assert forall|j: int, k: int| 0 <= j < k < x.len() implies (#[trigger] x[j]).0 < (
        #[trigger] x[k]).0 by {
            assert(a[j].0 < a[k].0);
        }
        assert forall|j: int, k: int| 0 <= j < k < y.len() implies (#[trigger] y[j]).0 < (
        #[trigger] y[k]).0 by {
            assert(b[j].0 < b[k].0);
        }
        lemma_same_hits(x, y);
        assert(a =~= x.push(a[n]));
        assert(b =~= y.push(b[m]));
    }
}

proof fn lemma_found_holds<S: Fn(&str, &str) -> Score>(
    scorer: S,
    entries: Seq<Entry>,
    query: Seq<char>,
    a: Seq<Hit>,
    b: Seq<Hit>,
    k: int,
)
    requires
        consistent(scorer),
        found(scorer, entries, 0, query, a),
        found(scorer, entries, 0, query, b),
        0 <= k < a.len(),
    ensures
        b.contains(a[k]),
{
    let i = a[k].0 as int;
    assert(a[k].0 - 0 == i);
    assert(admitted(entries[i], query));
    assert(may_score(scorer, entries[i].label@, query, a[k].1));
    if exists|l: int| 0 <= l < b.len() && (#[trigger] b[l]).0 == 0 + i {
        let l = choose|l: int| 0 <= l < b.len() && (#[trigger] b[l]).0 == 0 + i;
        assert(b[l].0 - 0 == i);
        assert(may_score(scorer, entries[i].label@, query, b[l].1));
        assert(b[l] == a[k]);
    } else {
        let s = choose|s: Score| s.key() == 0 && may_score(scorer, entries[i].label@, query, s);
        assert(may_score(scorer, entries[i].label@, query, s));
    }
}

/// With a scoring function that is a function, there is only one ranking.
pub proof fn law_ranking_is_determined<S: Fn(&str, &str) -> Score>(
    scorer: S,
    entries: Seq<Entry>,
    query: Seq<char>,
    a: Seq<usize>,
    b: Seq<usize>,
    width_a: nat,
    width_b: nat,
)
    requires
        consistent(scorer),
        entries.len() <= usize::MAX,
        ranking(scorer, entries, query, a, width_a),
        ranking(scorer, entries, query, b, width_b),
    ensures
        a == b,
        width_a == width_b,
{
    if query.len() > 0 {
        let x = choose|hits: Seq<Hit>|
            #[trigger] found(scorer, entries, 0, query, hits) && ranked_hits(entries, hits, a)
                && width_a == widest(entries, 0, hits);
        let y = choose|hits: Seq<Hit>|
            #[trigger] found(scorer, entries, 0, query, hits) && ranked_hits(entries, hits, b)
                && width_b == widest(entries, 0, hits);
        assert forall|k: int| 0 <= k < x.len() implies y.contains(#[trigger] x[k]) by {
            lemma_found_holds(scorer, entries, query, x, y, k);
        }
        assert forall|k: int| 0 <= k < y.len() implies x.contains(#[trigger] y[k]) by {
            lemma_found_holds(scorer, entries, query, y, x, k);
        }
        lemma_same_hits(x, y);
        lemma_hits_within(x, entries.len() as int);
        let p = choose|p: Seq<usize>|
            #[trigger] arranged(by_rank(entries, x), 0, x.len() as int, p) && a == p.map_values(
                |k: usize| x[k as int].0,
            );
        let q = choose|q: Seq<usize>|
            #[trigger] arranged(by_rank(entries, x), 0, x.len() as int, q) && b == q.map_values(
                |k: usize| x[k as int].0,
            );
        crate::order::law_arrangement_is_unique(by_rank(entries, x), 0, x.len() as int, p, q);
    }
}

proof fn lemma_hits_within(hits: Seq<Hit>, n: int)
    requires
        ascending(hits),
        0 <= n,
        forall|k: int| 0 <= k < hits.len() ==> (#[trigger] hits[k]).0 < n,
    ensures
        hits.len() <= n,
    decreases n,
{
    if hits.len() > 0 {
        let front = hits.drop_last();
        let last = hits.last().0 as int;
        assert(hits[hits.len() - 1].0 < n);
        assert forall|k: int| 0 <= k < front.len() implies (#[trigger] front[k]).0 < last by {
            assert(hits[k].0 < hits[hits.len() - 1].0);
        }
        assert forall|j: int, k: int| 0 <= j < k < front.len() implies (#[trigger] front[j]).0 < (
        #[trigger] front[k]).0 by {
            assert(hits[j].0 < hits[k].0);
        }
        lemma_hits_within(front, last);
    }
}

/// The hits behind a ranking, and the order that they were put into.
proof fn lemma_hits<S: Fn(&str, &str) -> Score>(
    scorer: S,
    entries: Seq<Entry>,
    query: Seq<char>,
    ranked: Seq<usize>,
    width: nat,
) -> (r: (Seq<Hit>, Seq<usize>))
    requires
        ranking(scorer, entries, query, ranked, width),
        query.len() > 0,
    ensures
        found(scorer, entries, 0, query, r.0),
        width == widest(entries, 0, r.0),
        arranged(by_rank(entries, r.0), 0, r.0.len() as int, r.1),
        ranked == r.1.map_values(|k: usize| r.0[k as int].0),
{
    let hits = choose|hits: Seq<Hit>|
        #[trigger] found(scorer, entries, 0, query, hits) && ranked_hits(entries, hits, ranked)
            && width == widest(entries, 0, hits);
    let p = choose|p: Seq<usize>|
        #[trigger] arranged(by_rank(entries, hits), 0, hits.len() as int, p) && ranked
            == p.map_values(|k: usize| hits[k as int].0);
    (hits, p)
}

/// Of two ranked entries of one depth, whatever the depth, the one before never
/// has the lower score. Where the scores are equal, its basename is not behind
/// the other in byte order, and entries of one basename keep the order of the
/// listing.
pub proof fn law_better_scores_rank_first<S: Fn(&str, &str) -> Score>(
    scorer: S,
    entries: Seq<Entry>,
    query: Seq<char>,
    ranked: Seq<usize>,
    width: nat,
    j: int,
    k: int,
    a: Score,
    b: Score,
)
    requires
        consistent(scorer),
        ranking(scorer, entries, query, ranked, width),
        query.len() > 0,
        0 <= j < k < ranked.len(),
        entries[ranked[j] as int].depth == entries[ranked[k] as int].depth,
        may_score(scorer, entries[ranked[j] as int].label@, query, a),
        may_score(scorer, entries[ranked[k] as int].label@, query, b),
    ensures
        a.key() >= b.key(),
        a.key() == b.key() ==> lex_le(
            encode_utf8(entries[ranked[j] as int].basename@),
            encode_utf8(entries[ranked[k] as int].basename@),
        ),
        a.key() == b.key() && entries[ranked[j] as int].basename@
            == entries[ranked[k] as int].basename@ ==> ranked[j] < ranked[k],
{
    let (hits, p) = lemma_hits(scorer, entries, query, ranked, width);
    let (x, y) = (p[j] as int, p[k] as int);
    assert(0 <= x < hits.len() && 0 <= y < hits.len());
    assert(ranked[j] == hits[x].0 && ranked[k] == hits[y].0);
    assert(hits[x].0 - 0 == ranked[j] && hits[y].0 - 0 == ranked[k]);
    assert(may_score(scorer, entries[ranked[j] as int].label@, query, hits[x].1));
    assert(may_score(scorer, entries[ranked[k] as int].label@, query, hits[y].1));
    assert(hits[x].1 == a && hits[y].1 == b);
    assert(stands_before(by_rank(entries, hits), x, y));
    let bn = encode_utf8(entries[ranked[j] as int].basename@);
    lemma_lex_total(bn, bn);
    if x < y {
        assert(hits[x].0 < hits[y].0);
    }
}

/// Every entry that begins with the first letter of the query, or every entry
/// where the query is a lone dot, is ranked exactly if it does not score zero.
pub proof fn law_exactly_the_matches_are_ranked<S: Fn(&str, &str) -> Score>(
    scorer: S,
    entries: Seq<Entry>,
    query: Seq<char>,
    ranked: Seq<usize>,
    width: nat,
    i: int,
    s: Score,
)
    requires
        consistent(scorer),
        entries.len() <= usize::MAX,
        ranking(scorer, entries, query, ranked, width),
        query.len() > 0,
        0 <= i < entries.len(),
        may_score(scorer, entries[i].label@, query, s),
    ensures
        ranked.contains(i as usize) <==> s.key() != 0 && (query == seq!['.'] || entries[i].name0
            == first_letter(query)),
{
    reveal_strlit(".");
    assert("."@ =~= seq!['.']);
    let (hits, p) = lemma_hits(scorer, entries, query, ranked, width);
    lemma_first_letter(query);
    if admitted(entries[i], query) && s.key() != 0 {
        if exists|t: Score| t.key() == 0 && may_score(scorer, entries[i].label@, query, t) {
            let t = choose|t: Score|
                t.key() == 0 && may_score(scorer, entries[i].label@, query, t);
            assert(may_score(scorer, entries[i].label@, query, t));
        }
        assert(admitted(entries[i], query));
        let at = choose|k: int| 0 <= k < hits.len() && (#[trigger] hits[k]).0 == 0 + i;
        lemma_hits_within(hits, entries.len() as int);
        assert(p.contains(at as usize));
        let k = choose|k: int| 0 <= k < p.len() && p[k] == at as usize;
        assert(ranked[k] == i as usize);
    }
    if ranked.contains(i as usize) {
        let k = choose|k: int| 0 <= k < ranked.len() && ranked[k] == i as usize;
        let x = p[k] as int;
        assert(0 <= x < hits.len());
        assert(hits[x].0 - 0 == i);
        assert(may_score(scorer, entries[i].label@, query, hits[x].1));
        assert(admitted(entries[i], query));
    }
}

/// The first byte of a query, a capital ASCII letter as a small one.
pub open spec fn first_letter(query: Seq<char>) -> u8 {
    let b = encode_utf8(query)[0];
    if 'A' as u8 <= b <= 'Z' as u8 {
        (b - 'A' as u8 + 'a' as u8) as u8
    } else {
        b
    }
}

proof fn lemma_first_letter(query: Seq<char>)
    ensures
        first_letter(query) == ascii_lower(encode_utf8(query)[0]),
{
}

proof fn lemma_widest(entries: Seq<Entry>, hits: Seq<Hit>)
    ensures
        forall|k: int|
            0 <= k < hits.len() ==> entries[(#[trigger] hits[k]).0 as int].label@.len() <= widest(
                entries,
                0,
                hits,
            ),
        hits.len() > 0 ==> exists|k: int|
            0 <= k < hits.len() && entries[(#[trigger] hits[k]).0 as int].label@.len() == widest(
                entries,
                0,
                hits,
            ),
        hits.len() == 0 ==> widest(entries, 0, hits) == 0,
    decreases hits.len(),
{
    if hits.len() > 0 {
        let front = hits.drop_last();
        lemma_widest(entries, front);
        let here = entries[hits.last().0 as int].label@.len();
        assert forall|k: int| 0 <= k < hits.len() implies entries[(
        #[trigger] hits[k]).0 as int].label@.len() <= widest(entries, 0, hits) by {
            if k < front.len() {
                assert(hits[k] == front[k]);
            }
        }
        if here > widest(entries, 0, front) || front.len() == 0 {
            let k = hits.len() - 1;
            assert(entries[hits[k].0 as int].label@.len() == widest(entries, 0, hits));
        } else {
            let k = choose|k: int|
                0 <= k < front.len() && entries[(#[trigger] front[k]).0 as int].label@.len()
                    == widest(entries, 0, front);
            assert(hits[k] == front[k]);
            assert(entries[hits[k].0 as int].label@.len() == widest(entries, 0, hits));
        }
    }
}

/// The width of a listing is that of its longest label.
pub proof fn lemma_widest_label(entries: Seq<Entry>)
    ensures
        forall|k: int|
            0 <= k < entries.len() ==> (#[trigger] entries[k]).label@.len() <= widest_label(
                entries,
            ),
        entries.len() > 0 ==> exists|k: int|
            0 <= k < entries.len() && (#[trigger] entries[k]).label@.len() == widest_label(entries),
        entries.len() == 0 ==> widest_label(entries) == 0,
    decreases entries.len(),
{
    if entries.len() > 0 {
        let front = entries.drop_last();
        lemma_widest_label(front);
        let n = entries.len() - 1;
        assert forall|k: int| 0 <= k < entries.len() implies (#[trigger] entries[k]).label@.len()
            <= widest_label(entries) by {
            if k < n {
                assert(entries[k] == front[k]);
            }
        }
        if entries[n].label@.len() >= widest_label(front) {
            assert(entries[n].label@.len() == widest_label(entries));
        } else {
            let k = choose|k: int|
                0 <= k < front.len() && (#[trigger] front[k]).label@.len() == widest_label(front);
            assert(entries[k] == front[k]);
            assert(entries[k].label@.len() == widest_label(entries));
        }
    }
}

/// The width of a ranking is the number of characters of the longest ranked
/// label, or zero where nothing is ranked.
pub proof fn law_the_width_is_that_of_the_longest_label<S: Fn(&str, &str) -> Score>(
    scorer: S,
    entries: Seq<Entry>,
    query: Seq<char>,
    ranked: Seq<usize>,
    width: nat,
)
    requires
        entries.len() <= usize::MAX,
        ranking(scorer, entries, query, ranked, width),
    ensures
        forall|k: int|
            0 <= k < ranked.len() ==> entries[#[trigger] ranked[k] as int].label@.len() <= width,
        ranked.len() > 0 ==> exists|k: int|
            0 <= k < ranked.len() && entries[#[trigger] ranked[k] as int].label@.len() == width,
        ranked.len() == 0 ==> width == 0,
{
    if query.len() == 0 {
        lemma_widest_label(entries);
        if entries.len() > 0 {
            let k = choose|k: int|
                0 <= k < entries.len() && (#[trigger] entries[k]).label@.len() == width;
            assert(ranked[k] == k);
            assert(entries[ranked[k] as int].label@.len() == width);
        }
    } else {
        let (hits, p) = lemma_hits(scorer, entries, query, ranked, width);
        lemma_widest(entries, hits);
        lemma_hits_within(hits, entries.len() as int);
        assert forall|k: int| 0 <= k < ranked.len() implies entries[#[trigger] ranked[k] as int].label@.len()
            <= width by {
            assert(ranked[k] == hits[p[k] as int].0);
        }
        if hits.len() > 0 {
            let at = choose|k: int|
                0 <= k < hits.len() && entries[(#[trigger] hits[k]).0 as int].label@.len()
                    == widest(entries, 0, hits);
            assert(p.contains(at as usize));
            let k = choose|k: int| 0 <= k < p.len() && p[k] == at as usize;
            assert(ranked[k] == hits[at].0);
            assert(entries[ranked[k] as int].label@.len() == width);
        }
    }
}

/// An empty query gives the whole listing in its order.
pub proof fn law_an_empty_query_keeps_the_listing<S: Fn(&str, &str) -> Score>(
    scorer: S,
    entries: Seq<Entry>,
    query: Seq<char>,
    ranked: Seq<usize>,
    width: nat,
)
    requires
        query.len() == 0,
        entries.len() <= usize::MAX,
        ranking(scorer, entries, query, ranked, width),
    ensures
        ranked.len() == entries.len(),
        forall|k: int| 0 <= k < ranked.len() ==> #[trigger] ranked[k] == k,
{
}

/// With frecency, within one depth, a path with a positive score stands before
/// every path with a lower score and before every path without one, whatever
/// the paths are.
pub proof fn law_recorded_paths_lead_their_depth(
    entries: Seq<Entry>,
    frec: Map<Seq<u8>, Score>,
    order: Seq<usize>,
    j: int,
    k: int,
)
    requires
        arranged(by_frecency(entries, frec), 0, entries.len() as int, order),
        0 <= j < order.len(),
        0 <= k < order.len(),
        entries[order[j] as int].depth == entries[order[k] as int].depth,
        frec.contains_key(entries[order[j] as int].path@),
        frec[entries[order[j] as int].path@].key() > 0,
        frec.contains_key(entries[order[k] as int].path@)
            ==> frec[entries[order[k] as int].path@].key()
            < frec[entries[order[j] as int].path@].key(),
    ensures
        j < k,
{
    if k < j {
        assert(stands_before(by_frecency(entries, frec), order[k] as int, order[j] as int));
    }
}

} // verus!
