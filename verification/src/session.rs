//! Sessions with the backend: what earlier requests leave behind.
//!
//! A reply depends on the listing, on the records and on the query alone. What
//! was asked before, and what the backend keeps of it, does not show.

use crate::listing::{views, Entry, EntryView};
use crate::order::{arranged, law_arrangement_is_unique, stands_before};
use crate::protocol::Query;
use crate::rank::{
    admitted, by_frecency, by_rank, consistent, found, law_ranking_is_determined, may_score,
    ranked_hits, ranking, widest, widest_label, Hit,
};
use crate::score::Score;
use crate::serve::{asked, journal_with, ordered, recorded, served, Server, Sorting};
use vstd::prelude::*;

verus! {

/// A request that can change the state of the backend.
pub enum Event {
    Record(Option<Seq<u8>>, Option<Score>),
    Ask(Query),
}

/// The state before the first request.
pub open spec fn is_fresh(listing: Seq<EntryView>, s: Server) -> bool {
    &&& views(s.entries@) == listing
    &&& s.base is None
    &&& s.frec@ == Map::<Seq<u8>, Score>::empty()
    &&& !s.memo_hit
    &&& s.memo_sort == 0
    &&& !s.memo_dirs
    &&& !s.memo_rev
}

/// One request leads from one state to another.
pub open spec fn step<
    O: Fn(Vec<Entry>, Sorting) -> Vec<Entry>,
    S: Fn(&str, &str) -> Score,
>(sorter: O, scorer: S, before: Server, e: Event, after: Server) -> bool {
    match e {
        Event::Record(path, score) => recorded(before, path, score, after),
        Event::Ask(q) => asked(sorter, scorer, before, q, after),
    }
}

/// Some requests lead to a state.
pub open spec fn reached<
    O: Fn(Vec<Entry>, Sorting) -> Vec<Entry>,
    S: Fn(&str, &str) -> Score,
>(sorter: O, scorer: S, listing: Seq<EntryView>, events: Seq<Event>, s: Server) -> bool
    decreases events.len(),
{
    if events.len() == 0 {
        is_fresh(listing, s)
    } else {
        exists|before: Server|
            reached(sorter, scorer, listing, events.drop_last(), before) && #[trigger] step(
                sorter,
                scorer,
                before,
                events.last(),
                s,
            )
    }
}

/// The records among some requests.
pub open spec fn records_of(events: Seq<Event>) -> Seq<Event>
    decreases events.len(),
{
    if events.len() == 0 {
        events
    } else {
        let before = records_of(events.drop_last());
        match events.last() {
            Event::Record(_, _) => before.push(events.last()),
            Event::Ask(_) => before,
        }
    }
}

/// The journal that some requests leave.
pub open spec fn journal(events: Seq<Event>) -> Map<Seq<u8>, Score>
    decreases events.len(),
{
    if events.len() == 0 {
        Map::empty()
    } else {
        let before = journal(events.drop_last());
        match events.last() {
            Event::Record(path, score) => journal_with(before, path, score),
            Event::Ask(_) => before,
        }
    }
}

impl Server {
    /// The listing is the canonical one in the order that is noted, and the
    /// kept ranking is the one of the noted query and the records.
    pub open spec fn faithful<
        O: Fn(Vec<Entry>, Sorting) -> Vec<Entry>,
        S: Fn(&str, &str) -> Score,
    >(self, sorter: O, scorer: S) -> bool {
        &&& ordered(sorter, self.canonical(), self.order(), views(self.entries@))
        &&& self.memo_hit ==> served(
            scorer,
            self.entries@,
            self.frec@,
            self.memo_q@,
            self.memo_ranked@,
            self.memo_maxw as nat,
        )
    }
}

/// Whatever was asked and recorded, the canonical listing is the first one, the
/// journal holds what was recorded, and what is kept is faithful to both.
pub proof fn law_sessions_stay_faithful<
    O: Fn(Vec<Entry>, Sorting) -> Vec<Entry>,
    S: Fn(&str, &str) -> Score,
>(sorter: O, scorer: S, listing: Seq<EntryView>, events: Seq<Event>, s: Server)
    requires
        reached(sorter, scorer, listing, events, s),
    ensures
        s.canonical() == listing,
        s.frec@ == journal(events),
        s.faithful(sorter, scorer),
    decreases events.len(),
{
    if events.len() > 0 {
        let before = choose|before: Server|
            reached(sorter, scorer, listing, events.drop_last(), before) && #[trigger] step(
                sorter,
                scorer,
                before,
                events.last(),
                s,
            );
        law_sessions_stay_faithful(sorter, scorer, listing, events.drop_last(), before);
    }
}

/// Leaving out the queries leaves the journal.
proof fn lemma_journal_of_records(events: Seq<Event>)
    ensures
        journal(records_of(events)) == journal(events),
    decreases events.len(),
{
    if events.len() > 0 {
        let front = events.drop_last();
        lemma_journal_of_records(front);
        assert(records_of(front).push(events.last()).drop_last() =~= records_of(front));
    }
}

// ---------------------------------------------------------------------------
// What the answer depends on
// ---------------------------------------------------------------------------

/// Whether a sorting function always gives the same order to the same listing.
pub open spec fn sorts_consistently<O: Fn(Vec<Entry>, Sorting) -> Vec<Entry>>(sorter: O) -> bool {
    forall|u: Vec<Entry>, v: Vec<Entry>, s: Sorting, x: Vec<Entry>, y: Vec<Entry>|
        views(u@) == views(v@) && #[trigger] call_ensures(sorter, (u, s), x)
            && #[trigger] call_ensures(sorter, (v, s), y) ==> views(x@) == views(y@)
}

proof fn lemma_same_entry(a: Seq<Entry>, b: Seq<Entry>, i: int)
    requires
        views(a) == views(b),
        0 <= i < a.len(),
    ensures
        a.len() == b.len(),
        a[i]@ == b[i]@,
{
    assert(views(a).len() == a.len());
    assert(views(b).len() == b.len());
    assert(views(a)[i] == a[i]@);
    assert(views(b)[i] == b[i]@);
}

proof fn lemma_same_widest_label(a: Seq<Entry>, b: Seq<Entry>)
    requires
        views(a) == views(b),
    ensures
        widest_label(a) == widest_label(b),
    decreases a.len(),
{
    assert(views(a).len() == a.len());
    assert(views(b).len() == b.len());
    if a.len() > 0 {
        lemma_same_entry(a, b, a.len() - 1);
        assert(views(a.drop_last()) =~= views(a).drop_last());
        assert(views(b.drop_last()) =~= views(b).drop_last());
        lemma_same_widest_label(a.drop_last(), b.drop_last());
    }
}

proof fn lemma_same_widest(a: Seq<Entry>, b: Seq<Entry>, hits: Seq<Hit>)
    requires
        views(a) == views(b),
        forall|k: int| 0 <= k < hits.len() ==> (#[trigger] hits[k]).0 < a.len(),
    ensures
        widest(a, 0, hits) == widest(b, 0, hits),
    decreases hits.len(),
{
    if hits.len() > 0 {
        assert(hits[hits.len() - 1].0 < a.len());
        lemma_same_entry(a, b, hits.last().0 as int);
        let front = hits.drop_last();
        assert forall|k: int| 0 <= k < front.len() implies (#[trigger] front[k]).0 < a.len() by {
            assert(front[k] == hits[k]);
        }
        lemma_same_widest(a, b, front);
    }
}

proof fn lemma_same_arrangement(
    f: spec_fn(int, int) -> bool,
    g: spec_fn(int, int) -> bool,
    n: int,
    p: Seq<usize>,
)
    requires
        arranged(f, 0, n, p),
        forall|a: int, b: int| 0 <= a < n && 0 <= b < n ==> #[trigger] f(a, b) == g(a, b),
    ensures
        arranged(g, 0, n, p),
{
    assert forall|j: int, k: int| 0 <= j < k < p.len() implies stands_before(
        g,
        #[trigger] p[j] as int,
        #[trigger] p[k] as int,
    ) by {
        assert(stands_before(f, p[j] as int, p[k] as int));
        let (a, b) = (p[j] as int, p[k] as int);
        assert(f(a, b) == g(a, b));
        assert(f(b, a) == g(b, a));
    }
}

proof fn lemma_same_ranking<S: Fn(&str, &str) -> Score>(
    scorer: S,
    a: Seq<Entry>,
    b: Seq<Entry>,
    query: Seq<char>,
    ranked: Seq<usize>,
    width: nat,
)
    requires
        views(a) == views(b),
        ranking(scorer, a, query, ranked, width),
    ensures
        ranking(scorer, b, query, ranked, width),
{
    assert(views(a).len() == a.len());
    assert(views(b).len() == b.len());
    if query.len() == 0 {
        lemma_same_widest_label(a, b);
    } else {
        let hits = choose|hits: Seq<Hit>|
            #[trigger] found(scorer, a, 0, query, hits) && ranked_hits(a, hits, ranked) && width
                == widest(a, 0, hits);
        assert forall|k: int| 0 <= k < hits.len() implies (#[trigger] hits[k]).0 < a.len() by {
            assert(hits[k].0 - 0 < a.len());
        }
        assert forall|i: int| 0 <= i < a.len() implies (#[trigger] a[i])@ == b[i]@ by {
            lemma_same_entry(a, b, i);
        }
        assert(found(scorer, b, 0, query, hits)) by {
            assert forall|k: int| 0 <= k < hits.len() implies {
                let i = (#[trigger] hits[k]).0 - 0;
                &&& 0 <= i < b.len()
                &&& admitted(b[i], query)
                &&& may_score(scorer, b[i].label@, query, hits[k].1)
                &&& hits[k].1.key() != 0
            } by {
                assert(a[hits[k].0 - 0]@ == b[hits[k].0 - 0]@);
            }
            assert forall|i: int|
                0 <= i < b.len() && admitted(#[trigger] b[i], query) implies {
                ||| exists|k: int| 0 <= k < hits.len() && (#[trigger] hits[k]).0 == 0 + i
                ||| exists|s: Score|
                    s.key() == 0 && may_score(scorer, b[i].label@, query, s)
            } by {
                assert(a[i]@ == b[i]@);
                assert(admitted(a[i], query));
            }
        }
        let p = choose|p: Seq<usize>|
            #[trigger] arranged(by_rank(a, hits), 0, hits.len() as int, p) && ranked
                == p.map_values(|k: usize| hits[k as int].0);
        let (f, g) = (by_rank(a, hits), by_rank(b, hits));
        assert forall|x: int, y: int|
            0 <= x < hits.len() && 0 <= y < hits.len() implies #[trigger] f(x, y) == g(x, y) by {
            assert(hits[x].0 < a.len() && hits[y].0 < a.len());
            assert(a[hits[x].0 as int]@ == b[hits[x].0 as int]@);
            assert(a[hits[y].0 as int]@ == b[hits[y].0 as int]@);
        }
        lemma_same_arrangement(f, g, hits.len() as int, p);
        lemma_same_widest(a, b, hits);
    }
}

proof fn lemma_same_answer<S: Fn(&str, &str) -> Score>(
    scorer: S,
    a: Seq<Entry>,
    b: Seq<Entry>,
    frec: Map<Seq<u8>, Score>,
    query: Seq<char>,
    p: Seq<usize>,
    v: nat,
    q: Seq<usize>,
    w: nat,
)
    requires
        consistent(scorer),
        a.len() <= usize::MAX,
        views(a) == views(b),
        served(scorer, a, frec, query, p, v),
        served(scorer, b, frec, query, q, w),
    ensures
        p == q,
        v == w,
{
    assert(views(a).len() == a.len());
    assert(views(b).len() == b.len());
    if query.len() == 0 && frec.len() > 0 {
        let n = a.len() as int;
        let (f, g) = (by_frecency(a, frec), by_frecency(b, frec));
        assert forall|x: int, y: int| 0 <= x < n && 0 <= y < n implies #[trigger] f(x, y) == g(
            x,
            y,
        ) by {
            lemma_same_entry(a, b, x);
            lemma_same_entry(a, b, y);
        }
        lemma_same_arrangement(f, g, n, p);
        law_arrangement_is_unique(g, 0, n, p, q);
        lemma_same_widest_label(a, b);
    } else {
        lemma_same_ranking(scorer, a, b, query, p, v);
        law_ranking_is_determined(scorer, b, query, p, q, v, w);
    }
}

/// Whether two queries ask for the same.
pub open spec fn same_query(a: Query, b: Query) -> bool {
    &&& a.from == b.from
    &&& a.to == b.to
    &&& a.query@ == b.query@
    &&& a.sort == b.sort
    &&& a.dirs_first == b.dirs_first
    &&& a.reverse == b.reverse
}

/// Two sessions over one listing that have recorded the same give the same
/// reply to the same query, byte by byte, whatever was asked in them before.
pub proof fn law_replies_depend_on_records_and_query<
    O: Fn(Vec<Entry>, Sorting) -> Vec<Entry>,
    S: Fn(&str, &str) -> Score,
>(
    sorter: O,
    scorer: S,
    listing: Seq<EntryView>,
    before_a: Seq<Event>,
    before_b: Seq<Event>,
    qa: Query,
    qb: Query,
    a: Server,
    b: Server,
)
    requires
        sorts_consistently(sorter),
        consistent(scorer),
        same_query(qa, qb),
        journal(before_a) == journal(before_b),
        reached(sorter, scorer, listing, before_a.push(Event::Ask(qa)), a),
        reached(sorter, scorer, listing, before_b.push(Event::Ask(qb)), b),
    ensures
        a.reply_text(qa.from as nat, qa.to as nat) == b.reply_text(qb.from as nat, qb.to as nat),
{
    let ea = before_a.push(Event::Ask(qa));
    let eb = before_b.push(Event::Ask(qb));
    assert(ea.drop_last() =~= before_a);
    assert(eb.drop_last() =~= before_b);
    law_sessions_stay_faithful(sorter, scorer, listing, ea, a);
    law_sessions_stay_faithful(sorter, scorer, listing, eb, b);
    let sa = choose|s: Server|
        reached(sorter, scorer, listing, before_a, s) && #[trigger] step(
            sorter,
            scorer,
            s,
            Event::Ask(qa),
            a,
        );
    let sb = choose|s: Server|
        reached(sorter, scorer, listing, before_b, s) && #[trigger] step(
            sorter,
            scorer,
            s,
            Event::Ask(qb),
            b,
        );
    assert(asked(sorter, scorer, sa, qa, a));
    assert(asked(sorter, scorer, sb, qb, b));
    assert(a.keeps(qa) && b.keeps(qb));
    assert(a.order() == b.order());
    assert(views(a.entries@) == views(b.entries@));
    assert(a.entries.len() == a.entries@.len());
    lemma_same_answer(
        scorer,
        a.entries@,
        b.entries@,
        a.frec@,
        qa.query@,
        a.memo_ranked@,
        a.memo_maxw as nat,
        b.memo_ranked@,
        b.memo_maxw as nat,
    );
}

/// What is kept between requests does not show: a session in which only the
/// records were sent before the query gets the same reply.
pub proof fn law_earlier_queries_do_not_show<
    O: Fn(Vec<Entry>, Sorting) -> Vec<Entry>,
    S: Fn(&str, &str) -> Score,
>(
    sorter: O,
    scorer: S,
    listing: Seq<EntryView>,
    before: Seq<Event>,
    q: Query,
    a: Server,
    b: Server,
)
    requires
        sorts_consistently(sorter),
        consistent(scorer),
        reached(sorter, scorer, listing, before.push(Event::Ask(q)), a),
        reached(sorter, scorer, listing, records_of(before).push(Event::Ask(q)), b),
    ensures
        a.reply_text(q.from as nat, q.to as nat) == b.reply_text(q.from as nat, q.to as nat),
{
    lemma_journal_of_records(before);
    law_replies_depend_on_records_and_query(
        sorter,
        scorer,
        listing,
        before,
        records_of(before),
        q,
        q,
        a,
        b,
    );
}

/// After a query, what is kept is the answer to that query: the listing is in
/// the order that it asked for, and the ranking is that of its text and of the
/// records so far.
pub proof fn law_the_last_query_is_answered<
    O: Fn(Vec<Entry>, Sorting) -> Vec<Entry>,
    S: Fn(&str, &str) -> Score,
>(
    sorter: O,
    scorer: S,
    listing: Seq<EntryView>,
    before: Seq<Event>,
    q: Query,
    s: Server,
)
    requires
        reached(sorter, scorer, listing, before.push(Event::Ask(q)), s),
    ensures
        served(
            scorer,
            s.entries@,
            journal(before),
            q.query@,
            s.memo_ranked@,
            s.memo_maxw as nat,
        ),
        q.sort == 0 && !q.dirs_first && !q.reverse ==> views(s.entries@) == listing,
        q.sort == 1 ==> sorted_listing(sorter, listing, Sorting::ByExt, views(s.entries@)),
        q.sort == 2 ==> sorted_listing(sorter, listing, Sorting::BySize, views(s.entries@)),
        q.sort == 3 ==> sorted_listing(sorter, listing, Sorting::ByTime, views(s.entries@)),
        q.sort == 0 && (q.dirs_first || q.reverse) ==> sorted_listing(
            sorter,
            listing,
            (Sorting::Reorder { dirs_first: q.dirs_first, reverse: q.reverse }),
            views(s.entries@),
        ),
{
    let events = before.push(Event::Ask(q));
    assert(events.drop_last() =~= before);
    law_sessions_stay_faithful(sorter, scorer, listing, events, s);
    let sa = choose|x: Server|
        reached(sorter, scorer, listing, before, x) && #[trigger] step(
            sorter,
            scorer,
            x,
            Event::Ask(q),
            s,
        );
    assert(asked(sorter, scorer, sa, q, s));
    assert(s.keeps(q));
}

/// Whether the sorting function can bring a listing into an order.
pub open spec fn sorted_listing<O: Fn(Vec<Entry>, Sorting) -> Vec<Entry>>(
    sorter: O,
    listing: Seq<EntryView>,
    sorting: Sorting,
    entries: Seq<EntryView>,
) -> bool {
    exists|v: Vec<Entry>, r: Vec<Entry>|
        views(v@) == listing && views(r@) == entries && #[trigger] call_ensures(
            sorter,
            (v, sorting),
            r,
        )
}

/// The journal after a session holds for every path the last positive score
/// that was recorded for it, and nothing else.
pub proof fn law_the_last_score_of_a_path_counts(
    events: Seq<Event>,
    p: Option<Seq<u8>>,
    s: Option<Score>,
    q: Query,
    path: Seq<u8>,
)
    ensures
        journal(Seq::<Event>::empty()) == Map::<Seq<u8>, Score>::empty(),
        journal(events.push(Event::Ask(q))) == journal(events),
        ({
            let (before, after) = (journal(events), journal(events.push(Event::Record(p, s))));
            let counts = p == Some(path) && s is Some && s->0.key() > 0;
            &&& counts ==> after.contains_key(path) && after[path] == s->0
            &&& !counts ==> after.contains_key(path) == before.contains_key(path)
            &&& !counts && before.contains_key(path) ==> after[path] == before[path]
        }),
{
    assert(events.push(Event::Ask(q)).drop_last() =~= events);
    assert(events.push(Event::Record(p, s)).drop_last() =~= events);
}

} // verus!
