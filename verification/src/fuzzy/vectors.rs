//! Dump of a ranked corpus, for matchers that must agree with this one.
//!
//! Everything is deterministic on purpose: fixed score precision, labels and
//! queries carried in the dump, no timestamps.

use crate::fuzzy::decode::{
    decoded, lemma_decimal_reads, lemma_fraction_reads, lemma_line_decodes, lemma_list_reads,
    lemma_member_reads, lemma_object_reads, lemma_quoted_reads, lemma_truth_reads, reads, Json,
};
use crate::fuzzy::json::{
    bracket, list, member, object, quote, quoted, string_texts, truth, write_member, Lay,
};
use crate::fuzzy::rank::{
    consistent, label_texts, law_ranking_is_determined, law_ranking_is_ordered, match_views, rank,
    ranking, Anchor, Layout, Match, MatchView, RankOpts, Span,
};
use crate::fuzzy::WEIGHTS_VERSION;
use crate::number::{all_digits, decimal, is_digit, push_decimal};
use crate::score::{billionths, last_digits, magnitude, nine_decimals, Score};
use crate::text::{
    chars_of, chars_start_with, law_tight_texts_are_not_trimmed, lines, lines_of, starts_with,
    string_of, texts_of, trim, trim_front, trimmed, white_space,
};
pub use crate::fuzzy::json::json_escape;
use vstd::prelude::*;
use vstd::slice::slice_subrange;
use vstd::string::*;

verus! {

// ---------------------------------------------------------------------------
// The corpus
// ---------------------------------------------------------------------------

/// What follows a prefix on a line, without the white space around it.
pub open spec fn value_after(line: Seq<char>, prefix: Seq<char>) -> Option<Seq<char>> {
    let t = trimmed(line);
    if starts_with(t, prefix) {
        Some(trimmed(t.skip(prefix.len() as int)))
    } else {
        None
    }
}

/// The values behind a prefix, in the order of their lines.
pub open spec fn values_after(lines: Seq<Seq<char>>, prefix: Seq<char>) -> Seq<Seq<char>>
    decreases lines.len(),
{
    if lines.len() == 0 {
        Seq::empty()
    } else {
        let before = values_after(lines.drop_last(), prefix);
        match value_after(lines.last(), prefix) {
            Some(v) => before.push(v),
            None => before,
        }
    }
}

fn push_value(out: &mut Vec<String>, line: &[char], prefix: &str)
    ensures
        string_texts(final(out)@) == match value_after(line@, prefix@) {
            Some(v) => string_texts(old(out)@).push(v),
            None => string_texts(old(out)@),
        },
{
    let t = trim(line);
    let p = chars_of(prefix);
    if chars_start_with(t, p.as_slice()) {
        let rest = slice_subrange(t, p.len(), t.len());
        assert(rest@ == t@.skip(p@.len() as int));
        let v = string_of(trim(rest));
        let ghost before = out@;
        out.push(v);
        assert(string_texts(out@) =~= string_texts(before).push(v@));
    }
}

/// The labels and queries of a corpus, in file order. A label stands on a line
/// behind `label:`, a query behind `query:`; comments (`#`), empty lines and
/// all other lines hold neither.
pub fn parse_corpus(text: &str) -> (r: (Vec<String>, Vec<String>))
    ensures
        string_texts(r.0@) == values_after(lines_of(text@), "label:"@),
        string_texts(r.1@) == values_after(lines_of(text@), "query:"@),
{
    let chars = chars_of(text);
    let ls = lines(chars.as_slice());
    let mut labels: Vec<String> = Vec::new();
    let mut queries: Vec<String> = Vec::new();
    let ghost all = texts_of(ls@);
    let mut i: usize = 0;
    assert(string_texts(labels@) =~= values_after(all.take(0), "label:"@));
    assert(string_texts(queries@) =~= values_after(all.take(0), "query:"@));
    while i < ls.len()
        invariant
            i <= ls@.len(),
            all == texts_of(ls@),
            string_texts(labels@) == values_after(all.take(i as int), "label:"@),
            string_texts(queries@) == values_after(all.take(i as int), "query:"@),
        decreases ls@.len() - i,
    {
        let line = ls[i];
        assert(all.take(i + 1).drop_last() == all.take(i as int));
        assert(all.take(i + 1).last() == line@);
        push_value(&mut labels, line, "label:");
        push_value(&mut queries, line, "query:");
        i += 1;
    }
    assert(all.take(i as int) == all);
    (labels, queries)
}

// ---------------------------------------------------------------------------
// The dump
// ---------------------------------------------------------------------------

pub open spec fn anchor_text(anchor: Anchor) -> Seq<char> {
    match anchor {
        Anchor::Off => "none"@,
        Anchor::PrefixOnFirst => "prefix-on-first"@,
    }
}

pub open spec fn layout_text(layout: Layout) -> Seq<char> {
    match layout {
        Layout::Off => "off"@,
        Layout::RuToEnFallback => "ru-to-en-fallback"@,
    }
}

/// A span: its two ends.
pub open spec fn span_text(span: Span) -> Seq<char> {
    list(seq![decimal(span.0 as nat), decimal(span.1 as nat)], Lay::Flat)
}

pub open spec fn spans_text(spans: Seq<Span>) -> Seq<char> {
    list(spans.map_values(|s: Span| span_text(s)), Lay::Flat)
}

/// One result, on one line.
pub open spec fn result_text(labels: Seq<Seq<char>>, m: MatchView) -> Seq<char> {
    object(
        seq![
            member("index"@, decimal(m.index as nat)),
            member("label"@, quoted(labels[m.index as int])),
            member("score"@, nine_decimals(m.score@)),
            member("spans"@, spans_text(m.spans)),
        ],
        Lay::Flat,
    )
}

pub open spec fn results_text(labels: Seq<Seq<char>>, hits: Seq<MatchView>) -> Seq<char> {
    list(hits.map_values(|m: MatchView| result_text(labels, m)), Lay::Lines(6))
}

/// A query with its results.
pub open spec fn case_text(
    labels: Seq<Seq<char>>,
    query: Seq<char>,
    hits: Seq<MatchView>,
) -> Seq<char> {
    object(
        seq![member("query"@, quoted(query)), member("results"@, results_text(labels, hits))],
        Lay::Lines(4),
    )
}

pub open spec fn labels_text(labels: Seq<Seq<char>>) -> Seq<char> {
    list(labels.map_values(|l: Seq<char>| quoted(l)), Lay::Lines(2))
}

pub open spec fn cases_text(
    labels: Seq<Seq<char>>,
    queries: Seq<Seq<char>>,
    hits: Seq<Seq<MatchView>>,
) -> Seq<char> {
    list(
        Seq::new(queries.len(), |q: int| case_text(labels, queries[q], hits[q])),
        Lay::Lines(2),
    )
}

/// A whole dump: `hits` are the results of each query. The order of the members
/// is fixed.
pub open spec fn dump(
    labels: Seq<Seq<char>>,
    queries: Seq<Seq<char>>,
    opts: RankOpts,
    hits: Seq<Seq<MatchView>>,
) -> Seq<char> {
    object(
        seq![
            member("weights_version"@, decimal(WEIGHTS_VERSION as nat)),
            member("anchor"@, quoted(anchor_text(opts.anchor))),
            member("layout"@, quoted(layout_text(opts.layout))),
            member("fold_case"@, truth(opts.fold_case)),
            member("labels"@, labels_text(labels)),
            member("cases"@, cases_text(labels, queries, hits)),
        ],
        Lay::Lines(0),
    ) + seq!['\n']
}

pub fn anchor_name(anchor: Anchor) -> (r: &'static str)
    ensures
        r@ == anchor_text(anchor),
{
    match anchor {
        Anchor::Off => "none",
        Anchor::PrefixOnFirst => "prefix-on-first",
    }
}

pub fn layout_name(layout: Layout) -> (r: &'static str)
    ensures
        r@ == layout_text(layout),
{
    match layout {
        Layout::Off => "off",
        Layout::RuToEnFallback => "ru-to-en-fallback",
    }
}

fn numeral(n: usize) -> (out: String)
    ensures
        out@ == decimal(n as nat),
{
    let mut out = String::new();
    push_decimal(&mut out, n as u128);
    assert(out@ =~= decimal(n as nat));
    out
}

fn span_string(span: Span) -> (out: String)
    ensures
        out@ == span_text(span),
{
    let ends: Vec<String> = vec![numeral(span.0), numeral(span.1)];
    assert(string_texts(ends@) =~= seq![decimal(span.0 as nat), decimal(span.1 as nat)]);
    bracket(&ends, '[', ']', Lay::Flat)
}

fn spans_string(spans: &Vec<Span>) -> (out: String)
    ensures
        out@ == spans_text(spans@),
{
    let mut items: Vec<String> = Vec::new();
    let mut i: usize = 0;
    while i < spans.len()
        invariant
            i <= spans@.len(),
            items@.len() == i,
            forall|k: int| 0 <= k < i ==> (#[trigger] items@[k])@ == span_text(spans@[k]),
        decreases spans@.len() - i,
    {
        items.push(span_string(spans[i]));
        i += 1;
    }
    assert(string_texts(items@) =~= spans@.map_values(|s: Span| span_text(s)));
    bracket(&items, '[', ']', Lay::Flat)
}

fn result_string(labels: &[String], m: &Match) -> (out: String)
    requires
        m.index < labels@.len(),
    ensures
        out@ == result_text(string_texts(labels@), m@),
{
    assert(string_texts(labels@)[m.index as int] == labels@[m.index as int]@);
    let members: Vec<String> = vec![
        write_member("index", numeral(m.index).as_str()),
        write_member("label", quote(labels[m.index].as_str()).as_str()),
        write_member("score", m.score.to_text().as_str()),
        write_member("spans", spans_string(&m.spans).as_str()),
    ];
    assert(string_texts(members@) =~= seq![
        member("index"@, decimal(m.index as nat)),
        member("label"@, quoted(labels@[m.index as int]@)),
        member("score"@, nine_decimals(m.score@)),
        member("spans"@, spans_text(m.spans@)),
    ]);
    bracket(&members, '{', '}', Lay::Flat)
}

fn results_string(labels: &[String], hits: &Vec<Match>) -> (out: String)
    requires
        forall|k: int| 0 <= k < hits@.len() ==> (#[trigger] hits@[k]).index < labels@.len(),
    ensures
        out@ == results_text(string_texts(labels@), match_views(hits@)),
{
    let ghost texts = string_texts(labels@);
    let ghost views = match_views(hits@);
    let mut items: Vec<String> = Vec::new();
    let mut i: usize = 0;
    while i < hits.len()
        invariant
            i <= hits@.len(),
            texts == string_texts(labels@),
            forall|k: int| 0 <= k < hits@.len() ==> (#[trigger] hits@[k]).index < labels@.len(),
            items@.len() == i,
            forall|k: int| 0 <= k < i ==> (#[trigger] items@[k])@ == result_text(texts, hits@[k]@),
        decreases hits@.len() - i,
    {
        items.push(result_string(labels, &hits[i]));
        i += 1;
    }
    assert(string_texts(items@) =~= views.map_values(|m: MatchView| result_text(texts, m)));
    bracket(&items, '[', ']', Lay::Lines(6))
}

fn case_string(labels: &[String], query: &str, hits: &Vec<Match>) -> (out: String)
    requires
        forall|k: int| 0 <= k < hits@.len() ==> (#[trigger] hits@[k]).index < labels@.len(),
    ensures
        out@ == case_text(string_texts(labels@), query@, match_views(hits@)),
{
    let members: Vec<String> = vec![
        write_member("query", quote(query).as_str()),
        write_member("results", results_string(labels, hits).as_str()),
    ];
    assert(string_texts(members@) =~= seq![
        member("query"@, quoted(query@)),
        member("results"@, results_text(string_texts(labels@), match_views(hits@))),
    ]);
    bracket(&members, '{', '}', Lay::Lines(4))
}

fn labels_string(labels: &[String]) -> (out: String)
    ensures
        out@ == labels_text(string_texts(labels@)),
{
    let mut items: Vec<String> = Vec::new();
    let mut i: usize = 0;
    while i < labels.len()
        invariant
            i <= labels@.len(),
            items@.len() == i,
            forall|k: int| 0 <= k < i ==> (#[trigger] items@[k])@ == quoted(labels@[k]@),
        decreases labels@.len() - i,
    {
        items.push(quote(labels[i].as_str()));
        i += 1;
    }
    assert(string_texts(items@) =~= string_texts(labels@).map_values(|l: Seq<char>| quoted(l)));
    bracket(&items, '[', ']', Lay::Lines(2))
}

/// What the results of some queries are.
pub open spec fn hit_views(hits: Seq<Vec<Match>>) -> Seq<Seq<MatchView>> {
    hits.map_values(|h: Vec<Match>| match_views(h@))
}

/// Renders labels and the results of queries as JSON. Field order is fixed
/// and scores are printed with nine decimals, so two runs are byte-identical.
pub fn render_dump(
    labels: &[String],
    queries: &[String],
    opts: RankOpts,
    hits: &Vec<Vec<Match>>,
) -> (out: String)
    requires
        hits@.len() == queries@.len(),
        forall|q: int, k: int|
            0 <= q < hits@.len() && 0 <= k < hits@[q]@.len() ==> (#[trigger] hits@[q]@[k]).index
                < labels@.len(),
    ensures
        out@ == dump(string_texts(labels@), string_texts(queries@), opts, hit_views(hits@)),
{
    let ghost texts = string_texts(labels@);
    let ghost asked = string_texts(queries@);
    let ghost found = hit_views(hits@);
    let mut items: Vec<String> = Vec::new();
    let mut i: usize = 0;
    while i < queries.len()
        invariant
            i <= queries@.len(),
            hits@.len() == queries@.len(),
            texts == string_texts(labels@),
            asked == string_texts(queries@),
            found == hit_views(hits@),
            forall|q: int, k: int|
                0 <= q < hits@.len() && 0 <= k < hits@[q]@.len() ==> (
                #[trigger] hits@[q]@[k]).index < labels@.len(),
            items@.len() == i,
            forall|q: int|
                0 <= q < i ==> (#[trigger] items@[q])@ == case_text(texts, asked[q], found[q]),
        decreases queries@.len() - i,
    {
        assert(found[i as int] == match_views(hits@[i as int]@));
        assert(asked[i as int] == queries@[i as int]@);
        items.push(case_string(labels, queries[i].as_str(), &hits[i]));
        i += 1;
    }
    assert(string_texts(items@) =~= Seq::new(
        asked.len(),
        |q: int| case_text(texts, asked[q], found[q]),
    ));
    let cases = bracket(&items, '[', ']', Lay::Lines(2));
    let fold_case = if opts.fold_case {
        "true"
    } else {
        "false"
    };
    let members: Vec<String> = vec![
        write_member("weights_version", numeral(WEIGHTS_VERSION as usize).as_str()),
        write_member("anchor", quote(anchor_name(opts.anchor)).as_str()),
        write_member("layout", quote(layout_name(opts.layout)).as_str()),
        write_member("fold_case", fold_case),
        write_member("labels", labels_string(labels).as_str()),
        write_member("cases", cases.as_str()),
    ];
    assert(string_texts(members@) =~= seq![
        member("weights_version"@, decimal(WEIGHTS_VERSION as nat)),
        member("anchor"@, quoted(anchor_text(opts.anchor))),
        member("layout"@, quoted(layout_text(opts.layout))),
        member("fold_case"@, truth(opts.fold_case)),
        member("labels"@, labels_text(texts)),
        member("cases"@, cases_text(texts, asked, found)),
    ]);
    let mut out = bracket(&members, '{', '}', Lay::Lines(0));
    let ghost end = out@;
    out.push('\n');
    assert(out@ =~= end + seq!['\n']);
    out
}

/// `hits` are possible results of the queries.
pub open spec fn answers<S: Fn(&str, &str) -> (Score, Vec<Span>)>(
    scorer: S,
    labels: Seq<Seq<char>>,
    queries: Seq<Seq<char>>,
    opts: RankOpts,
    hits: Seq<Seq<MatchView>>,
) -> bool {
    &&& hits.len() == queries.len()
    &&& forall|q: int|
        0 <= q < queries.len() ==> ranking(scorer, labels, queries[q], opts, #[trigger] hits[q])
}

/// Ranks the labels against every query and renders what was found.
pub fn vectors_json<S: Fn(&str, &str) -> (Score, Vec<Span>)>(
    labels: &[String],
    queries: &[String],
    opts: RankOpts,
    scorer: &S,
) -> (out: String)
    requires
        forall|l: &str, q: &str| call_requires(*scorer, (l, q)),
    ensures
        exists|hits: Seq<Seq<MatchView>>|
            #[trigger] answers(
                *scorer,
                string_texts(labels@),
                string_texts(queries@),
                opts,
                hits,
            ) && out@ == dump(string_texts(labels@), string_texts(queries@), opts, hits),
{
    let ghost texts = string_texts(labels@);
    let ghost asked = string_texts(queries@);
    let mut refs: Vec<&str> = Vec::new();
    let mut i: usize = 0;
    while i < labels.len()
        invariant
            i <= labels@.len(),
            refs@.len() == i,
            forall|j: int| 0 <= j < i ==> (#[trigger] refs@[j])@ == labels@[j]@,
        decreases labels@.len() - i,
    {
        refs.push(labels[i].as_str());
        i += 1;
    }
    assert(label_texts(refs@) =~= texts);
    let mut hits: Vec<Vec<Match>> = Vec::new();
    let mut q: usize = 0;
    while q < queries.len()
        invariant
            q <= queries@.len(),
            refs@.len() == labels@.len() <= usize::MAX,
            label_texts(refs@) == texts,
            texts.len() == labels@.len(),
            asked == string_texts(queries@),
            forall|l: &str, q: &str| call_requires(*scorer, (l, q)),
            hits@.len() == q,
            forall|j: int|
                0 <= j < q ==> ranking(
                    *scorer,
                    texts,
                    asked[j],
                    opts,
                    match_views((#[trigger] hits@[j])@),
                ),
            forall|j: int, k: int|
                0 <= j < q && 0 <= k < hits@[j]@.len() ==> (#[trigger] hits@[j]@[k]).index
                    < labels@.len(),
        decreases queries@.len() - q,
    {
        let h = rank(refs.as_slice(), queries[q].as_str(), opts, scorer);
        let ghost views = match_views(h@);
        proof {
            if asked[q as int].len() > 0 {
                law_ranking_is_ordered(*scorer, texts, asked[q as int], opts, views);
            }
            assert forall|k: int| 0 <= k < h@.len() implies (#[trigger] h@[k]).index < labels@.len() by {
                assert(views[k].index == h@[k].index);
            }
        }
        hits.push(h);
        q += 1;
    }
    assert(answers(*scorer, texts, asked, opts, hit_views(hits@)));
    render_dump(labels, queries, opts, &hits)
}

/// With a scoring function that is a function, two dumps of one corpus are the
/// same text.
pub proof fn law_dumps_are_identical<S: Fn(&str, &str) -> (Score, Vec<Span>)>(
    scorer: S,
    labels: Seq<Seq<char>>,
    queries: Seq<Seq<char>>,
    opts: RankOpts,
    a: Seq<Seq<MatchView>>,
    b: Seq<Seq<MatchView>>,
)
    requires
        consistent(scorer),
        labels.len() <= usize::MAX,
        answers(scorer, labels, queries, opts, a),
        answers(scorer, labels, queries, opts, b),
    ensures
        dump(labels, queries, opts, a) == dump(labels, queries, opts, b),
{
    assert forall|q: int| 0 <= q < queries.len() implies a[q] == b[q] by {
        law_ranking_is_determined(scorer, labels, queries[q], opts, a[q], b[q]);
    }
    assert(a =~= b);
}

/// A line that begins with the prefix, white space aside, adds what follows it;
/// every other line adds nothing.
pub proof fn law_corpus_lines_add_their_value(
    lines: Seq<Seq<char>>,
    prefix: Seq<char>,
    value: Seq<char>,
    other: Seq<char>,
)
    requires
        prefix.len() > 0,
        !white_space(prefix[0]),
        value.len() > 0,
        !white_space(value[0]),
        !white_space(value.last()),
        other.len() > 0 ==> !white_space(other[0]) && !white_space(other.last()),
    ensures
        values_after(Seq::<Seq<char>>::empty(), prefix) == Seq::<Seq<char>>::empty(),
        values_after(lines.push(prefix + value), prefix) == values_after(lines, prefix).push(value),
        values_after(lines.push(prefix + seq![' '] + value), prefix) == values_after(
            lines,
            prefix,
        ).push(value),
        !starts_with(other, prefix) ==> values_after(lines.push(other), prefix) == values_after(
            lines,
            prefix,
        ),
{
    let (a, b) = (prefix + value, prefix + seq![' '] + value);
    assert(lines.push(a).drop_last() =~= lines);
    assert(lines.push(b).drop_last() =~= lines);
    assert(lines.push(other).drop_last() =~= lines);
    law_tight_texts_are_not_trimmed(a);
    law_tight_texts_are_not_trimmed(b);
    law_tight_texts_are_not_trimmed(other);
    law_tight_texts_are_not_trimmed(value);
    assert(a.take(prefix.len() as int) =~= prefix);
    assert(b.take(prefix.len() as int) =~= prefix);
    assert(a.skip(prefix.len() as int) =~= value);
    let rest = b.skip(prefix.len() as int);
    assert(rest =~= seq![' '] + value);
    assert(rest.drop_first() =~= value);
    assert(white_space(' '));
    assert(trim_front(rest) == trim_front(value));
}

// ---------------------------------------------------------------------------
// What a dump says
// ---------------------------------------------------------------------------

pub open spec fn number_value(n: nat) -> Json {
    Json::Number(decimal(n))
}

pub open spec fn span_value(span: Span) -> Json {
    Json::List(seq![number_value(span.0 as nat), number_value(span.1 as nat)])
}

pub open spec fn result_value(labels: Seq<Seq<char>>, m: MatchView) -> Json {
    Json::Object(
        seq![
            ("index"@, number_value(m.index as nat)),
            ("label"@, Json::Text(labels[m.index as int])),
            ("score"@, Json::Number(nine_decimals(m.score@))),
            ("spans"@, Json::List(m.spans.map_values(|s: Span| span_value(s)))),
        ],
    )
}

pub open spec fn case_value(
    labels: Seq<Seq<char>>,
    query: Seq<char>,
    hits: Seq<MatchView>,
) -> Json {
    Json::Object(
        seq![
            ("query"@, Json::Text(query)),
            ("results"@, Json::List(hits.map_values(|m: MatchView| result_value(labels, m)))),
        ],
    )
}

/// The labels in order, and for each query in order the results in theirs.
pub open spec fn dump_value(
    labels: Seq<Seq<char>>,
    queries: Seq<Seq<char>>,
    opts: RankOpts,
    hits: Seq<Seq<MatchView>>,
) -> Json {
    Json::Object(
        seq![
            ("weights_version"@, number_value(WEIGHTS_VERSION as nat)),
            ("anchor"@, Json::Text(anchor_text(opts.anchor))),
            ("layout"@, Json::Text(layout_text(opts.layout))),
            ("fold_case"@, Json::Truth(opts.fold_case)),
            ("labels"@, Json::List(labels.map_values(|l: Seq<char>| Json::Text(l)))),
            (
                "cases"@,
                Json::List(
                    Seq::new(queries.len(), |q: int| case_value(labels, queries[q], hits[q])),
                ),
            ),
        ],
    )
}

/// Whether no score is infinite. JSON has no numbers for those.
pub open spec fn is_finite(m: MatchView) -> bool {
    magnitude(m.score@) != 0x7ff0_0000_0000_0000
}

proof fn lemma_last_digits(n: nat, k: nat)
    ensures
        last_digits(n, k).len() == k,
        all_digits(last_digits(n, k)),
    decreases k,
{
    if k > 0 {
        lemma_last_digits(n / 10, (k - 1) as nat);
        let front = last_digits(n / 10, (k - 1) as nat);
        let all = last_digits(n, k);
        assert forall|i: int| 0 <= i < all.len() implies is_digit(#[trigger] all[i]) by {
            if i < front.len() {
                assert(all[i] == front[i]);
            }
        }
    }
}

proof fn lemma_score_reads(m: MatchView)
    requires
        is_finite(m),
    ensures
        reads(nine_decimals(m.score@), Json::Number(nine_decimals(m.score@))),
{
    let bits = m.score@;
    let n = billionths(bits);
    lemma_last_digits(n % 1_000_000_000, 9);
    lemma_fraction_reads(
        bits >= 0x8000_0000_0000_0000,
        n / 1_000_000_000,
        last_digits(n % 1_000_000_000, 9),
    );
}

proof fn lemma_span_reads(span: Span)
    ensures
        reads(span_text(span), span_value(span)),
{
    lemma_decimal_reads(span.0 as nat);
    lemma_decimal_reads(span.1 as nat);
    lemma_list_reads(
        seq![decimal(span.0 as nat), decimal(span.1 as nat)],
        seq![number_value(span.0 as nat), number_value(span.1 as nat)],
        Lay::Flat,
    );
}

proof fn lemma_spans_read(spans: Seq<Span>)
    ensures
        reads(spans_text(spans), Json::List(spans.map_values(|s: Span| span_value(s)))),
{
    let items = spans.map_values(|s: Span| span_text(s));
    let vals = spans.map_values(|s: Span| span_value(s));
    assert forall|k: int| 0 <= k < items.len() implies reads(#[trigger] items[k], vals[k]) by {
        lemma_span_reads(spans[k]);
    }
    lemma_list_reads(items, vals, Lay::Flat);
}

proof fn lemma_result_reads(labels: Seq<Seq<char>>, m: MatchView)
    requires
        is_finite(m),
    ensures
        reads(result_text(labels, m), result_value(labels, m)),
{
    let label = labels[m.index as int];
    let spans = Json::List(m.spans.map_values(|s: Span| span_value(s)));
    lemma_decimal_reads(m.index as nat);
    lemma_quoted_reads(label);
    lemma_score_reads(m);
    lemma_spans_read(m.spans);
    lemma_member_reads("index"@, decimal(m.index as nat), number_value(m.index as nat));
    lemma_member_reads("label"@, quoted(label), Json::Text(label));
    lemma_member_reads(
        "score"@,
        nine_decimals(m.score@),
        Json::Number(nine_decimals(m.score@)),
    );
    lemma_member_reads("spans"@, spans_text(m.spans), spans);
    lemma_object_reads(
        seq![
            member("index"@, decimal(m.index as nat)),
            member("label"@, quoted(label)),
            member("score"@, nine_decimals(m.score@)),
            member("spans"@, spans_text(m.spans)),
        ],
        seq![
            ("index"@, number_value(m.index as nat)),
            ("label"@, Json::Text(label)),
            ("score"@, Json::Number(nine_decimals(m.score@))),
            ("spans"@, spans),
        ],
        Lay::Flat,
    );
}

proof fn lemma_case_reads(labels: Seq<Seq<char>>, query: Seq<char>, hits: Seq<MatchView>)
    requires
        forall|k: int| 0 <= k < hits.len() ==> is_finite(#[trigger] hits[k]),
    ensures
        reads(case_text(labels, query, hits), case_value(labels, query, hits)),
{
    let items = hits.map_values(|m: MatchView| result_text(labels, m));
    let vals = hits.map_values(|m: MatchView| result_value(labels, m));
    assert forall|k: int| 0 <= k < items.len() implies reads(#[trigger] items[k], vals[k]) by {
        lemma_result_reads(labels, hits[k]);
    }
    lemma_list_reads(items, vals, Lay::Lines(6));
    lemma_quoted_reads(query);
    lemma_member_reads("query"@, quoted(query), Json::Text(query));
    lemma_member_reads("results"@, results_text(labels, hits), Json::List(vals));
    lemma_object_reads(
        seq![member("query"@, quoted(query)), member("results"@, results_text(labels, hits))],
        seq![("query"@, Json::Text(query)), ("results"@, Json::List(vals))],
        Lay::Lines(4),
    );
}

proof fn lemma_labels_read(labels: Seq<Seq<char>>)
    ensures
        reads(
            labels_text(labels),
            Json::List(labels.map_values(|l: Seq<char>| Json::Text(l))),
        ),
{
    let items = labels.map_values(|l: Seq<char>| quoted(l));
    let vals = labels.map_values(|l: Seq<char>| Json::Text(l));
    assert forall|k: int| 0 <= k < items.len() implies reads(#[trigger] items[k], vals[k]) by {
        lemma_quoted_reads(labels[k]);
    }
    lemma_list_reads(items, vals, Lay::Lines(2));
}

/// A dump is JSON: it decodes to the labels, the queries and their results, each
/// in order. The scores are finite; JSON has no numbers for the others.
pub proof fn law_dumps_are_json(
    labels: Seq<Seq<char>>,
    queries: Seq<Seq<char>>,
    opts: RankOpts,
    hits: Seq<Seq<MatchView>>,
)
    requires
        hits.len() == queries.len(),
        forall|q: int, k: int|
            0 <= q < hits.len() && 0 <= k < hits[q].len() ==> is_finite(#[trigger] hits[q][k]),
    ensures
        decoded(dump(labels, queries, opts, hits)) == Some(
            dump_value(labels, queries, opts, hits),
        ),
{
    let items = Seq::new(queries.len(), |q: int| case_text(labels, queries[q], hits[q]));
    let vals = Seq::new(queries.len(), |q: int| case_value(labels, queries[q], hits[q]));
    assert forall|q: int| 0 <= q < items.len() implies reads(#[trigger] items[q], vals[q]) by {
        lemma_case_reads(labels, queries[q], hits[q]);
    }
    lemma_list_reads(items, vals, Lay::Lines(2));
    lemma_labels_read(labels);
    lemma_decimal_reads(WEIGHTS_VERSION as nat);
    lemma_quoted_reads(anchor_text(opts.anchor));
    lemma_quoted_reads(layout_text(opts.layout));
    lemma_truth_reads(opts.fold_case);
    let names = Json::List(labels.map_values(|l: Seq<char>| Json::Text(l)));
    let version = WEIGHTS_VERSION as nat;
    let (anchor, layout) = (anchor_text(opts.anchor), layout_text(opts.layout));
    lemma_member_reads("weights_version"@, decimal(version), number_value(version));
    lemma_member_reads("anchor"@, quoted(anchor), Json::Text(anchor));
    lemma_member_reads("layout"@, quoted(layout), Json::Text(layout));
    lemma_member_reads("fold_case"@, truth(opts.fold_case), Json::Truth(opts.fold_case));
    lemma_member_reads("labels"@, labels_text(labels), names);
    lemma_member_reads("cases"@, cases_text(labels, queries, hits), Json::List(vals));
    let members = seq![
        member("weights_version"@, decimal(version)),
        member("anchor"@, quoted(anchor)),
        member("layout"@, quoted(layout)),
        member("fold_case"@, truth(opts.fold_case)),
        member("labels"@, labels_text(labels)),
        member("cases"@, cases_text(labels, queries, hits)),
    ];
    lemma_object_reads(
        members,
        seq![
            ("weights_version"@, number_value(version)),
            ("anchor"@, Json::Text(anchor)),
            ("layout"@, Json::Text(layout)),
            ("fold_case"@, Json::Truth(opts.fold_case)),
            ("labels"@, names),
            ("cases"@, Json::List(vals)),
        ],
        Lay::Lines(0),
    );
    lemma_line_decodes(object(members, Lay::Lines(0)), dump_value(labels, queries, opts, hits));
}

} // verus!
