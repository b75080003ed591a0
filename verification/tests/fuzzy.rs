//! Ranking of plain labels: layout, anchor, folding, spans and the dump.

use lusty::fuzzy::layout::{normalize_query_char, ru_to_en};
use lusty::fuzzy::rank::{
    candidate, fold_with_map, join_with_map, merge_readings, normalize_query, order_candidates, rank, unmap_spans,
    Anchor, Layout, Match, RankOpts,
};
use lusty::fuzzy::vectors::{
    anchor_name, json_escape, layout_name, parse_corpus, render_dump, vectors_json,
};
use lusty::fuzzy::WEIGHTS_VERSION;
use lusty::score::Score;

const MENU: &[&str] = &[
    "Open in browser",
    "Open in terminal",
    "Lock screen",
    "Take screenshot",
    "Preferences",
    "Power off",
];

const CORPUS: &str =
    "# c\nlabel: Open in browser\nquery: op\n\nlabel: Lock screen\nquery: lock\n# tail\n";

const LONG_CORPUS: &str = "\
# labels
label: Open in browser
label: Open in terminal
label: Lock screen
label: Take screenshot
label: Preferences
label: Power off
label: Bluetooth
label: Network settings
label: Sound
label: Настройки
label: Показать скрытые файлы
label: Show hidden files
label: Quit
label: About
label: New window
label: New tab
label: Close tab
label: Copy link address
label: Paste
label: Select all
# queries
query: op
query: b
query: lock
query: щз
query: настр
query: zzzz
query: t s
query: pref
query: n
query: se
";

fn score_of(x: f64) -> Score {
    Score::from_bits(x.to_bits()).unwrap()
}

fn value_of(s: Score) -> f64 {
    f64::from_bits(s.to_bits())
}

/// The leftmost occurrence of the query's bytes, in order and without regard
/// to ASCII case: better at the start of the label, worse in longer labels.
fn marks(label: &str, query: &str) -> (Score, Vec<(usize, usize)>) {
    if query.is_empty() {
        return (score_of(0.75), Vec::new());
    }
    let hay = label.as_bytes();
    let mut spans: Vec<(usize, usize)> = Vec::new();
    let mut at = 0;
    for q in query.bytes() {
        while at < hay.len() && !hay[at].eq_ignore_ascii_case(&q) {
            at += 1;
        }
        if at == hay.len() {
            return (score_of(0.0), Vec::new());
        }
        match spans.last_mut() {
            Some(last) if last.1 == at => last.1 = at + 1,
            _ => spans.push((at, at + 1)),
        }
        at += 1;
    }
    let start = if spans[0].0 == 0 { 0.9 } else { 0.5 };
    let score = start - 0.05 * (spans.len() - 1) as f64 - 0.001 * hay.len() as f64;
    (score_of(score), spans)
}

fn corpus() -> (Vec<String>, Vec<String>) {
    parse_corpus(LONG_CORPUS)
}

#[test]
fn layout_ru_layout_maps_to_en() {
    assert_eq!(normalize_query_char('и'), Some('b'));
    assert_eq!(normalize_query_char('ю'), Some('.'));
    assert_eq!(normalize_query_char('б'), Some(','));
    assert_eq!(normalize_query_char('е'), Some('t'));
    // Uppercase RU (Shift) maps to uppercase EN.
    assert_eq!(normalize_query_char('И'), Some('B'));
    // EN letters pass through.
    assert_eq!(normalize_query_char('b'), Some('b'));
    assert_eq!(normalize_query_char('.'), Some('.'));
}

#[test]
fn layout_non_ascii_unmapped_is_dropped() {
    assert_eq!(normalize_query_char('ä'), None);
}

#[test]
fn whole_ru_row_maps() {
    let ru = "йцукенгшщзхъфывапролджэячсмитьбю";
    for c in ru.chars() {
        let m = ru_to_en(c).unwrap_or_else(|| panic!("no mapping for {c}"));
        assert!(m.is_ascii_graphic() || m == ' ', "{c} -> {m:?}");
    }
}

#[test]
fn every_russian_letter_follows_the_stated_case_mapping() {
    for u in 0x0410u32..=0x042f {
        let capital = char::from_u32(u).unwrap();
        let small = char::from_u32(u + 0x20).unwrap();
        let key = ru_to_en(small).unwrap();
        assert_eq!(normalize_query_char(small), Some(key));
        assert_eq!(normalize_query_char(capital), Some(key.to_ascii_uppercase()));
    }
}

#[test]
fn ascii_passes_or_is_dropped() {
    for b in 0u8..128 {
        let c = b as char;
        let want = if (32..=126).contains(&b) { Some(c) } else { None };
        assert_eq!(normalize_query_char(c), want);
    }
    assert_eq!(ru_to_en('q'), None);
    assert_eq!(normalize_query_char('ё'), None);
    assert_eq!(normalize_query_char('İ'), Some('I'));
}

#[test]
fn normalizing_a_query_keeps_what_the_layout_knows() {
    assert_eq!(normalize_query("щз"), "op");
    assert_eq!(normalize_query("ЩЗ ä b"), "OP  b");
    assert_eq!(normalize_query(""), "");
    assert_eq!(normalize_query(&normalize_query("Привет, мир")), normalize_query("Привет, мир"));
}

#[test]
fn the_two_policies() {
    let menus = RankOpts::for_menus();
    assert_eq!(menus.anchor, Anchor::Off);
    assert_eq!(menus.layout, Layout::RuToEnFallback);
    assert!(menus.fold_case);
    let files = RankOpts::for_files();
    assert_eq!(files.anchor, Anchor::PrefixOnFirst);
    assert_eq!(files.layout, Layout::RuToEnFallback);
    assert!(!files.fold_case);
    assert_eq!(RankOpts::default(), files);
}

#[test]
fn anchor_off_finds_mid_word_hits() {
    let hits = rank(MENU, "b", RankOpts::for_menus(), &marks);
    let labels: Vec<&str> = hits.iter().map(|m| MENU[m.index]).collect();
    assert!(labels.contains(&"Open in browser"), "{labels:?}");
}

#[test]
fn anchor_on_drops_them() {
    let hits = rank(MENU, "b", RankOpts::for_files(), &marks);
    assert!(hits.is_empty(), "{:?}", hits.len());
}

#[test]
fn start_of_label_outranks_middle() {
    let hits = rank(MENU, "o", RankOpts::for_menus(), &marks);
    assert_eq!(MENU[hits[0].index], "Open in browser");
    assert!(hits.len() >= 3, "{hits:?}");
}

#[test]
fn empty_query_keeps_input_order() {
    let hits = rank(MENU, "", RankOpts::for_menus(), &marks);
    assert_eq!(hits.len(), MENU.len());
    assert!(hits.iter().enumerate().all(|(i, m)| m.index == i));
    assert!(hits.iter().all(|m| m.spans.is_empty() && value_of(m.score) == 0.75));
}

#[test]
fn ru_layout_query_also_matches_en_labels() {
    // "щз" is what "op" looks like when typed in the RU layout.
    let hits = rank(MENU, "щз", RankOpts::for_menus(), &marks);
    let top = MENU[hits[0].index];
    assert_eq!(top, "Open in browser", "{hits:?}");
}

#[test]
fn lowercase_cyrillic_query_finds_an_uppercase_label() {
    let labels = &["Настройки", "Показать скрытые файлы"];
    let hits = rank(labels, "настр", RankOpts::for_menus(), &marks);
    assert_eq!(hits.len(), 1, "{hits:?}");
    assert_eq!(labels[hits[0].index], "Настройки");
    // Byte offsets into the label itself: the two-byte letters of "настр".
    assert_eq!(hits[0].spans, vec![(0, 10)], "{:?}", hits[0].spans);
}

#[test]
fn file_pickers_keep_the_byte_semantics() {
    let labels = &["Настройки", "Settings"];
    let hits = rank(labels, "настр", RankOpts::for_files(), &marks);
    assert!(hits.is_empty(), "{hits:?}");
}

#[test]
fn literal_cyrillic_query_finds_the_cyrillic_label() {
    let labels = &["Показать скрытые файлы", "Show hidden files"];
    let hits = rank(labels, "скр", RankOpts::for_menus(), &marks);
    assert!(
        hits.iter()
            .any(|m| labels[m.index] == "Показать скрытые файлы"),
        "{hits:?}"
    );
}

#[test]
fn spans_are_reported_for_the_top_hit() {
    // Adjacent matches coalesce into one run: "pref" starts "Preferences".
    let hits = rank(MENU, "pref", RankOpts::for_menus(), &marks);
    assert_eq!(hits[0].spans, vec![(0, 4)]);
    // Disjoint matches stay separate runs.
    let hits = rank(MENU, "t s", RankOpts::for_menus(), &marks);
    assert_eq!(hits[0].index, 3, "expected Take screenshot");
    assert!(hits[0].spans.len() >= 2, "{:?}", hits[0].spans);
}

#[test]
fn both_readings_of_a_query_are_ranked() {
    // "фы" hits the second label as it stands and the first through its keys.
    let labels = &["as", "фы", "neither"];
    let hits = rank(labels, "фы", RankOpts::for_menus(), &marks);
    let mut found: Vec<usize> = hits.iter().map(|m| m.index).collect();
    found.sort();
    assert_eq!(found, vec![0, 1]);
    let off = RankOpts { layout: Layout::Off, ..RankOpts::for_menus() };
    let literal = rank(labels, "фы", off, &marks);
    assert_eq!(literal.len(), 1);
    assert_eq!(literal[0].index, 1);
}

#[test]
fn labels_match_on_their_own() {
    let (labels, queries) = corpus();
    let refs: Vec<&str> = labels.iter().map(|s| s.as_str()).collect();
    for opts in [RankOpts::for_menus(), RankOpts::for_files()] {
        for query in queries.iter().map(|q| q.as_str()).chain([""]) {
            let all = rank(&refs, query, opts, &marks);
            for (i, label) in refs.iter().enumerate() {
                let one = rank(&[label], query, opts, &marks);
                let want: Vec<Match> = all
                    .iter()
                    .filter(|m| m.index == i)
                    .map(|m| Match { index: 0, ..m.clone() })
                    .collect();
                assert_eq!(one, want, "{label:?} / {query:?}");
            }
        }
    }
}

#[test]
fn the_fallback_joins_both_readings() {
    let labels = &["as", "фы", "фыas", "Фы as", "neither"];
    let opts = RankOpts::for_menus();
    let off = RankOpts { layout: Layout::Off, ..opts };
    let both = rank(labels, "фы", opts, &marks);
    let literal = rank(labels, "фы", off, &marks);
    let mapped = rank(labels, &normalize_query("фы"), off, &marks);
    for i in 0..labels.len() {
        let of = |ms: &Vec<Match>| ms.iter().find(|m| m.index == i).cloned();
        let want = match (of(&literal), of(&mapped)) {
            (Some(a), Some(b)) if value_of(b.score) > value_of(a.score) => Some(b),
            (Some(a), _) => Some(a),
            (None, b) => b,
        };
        assert_eq!(of(&both), want, "{:?}", labels[i]);
    }
    assert_eq!(both.len(), 4);
}

#[test]
fn the_better_reading_of_a_label_is_kept() {
    let m = |index: usize, score: f64, end: usize| {
        Some(Match { index, score: score_of(score), spans: vec![(0, end)] })
    };
    let a = vec![m(0, 0.5, 1), None, m(2, 0.25, 1), None];
    let b = vec![m(0, 0.5, 2), m(1, -0.5, 2), m(2, 0.75, 2), None];
    let both = merge_readings(&a, &b);
    assert_eq!(both, vec![m(0, 0.5, 1), m(1, -0.5, 2), m(2, 0.75, 2), None]);
    let order: Vec<usize> = order_candidates(&both).iter().map(|m| m.index).collect();
    assert_eq!(order, vec![2, 0, 1]);
}

#[test]
fn ties_keep_the_input_order() {
    let flat = |label: &str, _: &str| {
        let s = if label == "drop" { 0.0 } else { 0.5 };
        (score_of(s), Vec::new())
    };
    let hits = rank(&["b", "drop", "a", "c"], "x", RankOpts::for_menus(), &flat);
    let order: Vec<usize> = hits.iter().map(|m| m.index).collect();
    assert_eq!(order, vec![0, 2, 3]);
}

#[test]
fn a_zero_score_is_no_match() {
    let opts = RankOpts::for_menus();
    assert_eq!(candidate("x", 4, opts, (score_of(0.0), vec![(0, 1)])), None);
    assert_eq!(candidate("x", 4, opts, (score_of(-0.0), vec![(0, 1)])), None);
    let m = candidate("x", 4, opts, (score_of(-0.25), vec![(0, 1)])).unwrap();
    assert_eq!((m.index, m.spans), (4, vec![(0, 1)]));
}

#[test]
fn folding_remembers_where_bytes_came_from() {
    let (text, map) = fold_with_map("ЁaİB");
    assert_eq!(text, "ёai\u{307}b");
    assert_eq!(map, vec![0, 0, 2, 3, 3, 3, 5, 6]);
    assert_eq!(fold_with_map(""), (String::new(), vec![0]));
}

#[test]
fn joined_parts_remember_their_characters() {
    let parts = vec![vec!['x', 'щ'], vec![], vec!['y']];
    assert_eq!(join_with_map("щab", &parts), ("xщy".to_string(), vec![0, 0, 0, 3, 4]));
}

#[test]
fn folded_spans_are_mapped_back() {
    let (_, map) = fold_with_map("ЁaİB");
    // The letter with a dot folds to three bytes of one character.
    assert_eq!(unmap_spans(&vec![(2, 3), (3, 6)], &map), vec![(2, 5)]);
    assert_eq!(unmap_spans(&vec![(0, 2), (6, 7)], &map), vec![(0, 2), (5, 6)]);
    assert_eq!(unmap_spans(&vec![(90, 91)], &map), vec![(0, 0)]);
    assert_eq!(unmap_spans(&vec![(2, 91)], &map), vec![(2, 2)]);
}

#[test]
fn corpus_parses_labels_and_queries() {
    let (labels, queries) = parse_corpus(CORPUS);
    assert_eq!(labels, vec!["Open in browser", "Lock screen"]);
    assert_eq!(queries, vec!["op", "lock"]);
}

#[test]
fn corpus_lines_are_trimmed() {
    let (labels, queries) = parse_corpus("\u{a0} label:\t a b \r\n#label: no\nqueries: no\nquery:");
    assert_eq!(labels, vec!["a b"]);
    assert_eq!(queries, vec![""]);
}

#[test]
fn dump_is_deterministic() {
    let (labels, queries) = parse_corpus(CORPUS);
    let a = vectors_json(&labels, &queries, RankOpts::for_menus(), &marks);
    let b = vectors_json(&labels, &queries, RankOpts::for_menus(), &marks);
    assert_eq!(a, b);
    assert!(a.contains("\"weights_version\": 1"));
    assert!(a.contains("\"anchor\": \"none\""));
    assert!(a.contains("\"fold_case\": true"));
    assert!(a.contains("\"score\": 0."));
}

#[test]
fn dump_carries_the_labels_it_ranked() {
    let (labels, queries) = parse_corpus(CORPUS);
    let json = vectors_json(&labels, &queries, RankOpts::for_menus(), &marks);
    for label in &labels {
        assert!(json.contains(label), "{label} missing");
    }
}

#[test]
fn escaping_survives_quotes_and_backslashes() {
    assert_eq!(json_escape("a\"b\\c"), "a\\\"b\\\\c");
}

#[test]
fn escaping_covers_control_characters() {
    assert_eq!(json_escape("\n\t\r\u{1}\u{1f}\u{7f}щ"), "\\n\\t\\r\\u0001\\u001f\u{7f}щ");
}

#[test]
fn policy_names() {
    assert_eq!(anchor_name(Anchor::Off), "none");
    assert_eq!(anchor_name(Anchor::PrefixOnFirst), "prefix-on-first");
    assert_eq!(layout_name(Layout::Off), "off");
    assert_eq!(layout_name(Layout::RuToEnFallback), "ru-to-en-fallback");
}

#[test]
fn a_whole_dump() {
    let labels = vec!["a\"b".to_string(), "c".to_string()];
    let queries = vec!["q".to_string(), "".to_string()];
    let hits = vec![
        vec![
            Match { index: 1, score: score_of(0.75), spans: vec![(0, 1), (3, 12)] },
            Match { index: 0, score: score_of(-0.024), spans: vec![] },
        ],
        vec![],
    ];
    let opts = RankOpts { anchor: Anchor::PrefixOnFirst, layout: Layout::Off, fold_case: false };
    let want = "{\n  \"weights_version\": 1,\n  \"anchor\": \"prefix-on-first\",\n  \"layout\": \"off\",\n  \"fold_case\": false,\n  \"labels\": [\n    \"a\\\"b\",\n    \"c\"\n  ],\n  \"cases\": [\n    {\n      \"query\": \"q\",\n      \"results\": [\n        {\"index\": 1, \"label\": \"c\", \"score\": 0.750000000, \"spans\": [[0, 1], [3, 12]]},\n        {\"index\": 0, \"label\": \"a\\\"b\", \"score\": -0.024000000, \"spans\": []}\n      ]\n    },\n    {\n      \"query\": \"\",\n      \"results\": [\n      ]\n    }\n  ]\n}\n";
    assert_eq!(render_dump(&labels, &queries, opts, &hits), want);
}

#[test]
fn corpus_is_not_empty() {
    let (labels, queries) = corpus();
    assert!(labels.len() >= 20, "labels: {}", labels.len());
    assert!(queries.len() >= 10, "queries: {}", queries.len());
    assert_eq!(WEIGHTS_VERSION, 1);
}

#[test]
fn spans_cover_exactly_the_query_bytes() {
    let (labels, queries) = corpus();
    let refs: Vec<&str> = labels.iter().map(|s| s.as_str()).collect();
    let literal = RankOpts { layout: Layout::Off, ..RankOpts::for_menus() };
    for query in &queries {
        for m in rank(&refs, query, literal, &marks) {
            let label = refs[m.index];
            let spans = m.spans;
            let covered: usize = spans.iter().map(|(a, b)| b - a).sum();
            assert_eq!(covered, query.len(), "{label:?} / {query:?}: {spans:?}");
            assert!(spans.windows(2).all(|w| w[0].1 <= w[1].0), "{spans:?}");
            assert!(spans.last().unwrap().1 <= label.len());
        }
    }
}

#[test]
fn ranking_is_deterministic_and_ordered() {
    let (labels, queries) = corpus();
    let refs: Vec<&str> = labels.iter().map(|s| s.as_str()).collect();
    for query in &queries {
        let a = rank(&refs, query, RankOpts::for_menus(), &marks);
        let b = rank(&refs, query, RankOpts::for_menus(), &marks);
        assert_eq!(a, b, "not deterministic for {query:?}");
        assert!(
            a.windows(2).all(|w| value_of(w[0].score) >= value_of(w[1].score)),
            "unordered for {query:?}"
        );
        // Scores may be negative; only an exact zero means "no match".
        assert!(a.iter().all(|m| value_of(m.score) != 0.0));
        if query == "zzzz" {
            assert!(a.is_empty(), "{a:?}");
        }
    }
}

#[test]
fn anchor_policy_changes_the_candidate_set() {
    let (labels, _) = corpus();
    let refs: Vec<&str> = labels.iter().map(|s| s.as_str()).collect();
    let loose = rank(
        &refs,
        "b",
        RankOpts { anchor: Anchor::Off, ..RankOpts::for_menus() },
        &marks,
    );
    let strict = rank(
        &refs,
        "b",
        RankOpts { anchor: Anchor::PrefixOnFirst, ..RankOpts::for_menus() },
        &marks,
    );
    assert!(
        loose.len() > strict.len(),
        "{} vs {}",
        loose.len(),
        strict.len()
    );
    assert!(loose.iter().any(|m| labels[m.index] == "Open in browser"));
    assert!(strict.iter().all(|m| labels[m.index].starts_with('B')));
}

#[test]
fn dump_is_byte_identical_between_runs() {
    let (labels, queries) = corpus();
    let a = vectors_json(&labels, &queries, RankOpts::for_menus(), &marks);
    let b = vectors_json(&labels, &queries, RankOpts::for_menus(), &marks);
    assert_eq!(a, b);
    assert!(a.contains("\"query\": \"щз\""), "RU-layout case missing");
}
