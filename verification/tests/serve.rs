//! The backend: ranking of listings, frecency, the line protocol.

use lusty::frecency::Frecency;
use lusty::listing::{copy_entries, Entry, FileKind};
use lusty::protocol::{parse_request, preview_line, unescape_bytes, write_escaped, Query, Request};
use lusty::rank::{char_count, order_by_frecency, order_hits, rank_indices, rank_indices_mw};
use lusty::score::Score;
use lusty::serve::{apply_sort, banner_for, meta_reply, preview_reply, Pane, Server, Sorting};

const ROOT: &str = "/tmp/root";

fn score_of(x: f64) -> Score {
    Score::from_bits(x.to_bits()).unwrap()
}

/// In-order occurrence without regard to ASCII case: the share of the label
/// that the query covers, or zero.
fn plain(label: &str, query: &str) -> Score {
    let hay = label.as_bytes();
    let mut at = 0;
    for q in query.bytes() {
        while at < hay.len() && !hay[at].eq_ignore_ascii_case(&q) {
            at += 1;
        }
        if at == hay.len() {
            return score_of(0.0);
        }
        at += 1;
    }
    score_of(query.len() as f64 / (hay.len() + 1) as f64)
}

fn raw_entry(rel: &[u8], kind: FileKind) -> Entry {
    let label = String::from_utf8_lossy(rel).into_owned();
    let basename = label.rsplit('/').next().unwrap().to_string();
    let raw_basename = rel.rsplit(|&b| b == b'/').next().unwrap().to_vec();
    let mut path = ROOT.as_bytes().to_vec();
    path.push(b'/');
    path.extend_from_slice(rel);
    Entry {
        name0: raw_basename[0].to_ascii_lowercase(),
        depth: rel.iter().filter(|&&b| b == b'/').count() + 1,
        label,
        basename,
        raw_basename,
        path,
        kind,
    }
}

fn entry(rel: &str, kind: FileKind) -> Entry {
    raw_entry(rel.as_bytes(), kind)
}

/// A listing in canonical order: by depth, then by name.
fn fixture() -> Vec<Entry> {
    vec![
        entry("alpha.txt", FileKind::File),
        entry("beta.lua", FileKind::File),
        entry("pic.jpg", FileKind::File),
        entry("sub", FileKind::Dir),
        entry("sub/gamma.txt", FileKind::File),
    ]
}

fn key(rel: &str) -> Vec<u8> {
    format!("{ROOT}/{rel}").into_bytes()
}

fn labels(entries: &[Entry], idxs: &[usize]) -> Vec<String> {
    idxs.iter().map(|&i| entries[i].label.clone()).collect()
}

/// Sorts as the requests of these tests ask for.
fn sorter(mut listing: Vec<Entry>, sorting: Sorting) -> Vec<Entry> {
    match sorting {
        Sorting::ByExt => {
            listing.sort_by_key(|e| (e.depth, e.basename.rsplit('.').next().unwrap().to_string()))
        }
        Sorting::Reorder { dirs_first, reverse } => {
            if reverse {
                listing.reverse();
                listing.sort_by_key(|e| e.depth);
            }
            if dirs_first {
                listing.sort_by_key(|e| (e.depth, e.kind != FileKind::Dir));
            }
        }
        other => panic!("not sorted here: {other:?}"),
    }
    listing
}

/// What a request for rows is answered with.
fn answer(server: &mut Server, line: &str) -> Vec<u8> {
    match parse_request(line) {
        Request::Rows(q) => server.answer(&q, &sorter, &plain),
        other => panic!("no query: {other:?}"),
    }
}

fn record(server: &mut Server, line: &str) {
    match parse_request(line) {
        Request::Frecency { score, path } => {
            let score = score
                .and_then(|s| s.parse::<f64>().ok())
                .and_then(|x| Score::from_bits(x.to_bits()));
            server.record(path, score);
        }
        other => panic!("no record: {other:?}"),
    }
}

fn row_paths(reply: &[u8]) -> Vec<Vec<u8>> {
    reply
        .split(|&b| b == b'\n')
        .filter(|l| l.starts_with(b"R "))
        .map(|l| {
            let tab = l.iter().position(|&b| b == b'\t').unwrap();
            unescape(&l[tab + 1..])
        })
        .collect()
}

fn unescape(b: &[u8]) -> Vec<u8> {
    let mut out = Vec::with_capacity(b.len());
    let mut i = 0;
    while i < b.len() {
        if b[i] == b'\\' && i + 1 < b.len() {
            match b[i + 1] {
                b't' => out.push(b'\t'),
                b'n' => out.push(b'\n'),
                c => out.push(c),
            }
            i += 2;
        } else {
            out.push(b[i]);
            i += 1;
        }
    }
    out
}

#[test]
fn first_letter_must_prefix_basename() {
    let e = fixture();
    assert_eq!(
        rank_indices(&e, "c", &plain).len(),
        0,
        "query c must not match pic.jpg"
    );
}

#[test]
fn prefix_query_keeps_matching_entries() {
    let e = fixture();
    let l = labels(&e, &rank_indices(&e, "p", &plain));
    assert!(l.contains(&"pic.jpg".to_string()), "pic.jpg starts with p");
}

#[test]
fn deep_entry_matches_by_basename() {
    let e = fixture();
    let idxs = rank_indices(&e, "gamma", &plain);
    assert_eq!(idxs.len(), 1, "gamma.txt inside sub/ is the only match");
    assert_eq!(e[idxs[0]].label, "sub/gamma.txt");
}

#[test]
fn empty_query_returns_all() {
    let e = fixture();
    assert_eq!(rank_indices(&e, "", &plain).len(), e.len());
    assert_eq!(rank_indices_mw(&e, "", &plain), (vec![0, 1, 2, 3, 4], 13));
}

#[test]
fn dot_query_skips_anchor() {
    let mut e = vec![entry(".hidden", FileKind::File)];
    e.extend(fixture());
    let idxs = rank_indices(&e, ".", &plain);
    assert!(idxs.iter().any(|&i| e[i].basename == ".hidden"));
    assert!(idxs.iter().any(|&i| e[i].basename == "pic.jpg"));
}

#[test]
fn dirs_sort_before_their_contents() {
    let e = fixture();
    let idxs = rank_indices(&e, "g", &plain);
    assert_eq!(idxs.len(), 1);
    assert_eq!(e[idxs[0]].kind, FileKind::File);
    assert_eq!(e[idxs[0]].label, "sub/gamma.txt");
    let with_dir = vec![entry("s/sx", FileKind::File), entry("s", FileKind::Dir)];
    assert_eq!(rank_indices(&with_dir, "s", &plain), vec![1, 0]);
}

#[test]
fn frecency_orders_within_depth() {
    let e = fixture();
    let mut frec = Frecency::new();
    frec.insert(key("beta.lua"), score_of(10.0));
    frec.insert(key("sub/gamma.txt"), score_of(100.0));

    let (idxs, _) = order_by_frecency(&e, &frec);
    let pos = |label: &str| idxs.iter().position(|&i| e[i].label == label).unwrap();
    assert!(
        pos("beta.lua") < pos("alpha.txt"),
        "frequent file first in its depth"
    );
    assert!(
        pos("beta.lua") < pos("sub/gamma.txt"),
        "depth 1 still beats depth 2"
    );
    let first_depth2 = idxs.iter().position(|&i| e[i].depth == 2).unwrap();
    assert_eq!(pos("sub/gamma.txt"), first_depth2, "gamma leads depth 2");

    // An empty map keeps the canonical listing order.
    let (plain_order, width) = order_by_frecency(&e, &Frecency::new());
    let labels: Vec<&str> = plain_order.iter().map(|&i| e[i].label.as_str()).collect();
    assert_eq!(
        labels,
        vec!["alpha.txt", "beta.lua", "pic.jpg", "sub", "sub/gamma.txt"]
    );
    assert_eq!(width, 13);
}

#[test]
fn the_journal_keeps_the_last_score_of_a_path() {
    let mut frec = Frecency::new();
    assert_eq!(frec.len(), 0);
    frec.insert(b"b".to_vec(), score_of(2.0));
    frec.insert(b"a".to_vec(), score_of(1.0));
    frec.insert(b"b".to_vec(), score_of(3.0));
    assert_eq!(frec.len(), 2);
    assert_eq!(frec.get(b"b"), Some(score_of(3.0)));
    assert_eq!(frec.get(b"a"), Some(score_of(1.0)));
    assert_eq!(frec.get(b"c"), None);
}

#[test]
fn hits_are_ordered_by_depth_score_and_name() {
    let e = vec![
        entry("d/top", FileKind::File),
        entry("zz", FileKind::File),
        entry("aa", FileKind::File),
        entry("mm", FileKind::File),
    ];
    let hits = vec![
        (0, score_of(9.0)),
        (1, score_of(0.5)),
        (2, score_of(0.5)),
        (3, score_of(-0.25)),
    ];
    assert_eq!(order_hits(&e, &hits), vec![2, 1, 3, 0]);
    assert_eq!(char_count("дом"), 3);
}

#[test]
fn a_large_listing_is_ranked_like_a_small_one() {
    // Enough entries for several chunks of the parallel path.
    let n = 20000;
    let mut e: Vec<Entry> = Vec::new();
    for i in 0..n {
        let name = if i % 1000 == 7 { format!("hit{i}") } else { format!("miss{i}") };
        e.push(entry(&name, FileKind::File));
    }
    let (ranked, width) = rank_indices_mw(&e, "hit", &plain);
    assert_eq!(ranked.len(), 20);
    assert_eq!(width, 8);
    // The shorter labels score better; the names decide among equals.
    let mut want: Vec<usize> = (0..n).filter(|i| i % 1000 == 7).collect();
    want.sort_by_key(|&i| (e[i].label.len(), e[i].label.clone()));
    assert_eq!(ranked, want);
    assert!(rank_indices(&e, "x", &plain).is_empty());
}

#[test]
fn preview_line_keeps_sgr_and_clips_visible_chars() {
    // SGR survives so the client can build extmarks from it.
    assert_eq!(
        preview_line("\x1b[38;5;9mAB\x1b[0mCD", 40),
        "\x1b[38;5;9mAB\x1b[0mCD"
    );
    // Clipping counts visible characters, not escape bytes, and keeps the
    // escapes that precede the cut.
    assert_eq!(preview_line("\x1b[38;5;9mABCD\x1b[0m", 2), "\x1b[38;5;9mAB");
    // Non-SGR CSI (cursor movement) is dropped; TAB becomes a space.
    assert_eq!(preview_line("a\x1b[2K\tb", 40), "a b");
}

#[test]
fn preview_line_drops_controls_and_other_escapes() {
    assert_eq!(preview_line("a\u{7}b\u{9b}c\r", 40), "abc");
    assert_eq!(preview_line("a\x1b7b", 40), "ab");
    // Strings end with BEL or with ST; an open one takes the rest.
    assert_eq!(preview_line("\x1b]0;t\x07x", 9), "x");
    assert_eq!(preview_line("a\x1b_Ga=d\x1b\\b", 9), "ab");
    assert_eq!(preview_line("a\x1bPq#0", 9), "a");
    // Choices of character sets, and an escape that breaks off another one.
    assert_eq!(preview_line("a\x1b(Bb", 9), "ab");
    assert_eq!(preview_line("a\x1b[1\x1b[2mb", 9), "a\x1b[2mb");
    assert_eq!(preview_line("a\x1b\x1b[2mb", 9), "a\x1b[2mb");
    // Control characters do not reach the wire inside a colour sequence.
    assert_eq!(preview_line("\x1b[\n1mA", 9), "A");
    assert_eq!(preview_line("\x1b[1\t;2mA", 9), "A");
    assert_eq!(preview_line("a\x1b", 40), "a");
    assert_eq!(preview_line("a\x1b[12", 40), "a");
    assert_eq!(preview_line("ab", 0), "");
}

#[test]
fn serve_escapes_special_and_non_utf8_names() {
    let names: [&[u8]; 4] = [b"back\\slash", b"caf\xe9.txt", b"nl\nname", b"tab\tname"];
    let listing: Vec<Entry> = names.iter().map(|n| raw_entry(n, FileKind::File)).collect();
    let mut server = Server::new(listing);
    let banner = server.banner(1, ROOT.as_bytes());
    assert!(banner.starts_with(b"C 4 1 "), "banner: {banner:?}");
    assert_eq!(banner, b"C 4 1 /tmp/root\nX preview\n");

    let reply = answer(&mut server, "Q\t0\t50\t");
    let prefix = ROOT.as_bytes();
    let mut got: Vec<Vec<u8>> = Vec::new();
    for row in reply.split(|&b| b == b'\n').filter(|r| r.starts_with(b"R ")) {
        assert_eq!(
            row.iter().filter(|&&b| b == b'\t').count(),
            1,
            "row must carry one raw TAB: {row:?}"
        );
        let tab = row.iter().position(|&b| b == b'\t').unwrap();
        let mut head = row[..tab].splitn(4, |&b| b == b' ');
        assert_eq!(head.next(), Some(b"R".as_slice()));
        assert!(head.next().is_some(), "index field");
        assert!(head.next().is_some(), "kind field");
        let label = unescape(head.next().expect("label field"));
        let path = unescape(&row[tab + 1..]);
        assert!(
            path.starts_with(prefix),
            "path must stay under the root: {path:?}"
        );
        let rel = &path[prefix.len() + 1..];
        if label.windows(3).any(|w| w == [0xEF, 0xBF, 0xBD]) {
            assert_eq!(rel, b"caf\xe9.txt", "lossy label, raw path");
        } else {
            assert_eq!(label.as_slice(), rel, "label == rel path");
        }
        got.push(path);
    }
    for name in names {
        let mut want = prefix.to_vec();
        want.push(b'/');
        want.extend_from_slice(name);
        assert!(got.contains(&want), "missing path {want:?} in {got:?}");
    }
    assert_eq!(got.len(), 4);
}

#[test]
fn escaping_and_back() {
    let mut out = b"> ".to_vec();
    write_escaped(&mut out, b"a\\b\tc\nd\xff");
    assert_eq!(out, b"> a\\\\b\\tc\\nd\xff");
    assert_eq!(unescape_bytes("a\\\\b\\tc\\nd"), b"a\\b\tc\nd");
    assert_eq!(unescape_bytes("\\x\\"), b"x\\");
}

#[test]
fn frecency_orders_the_empty_query_within_depth() {
    let listing = vec![
        entry("aaa.txt", FileKind::File),
        entry("sub", FileKind::Dir),
        entry("tab\tname.txt", FileKind::File),
        entry("zzz.txt", FileKind::File),
        entry("sub/deep.txt", FileKind::File),
    ];
    let mut server = Server::new(listing);
    let canonical = row_paths(&answer(&mut server, "Q\t0\t50\t"));
    assert_eq!(
        canonical,
        vec![
            key("aaa.txt"),
            key("sub"),
            key("tab\tname.txt"),
            key("zzz.txt"),
            key("sub/deep.txt"),
        ],
        "canonical order without frecency"
    );

    let zzz = format!("{ROOT}/zzz.txt");
    let tab = format!("{ROOT}/tab\\tname.txt");
    record(&mut server, &format!("F\t100\t{zzz}"));
    record(&mut server, &format!("F\t50\t{tab}"));

    // New F records must re-rank even though the query is unchanged.
    let ranked = row_paths(&answer(&mut server, "Q\t0\t50\t"));
    assert_eq!(ranked[0], zzz.as_bytes(), "most frequent file first");
    assert_eq!(ranked[1], key("tab\tname.txt"));
    let deep = ranked.iter().position(|p| p.ends_with(b"deep.txt")).unwrap();
    assert_eq!(deep, ranked.len() - 1, "depth 2 still last: {ranked:?}");
    assert_eq!(ranked.last().unwrap(), &key("sub/deep.txt"));
}

#[test]
fn a_newer_score_reorders_the_empty_query() {
    let mut server = Server::new(vec![
        entry("a", FileKind::File),
        entry("b", FileKind::File),
    ]);
    record(&mut server, &format!("F\t10\t{ROOT}/a"));
    record(&mut server, &format!("F\t50\t{ROOT}/b"));
    let first = row_paths(&answer(&mut server, "Q\t0\t9\t"));
    assert_eq!(first, vec![key("b"), key("a")]);
    record(&mut server, &format!("F\t100\t{ROOT}/a"));
    let second = answer(&mut server, "Q\t0\t9\t");
    assert_eq!(second, b"N 2\nW 1\nR 0 f a\t/tmp/root/a\nR 1 f b\t/tmp/root/b\nE\n");
    // The same record again changes nothing.
    record(&mut server, &format!("F\t100\t{ROOT}/a"));
    assert!(server.memo_hit);
}

#[test]
fn earlier_queries_do_not_show() {
    let lines = [
        "Q\t0\t50\t\t1",
        "F\t5\t/tmp/root/pic.jpg",
        "Q\t0\t3\tp\t0\t1\t1",
        "Q\t2\t1\t",
        "F\t7\t/tmp/root/beta.lua",
        "F\t1\t/tmp/root/pic.jpg",
    ];
    for last in ["Q\t0\t50\t", "Q\t0\t50\tp\t1", "Q\t1\t4\t\t0\t0\t1"] {
        let mut long = Server::new(fixture());
        let mut short = Server::new(fixture());
        for line in lines {
            if line.starts_with('F') {
                record(&mut long, line);
                record(&mut short, line);
            } else {
                answer(&mut long, line);
            }
        }
        assert_eq!(answer(&mut long, last), answer(&mut short, last), "{last:?}");
    }
}

#[test]
fn records_without_a_positive_score_are_dropped() {
    let mut server = Server::new(fixture());
    for line in ["F", "F\t0\t/a", "F\t-1\t/a", "F\tnan\t/a", "F\tx\t/a", "F\t5"] {
        record(&mut server, line);
        assert_eq!(server.frec.len(), 0, "{line}");
    }
    record(&mut server, "F\t1e3\t/a");
    assert_eq!(server.frec.get(b"/a"), Some(score_of(1000.0)));
}

#[test]
fn serve_preview_frames_content() {
    // A line equal to the terminator survives behind its prefix.
    let pane = Pane { dim: true, lines: vec!["E".to_string(), "hello world".to_string()] };
    assert_eq!(preview_reply(&pane, 40, 5), b"V 2 1\nL E\nL hello world\nE\n");
    // The width clips the rows (the floor is 8 columns).
    match parse_request("V\t0\t2\t5") {
        Request::Preview { index, width, height } => {
            assert_eq!((index, width, height), (0, 8, 5));
            assert_eq!(preview_reply(&pane, width, height), b"V 2 1\nL E\nL hello wo\nE\n");
        }
        other => panic!("{other:?}"),
    }
    let placeholder = Pane { dim: true, lines: vec!["directory: sub".to_string()] };
    assert_eq!(preview_reply(&placeholder, 40, 5), b"V 1 1\nL directory: sub\nE\n");
    assert_eq!(preview_reply(&pane, 40, 1), b"V 1 1\nL E\nE\n");
    assert_eq!(preview_reply(&Pane { dim: false, lines: vec![] }, 40, 5), b"V 0 0\nE\n");
}

#[test]
fn an_unknown_index_has_an_empty_preview() {
    let server = Server::new(fixture());
    assert_eq!(server.preview_entry(4).unwrap().label, "sub/gamma.txt");
    assert!(server.preview_entry(5).is_none());
    assert!(server.preview_entry(usize::MAX).is_none());
    assert_eq!(preview_reply(&Pane::missing(), 40, 12), b"V 0 1\nE\n");
    assert_eq!(banner_for(7, 2, "/r"), b"C 7 2 /r\nX preview\n");
}

#[test]
fn requests_parse_with_defaults() {
    match parse_request("Q\t3\t9\tfoo bar\t7\t1\t1") {
        Request::Rows(q) => {
            assert_eq!((q.from, q.to, q.query.as_str(), q.sort), (3, 9, "foo bar", 3));
            assert!(q.dirs_first && q.reverse);
        }
        other => panic!("{other:?}"),
    }
    match parse_request("Q") {
        Request::Rows(q) => {
            assert_eq!((q.from, q.to, q.query.as_str(), q.sort), (0, 0, "", 0));
            assert!(!q.dirs_first && !q.reverse);
        }
        other => panic!("{other:?}"),
    }
    match parse_request("Q\t-1\t+5\tq\t256\ttrue") {
        Request::Rows(q) => {
            assert_eq!((q.from, q.to, q.sort, q.dirs_first), (0, 5, 0, false));
        }
        other => panic!("{other:?}"),
    }
    match parse_request("M\t15\t4\tx\t2") {
        Request::Meta { mask, indices } => assert_eq!((mask, indices), (15, vec![4, 2])),
        other => panic!("{other:?}"),
    }
    match parse_request("V") {
        Request::Preview { index, width, height } => {
            assert_eq!((index, width, height), (usize::MAX, 40, 12))
        }
        other => panic!("{other:?}"),
    }
    match parse_request("V\t1\t9999\t0") {
        Request::Preview { index, width, height } => {
            assert_eq!((index, width, height), (1, 400, 1))
        }
        other => panic!("{other:?}"),
    }
    assert!(matches!(parse_request("D"), Request::Dirs));
    assert!(matches!(parse_request(""), Request::Unknown));
    assert!(matches!(parse_request("Qx\t1"), Request::Unknown));
}

#[test]
fn rows_are_cut_out_of_the_ranking() {
    let mut server = Server::new(fixture());
    let all = answer(&mut server, "Q\t0\t50\t");
    let want = "N 5\nW 13\nR 0 f alpha.txt\t/tmp/root/alpha.txt\nR 1 f beta.lua\t/tmp/root/beta.lua\nR 2 f pic.jpg\t/tmp/root/pic.jpg\nR 3 d sub\t/tmp/root/sub\nR 4 f sub/gamma.txt\t/tmp/root/sub/gamma.txt\nE\n";
    assert_eq!(all, want.as_bytes());
    let some = answer(&mut server, "Q\t3\t4\t");
    assert_eq!(some, b"N 5\nW 13\nR 3 d sub\t/tmp/root/sub\nE\n");
    assert_eq!(answer(&mut server, "Q\t9\t50\t"), b"N 5\nW 13\nE\n");
    let one = answer(&mut server, "Q\t0\t50\tgam");
    assert_eq!(one, b"N 1\nW 13\nR 4 f sub/gamma.txt\t/tmp/root/sub/gamma.txt\nE\n");
    // A range that ends before it begins has no rows.
    assert_eq!(answer(&mut server, "Q\t4\t1\t"), b"N 5\nW 13\nE\n");
    assert_eq!(answer(&mut server, "Q\t9\t1\tgam"), b"N 1\nW 13\nE\n");
}

#[test]
fn links_have_their_own_letter() {
    let mut server = Server::new(vec![entry("ln", FileKind::Link)]);
    let all = answer(&mut server, "Q\t0\t9\t");
    assert_eq!(all, b"N 1\nW 2\nR 0 l ln\t/tmp/root/ln\nE\n");
}

#[test]
fn orders_start_from_the_canonical_listing() {
    let mut server = Server::new(fixture());
    answer(&mut server, "Q\t0\t50\t");
    let by_ext = row_paths(&answer(&mut server, "Q\t0\t50\t\t1"));
    assert_eq!(by_ext[0], key("pic.jpg"));
    let reversed = row_paths(&answer(&mut server, "Q\t0\t50\t\t0\t0\t1"));
    assert_eq!(reversed[0], key("sub"));
    assert_eq!(reversed[4], key("sub/gamma.txt"));
    let dirs = row_paths(&answer(&mut server, "Q\t0\t50\t\t0\t1\t0"));
    assert_eq!(dirs[..2], [key("sub"), key("alpha.txt")]);
    let back = row_paths(&answer(&mut server, "Q\t0\t50\t"));
    assert_eq!(back[0], key("alpha.txt"));
}

#[test]
fn a_repeated_query_is_answered_from_the_memo() {
    let mut server = Server::new(fixture());
    let q = Query {
        from: 0,
        to: 50,
        query: "p".to_string(),
        sort: 0,
        dirs_first: false,
        reverse: false,
    };
    assert_eq!(server.prepare(&q), Sorting::Keep);
    assert!(!server.memo_hit);
    server.rerank(&q.query, &plain);
    assert!(server.memo_hit);
    assert_eq!(server.prepare(&q), Sorting::Keep);
    assert!(server.memo_hit);
    record(&mut server, "F\t2\t/tmp/root/pic.jpg");
    server.prepare(&q);
    assert!(!server.memo_hit);
}

#[test]
fn sort_keys() {
    assert_eq!(apply_sort(0), Sorting::Keep);
    assert_eq!(apply_sort(1), Sorting::ByExt);
    assert_eq!(apply_sort(2), Sorting::BySize);
    assert_eq!(apply_sort(3), Sorting::ByTime);
    assert_eq!(apply_sort(4), Sorting::Keep);
}

#[test]
fn top_level_directories_are_listed() {
    let server = Server::new(vec![
        entry("a\tb", FileKind::Dir),
        entry("file", FileKind::File),
        entry("x/y", FileKind::Dir),
    ]);
    assert_eq!(server.dirs_reply(), b"D a\\tb\nE\n");
}

#[test]
fn metadata_rows() {
    let server = Server::new(fixture());
    let targets = server.meta_targets(&vec![4, 9, 0]);
    assert_eq!(targets, vec![4, 0]);
    let metas = vec![Some("drwx".to_string()), None];
    assert_eq!(meta_reply(&targets, &metas), b"K 4 drwx\nK 0 \nE\n");
}

#[test]
fn copies_of_a_listing_are_equal() {
    let e = fixture();
    let c = copy_entries(&e);
    assert_eq!(format!("{e:?}"), format!("{c:?}"));
}
