//! Nerd-font glyphs for entries.

use crate::listing::{Entry, FileKind};
use crate::text::{ascii_lower_text, chars_end_with, chars_of, ends_with, to_ascii_lower_char};
use vstd::prelude::*;
use vstd::string::*;

verus! {

pub const ICON_DIR: &'static str = "\u{f115}";

pub const ICON_FILE: &'static str = "\u{f15b}";

pub const ICON_LINK: &'static str = "\u{f481}";

/// The icons of file name extensions, in the order in which they are tried.
pub open spec fn icon_table() -> Seq<(Seq<char>, Seq<char>)> {
    seq![
        (".md"@, "\u{f48a}"@),
        (".rs"@, "\u{e7a8}"@),
        (".lua"@, "\u{e620}"@),
        (".scd"@, "\u{e620}"@),
        (".sc"@, "\u{e620}"@),
        (".jpg"@, "\u{f1c5}"@),
        (".jpeg"@, "\u{f1c5}"@),
        (".png"@, "\u{f1c5}"@),
        (".webp"@, "\u{f1c5}"@),
        (".gif"@, "\u{f1c5}"@),
        (".mp3"@, "\u{f001}"@),
        (".flac"@, "\u{f001}"@),
        (".wav"@, "\u{f001}"@),
        (".mp4"@, "\u{f03d}"@),
        (".mkv"@, "\u{f03d}"@),
        (".webm"@, "\u{f03d}"@),
        (".zip"@, "\u{f410}"@),
        (".tar"@, "\u{f410}"@),
        (".gz"@, "\u{f410}"@),
        (".7z"@, "\u{f410}"@),
    ]
}

pub open spec fn pair_texts(v: Seq<(&'static str, &'static str)>) -> Seq<(Seq<char>, Seq<char>)> {
    v.map_values(|p: (&'static str, &'static str)| (p.0@, p.1@))
}

/// Extension icons, checked in order: the first suffix that matches wins.
pub fn icon_exts() -> (v: Vec<(&'static str, &'static str)>)
    ensures
        pair_texts(v@) == icon_table(),
{
    let v: Vec<(&'static str, &'static str)> = vec![
        (".md", "\u{f48a}"),
        (".rs", "\u{e7a8}"),
        (".lua", "\u{e620}"),
        (".scd", "\u{e620}"),
        (".sc", "\u{e620}"),
        (".jpg", "\u{f1c5}"),
        (".jpeg", "\u{f1c5}"),
        (".png", "\u{f1c5}"),
        (".webp", "\u{f1c5}"),
        (".gif", "\u{f1c5}"),
        (".mp3", "\u{f001}"),
        (".flac", "\u{f001}"),
        (".wav", "\u{f001}"),
        (".mp4", "\u{f03d}"),
        (".mkv", "\u{f03d}"),
        (".webm", "\u{f03d}"),
        (".zip", "\u{f410}"),
        (".tar", "\u{f410}"),
        (".gz", "\u{f410}"),
        (".7z", "\u{f410}"),
    ];
    assert(pair_texts(v@) =~= icon_table());
    v
}

/// The icon of the first suffix of a table that a name ends with.
pub open spec fn icon_in(
    table: Seq<(Seq<char>, Seq<char>)>,
    name: Seq<char>,
) -> Option<Seq<char>>
    decreases table.len(),
{
    if table.len() == 0 {
        None
    } else if ends_with(name, table[0].0) {
        Some(table[0].1)
    } else {
        icon_in(table.drop_first(), name)
    }
}

/// The icon of an entry, by its kind and, for a file, by its extension.
pub open spec fn entry_icon(e: Entry) -> Seq<char> {
    match e.kind {
        FileKind::Dir => ICON_DIR@,
        FileKind::Link => ICON_LINK@,
        FileKind::File => match icon_in(icon_table(), ascii_lower_text(e.basename@)) {
            Some(icon) => icon,
            None => ICON_FILE@,
        },
    }
}

/// Nerd-font glyph for an entry; falls back to the generic file icon.
pub fn icon_for(e: &Entry) -> (r: &'static str)
    ensures
        r@ == entry_icon(*e),
{
    match e.kind {
        FileKind::Dir => ICON_DIR,
        FileKind::Link => ICON_LINK,
        FileKind::File => {
            let name = chars_of(e.basename.as_str());
            let mut low: Vec<char> = Vec::new();
            let mut k: usize = 0;
            while k < name.len()
                invariant
                    k <= name@.len(),
                    low@ == ascii_lower_text(name@.take(k as int)),
                decreases name@.len() - k,
            {
                low.push(to_ascii_lower_char(name[k]));
                assert(low@ =~= ascii_lower_text(name@.take(k + 1)));
                k += 1;
            }
            assert(name@.take(k as int) == name@);
            let table = icon_exts();
            let ghost pairs = pair_texts(table@);
            let mut i: usize = 0;
            assert(pairs.skip(0) == pairs);
            while i < table.len()
                invariant
                    i <= table@.len(),
                    pairs == pair_texts(table@),
                    pairs == icon_table(),
                    e.kind == FileKind::File,
                    low@ == ascii_lower_text(e.basename@),
                    icon_in(pairs, low@) == icon_in(pairs.skip(i as int), low@),
                decreases table@.len() - i,
            {
                let (suffix, icon) = table[i];
                assert(pairs.skip(i as int).drop_first() == pairs.skip(i + 1));
                assert(pairs[i as int] == (suffix@, icon@));
                if chars_end_with(low.as_slice(), chars_of(suffix).as_slice()) {
                    return icon;
                }
                i += 1;
            }
            ICON_FILE
        },
    }
}

/// Whether a file's basename, in small letters, ends with a dot and a word.
pub open spec fn dot_ends(e: Entry, word: Seq<char>) -> bool {
    e.kind == FileKind::File && ends_with(ascii_lower_text(e.basename@), seq!['.'] + word)
}

proof fn lemma_dot_ends_differ(s: Seq<char>, a: Seq<char>, b: Seq<char>)
    requires
        ends_with(s, seq!['.'] + a),
        ends_with(s, seq!['.'] + b),
        !a.contains('.'),
        !b.contains('.'),
    ensures
        a == b,
{
    let (x, y) = (seq!['.'] + a, seq!['.'] + b);
    let (m, n) = (s.len() - x.len(), s.len() - y.len());
    assert(s.skip(m)[0] == x[0]);
    assert(s.skip(n)[0] == y[0]);
    if m < n {
        assert(s.skip(m)[n - m] == x[n - m]);
        assert(a[n - m - 1] == '.');
        assert(a.contains(a[n - m - 1]));
    }
    if n < m {
        assert(s.skip(n)[m - n] == y[m - n]);
        assert(b[m - n - 1] == '.');
        assert(b.contains(b[m - n - 1]));
    }
    assert(a =~= x.skip(1));
    assert(b =~= y.skip(1));
}

/// A table gives the icon of the extension that a name has.
proof fn lemma_icon_in(
    table: Seq<(Seq<char>, Seq<char>)>,
    words: Seq<Seq<char>>,
    name: Seq<char>,
    k: int,
)
    requires
        table.len() == words.len(),
        forall|i: int|
            0 <= i < table.len() ==> (#[trigger] table[i]).0 == seq!['.'] + words[i],
        forall|i: int| 0 <= i < words.len() ==> !(#[trigger] words[i]).contains('.'),
        0 <= k < table.len(),
        ends_with(name, table[k].0),
        forall|i: int| 0 <= i < k ==> #[trigger] words[i] != words[k],
    ensures
        icon_in(table, name) == Some(table[k].1),
    decreases table.len(),
{
    if k > 0 {
        assert(table[0].0 == seq!['.'] + words[0]);
        assert(table[k].0 == seq!['.'] + words[k]);
        if ends_with(name, table[0].0) {
            lemma_dot_ends_differ(name, words[0], words[k]);
        }
        let (t, w) = (table.drop_first(), words.drop_first());
        assert forall|i: int| 0 <= i < t.len() implies (#[trigger] t[i]).0 == seq!['.'] + w[i] by {
            assert(t[i] == table[i + 1]);
        }
        assert forall|i: int| 0 <= i < w.len() implies !(#[trigger] w[i]).contains('.') by {
            assert(w[i] == words[i + 1]);
        }
        assert forall|i: int| 0 <= i < k - 1 implies #[trigger] w[i] != w[k - 1] by {
            assert(w[i] == words[i + 1]);
        }
        lemma_icon_in(t, w, name, k - 1);
    }
}

/// The extensions that have an icon.
pub open spec fn known_words() -> Seq<Seq<char>> {
    seq![
        seq!['m', 'd'],
        seq!['r', 's'],
        seq!['l', 'u', 'a'],
        seq!['s', 'c', 'd'],
        seq!['s', 'c'],
        seq!['j', 'p', 'g'],
        seq!['j', 'p', 'e', 'g'],
        seq!['p', 'n', 'g'],
        seq!['w', 'e', 'b', 'p'],
        seq!['g', 'i', 'f'],
        seq!['m', 'p', '3'],
        seq!['f', 'l', 'a', 'c'],
        seq!['w', 'a', 'v'],
        seq!['m', 'p', '4'],
        seq!['m', 'k', 'v'],
        seq!['w', 'e', 'b', 'm'],
        seq!['z', 'i', 'p'],
        seq!['t', 'a', 'r'],
        seq!['g', 'z'],
        seq!['7', 'z'],
    ]
}

/// The icons of the extensions: documents, sources, pictures, sound, films and
/// archives.
pub open spec fn known_icons() -> Seq<char> {
    seq![
        '\u{f48a}',
        '\u{e7a8}',
        '\u{e620}',
        '\u{e620}',
        '\u{e620}',
        '\u{f1c5}',
        '\u{f1c5}',
        '\u{f1c5}',
        '\u{f1c5}',
        '\u{f1c5}',
        '\u{f001}',
        '\u{f001}',
        '\u{f001}',
        '\u{f03d}',
        '\u{f03d}',
        '\u{f03d}',
        '\u{f410}',
        '\u{f410}',
        '\u{f410}',
        '\u{f410}',
    ]
}

proof fn lemma_table()
    ensures
        icon_table().len() == 20,
        known_words().len() == 20,
        known_icons().len() == 20,
        forall|k: int|
            0 <= k < 20 ==> (#[trigger] icon_table()[k]).0 == seq!['.'] + known_words()[k],
        forall|k: int| 0 <= k < 20 ==> (#[trigger] icon_table()[k]).1 == seq![known_icons()[k]],
{
    reveal_strlit(".md");
    assert(".md"@ =~= seq!['.'] + seq!['m', 'd']);
    reveal_strlit(".rs");
    assert(".rs"@ =~= seq!['.'] + seq!['r', 's']);
    reveal_strlit(".lua");
    assert(".lua"@ =~= seq!['.'] + seq!['l', 'u', 'a']);
    reveal_strlit(".scd");
    assert(".scd"@ =~= seq!['.'] + seq!['s', 'c', 'd']);
    reveal_strlit(".sc");
    assert(".sc"@ =~= seq!['.'] + seq!['s', 'c']);
    reveal_strlit(".jpg");
    assert(".jpg"@ =~= seq!['.'] + seq!['j', 'p', 'g']);
    reveal_strlit(".jpeg");
    assert(".jpeg"@ =~= seq!['.'] + seq!['j', 'p', 'e', 'g']);
    reveal_strlit(".png");
    assert(".png"@ =~= seq!['.'] + seq!['p', 'n', 'g']);
    reveal_strlit(".webp");
    assert(".webp"@ =~= seq!['.'] + seq!['w', 'e', 'b', 'p']);
    reveal_strlit(".gif");
    assert(".gif"@ =~= seq!['.'] + seq!['g', 'i', 'f']);
    reveal_strlit(".mp3");
    assert(".mp3"@ =~= seq!['.'] + seq!['m', 'p', '3']);
    reveal_strlit(".flac");
    assert(".flac"@ =~= seq!['.'] + seq!['f', 'l', 'a', 'c']);
    reveal_strlit(".wav");
    assert(".wav"@ =~= seq!['.'] + seq!['w', 'a', 'v']);
    reveal_strlit(".mp4");
    assert(".mp4"@ =~= seq!['.'] + seq!['m', 'p', '4']);
    reveal_strlit(".mkv");
    assert(".mkv"@ =~= seq!['.'] + seq!['m', 'k', 'v']);
    reveal_strlit(".webm");
    assert(".webm"@ =~= seq!['.'] + seq!['w', 'e', 'b', 'm']);
    reveal_strlit(".zip");
    assert(".zip"@ =~= seq!['.'] + seq!['z', 'i', 'p']);
    reveal_strlit(".tar");
    assert(".tar"@ =~= seq!['.'] + seq!['t', 'a', 'r']);
    reveal_strlit(".gz");
    assert(".gz"@ =~= seq!['.'] + seq!['g', 'z']);
    reveal_strlit(".7z");
    assert(".7z"@ =~= seq!['.'] + seq!['7', 'z']);
    reveal_strlit("\u{e620}");
    assert("\u{e620}"@ =~= seq!['\u{e620}']);
    reveal_strlit("\u{e7a8}");
    assert("\u{e7a8}"@ =~= seq!['\u{e7a8}']);
    reveal_strlit("\u{f001}");
    assert("\u{f001}"@ =~= seq!['\u{f001}']);
    reveal_strlit("\u{f03d}");
    assert("\u{f03d}"@ =~= seq!['\u{f03d}']);
    reveal_strlit("\u{f1c5}");
    assert("\u{f1c5}"@ =~= seq!['\u{f1c5}']);
    reveal_strlit("\u{f410}");
    assert("\u{f410}"@ =~= seq!['\u{f410}']);
    reveal_strlit("\u{f48a}");
    assert("\u{f48a}"@ =~= seq!['\u{f48a}']);
}

proof fn lemma_words_differ(i: int, k: int)
    requires
        0 <= i < k < 20,
    ensures
        known_words()[i] != known_words()[k],
        !known_words()[i].contains('.'),
        !known_words()[k].contains('.'),
{
    let (a, b) = (known_words()[i], known_words()[k]);
    if a == b {
        assert(a.len() == b.len());
        assert(a[0] == b[0]);
        assert(a.len() > 1 ==> a[1] == b[1]);
        assert(a.len() > 2 ==> a[2] == b[2]);
        assert(a.len() > 3 ==> a[3] == b[3]);
        assert(false);
    }
}

/// A file has the icon of its extension, whatever the case of ASCII letters, a
/// file with another name the generic one, and directories and links their own.
pub proof fn law_icons_follow_kind_and_extension(e: Entry, k: int)
    requires
        0 <= k < 20,
    ensures
        dot_ends(e, known_words()[k]) ==> entry_icon(e) == seq![known_icons()[k]],
        e.kind == FileKind::Dir ==> entry_icon(e) == seq!['\u{f115}'],
        e.kind == FileKind::Link ==> entry_icon(e) == seq!['\u{f481}'],
        e.kind == FileKind::File && (forall|i: int|
            0 <= i < 20 ==> !dot_ends(e, #[trigger] known_words()[i])) ==> entry_icon(e) == seq![
            '\u{f15b}',
        ],
{
    lemma_table();
    reveal_strlit("\u{f115}");
    reveal_strlit("\u{f481}");
    reveal_strlit("\u{f15b}");
    assert("\u{f115}"@ =~= seq!['\u{f115}']);
    assert("\u{f481}"@ =~= seq!['\u{f481}']);
    assert("\u{f15b}"@ =~= seq!['\u{f15b}']);
    let name = ascii_lower_text(e.basename@);
    assert forall|i: int| 0 <= i < 20 implies !(#[trigger] known_words()[i]).contains('.') by {
        if i < 19 {
            lemma_words_differ(i, 19);
        } else {
            lemma_words_differ(0, 19);
        }
    }
    if dot_ends(e, known_words()[k]) {
        assert(icon_table()[k].0 == seq!['.'] + known_words()[k]);
        assert forall|i: int| 0 <= i < k implies #[trigger] known_words()[i] != known_words()[k] by {
            lemma_words_differ(i, k);
        }
        lemma_icon_in(icon_table(), known_words(), name, k);
    }
    if e.kind == FileKind::File && (forall|i: int|
        0 <= i < 20 ==> !dot_ends(e, #[trigger] known_words()[i])) {
        assert forall|i: int| 0 <= i < 20 implies !ends_with(
            name,
            (#[trigger] icon_table()[i]).0,
        ) by {
            assert(!dot_ends(e, known_words()[i]));
        }
        lemma_no_icon(icon_table(), name);
    }
}

proof fn lemma_no_icon(table: Seq<(Seq<char>, Seq<char>)>, name: Seq<char>)
    requires
        forall|i: int| 0 <= i < table.len() ==> !ends_with(name, (#[trigger] table[i]).0),
    ensures
        icon_in(table, name) is None,
    decreases table.len(),
{
    if table.len() > 0 {
        let t = table.drop_first();
        assert(!ends_with(name, table[0].0));
        assert forall|i: int| 0 <= i < t.len() implies !ends_with(name, (#[trigger] t[i]).0) by {
            assert(t[i] == table[i + 1]);
        }
        lemma_no_icon(t, name);
    }
}

} // verus!
