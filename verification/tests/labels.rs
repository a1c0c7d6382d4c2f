use sidebar_swatches::entry::{entry_label_parts, file_icon, file_name, EntryKind, FileTreeEntry};
use sidebar_swatches::path::TreePath;
use sidebar_swatches::text::{measure, shorten, spaced_numeral, truncate_to_width, Measured};
use unicode_width::UnicodeWidthStr;

fn path(text: &str) -> TreePath {
    let absolute = text.starts_with('/');
    let parts = text
        .split('/')
        .filter(|part| !part.is_empty())
        .map(|part| part.as_bytes().to_vec())
        .collect();
    TreePath::new(absolute, parts).unwrap()
}

#[test]
fn file_names_are_the_last_names() {
    assert_eq!(file_name(&path("/a/b.rs")), "b.rs");
    assert_eq!(file_name(&path("/a/b/")), "b");
    assert_eq!(file_name(&path("/")), "/");
    assert_eq!(file_name(&path("a/..")), "a/..");
    assert_eq!(file_name(&path("/..")), "/..");
    assert_eq!(file_name(&path("a/../b")), "b");
    assert_eq!(file_name(&path("")), "");
    assert_eq!(file_name(&path("ä/ß")), "ß");
}

#[test]
fn names_that_are_not_utf8_are_replaced() {
    let odd = TreePath::new(true, vec![vec![b'a', 0xFF, b'b']]).unwrap();
    assert_eq!(file_name(&odd), "a\u{FFFD}b");
}

#[test]
fn icons_go_by_the_extension() {
    let icons = [
        ("main.rs", '\u{E7A8}'),
        ("README.md", '\u{F0354}'),
        ("Cargo.toml", '\u{E6B2}'),
        ("a.json", '\u{E60B}'),
        ("a.jsonc", '\u{E60B}'),
        ("a.yml", '\u{E6A8}'),
        ("a.yaml", '\u{E6A8}'),
        ("a.js", '\u{E781}'),
        ("a.mjs", '\u{E781}'),
        ("a.cjs", '\u{E781}'),
        ("a.ts", '\u{F06E6}'),
        ("a.tsx", '\u{F06E6}'),
        ("a.jsx", '\u{E7BA}'),
        ("a.html", '\u{E736}'),
        ("a.css", '\u{E749}'),
        ("a.scss", '\u{E749}'),
        ("a.sh", '\u{E795}'),
        ("a.bash", '\u{E795}'),
        ("a.zsh", '\u{E795}'),
        ("Cargo.lock", '\u{F033E}'),
        ("a.RS", '\u{F0214}'),
        (".rs", '\u{F0214}'),
        ("rs", '\u{F0214}'),
        ("a.", '\u{F0214}'),
        ("a.rs/..", '\u{F0214}'),
        ("a.rs.bak", '\u{F0214}'),
    ];
    for (name, icon) in icons {
        assert_eq!(file_icon(&path(name)), icon, "{}", name);
    }
    let odd = TreePath::new(false, vec![vec![b'a', b'.', 0xFF]]).unwrap();
    assert_eq!(file_icon(&odd), '\u{F0214}');
}

#[test]
fn labels_show_depth_and_kind() {
    let file = entry_label_parts(&path("/r/a/main.rs"), 2, EntryKind::File, false);
    assert_eq!(file, ("      \u{E7A8} ".to_string(), "main.rs".to_string()));
    let open = entry_label_parts(&path("/r/src"), 0, EntryKind::Directory, true);
    assert_eq!(open, ("\u{25BE} \u{F0DCF} ".to_string(), "src".to_string()));
    let closed = entry_label_parts(&path("/r/src"), 1, EntryKind::Directory, false);
    assert_eq!(closed, ("  \u{25B8} \u{F024B} ".to_string(), "src".to_string()));
}

#[test]
fn entries_carry_their_labels() {
    let entry = FileTreeEntry::new(path("/r/a.md"), 1, EntryKind::File, false);
    assert_eq!(entry.path, path("/r/a.md"));
    assert_eq!(entry.depth, 1);
    assert_eq!(entry.kind, EntryKind::File);
    assert!(!entry.expanded);
    assert_eq!(entry.prefix, "    \u{F0354} ");
    assert_eq!(entry.name, "a.md");
}

#[test]
fn texts_that_fit_are_not_truncated() {
    assert_eq!(truncate_to_width("hello", 5), "hello");
    assert_eq!(truncate_to_width("hello", 80), "hello");
    assert_eq!(truncate_to_width("", 4), "");
    assert_eq!(truncate_to_width("hello", 0), "");
}

#[test]
fn truncated_texts_end_in_an_ellipsis() {
    assert_eq!(truncate_to_width("hello", 4), "hel…");
    assert_eq!(truncate_to_width("hello", 2), "h…");
    assert_eq!(truncate_to_width("hello", 1), "…");
}

#[test]
fn wide_characters_are_not_cut() {
    assert_eq!(truncate_to_width("日本語", 6), "日本語");
    assert_eq!(truncate_to_width("日本語", 5), "日本…");
    assert_eq!(truncate_to_width("日本語", 4), "日…");
    assert_eq!(truncate_to_width("日本語", 2), "…");
    assert_eq!(truncate_to_width("a\u{7}bc", 2), "a\u{7}…");
}

#[test]
fn truncated_texts_keep_to_their_width() {
    for text in ["hello world", "日本語テキスト", "aé日b\u{301}x", "tab\tnul\0end"] {
        for width in 0..20 {
            let truncated = truncate_to_width(text, width);
            assert!(truncated.width() <= width, "{:?} {}", text, width);
            assert_eq!(truncated == text, text.width() <= width, "{:?} {}", text, width);
        }
    }
}

#[test]
fn texts_are_measured_by_columns() {
    let measured = measure("a日\u{7}…");
    assert_eq!(measured.text, "a日\u{7}…");
    assert_eq!(measured.total, 4);
    assert_eq!(measured.widths, vec![1, 2, 0, 1]);
    let heart = measure("\u{2764}\u{FE0F}");
    assert_eq!(heart.total, 2);
    assert_eq!(heart.widths, vec![1, 0]);
}

#[test]
fn texts_with_emoji_that_fit_are_kept() {
    assert_eq!(truncate_to_width("\u{2764}\u{FE0F}a", 3), "\u{2764}\u{FE0F}a");
    assert_eq!(truncate_to_width("\u{2764}\u{FE0F}a", 2), "\u{2764}\u{FE0F}…");
    let cut = measure(&truncate_to_width("\u{2764}\u{FE0F}aaa", 4));
    assert_eq!(cut.text, "\u{2764}\u{FE0F}aa…");
    assert_eq!(cut.widths.iter().sum::<usize>(), 4);
}

#[test]
fn measured_texts_are_shortened_by_their_measures() {
    let measured = Measured { text: "abc".to_string(), total: 9, widths: vec![3, 3, 3] };
    assert_eq!(shorten(&measured, 9), "abc");
    assert_eq!(shorten(&measured, 8), "ab…");
    assert_eq!(shorten(&measured, 6), "a…");
    assert_eq!(shorten(&measured, 3), "…");
}

#[test]
fn numerals_are_decimal() {
    assert_eq!(spaced_numeral(0), " 0");
    assert_eq!(spaced_numeral(1070), " 1070");
    assert_eq!(spaced_numeral(u32::MAX), " 4294967295");
}
