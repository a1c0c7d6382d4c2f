//! What the labels of entries and the numerals behind them say.
use crate::entry::{entry_row, name_text, EntryKind};
use crate::path::PathView;
use crate::text::{
    char_columns, char_widths, columns, fitting, lossy_text, numeral, shortened, text_columns,
    total_width, truncated,
};
use vstd::prelude::*;
use vstd::utf8::{decode_utf8, encode_utf8, valid_utf8};

verus! {

/// The number that decimal digits stand for.
pub open spec fn value_of(digits: Seq<char>) -> int
    decreases digits.len(),
{
    if digits.len() == 0 {
        0
    } else {
        10 * value_of(digits.drop_last()) + (digits.last() as int - '0' as int)
    }
}

/// The numeral of a number has its value, is made of decimal digits, and has no zero in front,
/// unless that is all.
pub proof fn lemma_numerals_have_their_values(n: nat)
    ensures
        value_of(numeral(n)) == n,
        forall|i: int|
            0 <= i < numeral(n).len() ==> '0' <= #[trigger] numeral(n)[i] && numeral(n)[i] <= '9',
        numeral(n).len() > 0,
        n > 0 ==> numeral(n)[0] != '0',
    decreases n,
{
    let s = numeral(n);
    if n < 10 {
        assert(s.drop_last() =~= Seq::<char>::empty());
        assert(value_of(s.drop_last()) == 0);
        assert(s.last() == s[0]);
    } else {
        lemma_numerals_have_their_values(n / 10);
        assert(s.drop_last() =~= numeral(n / 10));
        assert(s[0] == numeral(n / 10)[0]);
        assert forall|i: int| 0 <= i < s.len() implies '0' <= #[trigger] s[i] && s[i] <= '9' by {
            if i < s.len() - 1 {
                assert(s[i] == numeral(n / 10)[i]);
            }
        }
    }
}

/// The widths, added up from the first on.
pub open spec fn sum_of(widths: Seq<usize>) -> int
    decreases widths.len(),
{
    if widths.len() == 0 {
        0
    } else {
        widths[0] + sum_of(widths.drop_first())
    }
}

proof fn lemma_sum_of_push(widths: Seq<usize>, w: usize)
    ensures
        sum_of(widths.push(w)) == sum_of(widths) + w,
    decreases widths.len(),
{
    let all = widths.push(w);
    if widths.len() > 0 {
        assert(all.drop_first() =~= widths.drop_first().push(w));
        lemma_sum_of_push(widths.drop_first(), w);
    } else {
        assert(all.drop_first() =~= Seq::<usize>::empty());
        assert(sum_of(all.drop_first()) == 0);
    }
}

/// The width of a text, character by character, is the sum of the widths of the characters.
pub proof fn lemma_total_is_the_sum(widths: Seq<usize>)
    ensures
        total_width(widths) == sum_of(widths),
    decreases widths.len(),
{
    if widths.len() > 0 {
        lemma_total_is_the_sum(widths.drop_last());
        lemma_sum_of_push(widths.drop_last(), widths.last());
        assert(widths.drop_last().push(widths.last()) =~= widths);
    }
}

/// A control character takes no columns, and every other character those that it has.
pub proof fn lemma_widths_of_characters(text: Seq<char>, i: int)
    requires
        0 <= i < text.len(),
    ensures
        char_widths(text).len() == text.len(),
        char_columns(text[i]) is None ==> char_widths(text)[i] == 0,
        char_columns(text[i]) matches Some(n) ==> char_widths(text)[i] == n,
        columns(text) == sum_of(char_widths(text)),
{
    lemma_total_is_the_sum(char_widths(text));
}

proof fn lemma_fitting(widths: Seq<usize>, width: nat)
    requires
        width > 0,
    ensures
        fitting(widths, width) <= widths.len(),
        total_width(widths.take(fitting(widths, width) as int)) < width,
        fitting(widths, width) < widths.len() ==> total_width(
            widths.take(fitting(widths, width) as int + 1),
        ) >= width,
    decreases widths.len(),
{
    let n = fitting(widths, width) as int;
    if widths.len() > 0 && total_width(widths) >= width {
        let front = widths.drop_last();
        lemma_fitting(front, width);
        assert(front.take(n) =~= widths.take(n));
        if n + 1 <= front.len() {
            assert(front.take(n + 1) =~= widths.take(n + 1));
        } else {
            assert(widths.take(n + 1) =~= widths);
        }
    } else {
        assert(widths.take(n) =~= widths);
    }
}

/// `kept` is a beginning of the text that leaves one of the columns free, and one more character
/// would not.
pub open spec fn is_longest_beginning(
    kept: Seq<char>,
    text: Seq<char>,
    widths: Seq<usize>,
    width: nat,
) -> bool {
    let n = kept.len() as int;
    &&& n <= text.len()
    &&& forall|i: int| 0 <= i < n ==> #[trigger] kept[i] == text[i]
    &&& sum_of(widths.take(n)) < width
    &&& width > 1 && n < text.len() ==> sum_of(widths.take(n + 1)) >= width
    &&& width == 1 ==> n == 0
}

/// A text that fits is kept as it is. Of one that does not, as much is kept from its beginning as
/// leaves a column free, and an ellipsis stands in that column; where there is but one column, it
/// holds the ellipsis alone. Without columns nothing is left.
pub proof fn lemma_shortening_keeps_what_fits(
    text: Seq<char>,
    total: nat,
    widths: Seq<usize>,
    width: nat,
)
    requires
        widths.len() == text.len(),
    ensures
        ({
            let short = shortened(text, total, widths, width);
            &&& width == 0 || text.len() == 0 ==> short.len() == 0
            &&& width > 0 && total <= width ==> short == text
            &&& width > 0 && text.len() > 0 && total > width ==> {
                &&& short.len() > 0
                &&& short.last() == '\u{2026}'
                &&& is_longest_beginning(short.drop_last(), text, widths, width)
            }
        }),
{
    let short = shortened(text, total, widths, width);
    if text.len() == 0 {
        assert(short =~= text);
    }
    if width > 0 && text.len() > 0 && total > width {
        lemma_fitting(widths, width);
        let kept = short.drop_last();
        if width == 1 {
            assert(kept =~= Seq::<char>::empty());
            assert(widths.take(0) =~= Seq::<usize>::empty());
            assert(sum_of(widths.take(0)) == 0);
        } else {
            let n = fitting(widths, width) as int;
            assert(kept =~= text.take(n));
            lemma_total_is_the_sum(widths.take(n));
            if n < text.len() {
                lemma_total_is_the_sum(widths.take(n + 1));
            }
        }
    }
}

/// What becomes of a text that is truncated to a width.
pub proof fn lemma_truncating_keeps_what_fits(text: Seq<char>, width: nat)
    ensures
        width == 0 || text.len() == 0 ==> truncated(text, width).len() == 0,
        width > 0 && text_columns(text) <= width ==> truncated(text, width) == text,
        width > 0 && text.len() > 0 && text_columns(text) > width ==> truncated(
            text,
            width,
        ).len() > 0 && truncated(text, width).last() == '\u{2026}' && is_longest_beginning(
            truncated(text, width).drop_last(),
            text,
            char_widths(text),
            width,
        ),
{
    lemma_shortening_keeps_what_fits(
        text,
        text_columns(text) as nat,
        char_widths(text),
        width,
    );
}

/// The row of an entry has the path, the depth and the kind of the entry. Its label begins with two
/// blanks for each level, the sign of a directory or a blank, a blank, an icon and a blank.
pub proof fn lemma_labels_are_indented(
    path: PathView,
    depth: nat,
    kind: EntryKind,
    expanded: bool,
)
    ensures
        ({
            let row = entry_row(path, depth, kind, expanded);
            let start = 2 * depth as int;
            &&& row.path == path
            &&& row.depth == depth
            &&& row.kind == kind
            &&& row.expanded == expanded
            &&& row.prefix.len() == start + 4
            &&& forall|i: int| 0 <= i < start ==> #[trigger] row.prefix[i] == ' '
            &&& row.prefix[start + 1] == ' '
            &&& row.prefix[start + 3] == ' '
            &&& kind == EntryKind::File ==> row.prefix[start] == ' '
            &&& kind == EntryKind::Directory && expanded ==> row.prefix[start] == '\u{25BE}'
                && row.prefix[start + 2] == '\u{F0DCF}'
            &&& kind == EntryKind::Directory && !expanded ==> row.prefix[start] == '\u{25B8}'
                && row.prefix[start + 2] == '\u{F024B}'
        }),
{
}

/// The icon in the row of a path of the given kind, at any depth.
pub open spec fn icon_in_row(path: PathView, depth: nat, expanded: bool) -> char {
    entry_row(path, depth, EntryKind::File, expanded).prefix[2 * depth as int + 2]
}

/// The extension of the path is `text`.
pub open spec fn has_extension(path: PathView, text: Seq<char>) -> bool {
    path.extension() == Some(encode_utf8(text))
}

/// The icon of a file tells its extension, and a file of each extension that has an icon of its own
/// has not that of all other files.
pub proof fn lemma_icons_tell_extensions(path: PathView, depth: nat, expanded: bool)
    ensures
        ({
            let icon = icon_in_row(path, depth, expanded);
            ||| icon == '\u{E7A8}' && has_extension(path, "rs"@)
            ||| icon == '\u{F0354}' && has_extension(path, "md"@)
            ||| icon == '\u{E6B2}' && has_extension(path, "toml"@)
            ||| icon == '\u{E60B}' && (has_extension(path, "json"@) || has_extension(
                path,
                "jsonc"@,
            ))
            ||| icon == '\u{E6A8}' && (has_extension(path, "yml"@) || has_extension(path, "yaml"@))
            ||| icon == '\u{E781}' && (has_extension(path, "js"@) || has_extension(path, "mjs"@)
                || has_extension(path, "cjs"@))
            ||| icon == '\u{F06E6}' && (has_extension(path, "ts"@) || has_extension(path, "tsx"@))
            ||| icon == '\u{E7BA}' && has_extension(path, "jsx"@)
            ||| icon == '\u{E736}' && has_extension(path, "html"@)
            ||| icon == '\u{E749}' && (has_extension(path, "css"@) || has_extension(path, "scss"@))
            ||| icon == '\u{E795}' && (has_extension(path, "sh"@) || has_extension(path, "bash"@)
                || has_extension(path, "zsh"@))
            ||| icon == '\u{F033E}' && has_extension(path, "lock"@)
            ||| {
                &&& icon == '\u{F0214}'
                &&& !has_extension(path, "rs"@) && !has_extension(path, "md"@) && !has_extension(
                    path,
                    "toml"@,
                )
                &&& !has_extension(path, "json"@) && !has_extension(path, "jsonc"@)
                    && !has_extension(path, "yml"@) && !has_extension(path, "yaml"@)
                &&& !has_extension(path, "js"@) && !has_extension(path, "mjs"@) && !has_extension(
                    path,
                    "cjs"@,
                )
                &&& !has_extension(path, "ts"@) && !has_extension(path, "tsx"@) && !has_extension(
                    path,
                    "jsx"@,
                )
                &&& !has_extension(path, "html"@) && !has_extension(path, "css"@)
                    && !has_extension(path, "scss"@)
                &&& !has_extension(path, "sh"@) && !has_extension(path, "bash"@) && !has_extension(
                    path,
                    "zsh"@,
                )
                &&& !has_extension(path, "lock"@)
            }
        }),
{
}

/// The name in the row of a path is its last name, or the whole path where it has none or where
/// that is two dots; as text, where it is text.
pub proof fn lemma_rows_show_the_last_name(
    path: PathView,
    depth: nat,
    kind: EntryKind,
    expanded: bool,
)
    ensures
        ({
            let bytes = if path.parts.len() > 0 && path.parts.last() != seq![46u8, 46u8]
                && path.parts.last().len() > 0 {
                path.parts.last()
            } else {
                path.text()
            };
            let name = entry_row(path, depth, kind, expanded).name;
            &&& valid_utf8(bytes) ==> name == decode_utf8(bytes)
            &&& !valid_utf8(bytes) ==> name == lossy_text(bytes)
            &&& name_text(path) == name
        }),
{
}

} // verus!
