//! Text as it is laid out in terminal columns.
use unicode_width::{UnicodeWidthChar, UnicodeWidthStr};
use vstd::prelude::*;

verus! {

/// The ellipsis that marks truncated text.
pub const ELLIPSIS: char = '\u{2026}';

/// The number of columns that `c` takes, or `None` where `c` is a control character.
pub uninterp spec fn char_columns(c: char) -> Option<usize>;

/// The number of columns that a text takes.
pub uninterp spec fn text_columns(text: Seq<char>) -> usize;

/// The columns of a character, none for a control character.
pub open spec fn columns_of(c: char) -> usize {
    match char_columns(c) {
        Some(n) => n,
        None => 0,
    }
}

/// The columns of each character of `text`.
pub open spec fn char_widths(text: Seq<char>) -> Seq<usize> {
    Seq::new(text.len(), |i: int| columns_of(text[i]))
}

/// The widths of `widths`, added up.
pub open spec fn total_width(widths: Seq<usize>) -> nat
    decreases widths.len(),
{
    if widths.len() == 0 {
        0
    } else {
        total_width(widths.drop_last()) + widths.last() as nat
    }
}

/// The columns of the characters of `text`, added up.
pub open spec fn columns(text: Seq<char>) -> nat {
    total_width(char_widths(text))
}

pub open spec fn is_printable_ascii(c: char) -> bool {
    ' ' <= c && c <= '~'
}

/// Every character of `text` is printable ASCII.
pub open spec fn is_printable_text(text: Seq<char>) -> bool {
    forall|i: int| 0 <= i < text.len() ==> is_printable_ascii(#[trigger] text[i])
}

/// `unicode_width::UnicodeWidthStr::width`: a text takes the columns of its characters added up,
/// save that an emoji presentation sequence, which ends in U+FE0F, may take more, never less. A
/// printable ASCII character takes one column.
#[verifier::external_body]
pub(crate) fn text_width(text: &str) -> (r: usize)
    ensures
        r == text_columns(text@),
        columns(text@) <= r,
        !text@.contains('\u{FE0F}') ==> r == columns(text@),
        is_printable_text(text@) ==> r == text@.len(),
{
    UnicodeWidthStr::width(text)
}

/// `unicode_width::UnicodeWidthChar::width`: printable ASCII characters take one column, no
/// character takes more than two, and control characters other than NUL have no width.
#[verifier::external_body]
pub(crate) fn char_width(c: char) -> (r: Option<usize>)
    ensures
        r == char_columns(c),
        r is Some ==> r->0 <= 2,
        is_printable_ascii(c) ==> r == Some(1usize),
        c == ELLIPSIS ==> r == Some(1usize),
        c == '\0' ==> r == Some(0usize),
        r is None <==> ('\u{1}' <= c && c < ' ') || ('\u{7F}' <= c && c < '\u{A0}'),
{
    UnicodeWidthChar::width(c)
}

/// `String::push`: appends a character.
pub assume_specification[ String::push ](s: &mut String, c: char)
    ensures
        final(s)@ == old(s)@.push(c),
;

/// The text that stands for a byte string which need not be valid UTF-8.
pub uninterp spec fn lossy_text(bytes: Seq<u8>) -> Seq<char>;

/// `String::from_utf8_lossy`: valid UTF-8 is decoded, anything else gives a text with replacement
/// characters in it.
#[verifier::external_body]
pub(crate) fn decode_lossy(bytes: &Vec<u8>) -> (r: String)
    ensures
        r@ == lossy_text(bytes@),
        vstd::utf8::valid_utf8(bytes@) ==> r@ == vstd::utf8::decode_utf8(bytes@),
{
    String::from_utf8_lossy(bytes).into_owned()
}

/// `bytes` as text: decoded where they are valid UTF-8, else with replacement characters.
pub open spec fn shown_text(bytes: Seq<u8>) -> Seq<char> {
    if vstd::utf8::valid_utf8(bytes) {
        vstd::utf8::decode_utf8(bytes)
    } else {
        lossy_text(bytes)
    }
}

/// The length of the longest beginning of `widths` that takes less than `width` columns.
pub open spec fn fitting(widths: Seq<usize>, width: nat) -> nat
    decreases widths.len(),
{
    if widths.len() == 0 || total_width(widths) < width {
        widths.len()
    } else {
        fitting(widths.drop_last(), width)
    }
}

/// A text of `total` columns whose characters take the columns `widths`, shortened to `width`
/// columns: the text itself where it fits, else a beginning of it and an ellipsis.
pub open spec fn shortened(
    text: Seq<char>,
    total: nat,
    widths: Seq<usize>,
    width: nat,
) -> Seq<char> {
    if width == 0 || text.len() == 0 {
        Seq::empty()
    } else if total <= width {
        text
    } else if width == 1 {
        seq![ELLIPSIS]
    } else {
        text.take(fitting(widths, width) as int).push(ELLIPSIS)
    }
}

/// `text` shortened to `width` columns.
pub open spec fn truncated(text: Seq<char>, width: nat) -> Seq<char> {
    shortened(text, text_columns(text) as nat, char_widths(text), width)
}

proof fn lemma_total_width_take(widths: Seq<usize>, i: int)
    requires
        0 <= i < widths.len(),
    ensures
        total_width(widths.take(i + 1)) == total_width(widths.take(i)) + widths[i],
{
    assert(widths.take(i + 1).drop_last() == widths.take(i));
}

proof fn lemma_total_width_grows(widths: Seq<usize>, i: int, j: int)
    requires
        0 <= i <= j <= widths.len(),
    ensures
        total_width(widths.take(i)) <= total_width(widths.take(j)),
    decreases j - i,
{
    if i < j {
        lemma_total_width_grows(widths, i, j - 1);
        lemma_total_width_take(widths, j - 1);
    }
}

proof fn lemma_fitting_at(widths: Seq<usize>, width: nat, i: int, n: int)
    requires
        0 <= i <= n <= widths.len(),
        total_width(widths.take(i)) < width,
        i < n ==> total_width(widths.take(i + 1)) >= width,
    ensures
        fitting(widths.take(n), width) == i,
    decreases n,
{
    if i < n {
        lemma_total_width_grows(widths, i + 1, n);
        assert(widths.take(n).drop_last() == widths.take(n - 1));
        lemma_fitting_at(widths, width, i, n - 1);
    }
}

proof fn lemma_fitting_fits(widths: Seq<usize>, width: nat)
    requires
        width > 0,
    ensures
        fitting(widths, width) <= widths.len(),
        total_width(widths.take(fitting(widths, width) as int)) < width,
    decreases widths.len(),
{
    if widths.len() > 0 && total_width(widths) >= width {
        lemma_fitting_fits(widths.drop_last(), width);
        let n = fitting(widths, width) as int;
        assert(widths.drop_last().take(n) == widths.take(n));
    } else {
        assert(widths.take(widths.len() as int) == widths);
    }
}

/// A text that was shortened to a positive width and did not fit ends in an ellipsis; what
/// precedes it is a beginning of the text and leaves at least one of the columns free.
pub proof fn lemma_shortened_leaves_a_column(
    text: Seq<char>,
    total: nat,
    widths: Seq<usize>,
    width: nat,
)
    requires
        widths.len() == text.len(),
        text.len() > 0,
        0 < width < total,
    ensures
        shortened(text, total, widths, width).last() == ELLIPSIS,
        shortened(text, total, widths, width).drop_last().is_prefix_of(text),
        total_width(
            widths.take(shortened(text, total, widths, width).len() - 1),
        ) + 1 <= width,
{
    lemma_fitting_fits(widths, width);
    let n = fitting(widths, width) as int;
    let kept = shortened(text, total, widths, width).drop_last();
    if width > 1 {
        assert(kept == text.take(n));
    } else {
        assert(kept == Seq::<char>::empty());
    }
    assert(kept =~= text.subrange(0, kept.len() as int));
}

/// What the measures of `text` and of the ellipsis show: the width of the text is at least that of
/// its characters, and the same without emoji presentation sequences; the ellipsis takes a column.
pub open spec fn is_measured(text: Seq<char>) -> bool {
    &&& columns(text) <= text_columns(text)
    &&& !text.contains('\u{FE0F}') ==> text_columns(text) == columns(text)
    &&& char_columns(ELLIPSIS) == Some(1usize)
}

/// The characters of a truncated text take no more than the columns that it was given.
pub proof fn lemma_truncated_fits(text: Seq<char>, width: nat)
    requires
        is_measured(text),
    ensures
        columns(truncated(text, width)) <= width,
{
    let widths = char_widths(text);
    let r = truncated(text, width);
    if width == 0 || text.len() == 0 {
        assert(char_widths(r) == Seq::<usize>::empty());
    } else if text_columns(text) > width {
        lemma_shortened_leaves_a_column(text, text_columns(text) as nat, widths, width);
        let n = r.len() - 1;
        assert(char_widths(r).drop_last() == widths.take(n)) by {
            assert(r.drop_last() == text.take(n));
            assert forall|i: int| 0 <= i < n implies char_widths(r)[i] == widths[i] by {
                assert(r[i] == r.drop_last()[i]);
            }
        }
    }
}

/// A text with its width and the widths of its characters.
#[derive(Debug)]
pub struct Measured {
    pub text: String,
    pub total: usize,
    pub widths: Vec<usize>,
}

impl Measured {
    pub open spec fn wf(&self) -> bool {
        self.widths@.len() == self.text@.len()
    }
}

/// Measures `text`.
pub fn measure(text: &str) -> (r: Measured)
    ensures
        r.wf(),
        r.text@ == text@,
        r.total == text_columns(text@),
        r.widths@ == char_widths(text@),
        is_measured(text@),
        is_printable_text(text@) ==> r.total == text@.len(),
        forall|i: int|
            0 <= i < r.widths@.len() ==> #[trigger] r.widths@[i] <= 2 && (is_printable_ascii(text@[i])
                ==> r.widths@[i] == 1),
{
    // The ellipsis that a text may be cut with takes one column.
    let _ = char_width(ELLIPSIS);
    let mut widths: Vec<usize> = Vec::new();
    for ch in it: text.chars()
        invariant
            it.seq() == text@,
            widths@.len() == it.index(),
            forall|i: int| 0 <= i < it.index() ==> widths@[i] == columns_of(#[trigger] text@[i]),
            forall|i: int|
                0 <= i < it.index() ==> #[trigger] widths@[i] <= 2 && (is_printable_ascii(text@[i])
                    ==> widths@[i] == 1),
    {
        let width = match char_width(ch) {
            Some(w) => w,
            None => 0,
        };
        widths.push(width);
    }
    assert(widths@ == char_widths(text@));
    Measured { text: text.to_owned(), total: text_width(text), widths }
}

/// Shortens a measured text to `width` columns and marks what was left out with an ellipsis.
pub fn shorten(text: &Measured, width: usize) -> (r: String)
    requires
        text.wf(),
    ensures
        r@ == shortened(text.text@, text.total as nat, text.widths@, width as nat),
{
    if width == 0 || text.text.as_str().is_empty() {
        return String::new();
    }
    if text.total <= width {
        return text.text.clone();
    }
    let mut out = String::new();
    if width > 1 {
        let ghost widths = text.widths@;
        let ghost chars = text.text@;
        let mut used: usize = 0;
        let mut n: usize = 0;
        assert(chars.take(0) == Seq::<char>::empty());
        assert(widths.take(0) == Seq::<usize>::empty());
        for ch in it: text.text.as_str().chars()
            invariant_except_break
                n == it.index(),
                n == chars.len() ==> n == fitting(widths, width as nat),
            invariant
                it.seq() == chars,
                widths == text.widths@,
                widths.len() == chars.len(),
                n <= chars.len(),
                out@ == chars.take(n as int),
                total_width(widths.take(n as int)) == used,
                used < width,
            ensures
                n == fitting(widths, width as nat),
        {
            proof {
                lemma_total_width_take(widths, n as int);
                assert(widths.take(widths.len() as int) == widths);
            }
            assert(n < text.widths.len());
            let ch_width = text.widths[n];
            if ch_width >= width - used {
                proof {
                    lemma_fitting_at(widths, width as nat, n as int, widths.len() as int);
                }
                break;
            }
            out.push(ch);
            used += ch_width;
            assert(chars.take(n + 1) == chars.take(n as int).push(ch));
            n += 1;
            proof {
                if n == chars.len() {
                    lemma_fitting_at(widths, width as nat, n as int, widths.len() as int);
                }
            }
        }
    }
    out.push(ELLIPSIS);
    assert(out@ == shortened(text.text@, text.total as nat, text.widths@, width as nat));
    out
}

/// A text of characters that take one column each, shortened to `width` columns.
pub open spec fn truncated_by_characters(text: Seq<char>, width: nat) -> Seq<char> {
    if text.len() <= width {
        text
    } else if width == 0 {
        Seq::empty()
    } else {
        text.take(width - 1).push(ELLIPSIS)
    }
}

proof fn lemma_total_of_ones(widths: Seq<usize>, n: int)
    requires
        0 <= n <= widths.len(),
        forall|i: int| 0 <= i < widths.len() ==> #[trigger] widths[i] == 1,
    ensures
        total_width(widths.take(n)) == n,
    decreases n,
{
    if n > 0 {
        lemma_total_of_ones(widths, n - 1);
        lemma_total_width_take(widths, n - 1);
    }
}

/// Where every character takes one column, shortening counts characters.
pub proof fn lemma_shortened_by_characters(text: Seq<char>, widths: Seq<usize>, width: nat)
    requires
        widths.len() == text.len(),
        forall|i: int| 0 <= i < widths.len() ==> #[trigger] widths[i] == 1,
    ensures
        shortened(text, text.len(), widths, width) == truncated_by_characters(text, width),
{
    if 0 < width < text.len() {
        lemma_total_of_ones(widths, width - 1);
        lemma_total_of_ones(widths, width as int);
        lemma_fitting_at(widths, width, width - 1, widths.len() as int);
        assert(widths.take(widths.len() as int) == widths);
    }
    assert(shortened(text, text.len(), widths, width) =~= truncated_by_characters(text, width));
}

/// Shortens `text` to `width` columns and marks what was left out with an ellipsis.
pub fn truncate_to_width(text: &str, width: usize) -> (r: String)
    ensures
        r@ == truncated(text@, width as nat),
        columns(r@) <= width,
        is_printable_text(text@) ==> r@ == truncated_by_characters(text@, width as nat),
{
    let measured = measure(text);
    proof {
        lemma_truncated_fits(text@, width as nat);
        if is_printable_text(text@) {
            lemma_shortened_by_characters(text@, measured.widths@, width as nat);
        }
    }
    shorten(&measured, width)
}

/// The decimal digit `d`.
pub open spec fn digit(d: nat) -> char {
    (48 + d) as char
}

/// The decimal numeral of `n`.
pub open spec fn numeral(n: nat) -> Seq<char>
    decreases n,
{
    if n < 10 {
        seq![digit(n)]
    } else {
        numeral(n / 10).push(digit(n % 10))
    }
}

fn push_numeral(out: &mut String, n: u32)
    ensures
        final(out)@ == old(out)@ + numeral(n as nat),
    decreases n,
{
    if n >= 10 {
        push_numeral(out, n / 10);
    }
    let d: u8 = (48 + n % 10) as u8;
    out.push(d as char);
    assert(out@ == old(out)@ + numeral(n as nat));
}

/// Numerals are printable ASCII.
pub proof fn lemma_numeral_is_ascii(n: nat)
    ensures
        numeral(n).len() > 0,
        forall|i: int| 0 <= i < numeral(n).len() ==> is_printable_ascii(#[trigger] numeral(n)[i]),
    decreases n,
{
    if n >= 10 {
        lemma_numeral_is_ascii(n / 10);
    }
}

/// The numeral of `n` behind a space.
pub fn spaced_numeral(n: u32) -> (r: String)
    ensures
        r@ == seq![' '] + numeral(n as nat),
{
    let mut out = String::new();
    out.push(' ');
    push_numeral(&mut out, n);
    assert(out@ == seq![' '] + numeral(n as nat));
    out
}

pub open spec fn spaces(n: nat) -> Seq<char> {
    Seq::new(n, |i: int| ' ')
}

} // verus!
