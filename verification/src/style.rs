//! Text styles and how they are laid over each other.
use vstd::prelude::*;

verus! {

#[derive(Clone, Copy, Debug, PartialEq, Eq, Structural)]
pub enum Color {
    Reset,
    Black,
    Red,
    Green,
    Yellow,
    Blue,
    Magenta,
    Cyan,
    Gray,
    LightRed,
    LightGreen,
    LightYellow,
    LightBlue,
    LightMagenta,
    LightCyan,
    LightGray,
    White,
    Rgb(u8, u8, u8),
    Indexed(u8),
}

#[derive(Clone, Copy, Debug, PartialEq, Eq, Structural)]
pub enum UnderlineStyle {
    Reset,
    Line,
    Curl,
    Dotted,
    Dashed,
    DoubleLine,
}

/// The bit of the bold modifier.
pub const BOLD: u16 = 0b1;

/// The bit of the italic modifier.
pub const ITALIC: u16 = 0b100;

/// A set of text modifiers, one bit for each.
#[derive(Clone, Copy, Debug, PartialEq, Eq, Structural)]
pub struct Modifier {
    pub bits: u16,
}

impl Modifier {
    pub open spec fn with(self, other: Modifier) -> Modifier {
        Modifier { bits: self.bits | other.bits }
    }

    pub open spec fn without(self, other: Modifier) -> Modifier {
        Modifier { bits: self.bits & !other.bits }
    }
}

/// What a style says of a text; what it leaves open stays as it is.
#[derive(Clone, Copy, Debug, PartialEq, Eq, Structural)]
pub struct Style {
    pub fg: Option<Color>,
    pub bg: Option<Color>,
    pub underline_color: Option<Color>,
    pub underline_style: Option<UnderlineStyle>,
    pub add_modifier: Modifier,
    pub sub_modifier: Modifier,
}

/// `over` where it says something, else `under`.
pub open spec fn laid_over<T>(under: Option<T>, over: Option<T>) -> Option<T> {
    match over {
        Some(t) => Some(t),
        None => under,
    }
}

/// The style that says nothing.
pub open spec fn plain_style() -> Style {
    Style {
        fg: None,
        bg: None,
        underline_color: None,
        underline_style: None,
        add_modifier: Modifier { bits: 0 },
        sub_modifier: Modifier { bits: 0 },
    }
}

impl Style {
    /// This style with `over` laid over it.
    pub open spec fn patched(self, over: Style) -> Style {
        Style {
            fg: laid_over(self.fg, over.fg),
            bg: laid_over(self.bg, over.bg),
            underline_color: laid_over(self.underline_color, over.underline_color),
            underline_style: laid_over(self.underline_style, over.underline_style),
            add_modifier: self.add_modifier.without(over.sub_modifier).with(over.add_modifier),
            sub_modifier: self.sub_modifier.without(over.add_modifier).with(over.sub_modifier),
        }
    }

    /// This style with the modifiers `bits` switched on.
    pub open spec fn modified(self, bits: u16) -> Style {
        Style {
            add_modifier: self.add_modifier.with(Modifier { bits }),
            sub_modifier: self.sub_modifier.without(Modifier { bits }),
            ..self
        }
    }

    pub fn fg(self, color: Color) -> (r: Style)
        ensures
            r == (Style { fg: Some(color), ..self }),
    {
        Style { fg: Some(color), ..self }
    }

    pub fn bg(self, color: Color) -> (r: Style)
        ensures
            r == (Style { bg: Some(color), ..self }),
    {
        Style { bg: Some(color), ..self }
    }

    pub fn underline_color(self, color: Color) -> (r: Style)
        ensures
            r == (Style { underline_color: Some(color), ..self }),
    {
        Style { underline_color: Some(color), ..self }
    }

    pub fn underline_style(self, style: UnderlineStyle) -> (r: Style)
        ensures
            r == (Style { underline_style: Some(style), ..self }),
    {
        Style { underline_style: Some(style), ..self }
    }

    /// Switches the modifiers `bits` on.
    pub fn add_modifier(self, bits: u16) -> (r: Style)
        ensures
            r == self.modified(bits),
    {
        Style {
            add_modifier: Modifier { bits: self.add_modifier.bits | bits },
            sub_modifier: Modifier { bits: self.sub_modifier.bits & !bits },
            ..self
        }
    }

    /// Lays `over` over this style.
    pub fn patch(self, over: Style) -> (r: Style)
        ensures
            r == self.patched(over),
    {
        Style {
            fg: if over.fg.is_some() {
                over.fg
            } else {
                self.fg
            },
            bg: if over.bg.is_some() {
                over.bg
            } else {
                self.bg
            },
            underline_color: if over.underline_color.is_some() {
                over.underline_color
            } else {
                self.underline_color
            },
            underline_style: if over.underline_style.is_some() {
                over.underline_style
            } else {
                self.underline_style
            },
            add_modifier: Modifier {
                bits: (self.add_modifier.bits & !over.sub_modifier.bits) | over.add_modifier.bits,
            },
            sub_modifier: Modifier {
                bits: (self.sub_modifier.bits & !over.add_modifier.bits) | over.sub_modifier.bits,
            },
        }
    }
}

impl Default for Style {
    fn default() -> (r: Style)
        ensures
            r == plain_style(),
    {
        Style {
            fg: None,
            bg: None,
            underline_color: None,
            underline_style: None,
            add_modifier: Modifier { bits: 0 },
            sub_modifier: Modifier { bits: 0 },
        }
    }
}

/// Laying two styles over a third, one after the other, is laying on the later one laid over the
/// earlier one.
pub proof fn lemma_patch_is_associative(a: Style, b: Style, c: Style)
    ensures
        a.patched(b).patched(c) == a.patched(b.patched(c)),
{
    let (ba, bs) = (b.add_modifier.bits, b.sub_modifier.bits);
    let (ca, cs) = (c.add_modifier.bits, c.sub_modifier.bits);
    let x = a.add_modifier.bits;
    let y = a.sub_modifier.bits;
    assert((((x & !bs) | ba) & !cs) | ca == (x & !((bs & !ca) | cs)) | ((ba & !cs) | ca))
        by (bit_vector);
    assert((((y & !ba) | bs) & !ca) | cs == (y & !((ba & !cs) | ca)) | ((bs & !ca) | cs))
        by (bit_vector);
}

/// The plain style changes nothing, below or above another style.
pub proof fn lemma_plain_style_is_neutral(a: Style)
    ensures
        a.patched(plain_style()) == a,
        plain_style().patched(a) == a,
{
    let x = a.add_modifier.bits;
    let y = a.sub_modifier.bits;
    assert((x & !0u16) | 0u16 == x) by (bit_vector);
    assert((y & !0u16) | 0u16 == y) by (bit_vector);
    assert((0u16 & !y) | x == x) by (bit_vector);
    assert((0u16 & !x) | y == y) by (bit_vector);
}

} // verus!
