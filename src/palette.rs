use vstd::prelude::*;

verus! {

/// A terminal color: the six basic ones, or an index into the 256-color table.
#[derive(Clone, Copy, Debug, PartialEq, Eq, Structural)]
pub enum Color {
    Red,
    Yellow,
    Blue,
    Green,
    Magenta,
    Cyan,
    Ansi256(u8),
}

/// How a colored piece of text is shown: in `color`, on the background when
/// `background` holds, else on the foreground.
#[derive(Clone, Copy, Debug, PartialEq, Eq, Structural)]
pub struct Style {
    pub color: Color,
    pub background: bool,
}

/// Number of colors in the palette.
pub const PALETTE_LEN: usize = 12;

/// The palette, in order: the color at position `i` (for `0 <= i < PALETTE_LEN`).
pub open spec fn palette_entry(i: int) -> Color {
    if i == 0 {
        Color::Red
    } else if i == 1 {
        Color::Yellow
    } else if i == 2 {
        Color::Blue
    } else if i == 3 {
        Color::Green
    } else if i == 4 {
        Color::Magenta
    } else if i == 5 {
        Color::Cyan
    } else if i == 6 {
        Color::Ansi256(49)
    } else if i == 7 {
        Color::Ansi256(220)
    } else if i == 8 {
        Color::Ansi256(51)
    } else if i == 9 {
        Color::Ansi256(106)
    } else if i == 10 {
        Color::Ansi256(207)
    } else {
        Color::Ansi256(165)
    }
}

/// The color that the pattern at position `i` of a pattern list receives.
pub open spec fn palette_color(i: int) -> Color {
    palette_entry(i % (PALETTE_LEN as int))
}

/// The color for the pattern at position `i`: the palette wraps around.
pub fn color_for_index(i: usize) -> (c: Color)
    ensures
        c == palette_color(i as int),
{
    let k: usize = i % PALETTE_LEN;
    if k == 0 {
        Color::Red
    } else if k == 1 {
        Color::Yellow
    } else if k == 2 {
        Color::Blue
    } else if k == 3 {
        Color::Green
    } else if k == 4 {
        Color::Magenta
    } else if k == 5 {
        Color::Cyan
    } else if k == 6 {
        Color::Ansi256(49)
    } else if k == 7 {
        Color::Ansi256(220)
    } else if k == 8 {
        Color::Ansi256(51)
    } else if k == 9 {
        Color::Ansi256(106)
    } else if k == 10 {
        Color::Ansi256(207)
    } else {
        Color::Ansi256(165)
    }
}

/// Two pattern positions that differ by a whole number of palette lengths get
/// the same color.
pub proof fn lemma_palette_period(i: nat, k: nat)
    ensures
        palette_color(i + k * (PALETTE_LEN as int)) == palette_color(i as int),
{
    vstd::arithmetic::div_mod::lemma_mod_multiples_vanish(k as int, i as int, PALETTE_LEN as int);
}

} // verus!
