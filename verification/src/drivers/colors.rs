use vstd::prelude::*;

verus! {

/// The named colours the console can draw with.
#[derive(Copy, Clone, Debug, PartialEq, Eq, Structural)]
pub enum Color {
    Black,
    White,
    Red,
    Green,
    Blue,
    Yellow,
    Magenta,
    Cyan,
    Orange,
}

/// The 32-bit ARGB value of each colour (alpha always 0xFF).
pub open spec fn color_value(color: Color) -> u32 {
    match color {
        Color::Black => 0xFF000000,
        Color::White => 0xFFFFFFFF,
        Color::Red => 0xFFFF0000,
        Color::Green => 0xFF00FF00,
        Color::Blue => 0xFF0000FF,
        Color::Yellow => 0xFFFFFF00,
        Color::Magenta => 0xFFFF00FF,
        Color::Cyan => 0xFF00FFFF,
        Color::Orange => 0xFFAB5130,
    }
}

/// The ARGB pixel value of a colour.
pub fn get_color(color: Color) -> (r: u32)
    ensures
        r == color_value(color),
{
    match color {
        Color::Black => 0xFF000000,
        Color::White => 0xFFFFFFFF,
        Color::Red => 0xFFFF0000,
        Color::Green => 0xFF00FF00,
        Color::Blue => 0xFF0000FF,
        Color::Yellow => 0xFFFFFF00,
        Color::Magenta => 0xFFFF00FF,
        Color::Cyan => 0xFF00FFFF,
        Color::Orange => 0xFFAB5130,
    }
}

} // verus!
