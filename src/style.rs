//! How each tile value is shown: a lookup from value to emphasis, apart from
//! the game's rules.

use vstd::prelude::*;

verus! {

/// The emphasis that a tile is drawn with.
#[derive(Debug, Clone, Copy, PartialEq, Eq, Structural)]
pub enum TileStyle {
    Plain,
    Bright,
    Magenta,
    Red,
    DimRed,
    OnRed,
    BrightYellow,
    Yellow,
    DimYellow,
    OnYellow,
    Green,
    OnGreen,
}

/// The emphasis of each tile value, with one catch-all beyond 2048.
pub open spec fn style_of(value: usize) -> TileStyle {
    if value == 2 {
        TileStyle::Bright
    } else if value == 8 {
        TileStyle::Magenta
    } else if value == 16 {
        TileStyle::Red
    } else if value == 32 {
        TileStyle::DimRed
    } else if value == 64 {
        TileStyle::OnRed
    } else if value == 128 {
        TileStyle::BrightYellow
    } else if value == 256 {
        TileStyle::Yellow
    } else if value == 512 {
        TileStyle::DimYellow
    } else if value == 1024 {
        TileStyle::OnYellow
    } else if value == 2048 {
        TileStyle::Green
    } else if value > 2048 {
        TileStyle::OnGreen
    } else {
        TileStyle::Plain
    }
}

/// Returns the emphasis that a tile of `value` is drawn with.
pub fn tile_style(value: usize) -> (r: TileStyle)
    ensures
        r == style_of(value),
{
    match value {
        2 => TileStyle::Bright,
        8 => TileStyle::Magenta,
        16 => TileStyle::Red,
        32 => TileStyle::DimRed,
        64 => TileStyle::OnRed,
        128 => TileStyle::BrightYellow,
        256 => TileStyle::Yellow,
        512 => TileStyle::DimYellow,
        1024 => TileStyle::OnYellow,
        2048 => TileStyle::Green,
        _ => if value > 2048 {
            TileStyle::OnGreen
        } else {
            TileStyle::Plain
        },
    }
}

} // verus!
