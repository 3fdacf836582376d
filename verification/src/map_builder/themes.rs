//! The looks of a map: which glyph stands for which tile.

use vstd::prelude::*;
use crate::map::TileType;

verus! {

/// The glyph of the character `c` in code page 437, as the outside
/// function `to_cp437` gives it.
pub uninterp spec fn cp437(c: char) -> u16;

/// Calls `to_cp437`: the result is the glyph that the console's font holds
/// for `c`, a function of `c` alone.
#[verifier::external_body]
fn glyph(c: char) -> (g: u16)
    ensures
        g == cp437(c),
{
    bracket_lib::prelude::to_cp437(c)
}

/// The glyph of the character `c`.
pub fn glyph_of(c: char) -> (g: u16)
    ensures
        g == cp437(c),
{
    glyph(c)
}

/// The look of a map.
#[derive(Clone, Copy, Debug, PartialEq, Eq, Structural)]
pub enum MapTheme {
    Dungeon,
    Forest,
}

/// The character drawn for a tile under a theme.
pub open spec fn tile_char(theme: MapTheme, tile: TileType) -> char {
    match (theme, tile) {
        (MapTheme::Dungeon, TileType::Floor) => '.',
        (MapTheme::Dungeon, TileType::Wall) => '#',
        (MapTheme::Forest, TileType::Floor) => ';',
        (MapTheme::Forest, TileType::Wall) => '"',
    }
}

impl MapTheme {
    /// The glyph drawn for a tile.
    pub fn tile_to_render(&self, tile_type: TileType) -> (g: u16)
        ensures
            g == cp437(tile_char(*self, tile_type)),
    {
        match (*self, tile_type) {
            (MapTheme::Dungeon, TileType::Floor) => glyph('.'),
            (MapTheme::Dungeon, TileType::Wall) => glyph('#'),
            (MapTheme::Forest, TileType::Floor) => glyph(';'),
            (MapTheme::Forest, TileType::Wall) => glyph('"'),
        }
    }
}

} // verus!
