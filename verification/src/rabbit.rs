//! The tiling of small rabbits: which rabbits stand in a tile, and in
//! which colours.
use crate::utils::Palette;
use vstd::prelude::*;

verus! {

/// The place of a tile in the tiling: the tiles of the last column and of
/// the last row are cut.
#[derive(Copy, Clone, PartialEq, Eq, Structural, Debug)]
pub enum PatternPosition {
    Full,
    Corner,
    Vertical,
    Horizontal,
}

/// A small rabbit of a tile: its column and its row among the four by four
/// places of the tile, and the colour of its body.
#[derive(Copy, Clone, PartialEq, Eq, Structural, Debug)]
pub struct Rabbit {
    pub column: u8,
    pub row: u8,
    pub color: u32,
}

/// The place of the tile `(x, y)` in a tiling whose last column is
/// `last_column` and whose last row is `last_row`.
pub open spec fn position_of(x: int, y: int, last_column: int, last_row: int) -> PatternPosition {
    if x == last_column && y == last_row {
        PatternPosition::Corner
    } else if x == last_column {
        PatternPosition::Vertical
    } else if y == last_row {
        PatternPosition::Horizontal
    } else {
        PatternPosition::Full
    }
}

/// The place of the tile `(x, y)` in a tiling whose last column is
/// `last_column` and whose last row is `last_row`: the tile where both
/// end is a corner, a tile of the last column is cut vertically, and one of
/// the last row horizontally.
pub fn pattern_position(x: i32, y: i32, last_column: i32, last_row: i32) -> (position:
    PatternPosition)
    ensures
        position == position_of(x as int, y as int, last_column as int, last_row as int),
{
    if x == last_column && y == last_row {
        PatternPosition::Corner
    } else if x == last_column {
        PatternPosition::Vertical
    } else if y == last_row {
        PatternPosition::Horizontal
    } else {
        PatternPosition::Full
    }
}

/// The five rabbits that every tile has: four grey ones around a red one.
pub open spec fn core_rabbits() -> Seq<Rabbit> {
    seq![
        Rabbit { column: 0, row: 0, color: Palette::GRAY },
        Rabbit { column: 0, row: 2, color: Palette::GRAY },
        Rabbit { column: 2, row: 0, color: Palette::GRAY },
        Rabbit { column: 2, row: 2, color: Palette::GRAY },
        Rabbit { column: 1, row: 1, color: Palette::RED },
    ]
}

/// The rabbits of a tile: those of every tile, then the one below where
/// the tile is not cut there, the one to the right likewise, and the dark
/// beige one in the corner of a full tile.
pub open spec fn rabbits_of(position: PatternPosition) -> Seq<Rabbit> {
    match position {
        PatternPosition::Full => core_rabbits().push(
            Rabbit { column: 1, row: 3, color: Palette::GRAY },
        ).push(Rabbit { column: 3, row: 1, color: Palette::GRAY }).push(
            Rabbit { column: 3, row: 3, color: Palette::DARK_BEIGE },
        ),
        PatternPosition::Corner => core_rabbits(),
        PatternPosition::Vertical => core_rabbits().push(
            Rabbit { column: 1, row: 3, color: Palette::GRAY },
        ),
        PatternPosition::Horizontal => core_rabbits().push(
            Rabbit { column: 3, row: 1, color: Palette::GRAY },
        ),
    }
}

/// The rabbits of a tile, in the order in which they are drawn.
pub fn pattern_rabbits(position: PatternPosition) -> (rabbits: Vec<Rabbit>)
    ensures
        rabbits@ == rabbits_of(position),
{
    let mut rabbits: Vec<Rabbit> = Vec::new();
    rabbits.push(Rabbit { column: 0, row: 0, color: Palette::GRAY });
    rabbits.push(Rabbit { column: 0, row: 2, color: Palette::GRAY });
    rabbits.push(Rabbit { column: 2, row: 0, color: Palette::GRAY });
    rabbits.push(Rabbit { column: 2, row: 2, color: Palette::GRAY });
    rabbits.push(Rabbit { column: 1, row: 1, color: Palette::RED });
    assert(rabbits@ =~= core_rabbits());
    match position {
        PatternPosition::Full => {
            rabbits.push(Rabbit { column: 1, row: 3, color: Palette::GRAY });
            rabbits.push(Rabbit { column: 3, row: 1, color: Palette::GRAY });
            rabbits.push(Rabbit { column: 3, row: 3, color: Palette::DARK_BEIGE });
        },
        PatternPosition::Corner => {},
        PatternPosition::Vertical => {
            rabbits.push(Rabbit { column: 1, row: 3, color: Palette::GRAY });
        },
        PatternPosition::Horizontal => {
            rabbits.push(Rabbit { column: 3, row: 1, color: Palette::GRAY });
        },
    }
    rabbits
}

/// The colour of the eyes of a rabbit with a body of the colour `color`:
/// black in a dark beige body, beige in any other.
pub fn eye_color(color: u32) -> (eyes: u32)
    ensures
        eyes == if color == Palette::DARK_BEIGE {
            Palette::BLACK
        } else {
            Palette::BEIGE
        },
{
    if color == Palette::DARK_BEIGE {
        Palette::BLACK
    } else {
        Palette::BEIGE
    }
}

} // verus!
