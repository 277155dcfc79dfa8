use paintings::rabbit::{eye_color, pattern_position, pattern_rabbits, PatternPosition, Rabbit};
use paintings::utils::Palette;

fn rabbit(column: u8, row: u8, color: u32) -> Rabbit {
    Rabbit { column, row, color }
}

#[test]
fn tiles_of_the_last_column_and_row_are_cut() {
    assert_eq!(pattern_position(0, 0, 7, 3), PatternPosition::Full);
    assert_eq!(pattern_position(6, 2, 7, 3), PatternPosition::Full);
    assert_eq!(pattern_position(7, 0, 7, 3), PatternPosition::Vertical);
    assert_eq!(pattern_position(7, 2, 7, 3), PatternPosition::Vertical);
    assert_eq!(pattern_position(0, 3, 7, 3), PatternPosition::Horizontal);
    assert_eq!(pattern_position(6, 3, 7, 3), PatternPosition::Horizontal);
    assert_eq!(pattern_position(7, 3, 7, 3), PatternPosition::Corner);
    assert_eq!(pattern_position(0, 0, 0, 0), PatternPosition::Corner);
    assert_eq!(pattern_position(8, 4, 7, 3), PatternPosition::Full);
}

#[test]
fn a_tile_has_the_rabbits_of_its_place() {
    let core = vec![
        rabbit(0, 0, Palette::GRAY),
        rabbit(0, 2, Palette::GRAY),
        rabbit(2, 0, Palette::GRAY),
        rabbit(2, 2, Palette::GRAY),
        rabbit(1, 1, Palette::RED),
    ];
    assert_eq!(pattern_rabbits(PatternPosition::Corner), core);
    let mut vertical = core.clone();
    vertical.push(rabbit(1, 3, Palette::GRAY));
    assert_eq!(pattern_rabbits(PatternPosition::Vertical), vertical);
    let mut horizontal = core.clone();
    horizontal.push(rabbit(3, 1, Palette::GRAY));
    assert_eq!(pattern_rabbits(PatternPosition::Horizontal), horizontal);
    let mut full = core;
    full.push(rabbit(1, 3, Palette::GRAY));
    full.push(rabbit(3, 1, Palette::GRAY));
    full.push(rabbit(3, 3, Palette::DARK_BEIGE));
    assert_eq!(pattern_rabbits(PatternPosition::Full), full);
}

#[test]
fn only_the_dark_beige_rabbit_has_black_eyes() {
    assert_eq!(eye_color(Palette::DARK_BEIGE), Palette::BLACK);
    assert_eq!(eye_color(Palette::GRAY), Palette::BEIGE);
    assert_eq!(eye_color(Palette::RED), Palette::BEIGE);
    assert_eq!(eye_color(Palette::BEIGE), Palette::BEIGE);
    assert_eq!(eye_color(0), Palette::BEIGE);
}
