//! Pure terminal board layout and hit-testing.

use freecell::tui_board::{
    card_color, hit_test, layout, CardColor, Rect, CASCADE_COUNT, FREE_CELL_COUNT,
};
use freecell::{Card, Loc, Suit};
fn area(x: u16, y: u16, width: u16, height: u16) -> Rect {
    Rect {
        x,
        y,
        width,
        height,
    }
}

#[test]
fn card_color_is_red_for_hearts_and_diamonds() {
    assert_eq!(card_color(Card::new(1, Suit::Hearts)), CardColor::Red);
    assert_eq!(card_color(Card::new(1, Suit::Diamonds)), CardColor::Red);
}

#[test]
fn card_color_is_black_for_clubs_and_spades() {
    assert_eq!(card_color(Card::new(1, Suit::Clubs)), CardColor::Black);
    assert_eq!(card_color(Card::new(1, Suit::Spades)), CardColor::Black);
}

#[test]
fn layout_places_four_free_cells_then_foundations_across_the_top_row() {
    let l = layout(area(0, 0, 80, 20));
    assert_eq!(l.free_cells.len(), FREE_CELL_COUNT);
    // Free cells and foundations all start at the same row.
    for cell in l.free_cells {
        assert_eq!(cell.y, 0);
    }
    assert_eq!(l.foundations.y, 0);
    // Foundations sit to the right of the fourth free cell.
    assert_eq!(l.foundations.x, l.free_cells[3].x + l.free_cells[3].width);
}

#[test]
fn layout_places_eight_cascades_below_the_top_row() {
    let l = layout(area(0, 0, 80, 20));
    assert_eq!(l.cascades.len(), CASCADE_COUNT);
    for cascade in l.cascades {
        assert!(cascade.y >= l.free_cells[0].y + l.free_cells[0].height);
    }
    // Cascades line up under their corresponding top-row column.
    assert_eq!(l.cascades[0].x, l.free_cells[0].x);
}

#[test]
fn board_hit_test_finds_free_cell_b() {
    let l = layout(area(0, 0, 80, 20));
    let target = l.free_cells[1];
    let loc = hit_test(&l, target.x, target.y);
    assert_eq!(loc, Some(Loc::Free(1)));
}

#[test]
fn hit_test_finds_foundations_regardless_of_which_quarter_is_clicked() {
    let l = layout(area(0, 0, 80, 20));
    let left_edge = hit_test(&l, l.foundations.x, l.foundations.y);
    let right_edge = hit_test(
        &l,
        l.foundations.x + l.foundations.width - 1,
        l.foundations.y,
    );
    assert_eq!(left_edge, Some(Loc::Foundation));
    assert_eq!(right_edge, Some(Loc::Foundation));
}

#[test]
fn board_hit_test_finds_cascade_five() {
    let l = layout(area(0, 0, 80, 20));
    let target = l.cascades[4];
    let loc = hit_test(&l, target.x, target.y + 1);
    assert_eq!(loc, Some(Loc::Cascade(4)));
}

#[test]
fn board_hit_test_returns_none_outside_every_region() {
    let l = layout(area(0, 0, 80, 20));
    assert_eq!(hit_test(&l, 1000, 1000), None);
}

#[test]
fn layout_is_a_pure_function_of_area() {
    let a = layout(area(2, 3, 80, 24));
    let b = layout(area(2, 3, 80, 24));
    assert_eq!(a.free_cells, b.free_cells);
    assert_eq!(a.foundations, b.foundations);
    assert_eq!(a.cascades, b.cascades);
}
