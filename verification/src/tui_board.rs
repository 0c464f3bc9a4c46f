//! Pure terminal board layout and hit-testing: which color a card renders
//! in and, from the board's terminal area alone, the clickable rectangle of
//! every free cell, the foundations, and every cascade column.
use vstd::prelude::*;
use crate::card::{suit_is_red, Card, Loc};
use crate::state::{spec_do_move, GameState, Position};

verus! {

/// Cascade columns and free cells: the engine's fixed board shape.
pub const CASCADE_COUNT: usize = 8;
pub const FREE_CELL_COUNT: usize = 4;

/// Which color a card renders in.
#[derive(Debug, Clone, Copy, PartialEq, Eq, Structural)]
pub enum CardColor {
    Red,
    Black,
}

/// Hearts and diamonds are red; clubs and spades render in the terminal's
/// default foreground.
pub fn card_color(card: Card) -> (r: CardColor)
    ensures
        r == (if suit_is_red(card.suit) { CardColor::Red } else { CardColor::Black }),
{
    if card.suit.is_red() {
        CardColor::Red
    } else {
        CardColor::Black
    }
}

/// A terminal rectangle, in character cells.
#[derive(Debug, Clone, Copy, PartialEq, Eq, Structural)]
pub struct Rect {
    pub x: u16,
    pub y: u16,
    pub width: u16,
    pub height: u16,
}

/// The clickable rectangle for every free cell, the foundations (addressed
/// collectively), and every cascade column.
#[derive(Debug, Clone, Copy, PartialEq, Eq)]
pub struct BoardLayout {
    pub free_cells: [Rect; FREE_CELL_COUNT],
    pub foundations: Rect,
    pub cascades: [Rect; CASCADE_COUNT],
}

/// The width of one of the eight board columns within `area`.
pub open spec fn column_width(area: Rect) -> int {
    if area.width / 8 >= 1 { (area.width / 8) as int } else { 1 }
}

/// The height of the top row: three lines, or less if the area is shorter.
pub open spec fn top_row_height(area: Rect) -> int {
    if area.height < 3 { area.height as int } else { 3 }
}

/// The layout fits in the coordinate range.
pub open spec fn layout_fits(area: Rect) -> bool {
    area.x + 7 * column_width(area) <= u16::MAX && area.y + top_row_height(area) <= u16::MAX
}

/// The top row splits into eight equal columns: the first four are free
/// cells, the last four together are the foundations. Everything below it
/// splits into the eight cascade columns.
pub open spec fn spec_layout(area: Rect, l: BoardLayout) -> bool {
    let w = column_width(area);
    let top = top_row_height(area);
    &&& forall|i: int|
        0 <= i < 4 ==> l.free_cells[i] == (Rect {
            x: (area.x + i * w) as u16,
            y: area.y,
            width: w as u16,
            height: top as u16,
        })
    &&& l.foundations == (Rect {
        x: (area.x + 4 * w) as u16,
        y: area.y,
        width: (4 * w) as u16,
        height: top as u16,
    })
    &&& forall|i: int|
        0 <= i < 8 ==> l.cascades[i] == (Rect {
            x: (area.x + i * w) as u16,
            y: (area.y + top) as u16,
            width: w as u16,
            height: (area.height - top) as u16,
        })
}

/// Compute the clickable layout for `area`, the board region of the
/// terminal. Pure: the same `area` always yields the same layout.
pub fn layout(area: Rect) -> (l: BoardLayout)
    requires
        layout_fits(area),
    ensures
        spec_layout(area, l),
{
    let col_width: u16 = if area.width / 8 >= 1 { area.width / 8 } else { 1 };
    let top_height: u16 = if area.height < 3 { area.height } else { 3 };

    let empty = Rect { x: 0, y: 0, width: 0, height: 0 };
    let mut free_cells = [empty;FREE_CELL_COUNT];
    let mut i: usize = 0;
    while i < FREE_CELL_COUNT
        invariant
            i <= 4,
            layout_fits(area),
            col_width == column_width(area),
            top_height == top_row_height(area),
            forall|k: int|
                0 <= k < i ==> free_cells[k] == (Rect {
                    x: (area.x + k * col_width) as u16,
                    y: area.y,
                    width: col_width,
                    height: top_height,
                }),
        decreases 4 - i,
    {
        proof {
            assert(i * col_width <= 7 * col_width) by (nonlinear_arith)
                requires i <= 7;
        }
        free_cells[i] = Rect {
            x: area.x + i as u16 * col_width,
            y: area.y,
            width: col_width,
            height: top_height,
        };
        i = i + 1;
    }

    proof {
        assert(4 * col_width <= 7 * col_width);
    }
    let foundations = Rect {
        x: area.x + FREE_CELL_COUNT as u16 * col_width,
        y: area.y,
        width: col_width * FREE_CELL_COUNT as u16,
        height: top_height,
    };

    let mut cascades = [empty;CASCADE_COUNT];
    let cascade_y = area.y + top_height;
    let cascade_height = area.height - top_height;
    let mut i: usize = 0;
    while i < CASCADE_COUNT
        invariant
            i <= 8,
            layout_fits(area),
            col_width == column_width(area),
            top_height == top_row_height(area),
            cascade_y == area.y + top_height,
            cascade_height == area.height - top_height,
            forall|k: int|
                0 <= k < i ==> cascades[k] == (Rect {
                    x: (area.x + k * col_width) as u16,
                    y: cascade_y,
                    width: col_width,
                    height: cascade_height,
                }),
        decreases 8 - i,
    {
        proof {
            assert(i * col_width <= 7 * col_width) by (nonlinear_arith)
                requires i <= 7;
        }
        cascades[i] = Rect {
            x: area.x + i as u16 * col_width,
            y: cascade_y,
            width: col_width,
            height: cascade_height,
        };
        i = i + 1;
    }

    BoardLayout { free_cells, foundations, cascades }
}

/// `(x, y)` lies within `r`.
pub open spec fn rect_contains(r: Rect, x: u16, y: u16) -> bool {
    r.x <= x < r.x + r.width && r.y <= y < r.y + r.height
}

fn contains(rect: Rect, x: u16, y: u16) -> (r: bool)
    ensures
        r == rect_contains(rect, x, y),
{
    x >= rect.x && (x as u32) < rect.x as u32 + rect.width as u32 && y >= rect.y && (y as u32)
        < rect.y as u32 + rect.height as u32
}

/// The index of the first of `rects` containing `(x, y)`, if any.
pub open spec fn first_containing(rects: Seq<Rect>, x: u16, y: u16, from: int) -> Option<int>
    decreases rects.len() - from,
{
    if from < 0 || from >= rects.len() {
        None
    } else if rect_contains(rects[from], x, y) {
        Some(from)
    } else {
        first_containing(rects, x, y, from + 1)
    }
}

/// The location a click at `(x, y)` hits: free cells first, then the
/// foundations, then the cascades.
pub open spec fn spec_hit_test(l: BoardLayout, x: u16, y: u16) -> Option<Loc> {
    match first_containing(l.free_cells@, x, y, 0) {
        Some(i) => Some(Loc::Free(i as usize)),
        None => if rect_contains(l.foundations, x, y) {
            Some(Loc::Foundation)
        } else {
            match first_containing(l.cascades@, x, y, 0) {
                Some(i) => Some(Loc::Cascade(i as usize)),
                None => None,
            }
        },
    }
}

/// Map a terminal click at `(x, y)` to the location it falls within, or
/// `None` if the click missed every clickable region.
pub fn hit_test(layout: &BoardLayout, x: u16, y: u16) -> (r: Option<Loc>)
    ensures
        r == spec_hit_test(*layout, x, y),
{
    let mut i: usize = 0;
    while i < FREE_CELL_COUNT
        invariant
            i <= 4,
            first_containing(layout.free_cells@, x, y, 0) == first_containing(
                layout.free_cells@,
                x,
                y,
                i as int,
            ),
        decreases 4 - i,
    {
        if contains(layout.free_cells[i], x, y) {
            return Some(Loc::Free(i));
        }
        i = i + 1;
    }
    if contains(layout.foundations, x, y) {
        return Some(Loc::Foundation);
    }
    let mut i: usize = 0;
    while i < CASCADE_COUNT
        invariant
            i <= 8,
            first_containing(layout.free_cells@, x, y, 0) is None,
            !rect_contains(layout.foundations, x, y),
            first_containing(layout.cascades@, x, y, 0) == first_containing(
                layout.cascades@,
                x,
                y,
                i as int,
            ),
        decreases 8 - i,
    {
        if contains(layout.cascades[i], x, y) {
            return Some(Loc::Cascade(i));
        }
        i = i + 1;
    }
    None
}

} // verus!

verus! {

proof fn lemma_first_containing_is(rects: Seq<Rect>, x: u16, y: u16, from: int, i: int)
    requires
        0 <= from <= i < rects.len(),
        rect_contains(rects[i], x, y),
        forall|j: int| from <= j < i ==> !rect_contains(#[trigger] rects[j], x, y),
    ensures
        first_containing(rects, x, y, from) == Some(i),
    decreases i - from,
{
    if from < i {
        lemma_first_containing_is(rects, x, y, from + 1, i);
    }
}

proof fn lemma_first_containing_none(rects: Seq<Rect>, x: u16, y: u16, from: int)
    requires
        0 <= from <= rects.len(),
        forall|j: int| from <= j < rects.len() ==> !rect_contains(#[trigger] rects[j], x, y),
    ensures
        first_containing(rects, x, y, from) is None,
    decreases rects.len() - from,
{
    if from < rects.len() {
        lemma_first_containing_none(rects, x, y, from + 1);
    }
}

proof fn lemma_column_bounds(area: Rect, i: int)
    requires
        layout_fits(area),
        0 <= i <= 7,
    ensures
        0 <= i * column_width(area) <= 7 * column_width(area),
        area.x + i * column_width(area) <= u16::MAX,
{
    let w = column_width(area);
    assert(0 <= i * w <= 7 * w) by (nonlinear_arith)
        requires
            0 <= i <= 7,
            w >= 1,
    ;
}

proof fn lemma_columns_apart(area: Rect, j: int, i: int)
    requires
        0 <= j < i,
    ensures
        j * column_width(area) + column_width(area) <= i * column_width(area),
{
    let w = column_width(area);
    assert(j * w + w <= i * w) by (nonlinear_arith)
        requires
            j + 1 <= i,
            w >= 1,
    ;
}

/// A click inside a region of the layout for `area` is reported as that
/// region's location: the rectangles that `layout` places never overlap, so
/// `hit_test` gives back free cell `i` for a point of the `i`-th free cell,
/// the foundations for a point of the foundations, and cascade `i` for a
/// point of the `i`-th cascade column.
pub proof fn lemma_hit_test_finds_laid_out_region(area: Rect, l: BoardLayout, x: u16, y: u16)
    requires
        layout_fits(area),
        spec_layout(area, l),
    ensures
        forall|i: int|
            0 <= i < 4 && #[trigger] rect_contains(l.free_cells[i], x, y) ==> spec_hit_test(l, x, y)
                == Some(Loc::Free(i as usize)),
        rect_contains(l.foundations, x, y) ==> spec_hit_test(l, x, y) == Some(Loc::Foundation),
        forall|i: int|
            0 <= i < 8 && #[trigger] rect_contains(l.cascades[i], x, y) ==> spec_hit_test(l, x, y)
                == Some(Loc::Cascade(i as usize)),
{
    let w = column_width(area);
    let top = top_row_height(area);
    assert forall|j: int| 0 <= j < 8 implies {
        &&& #[trigger] l.cascades[j].x == area.x + j * w
        &&& j < 4 ==> l.free_cells[j].x == area.x + j * w
    } by {
        lemma_column_bounds(area, j);
    }
    lemma_column_bounds(area, 4);
    assert(l.foundations.x == area.x + 4 * w);
    assert(l.cascades[0].y == area.y + top);
    assert forall|i: int| 0 <= i < 4 && #[trigger] rect_contains(l.free_cells[i], x, y) implies spec_hit_test(
        l,
        x,
        y,
    ) == Some(Loc::Free(i as usize)) by {
        assert forall|j: int| 0 <= j < i implies !rect_contains(#[trigger] l.free_cells@[j], x, y) by {
            lemma_column_bounds(area, j);
            lemma_column_bounds(area, i);
            lemma_columns_apart(area, j, i);
            assert(l.free_cells@[j] == l.free_cells[j]);
        }
        lemma_first_containing_is(l.free_cells@, x, y, 0, i);
    }
    if rect_contains(l.foundations, x, y) {
        assert forall|j: int| 0 <= j < 4 implies !rect_contains(#[trigger] l.free_cells@[j], x, y) by {
            lemma_column_bounds(area, j);
            lemma_columns_apart(area, j, 4);
            assert(l.free_cells@[j] == l.free_cells[j]);
        }
        lemma_first_containing_none(l.free_cells@, x, y, 0);
    }
    assert forall|i: int| 0 <= i < 8 && #[trigger] rect_contains(l.cascades[i], x, y) implies spec_hit_test(
        l,
        x,
        y,
    ) == Some(Loc::Cascade(i as usize)) by {
        assert forall|j: int| 0 <= j < 4 implies !rect_contains(#[trigger] l.free_cells@[j], x, y) by {
            assert(l.free_cells@[j] == l.free_cells[j]);
        }
        lemma_first_containing_none(l.free_cells@, x, y, 0);
        assert forall|j: int| 0 <= j < i implies !rect_contains(#[trigger] l.cascades@[j], x, y) by {
            lemma_column_bounds(area, j);
            lemma_column_bounds(area, i);
            lemma_columns_apart(area, j, i);
            assert(l.cascades@[j] == l.cascades[j]);
        }
        lemma_first_containing_is(l.cascades@, x, y, 0, i);
    }
}

} // verus!

verus! {

/// A key press, as the board reads it.
#[derive(Debug, Clone, Copy, PartialEq, Eq, Structural)]
pub enum Key {
    /// A character key, with whether Control was held.
    Char { c: char, ctrl: bool },
    Enter,
    Esc,
    Backspace,
    /// Any other key.
    Other,
}

/// What a key press does to the terminal board.
#[derive(Debug, Clone, Copy, PartialEq, Eq, Structural)]
pub enum KeyEffect {
    Quit,
    ToggleHelp,
    /// Run the typed line as a command.
    Submit,
    /// Clear the typed line and the selection.
    Cancel,
    DeleteLast,
    Insert(char),
    Nothing,
}

/// `q` or `?` on an empty line quits or toggles the help; Control-C always
/// quits; other characters are typed.
pub open spec fn spec_key_effect(key: Key, input_empty: bool) -> KeyEffect {
    match key {
        Key::Char { c, ctrl } => if c == 'q' && input_empty {
            KeyEffect::Quit
        } else if c == 'c' && ctrl {
            KeyEffect::Quit
        } else if c == '?' && input_empty {
            KeyEffect::ToggleHelp
        } else {
            KeyEffect::Insert(c)
        },
        Key::Enter => KeyEffect::Submit,
        Key::Esc => KeyEffect::Cancel,
        Key::Backspace => KeyEffect::DeleteLast,
        Key::Other => KeyEffect::Nothing,
    }
}

pub fn key_effect(key: Key, input_empty: bool) -> (r: KeyEffect)
    ensures
        r == spec_key_effect(key, input_empty),
{
    match key {
        Key::Char { c, ctrl } => if c == 'q' && input_empty {
            KeyEffect::Quit
        } else if c == 'c' && ctrl {
            KeyEffect::Quit
        } else if c == '?' && input_empty {
            KeyEffect::ToggleHelp
        } else {
            KeyEffect::Insert(c)
        },
        Key::Enter => KeyEffect::Submit,
        Key::Esc => KeyEffect::Cancel,
        Key::Backspace => KeyEffect::DeleteLast,
        Key::Other => KeyEffect::Nothing,
    }
}

/// The selection after a click, and the move the click asks for, if any.
#[derive(Debug, Clone, Copy, PartialEq, Eq)]
pub struct ClickOutcome {
    pub selected: Option<Loc>,
    pub play: Option<(Loc, Loc)>,
}

/// A click that misses every region changes nothing; a first click selects
/// its location; clicking the selection again deselects it; clicking
/// elsewhere asks to move from the selection to there.
pub open spec fn spec_click(selected: Option<Loc>, hit: Option<Loc>) -> ClickOutcome {
    match hit {
        None => ClickOutcome { selected, play: None },
        Some(loc) => match selected {
            None => ClickOutcome { selected: Some(loc), play: None },
            Some(from) => if from == loc {
                ClickOutcome { selected: None, play: None }
            } else {
                ClickOutcome { selected: None, play: Some((from, loc)) }
            },
        },
    }
}

pub fn click(selected: Option<Loc>, hit: Option<Loc>) -> (r: ClickOutcome)
    ensures
        r == spec_click(selected, hit),
{
    match hit {
        None => ClickOutcome { selected, play: None },
        Some(loc) => match selected {
            None => ClickOutcome { selected: Some(loc), play: None },
            Some(from) => if from == loc {
                ClickOutcome { selected: None, play: None }
            } else {
                ClickOutcome { selected: None, play: Some((from, loc)) }
            },
        },
    }
}

/// How a slot's border renders.
#[derive(Debug, Clone, Copy, PartialEq, Eq, Structural)]
pub enum SlotStyle {
    Selected,
    /// The selection cannot move here.
    Illegal,
    Normal,
}

/// The selected slot is marked; with a selection, every slot the engine
/// refuses as its destination is dimmed.
pub open spec fn spec_slot_style(p: Position, selected: Option<Loc>, loc: Loc) -> SlotStyle {
    match selected {
        Some(from) => if from == loc {
            SlotStyle::Selected
        } else if spec_do_move(p, from, loc) is Ok {
            SlotStyle::Normal
        } else {
            SlotStyle::Illegal
        },
        None => SlotStyle::Normal,
    }
}

pub fn slot_style(state: &GameState, selected: Option<Loc>, loc: Loc) -> (r: SlotStyle)
    ensures
        r == spec_slot_style(state@, selected, loc),
{
    match selected {
        Some(from) => if from == loc {
            SlotStyle::Selected
        } else if state.can_move(from, loc).is_ok() {
            SlotStyle::Normal
        } else {
            SlotStyle::Illegal
        },
        None => SlotStyle::Normal,
    }
}

/// Which part of a cascade a bordered cell shows: from card `first` to the
/// end, below a "+N more" line when `hidden` is `Some(N)`.
#[derive(Debug, Clone, Copy, PartialEq, Eq, Structural)]
pub struct CascadeWindow {
    pub hidden: Option<usize>,
    pub first: usize,
}

/// A cell `height` rows tall has two rows of border. A cascade that fits
/// shows whole; one that does not loses cards from the top, so the
/// playable card stays visible, and a line counts the cards left out,
/// unless one row is all there is.
pub open spec fn spec_cascade_window(len: int, height: int) -> CascadeWindow {
    let rows = if height >= 2 { height - 2 } else { 0 };
    if len == 0 || rows == 0 {
        CascadeWindow { hidden: None, first: len as usize }
    } else if len <= rows {
        CascadeWindow { hidden: None, first: 0 }
    } else if rows == 1 {
        CascadeWindow { hidden: None, first: (len - 1) as usize }
    } else {
        CascadeWindow { hidden: Some((len - (rows - 1)) as usize), first: (len - (rows - 1)) as usize }
    }
}

pub fn cascade_window(len: usize, height: u16) -> (r: CascadeWindow)
    ensures
        r == spec_cascade_window(len as int, height as int),
        r.first <= len,
{
    let rows: usize = if height >= 2 { (height - 2) as usize } else { 0 };
    if len == 0 || rows == 0 {
        CascadeWindow { hidden: None, first: len }
    } else if len <= rows {
        CascadeWindow { hidden: None, first: 0 }
    } else if rows == 1 {
        CascadeWindow { hidden: None, first: len - 1 }
    } else {
        let shown = rows - 1;
        CascadeWindow { hidden: Some(len - shown), first: len - shown }
    }
}

/// Card `i` of a cascade of `len` cards lies in its last `run_len` cards.
pub fn in_highlighted_run(len: usize, run_len: usize, i: usize) -> (r: bool)
    requires
        i < len,
    ensures
        r == (len - i <= run_len),
{
    len - i <= run_len
}

} // verus!
