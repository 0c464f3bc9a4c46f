//! The typed command grammar and the terminal board's input decisions.

use freecell::board_text::footer_lines;
use freecell::card::loc_char;
use freecell::command::{command_of, parse_command, Command};
use freecell::deal::classic_deal_number;
use freecell::tui_board::{
    cascade_window, click, in_highlighted_run, key_effect, slot_style, CascadeWindow, Key,
    KeyEffect, SlotStyle,
};
use freecell::{parse_move, Action, Card, GameState, Loc, Suit};

#[test]
fn word_and_letter_commands() {
    assert_eq!(parse_command(""), Command::Empty);
    assert_eq!(parse_command("   "), Command::Empty);
    for q in ["q", "quit", "exit"] {
        assert_eq!(parse_command(q), Command::Quit);
    }
    assert_eq!(parse_command("?"), Command::Help);
    assert_eq!(parse_command("help"), Command::Help);
    assert_eq!(parse_command("u"), Command::Undo);
    assert_eq!(parse_command("undo"), Command::Undo);
    assert_eq!(parse_command("y"), Command::Redo);
    assert_eq!(parse_command("redo"), Command::Redo);
    assert_eq!(parse_command("a"), Command::AutoPlay);
    assert_eq!(parse_command("auto"), Command::AutoPlay);
    assert_eq!(parse_command("r"), Command::Restart);
    assert_eq!(parse_command("restart"), Command::Restart);
    assert_eq!(parse_command("h"), Command::Hint);
    assert_eq!(parse_command("hint"), Command::Hint);
    assert_eq!(parse_command("g"), Command::Report);
    assert_eq!(parse_command("report"), Command::Report);
}

#[test]
fn commands_are_read_trimmed_and_lower_cased() {
    assert_eq!(parse_command("  UNDO \t"), Command::Undo);
    assert_eq!(parse_command("Restart\n"), Command::Restart);
    assert_eq!(parse_command(" 1A "), Command::Move(Loc::Cascade(0), Loc::Free(0)));
    assert_eq!(parse_command("N 617"), Command::NewGame(Some(617)));
    assert_eq!(parse_command("  Bogus  "), Command::Unrecognized("bogus".to_string()));
    // The same line, already normalized, reads the same.
    assert_eq!(command_of("undo"), Command::Undo);
    assert_eq!(command_of("UNDO"), Command::Unrecognized("UNDO".to_string()));
}

#[test]
fn new_game_takes_an_optional_deal_number() {
    assert_eq!(parse_command("n"), Command::NewGame(None));
    assert_eq!(parse_command("n 11982"), Command::NewGame(Some(11982)));
    assert_eq!(parse_command("n11982"), Command::NewGame(Some(11982)));
    assert_eq!(parse_command("n +7"), Command::NewGame(Some(7)));
    assert_eq!(parse_command("n 007"), Command::NewGame(Some(7)));
    assert_eq!(parse_command("n 4294967295"), Command::NewGame(Some(u32::MAX)));
    assert_eq!(parse_command("n 4294967296"), Command::NewGame(None));
    assert_eq!(parse_command("n -3"), Command::NewGame(None));
    assert_eq!(parse_command("n +"), Command::NewGame(None));
    assert_eq!(parse_command("n 12x"), Command::NewGame(None));
    assert_eq!(parse_command("new"), Command::NewGame(None));
}

#[test]
fn moves_and_unrecognized_lines() {
    assert_eq!(parse_command("35"), Command::Move(Loc::Cascade(2), Loc::Cascade(4)));
    assert_eq!(parse_command("b4"), Command::Move(Loc::Free(1), Loc::Cascade(3)));
    assert_eq!(parse_command("2 h"), Command::Move(Loc::Cascade(1), Loc::Foundation));
    assert_eq!(parse_command("h2"), Command::Unrecognized("h2".to_string()));
    assert_eq!(parse_command("zz"), Command::Unrecognized("zz".to_string()));
    assert_eq!(parse_command("undo it"), Command::Unrecognized("undo it".to_string()));
}

#[test]
fn classic_deal_numbers_run_from_one_to_32000() {
    assert_eq!(classic_deal_number(0), 1);
    assert_eq!(classic_deal_number(31_999), 32_000);
    assert_eq!(classic_deal_number(32_000), 1);
    assert_eq!(classic_deal_number(999_999_999), 999_999_999 % 32_000 + 1);
}

#[test]
fn keys_quit_toggle_help_and_edit_the_line() {
    let ch = |c: char| Key::Char { c, ctrl: false };
    assert_eq!(key_effect(ch('q'), true), KeyEffect::Quit);
    assert_eq!(key_effect(ch('q'), false), KeyEffect::Insert('q'));
    assert_eq!(key_effect(Key::Char { c: 'c', ctrl: true }, false), KeyEffect::Quit);
    assert_eq!(key_effect(ch('c'), false), KeyEffect::Insert('c'));
    assert_eq!(key_effect(ch('?'), true), KeyEffect::ToggleHelp);
    assert_eq!(key_effect(ch('?'), false), KeyEffect::Insert('?'));
    assert_eq!(key_effect(Key::Enter, false), KeyEffect::Submit);
    assert_eq!(key_effect(Key::Esc, true), KeyEffect::Cancel);
    assert_eq!(key_effect(Key::Backspace, false), KeyEffect::DeleteLast);
    assert_eq!(key_effect(Key::Other, true), KeyEffect::Nothing);
}

#[test]
fn clicks_select_deselect_and_move() {
    let a = Loc::Cascade(2);
    let b = Loc::Free(1);
    let first = click(None, Some(a));
    assert_eq!((first.selected, first.play), (Some(a), None));
    let again = click(Some(a), Some(a));
    assert_eq!((again.selected, again.play), (None, None));
    let moved = click(Some(a), Some(b));
    assert_eq!((moved.selected, moved.play), (None, Some((a, b))));
    let missed = click(Some(a), None);
    assert_eq!((missed.selected, missed.play), (Some(a), None));
}

#[test]
fn slots_the_selection_cannot_reach_are_dimmed() {
    let mut cascades: [Vec<Card>; 8] = Default::default();
    cascades[0] = vec![Card::new(5, Suit::Hearts)];
    cascades[1] = vec![Card::new(6, Suit::Spades)];
    cascades[2] = vec![Card::new(6, Suit::Diamonds)];
    let s = GameState::from_parts(cascades, [None; 4], [0; 4]);
    let sel = Some(Loc::Cascade(0));
    assert_eq!(slot_style(&s, sel, Loc::Cascade(0)), SlotStyle::Selected);
    assert_eq!(slot_style(&s, sel, Loc::Cascade(1)), SlotStyle::Normal);
    assert_eq!(slot_style(&s, sel, Loc::Cascade(2)), SlotStyle::Illegal);
    assert_eq!(slot_style(&s, sel, Loc::Foundation), SlotStyle::Illegal);
    assert_eq!(slot_style(&s, sel, Loc::Free(3)), SlotStyle::Normal);
    assert_eq!(slot_style(&s, None, Loc::Cascade(2)), SlotStyle::Normal);
}

#[test]
fn deep_cascades_lose_cards_from_the_top() {
    // Fits: all shown.
    assert_eq!(cascade_window(3, 10), CascadeWindow { hidden: None, first: 0 });
    // Empty cascade or no room: nothing shown.
    assert_eq!(cascade_window(0, 10), CascadeWindow { hidden: None, first: 0 });
    assert_eq!(cascade_window(4, 2), CascadeWindow { hidden: None, first: 4 });
    assert_eq!(cascade_window(4, 0), CascadeWindow { hidden: None, first: 4 });
    // One row: only the playable card.
    assert_eq!(cascade_window(4, 3), CascadeWindow { hidden: None, first: 3 });
    // Five rows for twelve cards: a "+8 more" line, then the last four.
    assert_eq!(cascade_window(12, 7), CascadeWindow { hidden: Some(8), first: 8 });
    assert!(in_highlighted_run(12, 3, 9));
    assert!(!in_highlighted_run(12, 3, 8));
    assert!(!in_highlighted_run(12, 0, 11));
}

#[test]
fn a_spelled_move_reads_back_as_the_same_move() {
    let mut locs = vec![Loc::Foundation];
    for i in 0..8 {
        locs.push(Loc::Cascade(i));
    }
    for i in 0..4 {
        locs.push(Loc::Free(i));
    }
    assert_eq!(loc_char(Loc::Cascade(0)), '1');
    assert_eq!(loc_char(Loc::Cascade(7)), '8');
    assert_eq!(loc_char(Loc::Free(3)), 'd');
    assert_eq!(loc_char(Loc::Foundation), 'h');
    for &from in locs.iter().filter(|l| **l != Loc::Foundation) {
        for &to in locs.iter() {
            let spelled: String = [loc_char(from), loc_char(to)].iter().collect();
            assert_eq!(parse_move(&spelled), Some((from, to)));
        }
    }
}

#[test]
fn footer_shows_input_status_last_three_actions_and_replay() {

    let log = [
        Action::Deal { seed: 617 },
        Action::Move { from: Loc::Cascade(0), to: Loc::Free(0) },
        Action::Undo,
        Action::AutoPlay,
    ];
    let lines = footer_lines("1a", Some("Error: nothing to redo"), &log, Some("Replay verified."));
    assert_eq!(
        lines,
        vec![
            "> 1a".to_string(),
            "Error: nothing to redo".to_string(),
            "Log: Move 1a  Undo  AutoPlay".to_string(),
            "Replay verified.".to_string(),
            "Press ? for help.".to_string(),
        ]
    );
    let lines = footer_lines("", None, &[Action::Deal { seed: 9 }], None);
    assert_eq!(lines, vec!["> ".to_string(), "Log: Deal #9".to_string(), "Press ? for help.".to_string()]);
    let lines = footer_lines("", None, &[], None);
    assert_eq!(lines, vec!["> ".to_string(), "Press ? for help.".to_string()]);
}
