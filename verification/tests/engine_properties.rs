//! Properties of the engine checked on concrete positions: every error
//! variant with an input that gives it, card conservation, undo and redo,
//! auto-play, move parsing, statistics and the board layout.

use freecell::analysis::{grade, hint};
use freecell::board_text::board_lines;
use freecell::solver::{solve, Solvability};
use freecell::stats::{move_count_buckets, running_wins, GameResult, Stats, Streak};
use freecell::tui_board::{hit_test, layout, Rect};
use freecell::{
    parse_move, reduce, reduce_in_place, replay, Action, ActionError, Card, Game, GameState, Loc,
    MoveError, Store, Suit,
};

fn c(rank: u8, suit: Suit) -> Card {
    Card::new(rank, suit)
}

fn empty_cascades() -> [Vec<Card>; 8] {
    [vec![], vec![], vec![], vec![], vec![], vec![], vec![], vec![]]
}

fn card_total(state: &GameState) -> usize {
    let mut n: usize = 0;
    for col in state.cascades().iter() {
        n += col.len();
    }
    for cell in state.freecells().iter() {
        if cell.is_some() {
            n += 1;
        }
    }
    for f in state.foundations().iter() {
        n += *f as usize;
    }
    n
}

fn all_cards(state: &GameState) -> Vec<(u8, usize)> {
    let mut v: Vec<(u8, usize)> = Vec::new();
    for col in state.cascades().iter() {
        for card in col.iter() {
            v.push((card.rank, card.suit.index()));
        }
    }
    for card in state.freecells().iter().flatten() {
        v.push((card.rank, card.suit.index()));
    }
    for (suit, top) in state.foundations().iter().enumerate() {
        for rank in 1..=*top {
            v.push((rank, suit));
        }
    }
    v.sort();
    v
}

#[test]
fn empty_source_is_reported_for_an_empty_free_cell() {
    let mut s = GameState::from_parts(empty_cascades(), [None; 4], [0; 4]);
    let before = s.clone();
    assert_eq!(s.do_move(Loc::Free(0), Loc::Cascade(0)), Err(MoveError::EmptySource));
    assert_eq!(s.do_move(Loc::Cascade(3), Loc::Free(1)), Err(MoveError::EmptySource));
    assert_eq!(s, before);
}

#[test]
fn occupied_free_cell_is_reported_and_nothing_moves() {
    let mut cascades = empty_cascades();
    cascades[0] = vec![c(2, Suit::Hearts)];
    let mut s = GameState::from_parts(cascades, [Some(c(1, Suit::Spades)), None, None, None], [0; 4]);
    let before = s.clone();
    assert_eq!(s.do_move(Loc::Cascade(0), Loc::Free(0)), Err(MoveError::OccupiedFreeCell));
    assert_eq!(s, before);
}

#[test]
fn foundation_refuses_a_card_that_is_not_next_in_suit() {
    let mut cascades = empty_cascades();
    cascades[0] = vec![c(2, Suit::Spades)];
    let mut s = GameState::from_parts(cascades, [None; 4], [0, 0, 0, 1]);
    assert_eq!(s.do_move(Loc::Cascade(0), Loc::Foundation), Ok(1));
    assert_eq!(s.foundations()[Suit::Spades.index()], 2);

    let mut cascades = empty_cascades();
    cascades[0] = vec![c(2, Suit::Spades)];
    let mut s = GameState::from_parts(cascades, [None; 4], [0; 4]);
    let before = s.clone();
    assert_eq!(s.do_move(Loc::Cascade(0), Loc::Foundation), Err(MoveError::NotOneHigherSameSuit));
    assert_eq!(s, before);
}

#[test]
fn no_matching_run_when_nothing_fits_the_destination() {
    let mut cascades = empty_cascades();
    cascades[0] = vec![c(5, Suit::Hearts)];
    cascades[1] = vec![c(9, Suit::Spades)];
    let mut s = GameState::from_parts(cascades, [None; 4], [0; 4]);
    let before = s.clone();
    assert_eq!(s.do_move(Loc::Cascade(0), Loc::Cascade(1)), Err(MoveError::NoMatchingRun));
    assert_eq!(s.do_move(Loc::Cascade(1), Loc::Cascade(0)), Err(MoveError::NoMatchingRun));
    assert_eq!(s, before);
}

#[test]
fn not_enough_capacity_with_full_cells_and_no_empty_column() {
    let mut cascades = empty_cascades();
    cascades[0] = vec![c(8, Suit::Hearts), c(7, Suit::Spades), c(6, Suit::Hearts)];
    cascades[1] = vec![c(9, Suit::Clubs)];
    for (i, col) in cascades.iter_mut().enumerate().skip(2) {
        *col = vec![c(13, if i % 2 == 0 { Suit::Diamonds } else { Suit::Clubs })];
    }
    let cells = [
        Some(c(1, Suit::Clubs)),
        Some(c(1, Suit::Diamonds)),
        Some(c(1, Suit::Hearts)),
        Some(c(1, Suit::Spades)),
    ];
    let mut s = GameState::from_parts(cascades, cells, [0; 4]);
    let before = s.clone();
    assert_eq!(s.can_move(Loc::Cascade(0), Loc::Cascade(1)), Err(MoveError::NotEnoughCapacity));
    assert_eq!(s.do_move(Loc::Cascade(0), Loc::Cascade(1)), Err(MoveError::NotEnoughCapacity));
    assert_eq!(s, before);
}

#[test]
fn out_of_range_and_foundation_sources_are_invalid_locations() {
    let mut cascades = empty_cascades();
    cascades[0] = vec![c(5, Suit::Hearts)];
    let mut s = GameState::from_parts(cascades, [None; 4], [0; 4]);
    let before = s.clone();
    assert_eq!(s.do_move(Loc::Cascade(0), Loc::Cascade(8)), Err(MoveError::InvalidLocation));
    assert_eq!(s.do_move(Loc::Cascade(0), Loc::Free(4)), Err(MoveError::InvalidLocation));
    assert_eq!(s.do_move(Loc::Cascade(0), Loc::Cascade(0)), Err(MoveError::InvalidLocation));
    assert_eq!(s.do_move(Loc::Foundation, Loc::Cascade(1)), Err(MoveError::InvalidLocation));
    assert_eq!(s.do_move(Loc::Cascade(9), Loc::Foundation), Err(MoveError::InvalidLocation));
    assert_eq!(s, before);
}

#[test]
fn move_error_messages() {
    assert_eq!(MoveError::EmptySource.message(), "there is no card there to move");
    assert_eq!(MoveError::OccupiedFreeCell.message(), "that free cell is occupied");
    assert_eq!(
        MoveError::NotOneHigherSameSuit.message(),
        "foundations build up by suit, ace first"
    );
    assert_eq!(MoveError::NoMatchingRun.message(), "that card cannot go on that pile");
    assert_eq!(
        MoveError::NotEnoughCapacity.message(),
        "not enough free cells to move that many cards"
    );
    assert_eq!(MoveError::InvalidLocation.message(), "invalid location");
}

#[test]
fn action_errors_each_have_an_input_that_gives_them() {
    let game = Game::deal(1);
    assert_eq!(reduce(&game, Action::Undo).unwrap_err(), ActionError::NothingToUndo);
    assert_eq!(reduce(&game, Action::Redo).unwrap_err(), ActionError::NothingToRedo);
    assert_eq!(
        reduce(&game, Action::Move { from: Loc::Free(0), to: Loc::Cascade(0) }).unwrap_err(),
        ActionError::Move(MoveError::EmptySource)
    );
    let built = Game::from_parts(empty_cascades(), [None; 4], [13; 4]);
    assert_eq!(reduce(&built, Action::Restart).unwrap_err(), ActionError::UnknownDeal);

    assert_eq!(ActionError::NothingToUndo.message(), "nothing to undo");
    assert_eq!(ActionError::NothingToRedo.message(), "nothing to redo");
    assert_eq!(
        ActionError::UnknownDeal.message(),
        "this position has no deal number to restart"
    );
    assert_eq!(
        ActionError::Move(MoveError::OccupiedFreeCell).message(),
        "that free cell is occupied"
    );
    assert_eq!(ActionError::from(MoveError::InvalidLocation), ActionError::Move(MoveError::InvalidLocation));
}

#[test]
fn parse_move_reads_two_locations_and_ignores_whitespace() {
    assert_eq!(parse_move("1a"), Some((Loc::Cascade(0), Loc::Free(0))));
    assert_eq!(parse_move(" 8  h "), Some((Loc::Cascade(7), Loc::Foundation)));
    assert_eq!(parse_move("d\tf"), Some((Loc::Free(3), Loc::Foundation)));
    assert_eq!(parse_move("3\n4"), Some((Loc::Cascade(2), Loc::Cascade(3))));
    assert_eq!(parse_move("b 1"), Some((Loc::Free(1), Loc::Cascade(0))));
}

#[test]
fn parse_move_rejects_malformed_commands() {
    assert_eq!(parse_move(""), None);
    assert_eq!(parse_move("1"), None);
    assert_eq!(parse_move("123"), None);
    assert_eq!(parse_move("9a"), None);
    assert_eq!(parse_move("1e"), None);
    assert_eq!(parse_move("A1"), None);
    assert_eq!(parse_move("h1"), None);
    assert_eq!(parse_move("f2"), None);
}

#[test]
fn card_names_are_rank_then_suit() {
    assert_eq!(c(1, Suit::Spades).name(), "AS");
    assert_eq!(c(10, Suit::Diamonds).name(), "TD");
    assert_eq!(c(11, Suit::Clubs).name(), "JC");
    assert_eq!(c(12, Suit::Hearts).name(), "QH");
    assert_eq!(c(13, Suit::Hearts).name(), "KH");
    assert_eq!(c(7, Suit::Clubs).name(), "7C");
}

#[test]
fn stacking_needs_one_rank_lower_and_the_other_color() {
    assert!(c(5, Suit::Hearts).stacks_on(&c(6, Suit::Spades)));
    assert!(c(5, Suit::Clubs).stacks_on(&c(6, Suit::Diamonds)));
    assert!(!c(5, Suit::Hearts).stacks_on(&c(6, Suit::Diamonds)));
    assert!(!c(5, Suit::Hearts).stacks_on(&c(7, Suit::Spades)));
    assert!(!c(6, Suit::Spades).stacks_on(&c(5, Suit::Hearts)));
    assert!(Suit::Hearts.is_red() && Suit::Diamonds.is_red());
    assert!(!Suit::Clubs.is_red() && !Suit::Spades.is_red());
}

#[test]
fn movable_run_len_reports_the_ordered_tail() {
    let mut cascades = empty_cascades();
    cascades[0] = vec![c(2, Suit::Spades), c(9, Suit::Clubs), c(8, Suit::Hearts), c(7, Suit::Spades)];
    cascades[1] = vec![c(9, Suit::Clubs), c(8, Suit::Clubs)];
    let s = GameState::from_parts(cascades, [Some(c(4, Suit::Hearts)), None, None, None], [0; 4]);
    assert_eq!(s.movable_run_len(Loc::Cascade(0)), 3);
    assert_eq!(s.movable_run_len(Loc::Cascade(1)), 1);
    assert_eq!(s.movable_run_len(Loc::Cascade(2)), 0);
    assert_eq!(s.movable_run_len(Loc::Cascade(8)), 0);
    assert_eq!(s.movable_run_len(Loc::Free(0)), 1);
    assert_eq!(s.movable_run_len(Loc::Free(1)), 0);
    assert_eq!(s.movable_run_len(Loc::Foundation), 0);
}

#[test]
fn can_move_answers_without_moving() {
    let mut cascades = empty_cascades();
    cascades[0] = vec![c(9, Suit::Clubs), c(8, Suit::Hearts), c(7, Suit::Spades)];
    let s = GameState::from_parts(cascades, [None; 4], [0; 4]);
    let before = s.clone();
    assert_eq!(s.can_move(Loc::Cascade(0), Loc::Cascade(1)), Ok(3));
    assert_eq!(s.can_move(Loc::Cascade(0), Loc::Free(2)), Ok(1));
    assert_eq!(s, before);
}

#[test]
fn supermove_capacity_is_free_cells_plus_one_doubled_per_other_empty_column() {
    // Five free cells' worth: one empty cell gives 2, one other empty column doubles it.
    let mut cascades = empty_cascades();
    cascades[0] = vec![c(13, Suit::Spades), c(12, Suit::Hearts), c(11, Suit::Spades), c(10, Suit::Hearts)];
    for col in cascades.iter_mut().skip(2).take(5) {
        *col = vec![c(1, Suit::Clubs)];
    }
    let cells = [Some(c(2, Suit::Clubs)), Some(c(3, Suit::Clubs)), Some(c(4, Suit::Clubs)), None];
    let mut s = GameState::from_parts(cascades, cells, [0; 4]);
    // Columns 1 and 7 are empty; moving onto column 1 leaves one other empty
    // column, so (1 + 1) * 2 = 4 cards move together.
    assert_eq!(s.do_move(Loc::Cascade(0), Loc::Cascade(1)), Ok(4));
    assert_eq!(s.cascades()[1].len(), 4);
    assert!(s.cascades()[0].is_empty());
}

#[test]
fn every_move_keeps_all_fifty_two_cards() {
    let mut game = Game::deal(1);
    let start = all_cards(game.state());
    assert_eq!(start.len(), 52);
    let tries = [
        (Loc::Cascade(0), Loc::Free(0)),
        (Loc::Cascade(1), Loc::Free(1)),
        (Loc::Cascade(2), Loc::Cascade(3)),
        (Loc::Cascade(4), Loc::Foundation),
        (Loc::Free(0), Loc::Cascade(5)),
        (Loc::Cascade(6), Loc::Cascade(7)),
    ];
    for (from, to) in tries.iter() {
        let _ = game.do_move(*from, *to);
        assert_eq!(card_total(game.state()), 52);
        assert_eq!(all_cards(game.state()), start);
    }
    game.auto_play();
    assert_eq!(all_cards(game.state()), start);
}

#[test]
fn every_deal_lays_out_each_card_once_in_seven_and_six_card_columns() {
    for seed in [1u32, 2, 617, 11982, 31999, 1_000_000] {
        let s = GameState::deal(seed);
        let lens: Vec<usize> = s.cascades().iter().map(|col| col.len()).collect();
        assert_eq!(lens, vec![7, 7, 7, 7, 6, 6, 6, 6]);
        let cards = all_cards(&s);
        let mut expected: Vec<(u8, usize)> = Vec::new();
        for rank in 1..=13u8 {
            for suit in 0..4usize {
                expected.push((rank, suit));
            }
        }
        expected.sort();
        assert_eq!(cards, expected);
        assert_eq!(s.freecells(), &[None; 4]);
        assert_eq!(s.foundations(), &[0; 4]);
        assert_eq!(Game::deal(seed).state(), &s);
    }
}

#[test]
fn undo_after_a_move_restores_the_position_and_redo_moves_again() {
    let mut game = Game::deal(7);
    let before = game.state().clone();
    assert_eq!(game.do_move(Loc::Cascade(0), Loc::Free(0)), Ok(1));
    let after = game.state().clone();
    assert!(game.undo());
    assert_eq!(game.state(), &before);
    assert!(game.redo());
    assert_eq!(game.state(), &after);
    assert!(game.undo());
    assert!(!game.undo());
    assert_eq!(game.state(), &before);
}

#[test]
fn a_rejected_move_changes_nothing_not_even_the_redo_stack() {
    let mut game = Game::deal(7);
    assert_eq!(game.do_move(Loc::Cascade(0), Loc::Free(0)), Ok(1));
    assert!(game.undo());
    let snapshot = game.clone();
    assert_eq!(game.do_move(Loc::Free(2), Loc::Cascade(0)), Err(MoveError::EmptySource));
    assert_eq!(game, snapshot);
    assert!(game.redo());
}

#[test]
fn auto_play_leaves_no_card_that_could_go_home() {
    let mut cascades = empty_cascades();
    cascades[0] = vec![c(5, Suit::Spades), c(2, Suit::Hearts), c(1, Suit::Hearts)];
    cascades[1] = vec![c(3, Suit::Hearts)];
    cascades[2] = vec![c(1, Suit::Clubs)];
    let cells = [Some(c(2, Suit::Clubs)), None, Some(c(9, Suit::Diamonds)), None];
    let mut game = Game::from_parts(cascades, cells, [0; 4]);
    let sent = game.auto_play();
    assert_eq!(sent, 5);
    assert_eq!(game.foundations(), &[2, 0, 3, 0]);
    for i in 0..8 {
        assert!(game.state().can_move(Loc::Cascade(i), Loc::Foundation).is_err());
    }
    for i in 0..4 {
        assert!(game.state().can_move(Loc::Free(i), Loc::Foundation).is_err());
    }
    assert_eq!(game.moves_played(), 5);
    assert_eq!(game.auto_play(), 0);
}

#[test]
fn reduce_in_place_reports_the_same_errors_as_reduce() {
    let mut game = Game::deal(3);
    let before = game.clone();
    assert_eq!(reduce_in_place(&mut game, Action::Undo), Err(ActionError::NothingToUndo));
    assert_eq!(reduce_in_place(&mut game, Action::Redo), Err(ActionError::NothingToRedo));
    assert_eq!(game, before);
    let mut built = Game::from_parts(empty_cascades(), [None; 4], [0; 4]);
    assert_eq!(reduce_in_place(&mut built, Action::Restart), Err(ActionError::UnknownDeal));
}

#[test]
fn replay_stops_at_the_first_refused_action() {
    let err = replay(
        5,
        &[
            Action::Move { from: Loc::Cascade(0), to: Loc::Free(0) },
            Action::Redo,
            Action::Move { from: Loc::Cascade(1), to: Loc::Free(1) },
        ],
    );
    assert_eq!(err.unwrap_err(), ActionError::NothingToRedo);
}

#[test]
fn a_deal_action_discards_history_and_restart_redeals() {
    let mut game = replay(
        4,
        &[
            Action::Move { from: Loc::Cascade(0), to: Loc::Free(0) },
            Action::Deal { seed: 9 },
        ],
    )
    .unwrap();
    assert_eq!(game, Game::deal(9));
    assert_eq!(game.seed(), Some(9));
    assert_eq!(game.moves_played(), 0);
    assert_eq!(game.do_move(Loc::Cascade(0), Loc::Free(0)), Ok(1));
    let restarted = reduce(&game, Action::Restart).unwrap();
    assert_eq!(restarted, Game::deal(9));
}

#[test]
fn store_reports_a_refused_restart_and_keeps_its_game() {
    let game = Game::from_parts(empty_cascades(), [None; 4], [13; 4]);
    let mut store = Store::from_game(game.clone());
    assert_eq!(store.dispatch(Action::Restart), Err(ActionError::UnknownDeal));
    assert_eq!(store.game(), &game);
    assert!(store.state().is_won());
}

#[test]
fn solver_and_hint_agree_on_a_position_one_card_from_winning() {
    let mut cascades = empty_cascades();
    cascades[3] = vec![c(13, Suit::Spades)];
    let s = GameState::from_parts(cascades, [None; 4], [13, 13, 13, 12]);
    assert_eq!(hint(&s), Some((Loc::Cascade(3), Loc::Foundation)));
    match solve(&s) {
        Solvability::Solvable(line) => {
            let mut play = s.clone();
            for (from, to) in line.iter() {
                assert!(play.do_move(*from, *to).is_ok());
            }
            assert!(play.is_won());
        }
        other => panic!("expected a solution, got {:?}", other),
    }
}

#[test]
fn grade_counts_the_moves_of_the_attempt() {
    let mut game = Game::deal(1);
    assert_eq!(game.do_move(Loc::Cascade(0), Loc::Free(0)), Ok(1));
    assert_eq!(game.do_move(Loc::Cascade(1), Loc::Free(1)), Ok(1));
    let report = grade(&game);
    assert_eq!(report.moves_played, 2);
    assert_eq!(&report.foundations, game.foundations());
}

fn result(seed: u32, won: bool) -> GameResult {
    GameResult { seed, won, moves: 10 }
}

#[test]
fn won_and_lost_always_add_up_to_played_and_longest_covers_current() {
    let mut stats = Stats::default();
    let outcomes = [true, true, false, true, true, true, false, false];
    for (i, won) in outcomes.iter().enumerate() {
        stats.record(result(i as u32, *won));
        assert_eq!(stats.games_won() + stats.games_lost(), stats.games_played());
        match stats.current_streak() {
            Streak::Winning(n) => assert!(stats.longest_winning_streak() >= n),
            Streak::Losing(n) => assert!(stats.longest_losing_streak() >= n),
            Streak::NoGames => panic!("games were recorded"),
        }
    }
    assert_eq!(stats.games_played(), 8);
    assert_eq!(stats.games_won(), 5);
    assert_eq!(stats.longest_winning_streak(), 3);
    assert_eq!(stats.longest_losing_streak(), 2);
    assert_eq!(stats.current_streak(), Streak::Losing(2));
    assert!(stats.deal_history(99).is_empty());
    assert_eq!(stats.deal_history(3), vec![&result(3, true)]);
}

#[test]
fn layout_of_an_eighty_column_terminal() {
    let l = layout(Rect { x: 0, y: 1, width: 80, height: 24 });
    assert_eq!(l.free_cells[1], Rect { x: 10, y: 1, width: 10, height: 3 });
    assert_eq!(l.foundations, Rect { x: 40, y: 1, width: 40, height: 3 });
    assert_eq!(l.cascades[7], Rect { x: 70, y: 4, width: 10, height: 21 });
}

#[test]
fn layout_of_a_tiny_area_still_gives_one_column_per_pile() {
    let l = layout(Rect { x: 5, y: 0, width: 4, height: 2 });
    assert_eq!(l.free_cells[3], Rect { x: 8, y: 0, width: 1, height: 2 });
    assert_eq!(l.foundations, Rect { x: 9, y: 0, width: 4, height: 2 });
    assert_eq!(l.cascades[2], Rect { x: 7, y: 2, width: 1, height: 0 });
}

#[test]
fn every_laid_out_region_is_found_again_by_hit_test() {
    let l = layout(Rect { x: 3, y: 2, width: 96, height: 30 });
    for i in 0..4 {
        let r = l.free_cells[i];
        assert_eq!(hit_test(&l, r.x, r.y), Some(Loc::Free(i)));
        assert_eq!(hit_test(&l, r.x + r.width - 1, r.y + r.height - 1), Some(Loc::Free(i)));
    }
    let f = l.foundations;
    assert_eq!(hit_test(&l, f.x + f.width - 1, f.y), Some(Loc::Foundation));
    for i in 0..8 {
        let r = l.cascades[i];
        assert_eq!(hit_test(&l, r.x, r.y), Some(Loc::Cascade(i)));
        assert_eq!(hit_test(&l, r.x + r.width - 1, r.y + r.height - 1), Some(Loc::Cascade(i)));
    }
    assert_eq!(hit_test(&l, 2, 10), None);
    assert_eq!(hit_test(&l, 50, 32), None);
}

#[test]
fn move_count_buckets_split_wins_and_losses_by_tens_of_moves() {
    let history = [
        GameResult { seed: 1, won: true, moves: 5 },
        GameResult { seed: 2, won: false, moves: 15 },
        GameResult { seed: 3, won: true, moves: 12 },
        GameResult { seed: 4, won: false, moves: 0 },
        GameResult { seed: 5, won: true, moves: 31 },
    ];
    let (won, lost) = move_count_buckets(&history);
    assert_eq!(won, vec![1, 1, 0, 1]);
    assert_eq!(lost, vec![1, 1, 0, 0]);
    assert_eq!(running_wins(&history), vec![1, 1, 2, 2, 3]);

    let (won, lost) = move_count_buckets(&[]);
    assert_eq!(won, vec![0]);
    assert_eq!(lost, vec![0]);
    assert!(running_wins(&[]).is_empty());
}

#[test]
fn free_cell_order_does_not_change_solvability() {
    let mut cascades = empty_cascades();
    cascades[0] = vec![c(13, Suit::Spades), c(12, Suit::Hearts)];
    cascades[1] = vec![c(13, Suit::Hearts), c(12, Suit::Spades)];
    let a = [Some(c(13, Suit::Clubs)), Some(c(13, Suit::Diamonds)), None, None];
    let b = [None, Some(c(13, Suit::Diamonds)), None, Some(c(13, Suit::Clubs))];
    let foundations = [12, 12, 11, 11];
    let first = GameState::from_parts(cascades.clone(), a, foundations);
    let second = GameState::from_parts(cascades, b, foundations);
    for s in [first, second] {
        match solve(&s) {
            Solvability::Solvable(line) => {
                let mut play = s.clone();
                for (from, to) in line.iter() {
                    assert!(play.do_move(*from, *to).is_ok());
                }
                assert!(play.is_won());
            }
            other => panic!("expected a solution, got {:?}", other),
        }
    }
}

#[test]
fn a_position_with_no_legal_move_is_unsolvable_and_gets_no_hint() {
    // Kings and jacks on the cascades, nines in every free cell: no card
    // fits anywhere.
    let suits = [Suit::Clubs, Suit::Diamonds, Suit::Hearts, Suit::Spades];
    let mut cascades = empty_cascades();
    for (i, col) in cascades.iter_mut().enumerate() {
        *col = vec![c(if i < 4 { 13 } else { 11 }, suits[i % 4])];
    }
    let cells = [
        Some(c(9, Suit::Clubs)),
        Some(c(9, Suit::Diamonds)),
        Some(c(9, Suit::Hearts)),
        Some(c(9, Suit::Spades)),
    ];
    let s = GameState::from_parts(cascades, cells, [0; 4]);
    assert_eq!(solve(&s), Solvability::Unsolvable);
    assert_eq!(hint(&s), None);
}

#[test]
fn an_auto_play_that_sends_nothing_home_still_clears_redo() {
    let mut cascades = empty_cascades();
    cascades[0] = vec![c(13, Suit::Clubs)];
    let mut store = Store::from_game(Game::from_parts(cascades, [None; 4], [0; 4]));
    assert_eq!(store.dispatch(Action::Move { from: Loc::Cascade(0), to: Loc::Free(0) }), Ok(()));
    assert_eq!(store.dispatch(Action::Undo), Ok(()));
    assert_eq!(store.dispatch(Action::AutoPlay), Ok(()));
    let before = store.game().clone();
    assert_eq!(store.dispatch(Action::Redo), Err(ActionError::NothingToRedo));
    assert_eq!(store.game(), &before);
}

#[test]
fn board_lines_of_deal_one() {
    let lines = board_lines(&Game::deal(1));
    assert_eq!(lines.len(), 12);
    assert_eq!(lines[0], "");
    assert_eq!(lines[1], "Game #1   moves: 0");
    assert_eq!(lines[2], "free  a:__ b:__ c:__ d:__    home  C- D- H- S-");
    assert_eq!(lines[3], "");
    assert_eq!(lines[4], "   1   2   3   4   5   6   7   8");
    assert_eq!(lines[5], "   JD  2D  9H  JC  5D  7H  7C  5H");
    assert_eq!(lines[11], "   6S  9C  2H  6H                ");
}

#[test]
fn board_lines_show_free_cells_piles_and_the_move_count() {
    let mut game = Game::deal(1);
    assert_eq!(game.do_move(Loc::Cascade(0), Loc::Free(1)), Ok(1));
    let lines = board_lines(&game);
    assert_eq!(lines[1], "Game #1   moves: 1");
    assert_eq!(lines[2], "free  a:__ b:6S c:__ d:__    home  C- D- H- S-");
    let built = Game::from_parts(empty_cascades(), [None; 4], [13, 10, 1, 0]);
    let lines = board_lines(&built);
    assert_eq!(lines.len(), 5);
    assert_eq!(lines[1], "Game #0   moves: 0");
    assert_eq!(lines[2], "free  a:__ b:__ c:__ d:__    home  CK DT HA S-");
}

#[test]
fn game_auto_play_clears_redo_even_when_nothing_goes_home() {
    let mut cascades = empty_cascades();
    cascades[0] = vec![c(13, Suit::Clubs)];
    let mut game = Game::from_parts(cascades, [None; 4], [0; 4]);
    assert_eq!(game.do_move(Loc::Cascade(0), Loc::Free(0)), Ok(1));
    assert!(game.undo());
    assert_eq!(game.auto_play(), 0);
    assert!(!game.redo());
}
