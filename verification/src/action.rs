//! Every way the game can change, as plain data, and the reducers that
//! apply it.
use vstd::prelude::*;
use crate::card::Loc;
use crate::game::{
    dealt_game, game_do_move, game_redo, game_undo, lemma_auto_play_linked, lemma_linked_prefix,
    lemma_move_linked, lemma_undo_redo_keep_timeline, linked, spec_auto_play, timeline, Game,
    GameModel,
};
use crate::state::{shaped, MoveError};

verus! {

/// Every way the game can change, expressed as plain data. A game is fully
/// described by its deal seed plus the sequence of actions applied to it.
#[derive(Debug, Clone, Copy, PartialEq, Eq, Structural)]
pub enum Action {
    /// Start a numbered deal.
    Deal { seed: u32 },
    /// Move a card or run between locations.
    Move { from: Loc, to: Loc },
    /// Send every playable card to the foundations.
    AutoPlay,
    /// Step back one move.
    Undo,
    /// Step forward one move previously undone.
    Redo,
    /// Re-deal the current numbered game from scratch.
    Restart,
}

/// Why an action was rejected.
#[derive(Debug, Clone, Copy, PartialEq, Eq, Structural)]
pub enum ActionError {
    /// The underlying move was illegal.
    Move(MoveError),
    /// Undo was dispatched with no moves to undo.
    NothingToUndo,
    /// Redo was dispatched with no undone move to replay.
    NothingToRedo,
    /// Restart was dispatched on a position with no deal number.
    UnknownDeal,
}

impl ActionError {
    /// The human-readable explanation of the error.
    pub fn message(&self) -> (s: &'static str)
        ensures
            s@ == action_error_message(*self)@,
    {
        match self {
            ActionError::Move(e) => e.message(),
            ActionError::NothingToUndo => "nothing to undo",
            ActionError::NothingToRedo => "nothing to redo",
            ActionError::UnknownDeal => "this position has no deal number to restart",
        }
    }
}

/// The text [`ActionError::message`] gives for each error.
pub open spec fn action_error_message(e: ActionError) -> &'static str {
    match e {
        ActionError::Move(m) => crate::state::move_error_message(m),
        ActionError::NothingToUndo => "nothing to undo",
        ActionError::NothingToRedo => "nothing to redo",
        ActionError::UnknownDeal => "this position has no deal number to restart",
    }
}

impl From<MoveError> for ActionError {
    fn from(e: MoveError) -> (r: ActionError)
        ensures
            r == ActionError::Move(e),
    {
        ActionError::Move(e)
    }
}

impl vstd::std_specs::convert::FromSpecImpl<MoveError> for ActionError {
    open spec fn obeys_from_spec() -> bool {
        true
    }

    open spec fn from_spec(v: MoveError) -> ActionError {
        ActionError::Move(v)
    }
}

/// The game an action produces from `g`, or why it is rejected.
/// `AutoPlay` always succeeds; like every action but `Undo` and `Redo`, it
/// leaves nothing to redo, even when it sends no card home. `Deal` and
/// `Restart` reset to an absolute position regardless of `g`'s history.
pub open spec fn spec_reduce(g: GameModel, a: Action) -> Result<GameModel, ActionError> {
    match a {
        Action::Deal { seed } => Ok(dealt_game(seed)),
        Action::Move { from, to } => match game_do_move(g, from, to) {
            Ok((h, _)) => Ok(h),
            Err(e) => Err(ActionError::Move(e)),
        },
        Action::AutoPlay => Ok(GameModel { future: seq![], ..spec_auto_play(g) }),
        Action::Undo => match game_undo(g) {
            Some(h) => Ok(h),
            None => Err(ActionError::NothingToUndo),
        },
        Action::Redo => match game_redo(g) {
            Some(h) => Ok(h),
            None => Err(ActionError::NothingToRedo),
        },
        Action::Restart => match g.seed {
            Some(seed) => Ok(dealt_game(seed)),
            None => Err(ActionError::UnknownDeal),
        },
    }
}

/// The game `actions` produce, applied in order from `g`: the first
/// rejected action's error if any is rejected.
pub open spec fn run_actions(g: GameModel, actions: Seq<Action>) -> Result<GameModel, ActionError>
    decreases actions.len(),
{
    if actions.len() == 0 {
        Ok(g)
    } else {
        match run_actions(g, actions.drop_last()) {
            Ok(h) => spec_reduce(h, actions.last()),
            Err(e) => Err(e),
        }
    }
}

/// Pure reducer: compute the next game from `game` and an action, without
/// changing `game`. Every action but `AutoPlay` may be rejected.
pub fn reduce(game: &Game, action: Action) -> (r: Result<Game, ActionError>)
    ensures
        match spec_reduce(game@, action) {
            Ok(h) => r matches Ok(n) && n@ == h,
            Err(e) => r == Err::<Game, ActionError>(e),
        },
{
    match action {
        Action::Deal { seed } => Ok(Game::deal(seed)),
        Action::Move { from, to } => {
            let mut next = game.clone();
            match next.do_move(from, to) {
                Ok(_) => Ok(next),
                Err(e) => Err(ActionError::Move(e)),
            }
        },
        Action::AutoPlay => {
            let mut next = game.clone();
            next.auto_play();
            Ok(next)
        },
        Action::Undo => {
            let mut next = game.clone();
            if next.undo() {
                Ok(next)
            } else {
                Err(ActionError::NothingToUndo)
            }
        },
        Action::Redo => {
            let mut next = game.clone();
            if next.redo() {
                Ok(next)
            } else {
                Err(ActionError::NothingToRedo)
            }
        },
        Action::Restart => match game.seed() {
            Some(seed) => Ok(Game::deal(seed)),
            None => Err(ActionError::UnknownDeal),
        },
    }
}

/// In-place sibling of [`reduce`]: the same result for every action, and
/// atomic on failure (`game` is left exactly as it was when `Err` is
/// returned).
pub fn reduce_in_place(game: &mut Game, action: Action) -> (r: Result<(), ActionError>)
    ensures
        match spec_reduce(old(game)@, action) {
            Ok(h) => r is Ok && final(game)@ == h,
            Err(e) => r == Err::<(), ActionError>(e) && final(game)@ == old(game)@,
        },
{
    match action {
        Action::Deal { seed } => {
            *game = Game::deal(seed);
            Ok(())
        },
        Action::Move { from, to } => match game.do_move(from, to) {
            Ok(_) => Ok(()),
            Err(e) => Err(ActionError::Move(e)),
        },
        Action::AutoPlay => {
            game.auto_play();
            Ok(())
        },
        Action::Undo => {
            if game.undo() {
                Ok(())
            } else {
                Err(ActionError::NothingToUndo)
            }
        },
        Action::Redo => {
            if game.redo() {
                Ok(())
            } else {
                Err(ActionError::NothingToRedo)
            }
        },
        Action::Restart => match game.seed() {
            Some(seed) => {
                *game = Game::deal(seed);
                Ok(())
            },
            None => Err(ActionError::UnknownDeal),
        },
    }
}

/// Reconstruct a game from a deal seed and the full sequence of actions
/// applied to it: `Game::deal(seed)` followed by every action in order.
/// Returns the first error encountered, if any action was illegal.
pub fn replay(seed: u32, actions: &[Action]) -> (r: Result<Game, ActionError>)
    ensures
        match run_actions(dealt_game(seed), actions@) {
            Ok(h) => r matches Ok(g) && g@ == h,
            Err(e) => r == Err::<Game, ActionError>(e),
        },
        r != Err::<Game, ActionError>(ActionError::UnknownDeal),
{
    let mut game = Game::deal(seed);
    let mut i: usize = 0;
    while i < actions.len()
        invariant
            i <= actions@.len(),
            run_actions(dealt_game(seed), actions@.take(i as int)) == Ok::<GameModel, ActionError>(game@),
            game@.seed is Some,
        decreases actions.len() - i,
    {
        proof {
            assert(actions@.take(i + 1).drop_last() =~= actions@.take(i as int));
            game.lemma_shaped();
            crate::game::lemma_auto_play_keeps_seed(game@);
        }
        let action = actions[i];
        match reduce_in_place(&mut game, action) {
            Ok(()) => {},
            Err(e) => {
                proof {
                    lemma_run_actions_stops_at_error(dealt_game(seed), actions@, (i + 1) as nat);
                }
                return Err(e);
            },
        }
        i = i + 1;
    }
    proof {
        assert(actions@.take(actions@.len() as int) =~= actions@);
    }
    Ok(game)
}

/// Once a prefix of the actions is rejected, the whole sequence is
/// rejected with the same error.
pub proof fn lemma_run_actions_stops_at_error(g: GameModel, actions: Seq<Action>, k: nat)
    requires
        k <= actions.len(),
        run_actions(g, actions.take(k as int)) is Err,
    ensures
        run_actions(g, actions) == run_actions(g, actions.take(k as int)),
    decreases actions.len() - k,
{
    if k < actions.len() {
        assert(actions.take(k + 1 as int).drop_last() =~= actions.take(k as int));
        lemma_run_actions_stops_at_error(g, actions, (k + 1) as nat);
    } else {
        assert(actions.take(k as int) =~= actions);
    }
}

/// Logging each successfully applied action keeps the log a valid replay:
/// if `log` reproduces `h` and `a` succeeds on `h`, then `log` followed by
/// `a` reproduces the result.
pub proof fn lemma_replay_extends(g: GameModel, log: Seq<Action>, a: Action)
    requires
        run_actions(g, log) is Ok,
        spec_reduce(run_actions(g, log)->Ok_0, a) is Ok,
    ensures
        run_actions(g, log.push(a)) == spec_reduce(run_actions(g, log)->Ok_0, a),
{
    assert(log.push(a).drop_last() =~= log);
}

/// `Deal` resets to an absolute position: whatever came before it, the
/// actions after it replay exactly as from a fresh deal of that number.
pub proof fn lemma_deal_discards_the_past(g: GameModel, before: Seq<Action>, seed: u32, after: Seq<Action>)
    requires
        run_actions(g, before) is Ok,
    ensures
        run_actions(g, before.push(Action::Deal { seed }) + after) == run_actions(dealt_game(seed), after),
    decreases after.len(),
{
    let pre = before.push(Action::Deal { seed });
    assert(pre.drop_last() =~= before);
    if after.len() == 0 {
        assert(pre + after =~= pre);
        assert(after =~= Seq::<Action>::empty());
    } else {
        lemma_deal_discards_the_past(g, before, seed, after.drop_last());
        assert((pre + after).drop_last() =~= pre + after.drop_last());
        assert((pre + after).last() == after.last());
    }
}

/// `Restart` of a numbered game is the fresh deal of its number, whatever
/// moves were played.
pub proof fn lemma_restart_redeals(g: GameModel)
    requires
        g.seed is Some,
    ensures
        spec_reduce(g, Action::Restart) == Ok::<GameModel, ActionError>(dealt_game(g.seed->Some_0)),
{
}

/// `AutoPlay` never fails: sending no card home is not an error.
pub proof fn lemma_auto_play_always_succeeds(g: GameModel)
    ensures
        spec_reduce(g, Action::AutoPlay) is Ok,
{
}

/// Every position a game records leads to the next by one legal move, and
/// every action keeps it so: from a deal (or any position with no history)
/// on, the undo history followed by the current position is a sequence of
/// legal moves, and so is what redo would bring back.
pub proof fn lemma_reduce_keeps_timeline_linked(g: GameModel, a: Action)
    requires
        shaped(g.state),
        linked(timeline(g)),
    ensures
        spec_reduce(g, a) matches Ok(h) ==> linked(timeline(h)) && linked(h.past.push(h.state)),
{
    if let Ok(h) = spec_reduce(g, a) {
        assert(timeline(g).take(g.past.len() + 1int) =~= g.past.push(g.state));
        lemma_linked_prefix(timeline(g), g.past.len() + 1int);
        match a {
            Action::Move { from, to } => {
                lemma_move_linked(g, from, to);
                assert(timeline(h) =~= h.past.push(h.state));
            },
            Action::AutoPlay => {
                lemma_auto_play_linked(g);
                assert(timeline(h) =~= h.past.push(h.state));
            },
            Action::Undo => {
                lemma_undo_redo_keep_timeline(g);
            },
            Action::Redo => {
                lemma_undo_redo_keep_timeline(g);
            },
            _ => {
                assert(timeline(h) =~= seq![h.state]);
            },
        }
        assert(timeline(h).take(h.past.len() + 1int) =~= h.past.push(h.state));
        lemma_linked_prefix(timeline(h), h.past.len() + 1int);
    }
}

} // verus!
