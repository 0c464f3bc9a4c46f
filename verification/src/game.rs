//! A position with its undo/redo history and deal number.
use vstd::prelude::*;
use crate::card::{suit_index, Loc};
use crate::deal::spec_deal;
use crate::state::{is_won, peek, remove, shaped, spec_do_move, GameState, MoveError, Position};

verus! {

/// The model of a [`Game`]: the current position, the positions `undo`
/// can step back to (oldest first), the positions `redo` can replay
/// (newest last), and the deal number when known.
pub struct GameModel {
    pub state: Position,
    pub past: Seq<Position>,
    pub future: Seq<Position>,
    pub seed: Option<u32>,
}

/// The positions of a sequence of snapshots.
pub open spec fn views(s: Seq<GameState>) -> Seq<Position> {
    s.map_values(|g: GameState| g@)
}

/// A freshly dealt numbered game, with no history.
pub open spec fn dealt_game(seed: u32) -> GameModel {
    GameModel { state: spec_deal(seed), past: seq![], future: seq![], seed: Some(seed) }
}

/// A successful move records the previous position for undo and discards
/// whatever could have been redone.
pub open spec fn game_do_move(g: GameModel, from: Loc, to: Loc) -> Result<(GameModel, nat), MoveError> {
    match spec_do_move(g.state, from, to) {
        Ok((p, n)) => Ok((GameModel { state: p, past: g.past.push(g.state), future: seq![], seed: g.seed }, n)),
        Err(e) => Err(e),
    }
}

/// Step back one move, making the current position redoable.
pub open spec fn game_undo(g: GameModel) -> Option<GameModel> {
    if g.past.len() == 0 {
        None
    } else {
        Some(GameModel {
            state: g.past.last(),
            past: g.past.drop_last(),
            future: g.future.push(g.state),
            seed: g.seed,
        })
    }
}

/// Step forward one undone move, making the current position undoable.
pub open spec fn game_redo(g: GameModel) -> Option<GameModel> {
    if g.future.len() == 0 {
        None
    } else {
        Some(GameModel {
            state: g.future.last(),
            past: g.past.push(g.state),
            future: g.future.drop_last(),
            seed: g.seed,
        })
    }
}

/// The sources auto-play tries, in order: cascades 1-8, then free cells a-d.
pub open spec fn autoplay_source(k: int) -> Loc {
    if k < 8 {
        Loc::Cascade(k as usize)
    } else {
        Loc::Free((k - 8) as usize)
    }
}

/// Send the card at `from` home if that is a legal move.
pub open spec fn send_home(g: GameModel, from: Loc) -> GameModel {
    match game_do_move(g, from, Loc::Foundation) {
        Ok((h, _)) => h,
        Err(_) => g,
    }
}

/// The first `k` attempts of one auto-play pass.
pub open spec fn autoplay_pass(g: GameModel, k: nat) -> GameModel
    decreases k,
{
    if k == 0 {
        g
    } else {
        send_home(autoplay_pass(g, (k - 1) as nat), autoplay_source(k - 1))
    }
}

/// The sum of the foundation piles' top ranks.
pub open spec fn foundation_total(p: Position) -> int {
    p.foundations[0] + p.foundations[1] + p.foundations[2] + p.foundations[3]
}

/// Auto-play: repeat passes over every source until a pass sends nothing home.
pub open spec fn spec_auto_play(g: GameModel) -> GameModel
    decreases 1024 - foundation_total(g.state),
    when shaped(g.state)
{
    let h = autoplay_pass(g, 12);
    if h.past.len() == g.past.len() {
        g
    } else {
        proof {
            lemma_autoplay_pass(g, 12);
        }
        spec_auto_play(h)
    }
}

/// A successful move home raises exactly one foundation pile by one.
pub proof fn lemma_home_move(g: GameModel, from: Loc)
    requires
        shaped(g.state),
    ensures
        game_do_move(g, from, Loc::Foundation) matches Ok((h, n)) ==> {
            &&& shaped(h.state)
            &&& n == 1
            &&& h.past.len() == g.past.len() + 1
            &&& foundation_total(h.state) == foundation_total(g.state) + 1
            &&& h.seed == g.seed
        },
{
    if let Ok((h, n)) = game_do_move(g, from, Loc::Foundation) {
        let c = peek(g.state, from)->Ok_0;
        let si = suit_index(c.suit);
        let q = remove(g.state, from);
        assert(h.state.foundations == q.foundations.update(si, c.rank));
        assert(q.foundations == g.state.foundations);
        assert(si == 0 || si == 1 || si == 2 || si == 3);
    }
}

/// Each pass keeps the board's shape, and raises the foundation total by
/// exactly the number of cards it sent home; a pass that sends nothing
/// home changes nothing.
pub proof fn lemma_autoplay_pass(g: GameModel, k: nat)
    requires
        shaped(g.state),
    ensures
        shaped(autoplay_pass(g, k).state),
        autoplay_pass(g, k).past.len() >= g.past.len(),
        foundation_total(autoplay_pass(g, k).state) - foundation_total(g.state) == autoplay_pass(
            g,
            k,
        ).past.len() - g.past.len(),
        autoplay_pass(g, k).past.len() == g.past.len() ==> autoplay_pass(g, k) == g,
        autoplay_pass(g, k).seed == g.seed,
    decreases k,
{
    if k > 0 {
        lemma_autoplay_pass(g, (k - 1) as nat);
        lemma_home_move(autoplay_pass(g, (k - 1) as nat), autoplay_source(k - 1));
    }
}

proof fn lemma_pass_without_progress(g: GameModel, k: nat)
    requires
        shaped(g.state),
        autoplay_pass(g, k).past.len() == g.past.len(),
    ensures
        forall|j: int| 0 <= j < k ==> #[trigger] game_do_move(g, autoplay_source(j), Loc::Foundation) is Err,
    decreases k,
{
    if k > 0 {
        let prev = autoplay_pass(g, (k - 1) as nat);
        lemma_autoplay_pass(g, (k - 1) as nat);
        lemma_home_move(prev, autoplay_source(k - 1));
        assert(prev.past.len() == g.past.len());
        assert(prev == g);
        lemma_pass_without_progress(g, (k - 1) as nat);
    }
}

/// After auto-play, no card on a cascade or in a free cell can go home:
/// every playable card has been sent.
pub proof fn lemma_auto_play_leaves_nothing_playable(g: GameModel)
    requires
        shaped(g.state),
    ensures
        forall|k: int| 0 <= k < 12 ==> #[trigger] spec_do_move(
            spec_auto_play(g).state,
            autoplay_source(k),
            Loc::Foundation,
        ) is Err,
    decreases 1024 - foundation_total(g.state),
{
    let h = autoplay_pass(g, 12);
    lemma_autoplay_pass(g, 12);
    if h.past.len() == g.past.len() {
        lemma_pass_without_progress(g, 12);
        assert forall|k: int| 0 <= k < 12 implies #[trigger] spec_do_move(
            spec_auto_play(g).state,
            autoplay_source(k),
            Loc::Foundation,
        ) is Err by {
            assert(game_do_move(g, autoplay_source(k), Loc::Foundation) is Err);
        }
    } else {
        lemma_auto_play_leaves_nothing_playable(h);
    }
}

/// Auto-play keeps the deal number.
pub proof fn lemma_auto_play_keeps_seed(g: GameModel)
    requires
        shaped(g.state),
    ensures
        spec_auto_play(g).seed == g.seed,
    decreases 1024 - foundation_total(g.state),
{
    let h = autoplay_pass(g, 12);
    lemma_autoplay_pass(g, 12);
    if h.past.len() != g.past.len() {
        lemma_auto_play_keeps_seed(h);
    }
}

/// One legal move leads from `p` to `q`.
pub open spec fn steps_to(p: Position, q: Position) -> bool {
    exists|m: (Loc, Loc)| #[trigger] spec_do_move(p, m.0, m.1) matches Ok((r, _)) && r == q
}

/// Position `k` of `s` leads to position `k + 1` by one legal move.
pub open spec fn step_at(s: Seq<Position>, k: int) -> bool {
    steps_to(s[k], s[k + 1])
}

/// Each position of `s` leads to the next by one legal move.
pub open spec fn linked(s: Seq<Position>) -> bool {
    forall|k: int| 0 <= k < s.len() - 1 ==> #[trigger] step_at(s, k)
}

/// Every position a game records, oldest first: its undo history, the
/// current position, then what redo would bring back, in redo order.
pub open spec fn timeline(g: GameModel) -> Seq<Position> {
    g.past.push(g.state) + g.future.reverse()
}

/// A game with no history, as `Game::deal` and `Game::from_parts` make
/// one, records a single position.
pub proof fn lemma_fresh_game_linked(g: GameModel)
    requires
        g.past.len() == 0,
        g.future.len() == 0,
    ensures
        linked(timeline(g)),
{
    assert(timeline(g).len() == 1);
}

/// Every prefix of a linked sequence is linked.
pub proof fn lemma_linked_prefix(s: Seq<Position>, n: int)
    requires
        linked(s),
        0 <= n <= s.len(),
    ensures
        linked(s.take(n)),
{
    assert forall|k: int| 0 <= k < s.take(n).len() - 1 implies #[trigger] step_at(s.take(n), k) by {
        assert(step_at(s, k));
        assert(s.take(n)[k] == s[k] && s.take(n)[k + 1] == s[k + 1]);
    }
}

proof fn lemma_linked_push(s: Seq<Position>, q: Position)
    requires
        linked(s),
        s.len() > 0,
        steps_to(s.last(), q),
    ensures
        linked(s.push(q)),
{
    assert forall|k: int| 0 <= k < s.push(q).len() - 1 implies #[trigger] step_at(s.push(q), k) by {
        if k < s.len() - 1 {
            assert(step_at(s, k));
            assert(s.push(q)[k] == s[k] && s.push(q)[k + 1] == s[k + 1]);
        } else {
            assert(s.push(q)[k] == s.last() && s.push(q)[k + 1] == q);
        }
    }
}

/// A successful move leads from the current position to the new one, and
/// records the current one as the newest undo step.
pub proof fn lemma_move_linked(g: GameModel, from: Loc, to: Loc)
    requires
        linked(g.past.push(g.state)),
    ensures
        game_do_move(g, from, to) matches Ok((h, _)) ==> linked(h.past.push(h.state)) && h.future.len()
            == 0,
{
    if let Ok((h, _)) = game_do_move(g, from, to) {
        let m = (from, to);
        assert(spec_do_move(g.state, m.0, m.1) matches Ok((r, _)) && r == h.state);
        assert(steps_to(g.past.push(g.state).last(), h.state));
        lemma_linked_push(g.past.push(g.state), h.state);
        assert(h.past.push(h.state) =~= g.past.push(g.state).push(h.state));
    }
}

proof fn lemma_pass_linked(g: GameModel, k: nat)
    requires
        linked(g.past.push(g.state)),
    ensures
        linked(autoplay_pass(g, k).past.push(autoplay_pass(g, k).state)),
    decreases k,
{
    if k > 0 {
        lemma_pass_linked(g, (k - 1) as nat);
        lemma_move_linked(autoplay_pass(g, (k - 1) as nat), autoplay_source(k - 1), Loc::Foundation);
    }
}

/// Auto-play plays only legal moves: if the recorded positions lead one to
/// the next by legal moves before, they still do after.
pub proof fn lemma_auto_play_linked(g: GameModel)
    requires
        shaped(g.state),
        linked(g.past.push(g.state)),
    ensures
        linked(spec_auto_play(g).past.push(spec_auto_play(g).state)),
    decreases 1024 - foundation_total(g.state),
{
    let h = autoplay_pass(g, 12);
    lemma_autoplay_pass(g, 12);
    lemma_pass_linked(g, 12);
    if h.past.len() != g.past.len() {
        lemma_auto_play_linked(h);
    }
}

/// Undo and redo only move the current position along the recorded
/// timeline: the timeline itself is unchanged.
pub proof fn lemma_undo_redo_keep_timeline(g: GameModel)
    ensures
        game_undo(g) matches Some(h) ==> timeline(h) == timeline(g),
        game_redo(g) matches Some(h) ==> timeline(h) == timeline(g),
{
    if let Some(h) = game_undo(g) {
        assert(h.future.reverse() =~= seq![g.state] + g.future.reverse());
        assert(h.past.push(h.state) =~= g.past);
        assert(timeline(h) =~= timeline(g));
    }
    if let Some(h) = game_redo(g) {
        assert(g.future.reverse() =~= seq![g.future.last()] + h.future.reverse());
        assert(timeline(h) =~= timeline(g));
    }
}

/// Moves, undo, redo and auto-play (which leaves nothing to redo) keep
/// every recorded position one legal move from the next.
pub proof fn lemma_game_steps_keep_linked(g: GameModel)
    requires
        shaped(g.state),
        linked(timeline(g)),
    ensures
        forall|from: Loc, to: Loc|
            #[trigger] game_do_move(g, from, to) matches Ok((h, _)) ==> linked(timeline(h)),
        game_undo(g) matches Some(h) ==> linked(timeline(h)),
        game_redo(g) matches Some(h) ==> linked(timeline(h)),
        linked(timeline(GameModel { future: seq![], ..spec_auto_play(g) })),
{
    assert(timeline(g).take(g.past.len() + 1int) =~= g.past.push(g.state));
    lemma_linked_prefix(timeline(g), g.past.len() + 1int);
    assert forall|from: Loc, to: Loc|
        (#[trigger] game_do_move(g, from, to) matches Ok((h, _)) ==> linked(timeline(h))) by {
        lemma_move_linked(g, from, to);
        if let Ok((h, _)) = game_do_move(g, from, to) {
            assert(timeline(h) =~= h.past.push(h.state));
        }
    }
    lemma_undo_redo_keep_timeline(g);
    lemma_auto_play_linked(g);
    let a = GameModel { future: seq![], ..spec_auto_play(g) };
    assert(timeline(a) =~= a.past.push(a.state));
}

/// Undoing a successful move restores the position and the undo history
/// from before it.
pub proof fn lemma_undo_reverts_move(g: GameModel, from: Loc, to: Loc)
    requires
        game_do_move(g, from, to) is Ok,
    ensures
        game_undo(game_do_move(g, from, to)->Ok_0.0) matches Some(u) && u.state == g.state && u.past
            == g.past && u.seed == g.seed,
{
    let h = game_do_move(g, from, to)->Ok_0.0;
    assert(h.past.drop_last() =~= g.past);
}

/// A successful move leaves nothing to redo: a fresh move after an undo
/// discards the old redo target.
pub proof fn lemma_move_clears_redo(g: GameModel, from: Loc, to: Loc)
    requires
        game_do_move(g, from, to) is Ok,
    ensures
        game_redo(game_do_move(g, from, to)->Ok_0.0) is None,
{
}

/// Redo exactly reverses an undo: the game is back where it was, history
/// and all.
pub proof fn lemma_undo_then_redo(g: GameModel)
    requires
        game_undo(g) is Some,
    ensures
        game_redo(game_undo(g)->Some_0) == Some(g),
{
    let h = game_undo(g)->Some_0;
    assert(h.past.push(h.state) =~= g.past);
    assert(h.future.drop_last() =~= g.future);
}

/// Undo exactly reverses a redo.
pub proof fn lemma_redo_then_undo(g: GameModel)
    requires
        game_redo(g) is Some,
    ensures
        game_undo(game_redo(g)->Some_0) == Some(g),
{
    let h = game_redo(g)->Some_0;
    assert(h.past.drop_last() =~= g.past);
    assert(h.future.push(h.state) =~= g.future);
}

/// A position plus its undo/redo history and, for a numbered deal, its
/// deal number.
#[derive(Debug, PartialEq, Eq)]
pub struct Game {
    state: GameState,
    /// States reachable by [`Game::undo`], newest last.
    past: Vec<GameState>,
    /// States reachable by [`Game::redo`], newest last. Populated only by
    /// `undo`; cleared by any other state-changing action.
    future: Vec<GameState>,
    /// The deal number, when this game came from `Game::deal`.
    seed: Option<u32>,
}

impl View for Game {
    type V = GameModel;

    closed spec fn view(&self) -> GameModel {
        GameModel {
            state: self.state@,
            past: views(self.past@),
            future: views(self.future@),
            seed: self.seed,
        }
    }
}

fn clone_states(v: &Vec<GameState>) -> (r: Vec<GameState>)
    ensures
        views(r@) == views(v@),
{
    let mut r: Vec<GameState> = Vec::new();
    let mut i: usize = 0;
    while i < v.len()
        invariant
            i <= v.len(),
            r@.len() == i,
            forall|k: int| 0 <= k < i ==> (#[trigger] r@[k])@ == v@[k]@,
        decreases v.len() - i,
    {
        let c = v[i].clone();
        r.push(c);
        i = i + 1;
    }
    proof {
        assert(views(r@) =~= views(v@));
    }
    r
}

impl Clone for Game {
    fn clone(&self) -> (r: Self)
        ensures
            r@ == self@,
    {
        Game {
            state: self.state.clone(),
            past: clone_states(&self.past),
            future: clone_states(&self.future),
            seed: self.seed,
        }
    }
}

impl Game {
    /// The board of every game has eight cascades, four free cells and
    /// four foundation piles.
    pub proof fn lemma_shaped(&self)
        ensures
            shaped(self@.state),
    {
        self.state.lemma_shaped();
    }

    /// Every position the game records leads to the next by one legal move
    /// (see [`timeline`]).
    pub open spec fn wf(&self) -> bool {
        linked(timeline(self@))
    }

    /// Deal a numbered game using the classic Microsoft FreeCell algorithm.
    pub fn deal(seed: u32) -> (g: Game)
        ensures
            g@ == dealt_game(seed),
            g.wf(),
    {
        proof {
            lemma_fresh_game_linked(dealt_game(seed));
        }
        let g = Game { state: GameState::deal(seed), past: Vec::new(), future: Vec::new(), seed: Some(seed) };
        proof {
            assert(g@.past =~= seq![]);
            assert(g@.future =~= seq![]);
        }
        g
    }

    /// Build an arbitrary position with no history and no deal number; no
    /// consistency check is performed.
    pub fn from_parts(
        cascades: [Vec<crate::card::Card>; 8],
        freecells: [Option<crate::card::Card>; 4],
        foundations: [u8; 4],
    ) -> (g: Game)
        ensures
            g@.state.cascades == Seq::new(8, |i: int| cascades[i]@),
            g@.state.freecells == freecells@,
            g@.state.foundations == foundations@,
            g@.past == Seq::<Position>::empty(),
            g@.future == Seq::<Position>::empty(),
            g@.seed == None::<u32>,
            g.wf(),
    {
        let g = Game {
            state: GameState::from_parts(cascades, freecells, foundations),
            past: Vec::new(),
            future: Vec::new(),
            seed: None,
        };
        proof {
            assert(g@.past =~= seq![]);
            assert(g@.future =~= seq![]);
            lemma_fresh_game_linked(g@);
        }
        g
    }

    /// The deal number this game was dealt from, when known.
    pub fn seed(&self) -> (r: Option<u32>)
        ensures
            r == self@.seed,
    {
        self.seed
    }

    /// The current position, with no history or seed attached.
    pub fn state(&self) -> (r: &GameState)
        ensures
            r@ == self@.state,
    {
        &self.state
    }

    pub fn cascades(&self) -> (r: &[Vec<crate::card::Card>; 8])
        ensures
            forall|i: int| 0 <= i < 8 ==> r[i]@ == self@.state.cascades[i],
    {
        self.state.cascades()
    }

    pub fn freecells(&self) -> (r: &[Option<crate::card::Card>; 4])
        ensures
            r@ == self@.state.freecells,
    {
        self.state.freecells()
    }

    pub fn foundations(&self) -> (r: &[u8; 4])
        ensures
            r@ == self@.state.foundations,
    {
        self.state.foundations()
    }

    pub fn is_won(&self) -> (r: bool)
        ensures
            r == is_won(self@.state),
    {
        self.state.is_won()
    }

    /// Undo the last successful move. Returns false when there is nothing to
    /// undo. On success, the undone position becomes available to `redo`.
    pub fn undo(&mut self) -> (r: bool)
        ensures
            match game_undo(old(self)@) {
                Some(h) => r && final(self)@ == h,
                None => !r && final(self)@ == old(self)@,
            },
            old(self).wf() ==> final(self).wf(),
    {
        proof {
            old(self).lemma_shaped();
            if old(self).wf() {
                lemma_game_steps_keep_linked(old(self)@);
            }
        }
        match self.past.pop() {
            Some(state) => {
                let mut current = state;
                std::mem::swap(&mut self.state, &mut current);
                self.future.push(current);
                proof {
                    assert(self@.past =~= old(self)@.past.drop_last());
                    assert(self@.future =~= old(self)@.future.push(old(self)@.state));
                }
                true
            },
            None => {
                proof {
                    assert(self@.past =~= old(self)@.past);
                }
                false
            },
        }
    }

    /// Forget every undone position: nothing is left to redo.
    fn clear_redo(&mut self)
        ensures
            final(self)@ == (GameModel { future: seq![], ..old(self)@ }),
    {
        self.future.clear();
        proof {
            assert(self@.future =~= Seq::<Position>::empty());
        }
    }

    /// Redo the last undone move. Returns false when there is nothing to
    /// redo: nothing has been undone yet, or a move since the last undo
    /// cleared the redo stack.
    pub fn redo(&mut self) -> (r: bool)
        ensures
            match game_redo(old(self)@) {
                Some(h) => r && final(self)@ == h,
                None => !r && final(self)@ == old(self)@,
            },
            old(self).wf() ==> final(self).wf(),
    {
        proof {
            old(self).lemma_shaped();
            if old(self).wf() {
                lemma_game_steps_keep_linked(old(self)@);
            }
        }
        match self.future.pop() {
            Some(state) => {
                let mut current = state;
                std::mem::swap(&mut self.state, &mut current);
                self.past.push(current);
                proof {
                    assert(self@.future =~= old(self)@.future.drop_last());
                    assert(self@.past =~= old(self)@.past.push(old(self)@.state));
                }
                true
            },
            None => {
                proof {
                    assert(self@.future =~= old(self)@.future);
                }
                false
            },
        }
    }

    /// How many moves have been played (and can be undone).
    pub fn moves_played(&self) -> (r: usize)
        ensures
            r == self@.past.len(),
    {
        self.past.len()
    }

    /// Every ancestor of the current position since the last deal or
    /// restart, oldest first: the positions `undo` can still step back
    /// through. Does not include the current position.
    pub fn history(&self) -> (r: &[GameState])
        ensures
            views(r@) == self@.past,
            self.wf() ==> linked(views(r@).push(self@.state)),
    {
        proof {
            if self.wf() {
                assert(timeline(self@).take(self@.past.len() + 1int) =~= self@.past.push(self@.state));
                lemma_linked_prefix(timeline(self@), self@.past.len() + 1int);
            }
        }
        self.past.as_slice()
    }

    /// Repeatedly send every playable card to the foundations. Returns the
    /// number of cards sent home. Like every change but undo and redo, it
    /// leaves nothing to redo, even when no card goes home.
    pub fn auto_play(&mut self) -> (r: usize)
        ensures
            final(self)@ == (GameModel { future: seq![], ..spec_auto_play(old(self)@) }),
            r == final(self)@.past.len() - old(self)@.past.len(),
            old(self).wf() ==> final(self).wf(),
    {
        proof {
            old(self).lemma_shaped();
            if old(self).wf() {
                lemma_game_steps_keep_linked(old(self)@);
            }
        }
        let r = self.send_all_home();
        self.clear_redo();
        r
    }

    /// The passes of auto-play, each move home recorded for undo.
    fn send_all_home(&mut self) -> (r: usize)
        ensures
            final(self)@ == spec_auto_play(old(self)@),
            r == final(self)@.past.len() - old(self)@.past.len(),
    {
        let ghost g0 = self@;
        let mut sent: usize = 0;
        proof {
            self.lemma_shaped();
        }
        loop
            invariant
                g0 == old(self)@,
                shaped(self@.state),
                shaped(g0.state),
                spec_auto_play(self@) == spec_auto_play(g0),
                sent == self@.past.len() - g0.past.len(),
                sent == foundation_total(self@.state) - foundation_total(g0.state),
                0 <= foundation_total(g0.state) <= 1020,
                0 <= foundation_total(self@.state) <= 1020,
            ensures
                self@ == spec_auto_play(g0),
                sent == self@.past.len() - g0.past.len(),
            decreases 1024 - foundation_total(self@.state),
        {
            let ghost start = self@;
            let mut progressed = false;
            let mut i: usize = 0;
            while i < 8
                invariant
                    i <= 8,
                    shaped(start.state),
                    self@ == autoplay_pass(start, i as nat),
                    progressed == (self@.past.len() > start.past.len()),
                    sent == self@.past.len() - g0.past.len(),
                    start.past.len() >= g0.past.len(),
                    sent == foundation_total(self@.state) - foundation_total(g0.state),
                    0 <= foundation_total(g0.state) <= 1020,
                decreases 8 - i,
            {
                proof {
                    lemma_autoplay_pass(start, i as nat);
                    lemma_home_move(self@, Loc::Cascade(i));
                    self.lemma_shaped();
                }
                if self.do_move(Loc::Cascade(i), Loc::Foundation).is_ok() {
                    progressed = true;
                    sent = sent + 1;
                }
                i = i + 1;
            }
            let mut j: usize = 0;
            while j < 4
                invariant
                    j <= 4,
                    shaped(start.state),
                    self@ == autoplay_pass(start, (8 + j) as nat),
                    progressed == (self@.past.len() > start.past.len()),
                    sent == self@.past.len() - g0.past.len(),
                    start.past.len() >= g0.past.len(),
                    sent == foundation_total(self@.state) - foundation_total(g0.state),
                    0 <= foundation_total(g0.state) <= 1020,
                decreases 4 - j,
            {
                proof {
                    lemma_autoplay_pass(start, (8 + j) as nat);
                    lemma_home_move(self@, Loc::Free(j));
                    self.lemma_shaped();
                }
                if self.do_move(Loc::Free(j), Loc::Foundation).is_ok() {
                    progressed = true;
                    sent = sent + 1;
                }
                j = j + 1;
            }
            proof {
                lemma_autoplay_pass(start, 12);
                self.lemma_shaped();
            }
            if !progressed {
                proof {
                    assert(autoplay_pass(start, 12) == start);
                    assert(spec_auto_play(start) == start);
                }
                return sent;
            }
        }
    }

    /// Perform a move, returning the number of cards moved (see
    /// [`GameState::do_move`] for the rules). On success the previous
    /// position is recorded for undo and the redo stack is cleared.
    pub fn do_move(&mut self, from: Loc, to: Loc) -> (r: Result<usize, MoveError>)
        ensures
            match game_do_move(old(self)@, from, to) {
                Ok((h, n)) => r == Ok::<usize, MoveError>(n as usize) && final(self)@ == h,
                Err(e) => r == Err::<usize, MoveError>(e) && final(self)@ == old(self)@,
            },
            old(self).wf() ==> final(self).wf(),
    {
        proof {
            old(self).lemma_shaped();
            if old(self).wf() {
                lemma_game_steps_keep_linked(old(self)@);
                assert(game_do_move(old(self)@, from, to) matches Ok((h, _)) ==> linked(timeline(h)));
            }
        }
        let snapshot = self.state.clone();
        let moved = self.state.do_move(from, to)?;
        self.past.push(snapshot);
        self.future.clear();
        proof {
            assert(self@.past =~= old(self)@.past.push(old(self)@.state));
            assert(self@.future =~= seq![]);
        }
        Ok(moved)
    }
}

} // verus!
