//! The Store: owns a [`Game`], applies dispatched [`Action`]s, and notifies
//! subscribers with `(&GameState, &Action)` after every successful dispatch.
use vstd::prelude::*;
use crate::action::{lemma_reduce_keeps_timeline_linked, reduce_in_place, spec_reduce, Action, ActionError};
use crate::game::{dealt_game, linked, timeline, Game, GameModel};
use crate::state::{GameState, Position};

verus! {

/// Something to tell about each successful transition.
trait Observer {
    fn notify(&self, state: &GameState, action: &Action);
}

/// A subscriber closure, callable on every state and action.
struct Subscription<F: Fn(&GameState, &Action)> {
    f: F,
}

impl<F: Fn(&GameState, &Action)> Subscription<F> {
    #[verifier::type_invariant]
    spec fn callable(self) -> bool {
        forall|s: &GameState, a: &Action| call_requires(self.f, (s, a))
    }
}

impl<F: Fn(&GameState, &Action)> Observer for Subscription<F> {
    fn notify(&self, state: &GameState, action: &Action) {
        proof {
            use_type_invariant(self);
        }
        (self.f)(state, action)
    }
}

/// One registered subscriber.
struct Subscriber {
    observer: Box<dyn Observer>,
}

impl Subscriber {
    fn new<O: Observer + 'static>(o: O) -> Subscriber {
        Subscriber { observer: Box::new(o) }
    }
}

/// Owns a game and the subscribers to its transitions.
pub struct Store {
    game: Game,
    subscribers: Vec<Subscriber>,
    /// Every notification sent so far, in order: which subscriber (by
    /// registration order) was told, of which position and which action.
    notices: Ghost<Seq<(nat, Position, Action)>>,
}

/// One round of notifications: each of `n` subscribers, in registration
/// order, told of position `p` reached by action `a`.
pub open spec fn notice_round(n: nat, p: Position, a: Action) -> Seq<(nat, Position, Action)> {
    Seq::new(n, |i: int| (i as nat, p, a))
}

impl View for Store {
    type V = GameModel;

    closed spec fn view(&self) -> GameModel {
        self.game@
    }
}

impl Store {
    /// How many subscribers have registered.
    pub closed spec fn subscriber_count(&self) -> nat {
        self.subscribers@.len()
    }

    /// Every notification the store has sent, oldest first.
    pub closed spec fn notices(&self) -> Seq<(nat, Position, Action)> {
        self.notices@
    }

    /// Start a new store from a numbered deal.
    pub fn new(seed: u32) -> (s: Store)
        ensures
            s@ == dealt_game(seed),
            s.subscriber_count() == 0,
            s.notices() == Seq::<(nat, Position, Action)>::empty(),
    {
        Store::from_game(Game::deal(seed))
    }

    /// Start a new store from an arbitrary game.
    pub fn from_game(game: Game) -> (s: Store)
        ensures
            s@ == game@,
            s.subscriber_count() == 0,
            s.notices() == Seq::<(nat, Position, Action)>::empty(),
    {
        Store { game, subscribers: Vec::new(), notices: Ghost(Seq::empty()) }
    }

    /// The full underlying game (position, history, and seed).
    pub fn game(&self) -> (r: &Game)
        ensures
            r@ == self@,
    {
        &self.game
    }

    /// The current position, with no history or seed attached.
    pub fn state(&self) -> (r: &GameState)
        ensures
            r@ == self@.state,
    {
        self.game.state()
    }

    /// Apply an action. On success, replaces the store's game and notifies
    /// every subscriber, in registration order, with the new state and the
    /// action. On failure, the store is left untouched and no subscriber is
    /// notified.
    pub fn dispatch(&mut self, action: Action) -> (r: Result<(), ActionError>)
        ensures
            final(self).subscriber_count() == old(self).subscriber_count(),
            linked(timeline(old(self)@)) ==> linked(timeline(final(self)@)),
            match spec_reduce(old(self)@, action) {
                Ok(h) => {
                    &&& r is Ok
                    &&& final(self)@ == h
                    &&& final(self).notices() == old(self).notices() + notice_round(
                        old(self).subscriber_count(),
                        h.state,
                        action,
                    )
                },
                Err(e) => {
                    &&& r == Err::<(), ActionError>(e)
                    &&& final(self)@ == old(self)@
                    &&& final(self).notices() == old(self).notices()
                },
            },
    {
        proof {
            self.game.lemma_shaped();
            if linked(timeline(self.game@)) {
                lemma_reduce_keeps_timeline_linked(self.game@, action);
            }
        }
        reduce_in_place(&mut self.game, action)?;
        let ghost before = self.notices@;
        let ghost n = self.subscribers@.len();
        let ghost g = self.game@;
        let ghost p = self.game@.state;
        let mut i: usize = 0;
        while i < self.subscribers.len()
            invariant
                i <= self.subscribers@.len() == n,
                self.game@ == g,
                g.state == p,
                self.notices@ == before + notice_round(i as nat, p, action),
            decreases self.subscribers.len() - i,
        {
            self.subscribers[i].observer.notify(self.game.state(), &action);
            proof {
                self.notices@ = self.notices@.push((i as nat, p, action));
                assert(before + notice_round((i + 1) as nat, p, action) =~= (before + notice_round(
                    i as nat,
                    p,
                    action,
                )).push((i as nat, p, action)));
            }
            i = i + 1;
        }
        Ok(())
    }

    /// Register a subscriber, called in registration order after every
    /// successful `dispatch`.
    pub fn subscribe<F: Fn(&GameState, &Action) + 'static>(&mut self, f: F)
        requires
            forall|s: &GameState, a: &Action| call_requires(f, (s, a)),
        ensures
            final(self)@ == old(self)@,
            final(self).subscriber_count() == old(self).subscriber_count() + 1,
            final(self).notices() == old(self).notices(),
    {
        let sub = Subscriber::new(Subscription { f });
        self.subscribers.push(sub);
    }
}

} // verus!
