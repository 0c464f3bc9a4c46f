//! A plain-data FreeCell position and the rules for a single move.
use vstd::prelude::*;
use vstd::multiset::Multiset;
use crate::card::{stacks_on, suit_index, suit_of_index, Card, Loc, Suit};

verus! {

/// The mathematical model of a position: eight cascades (bottom card
/// first), four free cells, and the top rank of each foundation pile
/// (indexed by [`suit_index`], 0 meaning empty).
pub struct Position {
    pub cascades: Seq<Seq<Card>>,
    pub freecells: Seq<Option<Card>>,
    pub foundations: Seq<u8>,
}

/// Why a move was rejected.
#[derive(Debug, Clone, Copy, PartialEq, Eq, Structural)]
pub enum MoveError {
    EmptySource,
    OccupiedFreeCell,
    NotOneHigherSameSuit,
    NoMatchingRun,
    NotEnoughCapacity,
    InvalidLocation,
}

impl MoveError {
    /// The human-readable explanation of the error.
    pub fn message(&self) -> (s: &'static str)
        ensures
            s@ == move_error_message(*self)@,
    {
        match self {
            MoveError::EmptySource => "there is no card there to move",
            MoveError::OccupiedFreeCell => "that free cell is occupied",
            MoveError::NotOneHigherSameSuit => "foundations build up by suit, ace first",
            MoveError::NoMatchingRun => "that card cannot go on that pile",
            MoveError::NotEnoughCapacity => "not enough free cells to move that many cards",
            MoveError::InvalidLocation => "invalid location",
        }
    }
}

/// The text [`MoveError::message`] gives for each error.
pub open spec fn move_error_message(e: MoveError) -> &'static str {
    match e {
        MoveError::EmptySource => "there is no card there to move",
        MoveError::OccupiedFreeCell => "that free cell is occupied",
        MoveError::NotOneHigherSameSuit => "foundations build up by suit, ace first",
        MoveError::NoMatchingRun => "that card cannot go on that pile",
        MoveError::NotEnoughCapacity => "not enough free cells to move that many cards",
        MoveError::InvalidLocation => "invalid location",
    }
}

// ------------------------------------------------------------------ rules

/// The length of the longest ordered (descending, alternating-color) run
/// at the end of a cascade: 0 for an empty cascade, otherwise one more
/// than the run of the rest whenever the top card stacks on the one below.
pub open spec fn run_len(c: Seq<Card>) -> nat
    decreases c.len(),
{
    if c.len() == 0 {
        0
    } else if c.len() == 1 {
        1
    } else if stacks_on(c.last(), c[c.len() - 2]) {
        1 + run_len(c.drop_last())
    } else {
        1
    }
}

/// The number of empty free cells among `s`.
pub open spec fn count_none(s: Seq<Option<Card>>) -> nat
    decreases s.len(),
{
    if s.len() == 0 {
        0
    } else {
        count_none(s.drop_last()) + if s.last() is None { 1nat } else { 0nat }
    }
}

/// The number of empty cascades among `s`.
pub open spec fn count_empty(s: Seq<Seq<Card>>) -> nat
    decreases s.len(),
{
    if s.len() == 0 {
        0
    } else {
        count_empty(s.drop_last()) + if s.last().len() == 0 { 1nat } else { 0nat }
    }
}

pub open spec fn pow2(n: nat) -> nat
    decreases n,
{
    if n == 0 {
        1
    } else {
        2 * pow2((n - 1) as nat)
    }
}

/// Supermove capacity: (1 + empty free cells) * 2^(empty cascades), where
/// an empty destination cascade does not count itself.
pub open spec fn capacity(p: Position, dest_is_empty_cascade: bool) -> nat {
    let empties = count_empty(p.cascades);
    let counted = if dest_is_empty_cascade && empties > 0 { (empties - 1) as nat } else { empties };
    (count_none(p.freecells) + 1) * pow2(counted)
}

/// The card a move from `from` would pick up.
pub open spec fn peek(p: Position, from: Loc) -> Result<Card, MoveError> {
    match from {
        Loc::Cascade(i) => if i < 8 {
            if p.cascades[i as int].len() == 0 {
                Err(MoveError::EmptySource)
            } else {
                Ok(p.cascades[i as int].last())
            }
        } else {
            Err(MoveError::InvalidLocation)
        },
        Loc::Free(i) => if i < 4 {
            match p.freecells[i as int] {
                Some(c) => Ok(c),
                None => Err(MoveError::EmptySource),
            }
        } else {
            Err(MoveError::InvalidLocation)
        },
        Loc::Foundation => Err(MoveError::InvalidLocation),
    }
}

/// The position with the card at `from` picked up.
pub open spec fn remove(p: Position, from: Loc) -> Position {
    match from {
        Loc::Cascade(i) => Position {
            cascades: p.cascades.update(i as int, p.cascades[i as int].drop_last()),
            ..p
        },
        Loc::Free(i) => Position { freecells: p.freecells.update(i as int, None), ..p },
        Loc::Foundation => p,
    }
}

/// The smallest `n` in `from..=run` such that the card `n` from the end of
/// `source` stacks on `top`.
pub open spec fn first_fit(source: Seq<Card>, top: Card, from: nat, run: nat) -> Option<nat>
    decreases run + 1 - from,
{
    if from > run || from == 0 {
        None
    } else if stacks_on(source[source.len() - from], top) {
        Some(from)
    } else {
        first_fit(source, top, from + 1, run)
    }
}

/// A cascade-to-cascade move: the longest legal run that fits the
/// destination, limited by supermove capacity.
pub open spec fn move_run(p: Position, src: usize, dst: usize) -> Result<(Position, nat), MoveError> {
    if src >= 8 || src == dst {
        Err(MoveError::InvalidLocation)
    } else if p.cascades[src as int].len() == 0 {
        Err(MoveError::EmptySource)
    } else {
        let source = p.cascades[src as int];
        let dest = p.cascades[dst as int];
        let run = run_len(source);
        let count = if dest.len() > 0 {
            first_fit(source, dest.last(), 1, run)
        } else {
            let cap = capacity(p, true);
            Some(if run < cap { run } else { cap })
        };
        match count {
            None => Err(MoveError::NoMatchingRun),
            Some(n) => if n > capacity(p, dest.len() == 0) {
                Err(MoveError::NotEnoughCapacity)
            } else {
                let split = source.len() - n;
                Ok((Position {
                    cascades: p.cascades.update(src as int, source.take(split)).update(
                        dst as int,
                        dest + source.skip(split),
                    ),
                    ..p
                }, n))
            },
        }
    }
}

/// The result of moving from `from` to `to`: the new position and how many
/// cards moved, or why the move is illegal.
pub open spec fn spec_do_move(p: Position, from: Loc, to: Loc) -> Result<(Position, nat), MoveError> {
    match to {
        Loc::Free(cell) => if cell >= 4 {
            Err(MoveError::InvalidLocation)
        } else if p.freecells[cell as int] is Some {
            Err(MoveError::OccupiedFreeCell)
        } else {
            match peek(p, from) {
                Err(e) => Err(e),
                Ok(c) => {
                    let q = remove(p, from);
                    Ok((Position { freecells: q.freecells.update(cell as int, Some(c)), ..q }, 1))
                },
            }
        },
        Loc::Foundation => match peek(p, from) {
            Err(e) => Err(e),
            Ok(c) => {
                let pile = p.foundations[suit_index(c.suit)];
                if c.rank != pile + 1 {
                    Err(MoveError::NotOneHigherSameSuit)
                } else {
                    let q = remove(p, from);
                    Ok((Position {
                        foundations: q.foundations.update(suit_index(c.suit), c.rank),
                        ..q
                    }, 1))
                }
            },
        },
        Loc::Cascade(dst) => if dst >= 8 {
            Err(MoveError::InvalidLocation)
        } else {
            match from {
                Loc::Free(_) => match peek(p, from) {
                    Err(e) => Err(e),
                    Ok(c) => {
                        let dest = p.cascades[dst as int];
                        if dest.len() > 0 && !stacks_on(c, dest.last()) {
                            Err(MoveError::NoMatchingRun)
                        } else {
                            let q = remove(p, from);
                            Ok((Position { cascades: q.cascades.update(dst as int, dest.push(c)), ..q }, 1))
                        }
                    },
                },
                Loc::Cascade(src) => move_run(p, src, dst),
                Loc::Foundation => Err(MoveError::InvalidLocation),
            }
        },
    }
}

/// Won: every foundation pile has reached the king.
pub open spec fn is_won(p: Position) -> bool {
    forall|i: int| 0 <= i < 4 ==> p.foundations[i] == 13
}

/// How many cards [`GameState::movable_run_len`] reports as movable from `loc`.
pub open spec fn movable_run_len(p: Position, loc: Loc) -> nat {
    match loc {
        Loc::Cascade(i) => if i < 8 { run_len(p.cascades[i as int]) } else { 0 },
        Loc::Free(i) => if i < 4 && p.freecells[i as int] is Some { 1 } else { 0 },
        Loc::Foundation => 0,
    }
}

// ------------------------------------------------------------------ lemmas

pub(crate) proof fn lemma_run_len_bounds(c: Seq<Card>)
    ensures
        run_len(c) <= c.len(),
        c.len() > 0 ==> run_len(c) >= 1,
    decreases c.len(),
{
    if c.len() > 1 {
        lemma_run_len_bounds(c.drop_last());
    }
}

/// A run of `r` cards ending the cascade that cannot be extended is exactly
/// [`run_len`].
proof fn lemma_run_len_is(c: Seq<Card>, r: nat)
    requires
        1 <= r <= c.len(),
        forall|k: int| c.len() - r <= k < c.len() - 1 ==> stacks_on(#[trigger] c[k + 1], c[k]),
        r == c.len() || !stacks_on(c[c.len() - r], c[c.len() - r - 1]),
    ensures
        run_len(c) == r,
    decreases r,
{
    if r > 1 {
        let d = c.drop_last();
        let last = c.len() - 2;
        assert(stacks_on(c[last + 1], c[last]));
        assert forall|k: int| d.len() - (r - 1) <= k < d.len() - 1 implies stacks_on(
            #[trigger] d[k + 1],
            d[k],
        ) by {
            assert(d[k + 1] == c[k + 1]);
        }
        lemma_run_len_is(d, (r - 1) as nat);
    }
}

/// What [`run_len`] is, stated on the cards: every card of the run stacks
/// on the one below it, and the card below the run (if any) does not take
/// the run's bottom card.
proof fn lemma_run_len_tail(c: Seq<Card>)
    ensures
        run_len(c) <= c.len(),
        c.len() > 0 ==> run_len(c) >= 1,
        forall|k: int| c.len() - run_len(c) <= k < c.len() - 1 ==> stacks_on(#[trigger] c[k + 1], c[k]),
        run_len(c) < c.len() ==> !stacks_on(c[c.len() - run_len(c)], c[c.len() - run_len(c) - 1]),
    decreases c.len(),
{
    if c.len() > 1 && stacks_on(c.last(), c[c.len() - 2]) {
        let d = c.drop_last();
        lemma_run_len_tail(d);
        assert forall|k: int| c.len() - run_len(c) <= k < c.len() - 1 implies stacks_on(
            #[trigger] c[k + 1],
            c[k],
        ) by {
            if k < c.len() - 2 {
                assert(d[k + 1] == c[k + 1] && d[k] == c[k]);
            }
        }
        if run_len(c) < c.len() {
            assert(d[d.len() - run_len(d)] == c[c.len() - run_len(c)]);
            assert(d[d.len() - run_len(d) - 1] == c[c.len() - run_len(c) - 1]);
        }
    }
}

/// Supermove capacity counted from the board itself: one more than the
/// number of empty free cells, times two to the power of the number of
/// empty cascades, where an empty destination cascade does not count
/// itself.
pub proof fn lemma_capacity_formula(p: Position, dest_is_empty_cascade: bool)
    ensures
        ({
            let free = p.freecells.filter(|x: Option<Card>| x is None).len();
            let empty = p.cascades.filter(|c: Seq<Card>| c.len() == 0).len();
            let others = if dest_is_empty_cascade && empty > 0 { (empty - 1) as nat } else { empty };
            capacity(p, dest_is_empty_cascade) == (free + 1) * vstd::arithmetic::power2::pow2(others)
        }),
{
    lemma_count_none_filter(p.freecells);
    lemma_count_empty_filter(p.cascades);
    let empty = p.cascades.filter(|c: Seq<Card>| c.len() == 0).len();
    let others = if dest_is_empty_cascade && empty > 0 { (empty - 1) as nat } else { empty };
    lemma_pow2_is_power_of_two(others);
}

proof fn lemma_count_none_filter(s: Seq<Option<Card>>)
    ensures
        count_none(s) == s.filter(|x: Option<Card>| x is None).len(),
    decreases s.len(),
{
    reveal(Seq::filter);
    if s.len() > 0 {
        lemma_count_none_filter(s.drop_last());
    }
}

proof fn lemma_count_empty_filter(s: Seq<Seq<Card>>)
    ensures
        count_empty(s) == s.filter(|c: Seq<Card>| c.len() == 0).len(),
    decreases s.len(),
{
    reveal(Seq::filter);
    if s.len() > 0 {
        lemma_count_empty_filter(s.drop_last());
    }
}

proof fn lemma_pow2_is_power_of_two(n: nat)
    ensures
        pow2(n) == vstd::arithmetic::power2::pow2(n),
    decreases n,
{
    if n == 0 {
        vstd::arithmetic::power::lemma_pow0(2);
    } else {
        lemma_pow2_is_power_of_two((n - 1) as nat);
        vstd::arithmetic::power2::lemma_pow2_unfold(n);
    }
}

/// Each further empty cascade that is not the destination doubles the
/// supermove capacity, the free cells being the same.
pub proof fn lemma_capacity_doubles(p: Position, q: Position, dest_is_empty_cascade: bool)
    requires
        dest_is_empty_cascade ==> count_empty(p.cascades) > 0,
        count_none(q.freecells) == count_none(p.freecells),
        count_empty(q.cascades) == count_empty(p.cascades) + 1,
    ensures
        capacity(q, dest_is_empty_cascade) == 2 * capacity(p, dest_is_empty_cascade),
{
    let e = count_empty(p.cascades);
    let counted = if dest_is_empty_cascade && e > 0 { (e - 1) as nat } else { e };
    let counted_q = if dest_is_empty_cascade && e + 1 > 0 { e as nat } else { (e + 1) as nat };
    assert(counted_q == counted + 1);
    assert(pow2(counted_q) == 2 * pow2(counted));
    let f = count_none(p.freecells) + 1;
    assert(f * (2 * pow2(counted)) == 2 * (f * pow2(counted))) by (nonlinear_arith);
}

/// From a cascade, the run reported as movable is the longest ordered tail
/// of that cascade: every card in it stacks on the card below it, and the
/// card below the run, if there is one, does not take the run's bottom
/// card. It depends on the cascade alone, not on free cells, foundations or
/// the other cascades.
pub proof fn lemma_movable_run_is_longest_ordered_tail(p: Position, q: Position, i: usize)
    requires
        i < 8,
        p.cascades.len() == 8,
        q.cascades.len() == 8,
        q.cascades[i as int] == p.cascades[i as int],
    ensures
        ({
            let c = p.cascades[i as int];
            let n = movable_run_len(p, Loc::Cascade(i));
            &&& n <= c.len()
            &&& c.len() > 0 ==> n >= 1
            &&& forall|k: int| c.len() - n <= k < c.len() - 1 ==> stacks_on(#[trigger] c[k + 1], c[k])
            &&& n < c.len() ==> !stacks_on(c[c.len() - n], c[c.len() - n - 1])
        }),
        movable_run_len(q, Loc::Cascade(i)) == movable_run_len(p, Loc::Cascade(i)),
{
    lemma_run_len_tail(p.cascades[i as int]);
}

pub(crate) proof fn lemma_first_fit_bounds(source: Seq<Card>, top: Card, from: nat, run: nat)
    ensures
        first_fit(source, top, from, run) matches Some(n) ==> from <= n <= run && n >= 1,
    decreases run + 1 - from,
{
    if from <= run && from != 0 && !stacks_on(source[source.len() - from], top) {
        lemma_first_fit_bounds(source, top, from + 1, run);
    }
}

// ------------------------------------------------------------------ GameState

/// A plain-data snapshot of a FreeCell position: the cascades, free cells,
/// and foundations, with the rules needed to validate and apply one move.
#[derive(Debug, PartialEq, Eq)]
pub struct GameState {
    cascades: [Vec<Card>; 8],
    freecells: [Option<Card>; 4],
    /// Top rank per suit, indexed by [`Suit::index`]; 0 means empty.
    foundations: [u8; 4],
}

impl View for GameState {
    type V = Position;

    closed spec fn view(&self) -> Position {
        Position {
            cascades: Seq::new(8, |i: int| self.cascades[i]@),
            freecells: self.freecells@,
            foundations: self.foundations@,
        }
    }
}

/// The shape every view has: eight cascades, four free cells, four piles.
pub open spec fn shaped(p: Position) -> bool {
    p.cascades.len() == 8 && p.freecells.len() == 4 && p.foundations.len() == 4
}

impl Clone for GameState {
    fn clone(&self) -> (r: Self)
        ensures
            r@ == self@,
    {
        let r = GameState {
            cascades: [
                self.cascades[0].clone(),
                self.cascades[1].clone(),
                self.cascades[2].clone(),
                self.cascades[3].clone(),
                self.cascades[4].clone(),
                self.cascades[5].clone(),
                self.cascades[6].clone(),
                self.cascades[7].clone(),
            ],
            freecells: self.freecells,
            foundations: self.foundations,
        };
        proof {
            assert forall|i: int| 0 <= i < 8 implies r.cascades[i]@ == self.cascades[i]@ by {
                assert(r.cascades[i]@ =~= self.cascades[i]@);
            }
            assert(r@.cascades =~= self@.cascades);
        }
        r
    }
}

impl GameState {
    pub proof fn lemma_shaped(&self)
        ensures
            shaped(self@),
    {
    }

    /// Build an arbitrary position; no consistency check is performed.
    pub fn from_parts(
        cascades: [Vec<Card>; 8],
        freecells: [Option<Card>; 4],
        foundations: [u8; 4],
    ) -> (s: GameState)
        ensures
            s@.cascades == Seq::new(8, |i: int| cascades[i]@),
            s@.freecells == freecells@,
            s@.foundations == foundations@,
    {
        GameState { cascades, freecells, foundations }
    }

    pub fn cascades(&self) -> (r: &[Vec<Card>; 8])
        ensures
            forall|i: int| 0 <= i < 8 ==> r[i]@ == self@.cascades[i],
    {
        &self.cascades
    }

    pub fn freecells(&self) -> (r: &[Option<Card>; 4])
        ensures
            r@ == self@.freecells,
    {
        &self.freecells
    }

    pub fn foundations(&self) -> (r: &[u8; 4])
        ensures
            r@ == self@.foundations,
    {
        &self.foundations
    }

    pub fn is_won(&self) -> (r: bool)
        ensures
            r == is_won(self@),
    {
        let r = self.foundations[0] == 13 && self.foundations[1] == 13 && self.foundations[2]
            == 13 && self.foundations[3] == 13;
        proof {
            assert(self@.foundations[0] == self.foundations[0]);
            assert(self@.foundations[1] == self.foundations[1]);
            assert(self@.foundations[2] == self.foundations[2]);
            assert(self@.foundations[3] == self.foundations[3]);
            if r {
                assert forall|i: int| 0 <= i < 4 implies self@.foundations[i] == 13 by {
                    assert(i == 0 || i == 1 || i == 2 || i == 3);
                }
            }
        }
        r
    }

    /// Non-mutating dry run of [`GameState::do_move`]: whether `from -> to`
    /// would succeed, and how many cards would move.
    pub fn can_move(&self, from: Loc, to: Loc) -> (r: Result<usize, MoveError>)
        ensures
            match spec_do_move(self@, from, to) {
                Ok((_, n)) => r == Ok::<usize, MoveError>(n as usize),
                Err(e) => r == Err::<usize, MoveError>(e),
            },
    {
        let mut scratch = self.clone();
        scratch.do_move(from, to)
    }

    /// The length of the ordered run that would move together from `loc`
    /// (1 for an occupied free cell, 0 for an empty or invalid location or
    /// the foundations), before capacity and destination limits apply.
    pub fn movable_run_len(&self, loc: Loc) -> (r: usize)
        ensures
            r == movable_run_len(self@, loc),
    {
        match loc {
            Loc::Cascade(i) => if i < 8 {
                tail_run_len(&self.cascades[i])
            } else {
                0
            },
            Loc::Free(i) => if i < 4 && self.freecells[i].is_some() {
                1
            } else {
                0
            },
            Loc::Foundation => 0,
        }
    }

    /// Perform a move, returning the number of cards moved.
    ///
    /// Cascade-to-cascade moves transfer the longest ordered run that legally
    /// fits the destination, subject to the supermove capacity
    /// `(1 + empty free cells) * 2^(empty cascades)`; the destination column,
    /// if empty, does not count toward that doubling.
    ///
    /// Atomic: on `Err`, `self` is left exactly as it was before the call.
    pub fn do_move(&mut self, from: Loc, to: Loc) -> (r: Result<usize, MoveError>)
        ensures
            match spec_do_move(old(self)@, from, to) {
                Ok((p, n)) => r == Ok::<usize, MoveError>(n as usize) && final(self)@ == p,
                Err(e) => r == Err::<usize, MoveError>(e) && final(self)@ == old(self)@,
            },
    {
        match to {
            Loc::Free(cell) => {
                if cell >= 4 {
                    return Err(MoveError::InvalidLocation);
                }
                if self.freecells[cell].is_some() {
                    return Err(MoveError::OccupiedFreeCell);
                }
                let card = self.take_single(from)?;
                self.freecells[cell] = Some(card);
                let ghost q = remove(old(self)@, from);
                proof {
                    assert(self@ == Position { freecells: q.freecells.update(cell as int, Some(card)), ..q }) by {
                        assert(self@.cascades =~= q.cascades);
                        assert(self@.freecells =~= q.freecells.update(cell as int, Some(card)));
                    }
                }
                Ok(1)
            },
            Loc::Foundation => {
                let card = self.peek_single(from)?;
                let si = card.suit.index();
                let pile = self.foundations[si];
                if card.rank as u16 != pile as u16 + 1 {
                    return Err(MoveError::NotOneHigherSameSuit);
                }
                self.foundations[si] = card.rank;
                match self.take_single(from) {
                    Ok(_) => {},
                    Err(e) => {
                        return Err(e);
                    },
                }
                proof {
                    let q = remove(old(self)@, from);
                    assert(self@.cascades =~= q.cascades);
                    assert(self@.freecells =~= q.freecells);
                    assert(self@.foundations =~= q.foundations.update(suit_index(card.suit), card.rank));
                }
                Ok(1)
            },
            Loc::Cascade(dst) => {
                if dst >= 8 {
                    return Err(MoveError::InvalidLocation);
                }
                match from {
                    Loc::Free(_) => {
                        let card = self.peek_single(from)?;
                        self.check_cascade_target(dst, &card)?;
                        match self.take_single(from) {
                            Ok(_) => {},
                            Err(e) => {
                                return Err(e);
                            },
                        }
                        self.cascades[dst].push(card);
                        proof {
                            let q = remove(old(self)@, from);
                            assert(self@.cascades =~= q.cascades.update(
                                dst as int,
                                old(self)@.cascades[dst as int].push(card),
                            ));
                            assert(self@.freecells =~= q.freecells);
                        }
                        Ok(1)
                    },
                    Loc::Cascade(src) => self.move_run(src, dst),
                    Loc::Foundation => Err(MoveError::InvalidLocation),
                }
            },
        }
    }

    /// Move the longest legal run from cascade `src` onto cascade `dst`.
    fn move_run(&mut self, src: usize, dst: usize) -> (r: Result<usize, MoveError>)
        requires
            dst < 8,
        ensures
            match move_run(old(self)@, src, dst) {
                Ok((p, n)) => r == Ok::<usize, MoveError>(n as usize) && final(self)@ == p,
                Err(e) => r == Err::<usize, MoveError>(e) && final(self)@ == old(self)@,
            },
    {
        if src >= 8 || src == dst {
            return Err(MoveError::InvalidLocation);
        }
        if self.cascades[src].len() == 0 {
            return Err(MoveError::EmptySource);
        }
        let ghost p = self@;
        let ghost source_s = p.cascades[src as int];
        let run = tail_run_len(&self.cascades[src]);
        let dest_len = self.cascades[dst].len();
        let count: usize;
        if dest_len > 0 {
            let top = self.cascades[dst][dest_len - 1];
            let want = first_fitting(&self.cascades[src], &top, run);
            match want {
                Some(n) => {
                    count = n;
                },
                None => {
                    return Err(MoveError::NoMatchingRun);
                },
            }
        } else {
            let cap = self.capacity(true);
            count = if run < cap { run } else { cap };
        }
        if count > self.capacity(dest_len == 0) {
            return Err(MoveError::NotEnoughCapacity);
        }
        proof {
            lemma_run_len_bounds(source_s);
            lemma_first_fit_bounds(source_s, p.cascades[dst as int].last(), 1, run as nat);
        }
        let split = self.cascades[src].len() - count;
        let mut tail = self.cascades[src].split_off(split);
        self.cascades[dst].append(&mut tail);
        proof {
            assert(self@.cascades =~= p.cascades.update(src as int, source_s.take(split as int)).update(
                dst as int,
                p.cascades[dst as int] + source_s.skip(split as int),
            ));
        }
        Ok(count)
    }

    /// Supermove capacity: (1 + empty free cells) * 2^(empty cascades).
    /// When the destination is an empty cascade it does not count itself.
    fn capacity(&self, dest_is_empty_cascade: bool) -> (r: usize)
        ensures
            r == capacity(self@, dest_is_empty_cascade),
    {
        let mut free: usize = 0;
        let mut i: usize = 0;
        while i < 4
            invariant
                i <= 4,
                free == count_none(self@.freecells.take(i as int)),
                free <= i,
            decreases 4 - i,
        {
            proof {
                assert(self@.freecells.take(i + 1).drop_last() =~= self@.freecells.take(i as int));
            }
            if self.freecells[i].is_none() {
                free = free + 1;
            }
            i = i + 1;
        }
        proof {
            assert(self@.freecells.take(4) =~= self@.freecells);
        }
        let mut empties: usize = 0;
        let mut j: usize = 0;
        while j < 8
            invariant
                j <= 8,
                empties == count_empty(self@.cascades.take(j as int)),
                empties <= j,
            decreases 8 - j,
        {
            proof {
                assert(self@.cascades.take(j + 1).drop_last() =~= self@.cascades.take(j as int));
            }
            if self.cascades[j].len() == 0 {
                empties = empties + 1;
            }
            j = j + 1;
        }
        proof {
            assert(self@.cascades.take(8) =~= self@.cascades);
        }
        if dest_is_empty_cascade && empties > 0 {
            empties = empties - 1;
        }
        let mut cap: usize = free + 1;
        let mut k: usize = 0;
        proof {
            assert(pow2(0) == 1);
            assert((free + 1) * pow2(0) == free + 1);
        }
        while k < empties
            invariant
                k <= empties <= 8,
                free <= 4,
                cap == (free + 1) * pow2(k as nat),
                cap <= 5 * 256,
            decreases empties - k,
        {
            proof {
                lemma_pow2_bound(k as nat);
                assert(pow2((k + 1) as nat) == 2 * pow2(k as nat));
                assert((free + 1) * pow2((k + 1) as nat) == 2 * ((free + 1) * pow2(k as nat))) by (nonlinear_arith);
                lemma_pow2_bound((k + 1) as nat);
                assert((free + 1) * pow2((k + 1) as nat) <= 5 * 256) by (nonlinear_arith)
                    requires free + 1 <= 5, pow2((k + 1) as nat) <= 256;
            }
            cap = cap * 2;
            k = k + 1;
        }
        cap
    }

    fn check_cascade_target(&self, dst: usize, card: &Card) -> (r: Result<(), MoveError>)
        requires
            dst < 8,
        ensures
            r is Err <==> (self@.cascades[dst as int].len() > 0 && !stacks_on(
                *card,
                self@.cascades[dst as int].last(),
            )),
            r is Err ==> r == Err::<(), MoveError>(MoveError::NoMatchingRun),
    {
        let n = self.cascades[dst].len();
        if n > 0 && !card.stacks_on(&self.cascades[dst][n - 1]) {
            Err(MoveError::NoMatchingRun)
        } else {
            Ok(())
        }
    }

    fn peek_single(&self, from: Loc) -> (r: Result<Card, MoveError>)
        ensures
            r == peek(self@, from),
    {
        match from {
            Loc::Cascade(i) => if i < 8 {
                let n = self.cascades[i].len();
                if n == 0 {
                    Err(MoveError::EmptySource)
                } else {
                    Ok(self.cascades[i][n - 1])
                }
            } else {
                Err(MoveError::InvalidLocation)
            },
            Loc::Free(i) => if i < 4 {
                match self.freecells[i] {
                    Some(c) => Ok(c),
                    None => Err(MoveError::EmptySource),
                }
            } else {
                Err(MoveError::InvalidLocation)
            },
            Loc::Foundation => Err(MoveError::InvalidLocation),
        }
    }

    fn take_single(&mut self, from: Loc) -> (r: Result<Card, MoveError>)
        ensures
            r == peek(old(self)@, from),
            r is Ok ==> final(self)@ == remove(old(self)@, from),
            r is Err ==> final(self)@ == old(self)@,
    {
        match from {
            Loc::Cascade(i) => if i < 8 {
                match self.cascades[i].pop() {
                    Some(c) => {
                        proof {
                            assert(self@.cascades =~= remove(old(self)@, from).cascades);
                        }
                        Ok(c)
                    },
                    None => {
                        proof {
                            assert(self@.cascades =~= old(self)@.cascades);
                        }
                        Err(MoveError::EmptySource)
                    },
                }
            } else {
                Err(MoveError::InvalidLocation)
            },
            Loc::Free(i) => if i < 4 {
                match self.freecells[i].take() {
                    Some(c) => {
                        proof {
                            assert(self@.freecells =~= remove(old(self)@, from).freecells);
                        }
                        Ok(c)
                    },
                    None => {
                        proof {
                            assert(self@.freecells =~= old(self)@.freecells);
                        }
                        Err(MoveError::EmptySource)
                    },
                }
            } else {
                Err(MoveError::InvalidLocation)
            },
            Loc::Foundation => Err(MoveError::InvalidLocation),
        }
    }
}

proof fn lemma_pow2_bound(k: nat)
    requires
        k <= 8,
    ensures
        1 <= pow2(k) <= 256,
        pow2(k) <= pow2(8),
    decreases k,
{
    if k > 0 {
        lemma_pow2_bound((k - 1) as nat);
    }
    reveal_with_fuel(pow2, 9);
    assert(pow2(8) == 256);
}

/// The longest ordered (descending, alternating-color) run at the tail of
/// a cascade: 0 for an empty cascade, 1 for a single card.
fn tail_run_len(cascade: &Vec<Card>) -> (r: usize)
    ensures
        r == run_len(cascade@),
        r <= cascade@.len(),
{
    let n = cascade.len();
    if n == 0 {
        return 0;
    }
    let mut run_len: usize = 1;
    while run_len < n
        invariant
            n == cascade@.len(),
            1 <= run_len <= n,
            forall|k: int| n - run_len <= k < n - 1 ==> stacks_on(#[trigger] cascade@[k + 1], cascade@[k]),
        ensures
            1 <= run_len <= n,
            forall|k: int| n - run_len <= k < n - 1 ==> stacks_on(#[trigger] cascade@[k + 1], cascade@[k]),
            run_len == n || !stacks_on(cascade@[n - run_len], cascade@[n - run_len - 1]),
        decreases n - run_len,
    {
        let upper = &cascade[n - run_len - 1];
        let lower = &cascade[n - run_len];
        if lower.stacks_on(upper) {
            run_len = run_len + 1;
        } else {
            break;
        }
    }
    proof {
        lemma_run_len_is(cascade@, run_len as nat);
    }
    run_len
}

/// The smallest `n` in `1..=run` whose card (counting from the end of
/// `source`) stacks on `top`.
fn first_fitting(source: &Vec<Card>, top: &Card, run: usize) -> (r: Option<usize>)
    requires
        run <= source@.len(),
    ensures
        r == (match first_fit(source@, *top, 1, run as nat) {
            Some(n) => Some(n as usize),
            None => None::<usize>,
        }),
{
    let mut n: usize = 0;
    while n < run
        invariant
            n <= run,
            run <= source@.len(),
            first_fit(source@, *top, 1, run as nat) == first_fit(source@, *top, (n + 1) as nat, run as nat),
        decreases run - n,
    {
        let card = source[source.len() - (n + 1)];
        if card.stacks_on(top) {
            return Some(n + 1);
        }
        n = n + 1;
    }
    None
}

// ------------------------------------------------------------------ no card is lost

/// The cards on a sequence of cascades.
pub open spec fn cascades_cards(cs: Seq<Seq<Card>>) -> Multiset<Card>
    decreases cs.len(),
{
    if cs.len() == 0 {
        Multiset::empty()
    } else {
        cascades_cards(cs.drop_last()).add(cs.last().to_multiset())
    }
}

/// The card a free cell holds, as a multiset of zero or one card.
pub open spec fn cell_cards(c: Option<Card>) -> Multiset<Card> {
    match c {
        Some(card) => Multiset::empty().insert(card),
        None => Multiset::empty(),
    }
}

/// The cards in a sequence of free cells.
pub open spec fn free_cards(f: Seq<Option<Card>>) -> Multiset<Card>
    decreases f.len(),
{
    if f.len() == 0 {
        Multiset::empty()
    } else {
        free_cards(f.drop_last()).add(cell_cards(f.last()))
    }
}

/// The cards of a foundation pile of `suit` built up to rank `n`.
pub open spec fn pile_cards(suit: Suit, n: nat) -> Multiset<Card>
    decreases n,
{
    if n == 0 {
        Multiset::empty()
    } else {
        pile_cards(suit, (n - 1) as nat).insert(Card { rank: n as u8, suit })
    }
}

/// The cards on the four foundation piles.
pub open spec fn foundation_cards(f: Seq<u8>) -> Multiset<Card> {
    pile_cards(Suit::Clubs, f[0] as nat).add(pile_cards(Suit::Diamonds, f[1] as nat)).add(
        pile_cards(Suit::Hearts, f[2] as nat),
    ).add(pile_cards(Suit::Spades, f[3] as nat))
}

/// Every card of a position: on the cascades, in the free cells, and on
/// the foundations.
pub open spec fn position_cards(p: Position) -> Multiset<Card> {
    cascades_cards(p.cascades).add(free_cards(p.freecells)).add(foundation_cards(p.foundations))
}

proof fn lemma_cascades_cards_update(cs: Seq<Seq<Card>>, i: int, x: Seq<Card>)
    requires
        0 <= i < cs.len(),
    ensures
        cascades_cards(cs.update(i, x)).add(cs[i].to_multiset()) == cascades_cards(cs).add(x.to_multiset()),
    decreases cs.len(),
{
    broadcast use vstd::multiset::group_multiset_axioms;

    let u = cs.update(i, x);
    let ud = u.drop_last();
    let cd = cs.drop_last();
    let lhs = cascades_cards(u).add(cs[i].to_multiset());
    let rhs = cascades_cards(cs).add(x.to_multiset());
    assert(cascades_cards(u) == cascades_cards(ud).add(u.last().to_multiset()));
    assert(cascades_cards(cs) == cascades_cards(cd).add(cs.last().to_multiset()));
    if i == cs.len() - 1 {
        assert(ud =~= cd);
        assert(u.last() == x);
        assert(cs.last() == cs[i]);
        assert forall|a: Card| lhs.count(a) == rhs.count(a) by {}
    } else {
        lemma_cascades_cards_update(cd, i, x);
        assert(ud =~= cd.update(i, x));
        assert(cd[i] == cs[i]);
        assert(u.last() == cs.last());
        let ih_l = cascades_cards(cd.update(i, x)).add(cs[i].to_multiset());
        let ih_r = cascades_cards(cd).add(x.to_multiset());
        assert(ih_l == ih_r);
        assert forall|a: Card| lhs.count(a) == rhs.count(a) by {
            assert(ih_l.count(a) == ih_r.count(a));
        }
    }
    assert(lhs =~= rhs);
}

proof fn lemma_free_cards_update(f: Seq<Option<Card>>, i: int, y: Option<Card>)
    requires
        0 <= i < f.len(),
    ensures
        free_cards(f.update(i, y)).add(cell_cards(f[i])) == free_cards(f).add(cell_cards(y)),
    decreases f.len(),
{
    broadcast use vstd::multiset::group_multiset_axioms;

    let u = f.update(i, y);
    let ud = u.drop_last();
    let fd = f.drop_last();
    let lhs = free_cards(u).add(cell_cards(f[i]));
    let rhs = free_cards(f).add(cell_cards(y));
    assert(free_cards(u) == free_cards(ud).add(cell_cards(u.last())));
    assert(free_cards(f) == free_cards(fd).add(cell_cards(f.last())));
    if i == f.len() - 1 {
        assert(ud =~= fd);
        assert(u.last() == y);
        assert(f.last() == f[i]);
        assert forall|a: Card| lhs.count(a) == rhs.count(a) by {}
    } else {
        lemma_free_cards_update(fd, i, y);
        assert(ud =~= fd.update(i, y));
        assert(fd[i] == f[i]);
        assert(u.last() == f.last());
        let ih_l = free_cards(fd.update(i, y)).add(cell_cards(f[i]));
        let ih_r = free_cards(fd).add(cell_cards(y));
        assert(ih_l == ih_r);
        assert forall|a: Card| lhs.count(a) == rhs.count(a) by {
            assert(ih_l.count(a) == ih_r.count(a));
        }
    }
    assert(lhs =~= rhs);
}

proof fn lemma_foundation_cards_raise(f: Seq<u8>, si: int, c: Card)
    requires
        f.len() == 4,
        0 <= si < 4,
        si == suit_index(c.suit),
        c.rank == f[si] + 1,
    ensures
        foundation_cards(f.update(si, c.rank)) == foundation_cards(f).insert(c),
{
    broadcast use vstd::multiset::group_multiset_axioms;

    assert(suit_of_index(si) == c.suit);
    let g = f.update(si, c.rank);
    assert(pile_cards(c.suit, c.rank as nat) == pile_cards(c.suit, f[si] as nat).insert(c));
    assert(foundation_cards(g) =~= foundation_cards(f).insert(c));
}

/// A cascade's cards are those below its top card plus the top card.
proof fn lemma_cascade_top(s: Seq<Card>)
    requires
        s.len() > 0,
    ensures
        s.to_multiset() == s.drop_last().to_multiset().insert(s.last()),
{
    broadcast use vstd::seq_lib::to_multiset_build;

    assert(s.drop_last().push(s.last()) =~= s);
}

/// Picking up the card at `from` takes exactly that card off the board.
proof fn lemma_remove_cards(p: Position, from: Loc)
    requires
        shaped(p),
        peek(p, from) is Ok,
    ensures
        shaped(remove(p, from)),
        cascades_cards(remove(p, from).cascades).add(free_cards(remove(p, from).freecells)).insert(
            peek(p, from)->Ok_0,
        ) == cascades_cards(p.cascades).add(free_cards(p.freecells)),
        remove(p, from).foundations == p.foundations,
{
    broadcast use vstd::multiset::group_multiset_axioms;

    let c = peek(p, from)->Ok_0;
    let q = remove(p, from);
    let lhs = cascades_cards(q.cascades).add(free_cards(q.freecells)).insert(c);
    let rhs = cascades_cards(p.cascades).add(free_cards(p.freecells));
    match from {
        Loc::Cascade(i) => {
            let col = p.cascades[i as int];
            lemma_cascade_top(col);
            lemma_cascades_cards_update(p.cascades, i as int, col.drop_last());
            assert(q.freecells == p.freecells);
            let e1 = cascades_cards(q.cascades).add(col.to_multiset());
            let e2 = cascades_cards(p.cascades).add(col.drop_last().to_multiset());
            assert(e1 == e2);
            assert forall|a: Card| lhs.count(a) == rhs.count(a) by {
                assert(e1.count(a) == e2.count(a));
            }
        },
        Loc::Free(i) => {
            lemma_free_cards_update(p.freecells, i as int, None);
            assert(q.cascades == p.cascades);
            let e1 = free_cards(q.freecells).add(cell_cards(p.freecells[i as int]));
            let e2 = free_cards(p.freecells).add(cell_cards(None));
            assert(e1 == e2);
            assert forall|a: Card| lhs.count(a) == rhs.count(a) by {
                assert(e1.count(a) == e2.count(a));
            }
        },
        Loc::Foundation => {},
    }
    assert(lhs =~= rhs);
}

/// No move loses or creates a card: the cards on the cascades, in the free
/// cells and on the foundations are the same before and after any legal
/// move.
pub proof fn lemma_do_move_keeps_cards(p: Position, from: Loc, to: Loc)
    requires
        shaped(p),
        spec_do_move(p, from, to) is Ok,
    ensures
        shaped(spec_do_move(p, from, to)->Ok_0.0),
        position_cards(spec_do_move(p, from, to)->Ok_0.0) == position_cards(p),
{
    broadcast use vstd::multiset::group_multiset_axioms;

    let q = spec_do_move(p, from, to)->Ok_0.0;
    match to {
        Loc::Free(cell) => {
            let c = peek(p, from)->Ok_0;
            let r = remove(p, from);
            lemma_remove_cards(p, from);
            assert(r.freecells[cell as int] is None) by {
                if let Loc::Free(i) = from {
                    assert(i != cell);
                }
            }
            lemma_free_cards_update(r.freecells, cell as int, Some(c));
            let before = cascades_cards(r.cascades).add(free_cards(r.freecells)).insert(c);
            let e1 = free_cards(q.freecells).add(cell_cards(r.freecells[cell as int]));
            let e2 = free_cards(r.freecells).add(cell_cards(Some(c)));
            assert(e1 == e2);
            assert forall|a: Card| position_cards(q).count(a) == position_cards(p).count(a) by {
                assert(e1.count(a) == e2.count(a));
                assert(before.count(a) == cascades_cards(p.cascades).add(free_cards(p.freecells)).count(a));
            }
            assert(position_cards(q) =~= position_cards(p));
        },
        Loc::Foundation => {
            let c = peek(p, from)->Ok_0;
            let r = remove(p, from);
            lemma_remove_cards(p, from);
            lemma_foundation_cards_raise(p.foundations, suit_index(c.suit), c);
            let before = cascades_cards(r.cascades).add(free_cards(r.freecells)).insert(c);
            assert forall|a: Card| position_cards(q).count(a) == position_cards(p).count(a) by {
                assert(before.count(a) == cascades_cards(p.cascades).add(free_cards(p.freecells)).count(a));
            }
            assert(position_cards(q) =~= position_cards(p));
        },
        Loc::Cascade(dst) => {
            match from {
                Loc::Free(_) => {
                    let c = peek(p, from)->Ok_0;
                    let r = remove(p, from);
                    lemma_remove_cards(p, from);
                    let dest = p.cascades[dst as int];
                    assert(r.cascades[dst as int] == dest);
                    lemma_cascade_top(dest.push(c));
                    assert(dest.push(c).drop_last() =~= dest);
                    lemma_cascades_cards_update(r.cascades, dst as int, dest.push(c));
                    let before = cascades_cards(r.cascades).add(free_cards(r.freecells)).insert(c);
                    let e1 = cascades_cards(q.cascades).add(dest.to_multiset());
                    let e2 = cascades_cards(r.cascades).add(dest.push(c).to_multiset());
                    assert(e1 == e2);
                    assert forall|a: Card| position_cards(q).count(a) == position_cards(p).count(a) by {
                        assert(e1.count(a) == e2.count(a));
                        assert(before.count(a) == cascades_cards(p.cascades).add(free_cards(p.freecells)).count(a));
                    }
                    assert(position_cards(q) =~= position_cards(p));
                },
                Loc::Cascade(src) => {
                    lemma_move_run_keeps_cards(p, src, dst);
                },
                Loc::Foundation => {},
            }
        },
    }
}

proof fn lemma_move_run_keeps_cards(p: Position, src: usize, dst: usize)
    requires
        shaped(p),
        dst < 8,
        move_run(p, src, dst) is Ok,
    ensures
        shaped(move_run(p, src, dst)->Ok_0.0),
        position_cards(move_run(p, src, dst)->Ok_0.0) == position_cards(p),
{
    broadcast use vstd::multiset::group_multiset_axioms, vstd::seq_lib::lemma_multiset_commutative;

    let (q, n) = move_run(p, src, dst)->Ok_0;
    let source = p.cascades[src as int];
    let dest = p.cascades[dst as int];
    let run = run_len(source);
    lemma_run_len_bounds(source);
    if dest.len() > 0 {
        lemma_first_fit_bounds(source, dest.last(), 1, run);
    }
    let split = source.len() - n;
    let low = source.take(split);
    let high = source.skip(split);
    assert(source =~= low + high);
    let mid = p.cascades.update(src as int, low);
    lemma_cascades_cards_update(p.cascades, src as int, low);
    assert(mid[dst as int] == dest);
    lemma_cascades_cards_update(mid, dst as int, dest + high);
    assert(q.cascades == mid.update(dst as int, dest + high));
    let e1 = cascades_cards(mid).add(source.to_multiset());
    let e2 = cascades_cards(p.cascades).add(low.to_multiset());
    let e3 = cascades_cards(q.cascades).add(dest.to_multiset());
    let e4 = cascades_cards(mid).add((dest + high).to_multiset());
    assert(e1 == e2);
    assert(e3 == e4);
    assert forall|a: Card| cascades_cards(q.cascades).count(a) == cascades_cards(p.cascades).count(a) by {
        assert(e1.count(a) == e2.count(a));
        assert(e3.count(a) == e4.count(a));
        assert(source.to_multiset().count(a) == low.to_multiset().count(a) + high.to_multiset().count(a));
        assert((dest + high).to_multiset().count(a) == dest.to_multiset().count(a) + high.to_multiset().count(a));
    }
    assert(cascades_cards(q.cascades) =~= cascades_cards(p.cascades));
    assert(position_cards(q) =~= position_cards(p));
}

} // verus!
