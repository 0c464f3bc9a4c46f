//! Safe autoplay never throws a win away: sending home a card that no other
//! card can still need keeps the game winnable. The winning line from before
//! is replayed without that card's own moves; this works for lines that
//! never split an ordered run onto an empty cascade, where the capacity
//! freed by the card would make the same move take more cards.
use vstd::prelude::*;
use vstd::multiset::Multiset;
use crate::card::{stacks_on, suit_index, Card, Loc, Suit};
use crate::solver::{
    apply_moves, lemma_apply_moves_append, lemma_autoplay_sends_only_unneeded_cards, lemma_safe_pass,
    lemma_total_bound, safe_autoplay, safe_pass, wins,
};
use crate::state::{
    capacity, cascades_cards, count_empty, count_none, first_fit, foundation_cards, free_cards,
    lemma_do_move_keeps_cards, peek, pile_cards, position_cards, pow2, remove, run_len, shaped,
    spec_do_move, MoveError, Position,
};

verus! {

/// Every card of the position occurs once at most, and each is a real card
/// (ace to king).
pub open spec fn sound_cards(p: Position) -> bool {
    forall|e: Card| #[trigger]
        position_cards(p).count(e) <= 1 && (position_cards(p).count(e) > 0 ==> 1 <= e.rank <= 13)
}

proof fn lemma_cascade_top_counted(cs: Seq<Seq<Card>>, j: int)
    requires
        0 <= j < cs.len(),
        cs[j].len() > 0,
    ensures
        cascades_cards(cs).count(cs[j].last()) >= 1,
    decreases cs.len(),
{
    broadcast use vstd::multiset::group_multiset_axioms;
    broadcast use vstd::seq_lib::to_multiset_contains;

    if j == cs.len() - 1 {
        assert(cs.last().contains(cs[j].last()));
    } else {
        lemma_cascade_top_counted(cs.drop_last(), j);
        assert(cs.drop_last()[j] == cs[j]);
    }
}

proof fn lemma_two_cascade_tops_counted(cs: Seq<Seq<Card>>, j1: int, j2: int)
    requires
        0 <= j1 < cs.len(),
        0 <= j2 < cs.len(),
        j1 != j2,
        cs[j1].len() > 0,
        cs[j2].len() > 0,
        cs[j1].last() == cs[j2].last(),
    ensures
        cascades_cards(cs).count(cs[j1].last()) >= 2,
    decreases cs.len(),
{
    broadcast use vstd::multiset::group_multiset_axioms;
    broadcast use vstd::seq_lib::to_multiset_contains;

    let d = cs.drop_last();
    if j1 == cs.len() - 1 {
        lemma_cascade_top_counted(d, j2);
        assert(d[j2] == cs[j2]);
        assert(cs.last().contains(cs[j1].last()));
    } else if j2 == cs.len() - 1 {
        lemma_cascade_top_counted(d, j1);
        assert(d[j1] == cs[j1]);
        assert(cs.last().contains(cs[j2].last()));
    } else {
        lemma_two_cascade_tops_counted(d, j1, j2);
        assert(d[j1] == cs[j1] && d[j2] == cs[j2]);
    }
}

proof fn lemma_cell_counted(f: Seq<Option<Card>>, i: int, e: Card)
    requires
        0 <= i < f.len(),
        f[i] == Some(e),
    ensures
        free_cards(f).count(e) >= 1,
    decreases f.len(),
{
    broadcast use vstd::multiset::group_multiset_axioms;

    if i < f.len() - 1 {
        lemma_cell_counted(f.drop_last(), i, e);
        assert(f.drop_last()[i] == f[i]);
    }
}

proof fn lemma_two_cells_counted(f: Seq<Option<Card>>, i1: int, i2: int, e: Card)
    requires
        0 <= i1 < f.len(),
        0 <= i2 < f.len(),
        i1 != i2,
        f[i1] == Some(e),
        f[i2] == Some(e),
    ensures
        free_cards(f).count(e) >= 2,
    decreases f.len(),
{
    broadcast use vstd::multiset::group_multiset_axioms;

    let d = f.drop_last();
    if i1 == f.len() - 1 {
        lemma_cell_counted(d, i2, e);
        assert(d[i2] == f[i2]);
    } else if i2 == f.len() - 1 {
        lemma_cell_counted(d, i1, e);
        assert(d[i1] == f[i1]);
    } else {
        lemma_two_cells_counted(d, i1, i2, e);
        assert(d[i1] == f[i1] && d[i2] == f[i2]);
    }
}

proof fn lemma_pile_counted(suit: Suit, n: nat, r: nat)
    requires
        1 <= r <= n <= 255,
    ensures
        pile_cards(suit, n).count(Card { rank: r as u8, suit }) >= 1,
    decreases n,
{
    broadcast use vstd::multiset::group_multiset_axioms;

    if r < n {
        lemma_pile_counted(suit, (n - 1) as nat, r);
    }
}

/// The cards on the cascades and in the free cells.
spec fn board_cards(x: Position) -> Multiset<Card> {
    cascades_cards(x.cascades).add(free_cards(x.freecells))
}

proof fn lemma_board_card_counted(x: Position, l: Loc)
    requires
        shaped(x),
        peek(x, l) is Ok,
    ensures
        board_cards(x).count(peek(x, l)->Ok_0) >= 1,
{
    broadcast use vstd::multiset::group_multiset_axioms;

    match l {
        Loc::Cascade(j) => lemma_cascade_top_counted(x.cascades, j as int),
        Loc::Free(i) => lemma_cell_counted(x.freecells, i as int, peek(x, l)->Ok_0),
        Loc::Foundation => {},
    }
}

proof fn lemma_two_board_cards(x: Position, l1: Loc, l2: Loc)
    requires
        shaped(x),
        peek(x, l1) is Ok,
        peek(x, l2) is Ok,
        peek(x, l1) == peek(x, l2),
        l1 != l2,
    ensures
        board_cards(x).count(peek(x, l1)->Ok_0) >= 2,
{
    broadcast use vstd::multiset::group_multiset_axioms;

    let e = peek(x, l1)->Ok_0;
    match (l1, l2) {
        (Loc::Cascade(j1), Loc::Cascade(j2)) => lemma_two_cascade_tops_counted(x.cascades, j1 as int, j2 as int),
        (Loc::Free(i1), Loc::Free(i2)) => lemma_two_cells_counted(x.freecells, i1 as int, i2 as int, e),
        (Loc::Cascade(j), Loc::Free(i)) => {
            lemma_cascade_top_counted(x.cascades, j as int);
            lemma_cell_counted(x.freecells, i as int, e);
        },
        (Loc::Free(i), Loc::Cascade(j)) => {
            lemma_cascade_top_counted(x.cascades, j as int);
            lemma_cell_counted(x.freecells, i as int, e);
        },
        _ => {},
    }
}

proof fn lemma_home_card_counted(x: Position, e: Card)
    requires
        shaped(x),
        1 <= e.rank <= x.foundations[suit_index(e.suit)],
    ensures
        foundation_cards(x.foundations).count(e) >= 1,
{
    broadcast use vstd::multiset::group_multiset_axioms;

    let n = x.foundations[suit_index(e.suit)] as nat;
    lemma_pile_counted(e.suit, n, e.rank as nat);
    assert(Card { rank: e.rank as u8, suit: e.suit } == e);
}

/// In a position with sound cards, a card on the board is above its
/// foundation, a real card, and on the board once.
proof fn lemma_board_card_facts(x: Position, l: Loc)
    requires
        shaped(x),
        sound_cards(x),
        peek(x, l) is Ok,
    ensures
        ({
            let e = peek(x, l)->Ok_0;
            &&& x.foundations[suit_index(e.suit)] < e.rank <= 13
            &&& forall|l2: Loc| #[trigger] peek(x, l2) == peek(x, l) ==> l2 == l
        }),
{
    broadcast use vstd::multiset::group_multiset_axioms;

    let e = peek(x, l)->Ok_0;
    lemma_board_card_counted(x, l);
    assert(position_cards(x).count(e) >= 1);
    if x.foundations[suit_index(e.suit)] >= e.rank {
        lemma_home_card_counted(x, e);
        assert(position_cards(x).count(e) >= 2);
    }
    assert forall|l2: Loc| #[trigger] peek(x, l2) == peek(x, l) implies l2 == l by {
        if l2 != l {
            lemma_two_board_cards(x, l, l2);
            assert(position_cards(x).count(e) >= 2);
        }
    }
}

proof fn lemma_cascade_card_counted(cs: Seq<Seq<Card>>, j: int, k: int)
    requires
        0 <= j < cs.len(),
        0 <= k < cs[j].len(),
    ensures
        cascades_cards(cs).count(cs[j][k]) >= 1,
    decreases cs.len(),
{
    broadcast use vstd::multiset::group_multiset_axioms;
    broadcast use vstd::seq_lib::to_multiset_contains;

    if j == cs.len() - 1 {
        assert(cs.last().contains(cs[j][k]));
    } else {
        lemma_cascade_card_counted(cs.drop_last(), j, k);
        assert(cs.drop_last()[j] == cs[j]);
    }
}

/// In a position with sound cards, every card on a cascade is above its
/// foundation.
proof fn lemma_cascade_card_above_home(x: Position, j: int, k: int)
    requires
        shaped(x),
        sound_cards(x),
        0 <= j < 8,
        0 <= k < x.cascades[j].len(),
    ensures
        x.foundations[suit_index(x.cascades[j][k].suit)] < x.cascades[j][k].rank,
{
    broadcast use vstd::multiset::group_multiset_axioms;

    let e = x.cascades[j][k];
    lemma_cascade_card_counted(x.cascades, j, k);
    assert(position_cards(x).count(e) >= 1);
    if x.foundations[suit_index(e.suit)] >= e.rank {
        lemma_home_card_counted(x, e);
        assert(position_cards(x).count(e) >= 2);
    }
}

proof fn lemma_count_none_grows(f: Seq<Option<Card>>, i: int)
    requires
        0 <= i < f.len(),
    ensures
        count_none(f.update(i, None)) >= count_none(f),
    decreases f.len(),
{
    let u = f.update(i, None);
    if i < f.len() - 1 {
        lemma_count_none_grows(f.drop_last(), i);
        assert(u.drop_last() =~= f.drop_last().update(i, None));
    } else {
        assert(u.drop_last() =~= f.drop_last());
    }
}

proof fn lemma_count_empty_grows(cs: Seq<Seq<Card>>, j: int, s: Seq<Card>)
    requires
        0 <= j < cs.len(),
        cs[j].len() == 0 ==> s.len() == 0,
    ensures
        count_empty(cs.update(j, s)) >= count_empty(cs),
    decreases cs.len(),
{
    let u = cs.update(j, s);
    if j < cs.len() - 1 {
        lemma_count_empty_grows(cs.drop_last(), j, s);
        assert(u.drop_last() =~= cs.drop_last().update(j, s));
    } else {
        assert(u.drop_last() =~= cs.drop_last());
    }
}

proof fn lemma_pow2_grows(a: nat, b: nat)
    requires
        a <= b,
    ensures
        pow2(a) <= pow2(b),
    decreases b,
{
    if a < b {
        lemma_pow2_grows(a, (b - 1) as nat);
    }
}

proof fn lemma_capacity_grows(x: Position, y: Position)
    requires
        count_none(y.freecells) >= count_none(x.freecells),
        count_empty(y.cascades) >= count_empty(x.cascades),
    ensures
        capacity(y, false) >= capacity(x, false),
{
    let a1 = count_none(x.freecells);
    let a2 = count_none(y.freecells);
    let p1 = pow2(count_empty(x.cascades));
    let p2 = pow2(count_empty(y.cascades));
    lemma_pow2_grows(count_empty(x.cascades), count_empty(y.cascades));
    assert((a2 + 1) * p2 >= (a1 + 1) * p1) by (nonlinear_arith)
        requires
            a2 >= a1,
            p2 >= p1,
    ;
}

/// Looking one card further down a cascade is looking at the cascade with
/// its top card taken off.
proof fn lemma_first_fit_shift(s: Seq<Card>, t: Card, from: nat, run: nat)
    requires
        1 <= from,
        1 <= run <= s.len(),
    ensures
        first_fit(s, t, from + 1, run) == (match first_fit(s.drop_last(), t, from, (run - 1) as nat) {
            Some(n) => Some(n + 1),
            None => None::<nat>,
        }),
    decreases run + 1 - from,
{
    if from + 1 <= run {
        assert(s[s.len() - (from + 1)] == s.drop_last()[s.drop_last().len() - from]);
        lemma_first_fit_shift(s, t, from + 1, run);
    }
}

proof fn lemma_run_len_drop(s: Seq<Card>)
    requires
        run_len(s) >= 2,
    ensures
        run_len(s.drop_last()) == run_len(s) - 1,
        stacks_on(s.last(), s[s.len() - 2]),
{
}

/// `y` is `x` with the card at `at` already sent home, and every card that
/// could be stacked on that card is home in `x`.
pub open spec fn sent_ahead(x: Position, y: Position, at: Loc) -> bool {
    &&& spec_do_move(x, at, Loc::Foundation) == Ok::<(Position, nat), MoveError>((y, 1nat))
    &&& forall|d: Card| #[trigger]
        stacks_on(d, peek(x, at)->Ok_0) ==> x.foundations[suit_index(d.suit)] >= d.rank
}

/// A move from a cascade onto an empty cascade that cannot take the whole
/// ordered run along (capacity allows fewer cards), so it splits the run.
pub open spec fn splits_run_into_empty(x: Position, m: (Loc, Loc)) -> bool {
    &&& m.0 is Cascade
    &&& m.0->Cascade_0 < 8
    &&& m.1 is Cascade
    &&& m.1->Cascade_0 < 8
    &&& x.cascades[m.1->Cascade_0 as int].len() == 0
    &&& run_len(x.cascades[m.0->Cascade_0 as int]) > capacity(x, true)
}

proof fn lemma_apply_one(y: Position, m: (Loc, Loc))
    ensures
        apply_moves(y, seq![m]) == match spec_do_move(y, m.0, m.1) {
            Ok((z, _)) => Some(z),
            Err(_) => None::<Position>,
        },
{
    assert(seq![m].drop_last() =~= Seq::<(Loc, Loc)>::empty());
    assert(apply_moves(y, Seq::<(Loc, Loc)>::empty()) == Some(y));
    assert(seq![m].last() == m);
}

proof fn lemma_sent_ahead_intro(x: Position, x2: Position, y2: Position, at2: Loc, c: Card)
    requires
        shaped(x),
        shaped(x2),
        peek(x2, at2) == Ok::<Card, MoveError>(c),
        x2.foundations[suit_index(c.suit)] + 1 == c.rank,
        y2.cascades == remove(x2, at2).cascades,
        y2.freecells == remove(x2, at2).freecells,
        y2.foundations == x2.foundations.update(suit_index(c.suit), c.rank),
        forall|d: Card| #[trigger] stacks_on(d, c) ==> x.foundations[suit_index(d.suit)] >= d.rank,
        forall|k: int| 0 <= k < 4 ==> x2.foundations[k] >= x.foundations[k],
    ensures
        sent_ahead(x2, y2, at2),
{
    let z = Position { foundations: x2.foundations.update(suit_index(c.suit), c.rank), ..remove(x2, at2) };
    assert(z == y2);
    assert forall|d: Card| #[trigger] stacks_on(d, c) implies x2.foundations[suit_index(d.suit)] >= d.rank by {
        assert(0 <= suit_index(d.suit) < 4);
    }
}

/// The card `first_fit` finds lies within the run and stacks on `top`.
proof fn lemma_first_fit_found(source: Seq<Card>, top: Card, from: nat, run: nat)
    requires
        first_fit(source, top, from, run) is Some,
    ensures
        from <= first_fit(source, top, from, run)->Some_0 <= run,
        first_fit(source, top, from, run)->Some_0 >= 1,
        stacks_on(source[source.len() - first_fit(source, top, from, run)->Some_0], top),
    decreases run + 1 - from,
{
    if !stacks_on(source[source.len() - from], top) {
        lemma_first_fit_found(source, top, from + 1, run);
    }
}

/// The card moves to an empty free cell.
proof fn lemma_it_to_cell(x: Position, y: Position, at: Loc, i: usize)
    requires
        shaped(x),
        sent_ahead(x, y, at),
        spec_do_move(x, at, Loc::Free(i)) is Ok,
    ensures
        sent_ahead(spec_do_move(x, at, Loc::Free(i))->Ok_0.0, y, Loc::Free(i)),
        shaped(spec_do_move(x, at, Loc::Free(i))->Ok_0.0),
{
    let c = peek(x, at)->Ok_0;
    let x2 = spec_do_move(x, at, Loc::Free(i))->Ok_0.0;
    let r = remove(x, at);
    assert(r.freecells[i as int] is None);
    assert(x2.freecells.update(i as int, None) =~= r.freecells);
    lemma_sent_ahead_intro(x, x2, y, Loc::Free(i), c);
}

/// The card moves from a free cell onto a cascade.
proof fn lemma_it_from_cell_to_cascade(x: Position, y: Position, j: usize, dst: usize)
    requires
        shaped(x),
        sent_ahead(x, y, Loc::Free(j)),
        spec_do_move(x, Loc::Free(j), Loc::Cascade(dst)) is Ok,
    ensures
        sent_ahead(spec_do_move(x, Loc::Free(j), Loc::Cascade(dst))->Ok_0.0, y, Loc::Cascade(dst)),
        shaped(spec_do_move(x, Loc::Free(j), Loc::Cascade(dst))->Ok_0.0),
{
    let c = peek(x, Loc::Free(j))->Ok_0;
    let x2 = spec_do_move(x, Loc::Free(j), Loc::Cascade(dst))->Ok_0.0;
    let dest = x.cascades[dst as int];
    assert(x2.cascades[dst as int] == dest.push(c));
    assert(dest.push(c).drop_last() =~= dest);
    assert(x2.cascades.update(dst as int, x2.cascades[dst as int].drop_last()) =~= x.cascades);
    lemma_sent_ahead_intro(x, x2, y, Loc::Cascade(dst), c);
}

/// The card moves from the top of its cascade onto another, non-empty
/// cascade: alone, or with cards from below it, in which case the other
/// position moves those cards without it.
proof fn lemma_it_from_cascade(x: Position, y: Position, j: usize, dst: usize) -> (ms: Seq<(Loc, Loc)>)
    requires
        shaped(x),
        sent_ahead(x, y, Loc::Cascade(j)),
        spec_do_move(x, Loc::Cascade(j), Loc::Cascade(dst)) is Ok,
        x.cascades[dst as int].len() > 0,
    ensures
        ms == Seq::<(Loc, Loc)>::empty() || ms == seq![(Loc::Cascade(j), Loc::Cascade(dst))],
        ms.len() > 0 ==> !splits_run_into_empty(y, (Loc::Cascade(j), Loc::Cascade(dst))),
        apply_moves(y, ms) is Some,
        sent_ahead(spec_do_move(x, Loc::Cascade(j), Loc::Cascade(dst))->Ok_0.0, apply_moves(y, ms)->Some_0, Loc::Cascade(dst)),
        shaped(spec_do_move(x, Loc::Cascade(j), Loc::Cascade(dst))->Ok_0.0),
{
    let c = peek(x, Loc::Cascade(j))->Ok_0;
    let m = (Loc::Cascade(j), Loc::Cascade(dst));
    let x2 = spec_do_move(x, Loc::Cascade(j), Loc::Cascade(dst))->Ok_0.0;
    let src = x.cascades[j as int];
    let dest = x.cascades[dst as int];
    let len = src.len();
    let t = dest.last();
    let run = run_len(src);
    crate::state::lemma_run_len_bounds(src);
    let n = first_fit(src, t, 1, run)->Some_0;
    lemma_first_fit_found(src, t, 1, run);
    assert(x2.cascades == x.cascades.update(j as int, src.take(len - n)).update(dst as int, dest + src.skip(len - n)));
    if n == 1 {
        assert(src.take(len - 1) =~= src.drop_last());
        assert(dest + src.skip(len - 1) =~= dest.push(c));
        assert(dest.push(c).drop_last() =~= dest);
        assert(x2.cascades.update(dst as int, x2.cascades[dst as int].drop_last()) =~= y.cascades);
        lemma_apply_one(y, m);
        assert(apply_moves(y, Seq::<(Loc, Loc)>::empty()) == Some(y));
        lemma_sent_ahead_intro(x, x2, y, Loc::Cascade(dst), c);
        Seq::empty()
    } else {
        let s2 = src.drop_last();
        lemma_run_len_drop(src);
        lemma_first_fit_shift(src, t, 1, run);
        assert(first_fit(s2, t, 1, (run - 1) as nat) == Some((n - 1) as nat));
        assert(y.cascades == x.cascades.update(j as int, s2));
        assert(y.cascades[j as int] == s2);
        assert(y.cascades[dst as int] == dest);
        lemma_count_empty_grows(x.cascades, j as int, s2);
        lemma_capacity_grows(x, y);
        lemma_apply_one(y, m);
        let y2 = apply_moves(y, seq![m])->Some_0;
        assert(y2.cascades == y.cascades.update(j as int, s2.take(len - n)).update(dst as int, dest + s2.skip(len - n)));
        assert(s2.take(len - n) =~= src.take(len - n));
        assert((dest + src.skip(len - n)).drop_last() =~= dest + s2.skip(len - n));
        assert((dest + src.skip(len - n)).last() == c);
        assert(x2.cascades.update(dst as int, x2.cascades[dst as int].drop_last()) =~= y2.cascades);
        lemma_sent_ahead_intro(x, x2, y2, Loc::Cascade(dst), c);
        seq![m]
    }
}

/// Another card goes home: its pile is not the pending card's pile.
proof fn lemma_other_home(x: Position, y: Position, at: Loc, from: Loc)
    requires
        shaped(x),
        sound_cards(x),
        sent_ahead(x, y, at),
        from != at,
        spec_do_move(x, from, Loc::Foundation) is Ok,
    ensures
        spec_do_move(y, from, Loc::Foundation) is Ok,
        sent_ahead(spec_do_move(x, from, Loc::Foundation)->Ok_0.0, spec_do_move(y, from, Loc::Foundation)->Ok_0.0, at),
        shaped(spec_do_move(x, from, Loc::Foundation)->Ok_0.0),
{
    let c = peek(x, at)->Ok_0;
    let e = peek(x, from)->Ok_0;
    lemma_board_card_facts(x, at);
    assert(peek(x, from) != peek(x, at));
    assert(e != c);
    assert(suit_index(e.suit) != suit_index(c.suit)) by {
        if suit_index(e.suit) == suit_index(c.suit) {
            assert(e.suit == c.suit);
            assert(e.rank == c.rank);
        }
    }
    assert(peek(y, from) == peek(x, from));
    let x2 = spec_do_move(x, from, Loc::Foundation)->Ok_0.0;
    let y2 = spec_do_move(y, from, Loc::Foundation)->Ok_0.0;
    assert(peek(x2, at) == peek(x, at));
    assert(remove(x2, at).cascades =~= y2.cascades);
    assert(remove(x2, at).freecells =~= y2.freecells);
    assert(y2.foundations =~= x2.foundations.update(suit_index(c.suit), c.rank));
    lemma_sent_ahead_intro(x, x2, y2, at, c);
}

/// Another card goes to an empty free cell.
proof fn lemma_other_to_cell(x: Position, y: Position, at: Loc, from: Loc, i: usize)
    requires
        shaped(x),
        sound_cards(x),
        sent_ahead(x, y, at),
        from != at,
        spec_do_move(x, from, Loc::Free(i)) is Ok,
    ensures
        spec_do_move(y, from, Loc::Free(i)) is Ok,
        sent_ahead(spec_do_move(x, from, Loc::Free(i))->Ok_0.0, spec_do_move(y, from, Loc::Free(i))->Ok_0.0, at),
        shaped(spec_do_move(x, from, Loc::Free(i))->Ok_0.0),
{
    let c = peek(x, at)->Ok_0;
    let e = peek(x, from)->Ok_0;
    lemma_board_card_facts(x, at);
    assert(at != Loc::Free(i));
    assert(peek(y, from) == peek(x, from));
    assert(y.freecells[i as int] is None);
    let x2 = spec_do_move(x, from, Loc::Free(i))->Ok_0.0;
    let y2 = spec_do_move(y, from, Loc::Free(i))->Ok_0.0;
    assert(peek(x2, at) == peek(x, at));
    assert(remove(x2, at).cascades =~= y2.cascades);
    assert(remove(x2, at).freecells =~= y2.freecells);
    assert(y2.foundations =~= x2.foundations.update(suit_index(c.suit), c.rank));
    lemma_sent_ahead_intro(x, x2, y2, at, c);
}

/// Another card goes from a free cell onto a cascade; that cascade cannot
/// be the pending card's, since nothing left on the board stacks on it.
proof fn lemma_other_from_cell(x: Position, y: Position, at: Loc, k: usize, dst: usize)
    requires
        shaped(x),
        sound_cards(x),
        sent_ahead(x, y, at),
        Loc::Free(k) != at,
        spec_do_move(x, Loc::Free(k), Loc::Cascade(dst)) is Ok,
    ensures
        spec_do_move(y, Loc::Free(k), Loc::Cascade(dst)) is Ok,
        sent_ahead(
            spec_do_move(x, Loc::Free(k), Loc::Cascade(dst))->Ok_0.0,
            spec_do_move(y, Loc::Free(k), Loc::Cascade(dst))->Ok_0.0,
            at,
        ),
        shaped(spec_do_move(x, Loc::Free(k), Loc::Cascade(dst))->Ok_0.0),
{
    let from = Loc::Free(k);
    let c = peek(x, at)->Ok_0;
    let e = peek(x, from)->Ok_0;
    lemma_board_card_facts(x, at);
    lemma_board_card_facts(x, from);
    assert(at != Loc::Cascade(dst)) by {
        if at == Loc::Cascade(dst) {
            assert(stacks_on(e, c));
        }
    }
    assert(peek(y, from) == peek(x, from));
    assert(y.cascades[dst as int] == x.cascades[dst as int]);
    let x2 = spec_do_move(x, from, Loc::Cascade(dst))->Ok_0.0;
    let y2 = spec_do_move(y, from, Loc::Cascade(dst))->Ok_0.0;
    assert(peek(x2, at) == peek(x, at));
    assert(remove(x2, at).cascades =~= y2.cascades);
    assert(remove(x2, at).freecells =~= y2.freecells);
    assert(y2.foundations =~= x2.foundations.update(suit_index(c.suit), c.rank));
    lemma_sent_ahead_intro(x, x2, y2, at, c);
}

/// Another run moves between non-empty cascades, neither of them the
/// pending card's; the other position has at least as much capacity.
proof fn lemma_other_run(x: Position, y: Position, at: Loc, src: usize, dst: usize)
    requires
        shaped(x),
        sound_cards(x),
        sent_ahead(x, y, at),
        Loc::Cascade(src) != at,
        spec_do_move(x, Loc::Cascade(src), Loc::Cascade(dst)) is Ok,
        x.cascades[dst as int].len() > 0,
    ensures
        spec_do_move(y, Loc::Cascade(src), Loc::Cascade(dst)) is Ok,
        !splits_run_into_empty(y, (Loc::Cascade(src), Loc::Cascade(dst))),
        sent_ahead(
            spec_do_move(x, Loc::Cascade(src), Loc::Cascade(dst))->Ok_0.0,
            spec_do_move(y, Loc::Cascade(src), Loc::Cascade(dst))->Ok_0.0,
            at,
        ),
        shaped(spec_do_move(x, Loc::Cascade(src), Loc::Cascade(dst))->Ok_0.0),
{
    let c = peek(x, at)->Ok_0;
    let source = x.cascades[src as int];
    let dest = x.cascades[dst as int];
    let len = source.len();
    let run = run_len(source);
    crate::state::lemma_run_len_bounds(source);
    lemma_first_fit_found(source, dest.last(), 1, run);
    let n = first_fit(source, dest.last(), 1, run)->Some_0;
    assert(at != Loc::Cascade(dst)) by {
        if at == Loc::Cascade(dst) {
            lemma_cascade_card_above_home(x, src as int, len - n);
            assert(stacks_on(source[len - n], c));
        }
    }
    match at {
        Loc::Free(i) => {
            lemma_count_none_grows(x.freecells, i as int);
            assert(y.cascades == x.cascades);
        },
        Loc::Cascade(j) => {
            lemma_count_empty_grows(x.cascades, j as int, x.cascades[j as int].drop_last());
            assert(y.freecells == x.freecells);
        },
        Loc::Foundation => {},
    }
    lemma_capacity_grows(x, y);
    assert(y.cascades[src as int] == source);
    assert(y.cascades[dst as int] == dest);
    let x2 = spec_do_move(x, Loc::Cascade(src), Loc::Cascade(dst))->Ok_0.0;
    let y2 = spec_do_move(y, Loc::Cascade(src), Loc::Cascade(dst))->Ok_0.0;
    assert(peek(x2, at) == peek(x, at));
    assert(remove(x2, at).cascades =~= y2.cascades);
    assert(remove(x2, at).freecells =~= y2.freecells);
    assert(y2.foundations =~= x2.foundations.update(suit_index(c.suit), c.rank));
    lemma_sent_ahead_intro(x, x2, y2, at, c);
}

proof fn lemma_count_empty_pos(cs: Seq<Seq<Card>>, d: int)
    requires
        0 <= d < cs.len(),
        cs[d].len() == 0,
    ensures
        count_empty(cs) >= 1,
    decreases cs.len(),
{
    if d < cs.len() - 1 {
        lemma_count_empty_pos(cs.drop_last(), d);
        assert(cs.drop_last()[d] == cs[d]);
    }
}

proof fn lemma_capacity_grows_to_empty(x: Position, y: Position)
    requires
        count_none(y.freecells) >= count_none(x.freecells),
        count_empty(y.cascades) >= count_empty(x.cascades),
        count_empty(x.cascades) >= 1,
    ensures
        capacity(y, true) >= capacity(x, true),
{
    let a1 = count_none(x.freecells);
    let a2 = count_none(y.freecells);
    let e1 = (count_empty(x.cascades) - 1) as nat;
    let e2 = (count_empty(y.cascades) - 1) as nat;
    lemma_pow2_grows(e1, e2);
    let p1 = pow2(e1);
    let p2 = pow2(e2);
    assert((a2 + 1) * p2 >= (a1 + 1) * p1) by (nonlinear_arith)
        requires
            a2 >= a1,
            p2 >= p1,
    ;
}

/// The card moves from the top of its cascade onto an empty cascade,
/// together with the whole ordered run below it; the other position moves
/// that run without it.
proof fn lemma_it_from_cascade_to_empty(x: Position, y: Position, j: usize, dst: usize) -> (ms: Seq<(Loc, Loc)>)
    requires
        shaped(x),
        sent_ahead(x, y, Loc::Cascade(j)),
        spec_do_move(x, Loc::Cascade(j), Loc::Cascade(dst)) is Ok,
        x.cascades[dst as int].len() == 0,
        !splits_run_into_empty(x, (Loc::Cascade(j), Loc::Cascade(dst))),
    ensures
        ms == Seq::<(Loc, Loc)>::empty() || ms == seq![(Loc::Cascade(j), Loc::Cascade(dst))],
        ms.len() > 0 ==> !splits_run_into_empty(y, (Loc::Cascade(j), Loc::Cascade(dst))),
        apply_moves(y, ms) is Some,
        sent_ahead(spec_do_move(x, Loc::Cascade(j), Loc::Cascade(dst))->Ok_0.0, apply_moves(y, ms)->Some_0, Loc::Cascade(dst)),
        shaped(spec_do_move(x, Loc::Cascade(j), Loc::Cascade(dst))->Ok_0.0),
{
    let c = peek(x, Loc::Cascade(j))->Ok_0;
    let m = (Loc::Cascade(j), Loc::Cascade(dst));
    let x2 = spec_do_move(x, Loc::Cascade(j), Loc::Cascade(dst))->Ok_0.0;
    let src = x.cascades[j as int];
    let dest = x.cascades[dst as int];
    let len = src.len();
    let run = run_len(src);
    crate::state::lemma_run_len_bounds(src);
    lemma_count_empty_pos(x.cascades, dst as int);
    assert(run <= capacity(x, true));
    let n = run;
    assert(x2.cascades == x.cascades.update(j as int, src.take(len - n)).update(dst as int, dest + src.skip(len - n)));
    if n == 1 {
        assert(src.take(len - 1) =~= src.drop_last());
        assert(dest + src.skip(len - 1) =~= dest.push(c));
        assert(dest.push(c).drop_last() =~= dest);
        assert(x2.cascades.update(dst as int, x2.cascades[dst as int].drop_last()) =~= y.cascades);
        lemma_apply_one(y, m);
        assert(apply_moves(y, Seq::<(Loc, Loc)>::empty()) == Some(y));
        lemma_sent_ahead_intro(x, x2, y, Loc::Cascade(dst), c);
        Seq::empty()
    } else {
        let s2 = src.drop_last();
        lemma_run_len_drop(src);
        assert(y.cascades == x.cascades.update(j as int, s2));
        assert(y.cascades[j as int] == s2);
        assert(y.cascades[dst as int] == dest);
        lemma_count_empty_grows(x.cascades, j as int, s2);
        lemma_capacity_grows_to_empty(x, y);
        lemma_apply_one(y, m);
        let y2 = apply_moves(y, seq![m])->Some_0;
        assert(y2.cascades == y.cascades.update(j as int, s2.take(len - n)).update(dst as int, dest + s2.skip(len - n)));
        assert(s2.take(len - n) =~= src.take(len - n));
        assert((dest + src.skip(len - n)).drop_last() =~= dest + s2.skip(len - n));
        assert((dest + src.skip(len - n)).last() == c);
        assert(x2.cascades.update(dst as int, x2.cascades[dst as int].drop_last()) =~= y2.cascades);
        lemma_sent_ahead_intro(x, x2, y2, Loc::Cascade(dst), c);
        seq![m]
    }
}

/// Another whole ordered run moves onto an empty cascade; the other
/// position, with at least as much capacity, moves the same run.
proof fn lemma_other_run_to_empty(x: Position, y: Position, at: Loc, src: usize, dst: usize)
    requires
        shaped(x),
        sound_cards(x),
        sent_ahead(x, y, at),
        Loc::Cascade(src) != at,
        spec_do_move(x, Loc::Cascade(src), Loc::Cascade(dst)) is Ok,
        x.cascades[dst as int].len() == 0,
        !splits_run_into_empty(x, (Loc::Cascade(src), Loc::Cascade(dst))),
    ensures
        spec_do_move(y, Loc::Cascade(src), Loc::Cascade(dst)) is Ok,
        !splits_run_into_empty(y, (Loc::Cascade(src), Loc::Cascade(dst))),
        sent_ahead(
            spec_do_move(x, Loc::Cascade(src), Loc::Cascade(dst))->Ok_0.0,
            spec_do_move(y, Loc::Cascade(src), Loc::Cascade(dst))->Ok_0.0,
            at,
        ),
        shaped(spec_do_move(x, Loc::Cascade(src), Loc::Cascade(dst))->Ok_0.0),
{
    let c = peek(x, at)->Ok_0;
    let source = x.cascades[src as int];
    let run = run_len(source);
    assert(at != Loc::Cascade(dst));
    match at {
        Loc::Free(i) => {
            lemma_count_none_grows(x.freecells, i as int);
            assert(y.cascades == x.cascades);
        },
        Loc::Cascade(j) => {
            lemma_count_empty_grows(x.cascades, j as int, x.cascades[j as int].drop_last());
            assert(y.freecells == x.freecells);
        },
        Loc::Foundation => {},
    }
    lemma_count_empty_pos(x.cascades, dst as int);
    lemma_capacity_grows_to_empty(x, y);
    assert(y.cascades[src as int] == source);
    assert(y.cascades[dst as int] == x.cascades[dst as int]);
    let x2 = spec_do_move(x, Loc::Cascade(src), Loc::Cascade(dst))->Ok_0.0;
    let y2 = spec_do_move(y, Loc::Cascade(src), Loc::Cascade(dst))->Ok_0.0;
    assert(peek(x2, at) == peek(x, at));
    assert(remove(x2, at).cascades =~= y2.cascades);
    assert(remove(x2, at).freecells =~= y2.freecells);
    assert(y2.foundations =~= x2.foundations.update(suit_index(c.suit), c.rank));
    lemma_sent_ahead_intro(x, x2, y2, at, c);
}

/// One move of the line from `x`, answered from `y`: by the same move, or
/// by none when it is the pending card's own move. The pending card stays
/// pending (perhaps elsewhere) or the two positions meet.
proof fn lemma_step(x: Position, y: Position, at: Loc, m: (Loc, Loc)) -> (r: (Seq<(Loc, Loc)>, Option<Loc>))
    requires
        shaped(x),
        sound_cards(x),
        sent_ahead(x, y, at),
        spec_do_move(x, m.0, m.1) is Ok,
        !splits_run_into_empty(x, m),
    ensures
        r.0 == Seq::<(Loc, Loc)>::empty() || r.0 == seq![m],
        r.0.len() > 0 ==> !splits_run_into_empty(y, m),
        apply_moves(y, r.0) is Some,
        shaped(spec_do_move(x, m.0, m.1)->Ok_0.0),
        sound_cards(spec_do_move(x, m.0, m.1)->Ok_0.0),
        match r.1 {
            None => apply_moves(y, r.0)->Some_0 == spec_do_move(x, m.0, m.1)->Ok_0.0,
            Some(a) => sent_ahead(spec_do_move(x, m.0, m.1)->Ok_0.0, apply_moves(y, r.0)->Some_0, a),
        },
{
    lemma_do_move_keeps_cards(x, m.0, m.1);
    let none = Seq::<(Loc, Loc)>::empty();
    assert(apply_moves(y, none) == Some(y));
    lemma_apply_one(y, m);
    if m.0 == at {
        match m.1 {
            Loc::Foundation => (none, None),
            Loc::Free(i) => {
                lemma_it_to_cell(x, y, at, i);
                (none, Some(Loc::Free(i)))
            },
            Loc::Cascade(dst) => match at {
                Loc::Free(j) => {
                    lemma_it_from_cell_to_cascade(x, y, j, dst);
                    (none, Some(Loc::Cascade(dst)))
                },
                Loc::Cascade(j) => {
                    let ms = if x.cascades[dst as int].len() == 0 {
                        lemma_it_from_cascade_to_empty(x, y, j, dst)
                    } else {
                        lemma_it_from_cascade(x, y, j, dst)
                    };
                    (ms, Some(Loc::Cascade(dst)))
                },
                Loc::Foundation => (none, None),
            },
        }
    } else {
        match m.1 {
            Loc::Foundation => {
                lemma_other_home(x, y, at, m.0);
            },
            Loc::Free(i) => {
                lemma_other_to_cell(x, y, at, m.0, i);
            },
            Loc::Cascade(dst) => match m.0 {
                Loc::Free(k) => {
                    lemma_other_from_cell(x, y, at, k, dst);
                },
                Loc::Cascade(src) => {
                    if x.cascades[dst as int].len() == 0 {
                        lemma_other_run_to_empty(x, y, at, src, dst);
                    } else {
                        lemma_other_run(x, y, at, src, dst);
                    }
                },
                Loc::Foundation => {},
            },
        }
        (seq![m], Some(at))
    }
}

/// No move of `line`, played from `p`, splits an ordered run onto an empty
/// cascade.
pub open spec fn keeps_runs_whole(p: Position, line: Seq<(Loc, Loc)>) -> bool {
    forall|k: int|
        0 <= k < line.len() && apply_moves(p, line.take(k)) is Some ==> !splits_run_into_empty(
            apply_moves(p, line.take(k))->Some_0,
            #[trigger] line[k],
        )
}

/// Playing the first `k` moves of `line` from `p`, and answering each from
/// `y0` as [`lemma_step`] does.
proof fn lemma_follow(p: Position, y0: Position, at: Loc, line: Seq<(Loc, Loc)>, k: nat) -> (r: (
    Seq<(Loc, Loc)>,
    Option<Loc>,
))
    requires
        shaped(p),
        sound_cards(p),
        sent_ahead(p, y0, at),
        k <= line.len(),
        apply_moves(p, line.take(k as int)) is Some,
        keeps_runs_whole(p, line),
    ensures
        apply_moves(y0, r.0) is Some,
        keeps_runs_whole(y0, r.0),
        shaped(apply_moves(p, line.take(k as int))->Some_0),
        sound_cards(apply_moves(p, line.take(k as int))->Some_0),
        match r.1 {
            None => apply_moves(y0, r.0)->Some_0 == apply_moves(p, line.take(k as int))->Some_0,
            Some(a) => sent_ahead(apply_moves(p, line.take(k as int))->Some_0, apply_moves(y0, r.0)->Some_0, a),
        },
    decreases k,
{
    if k == 0 {
        let none = Seq::<(Loc, Loc)>::empty();
        assert(line.take(0) =~= none);
        assert(apply_moves(y0, none) == Some(y0));
        (none, Some(at))
    } else {
        let before = line.take(k - 1);
        assert(line.take(k as int).drop_last() =~= before);
        assert(line.take(k as int).last() == line[k - 1]);
        let (ms, a) = lemma_follow(p, y0, at, line, (k - 1) as nat);
        let x = apply_moves(p, before)->Some_0;
        let y = apply_moves(y0, ms)->Some_0;
        let m = line[k - 1];
        assert(!splits_run_into_empty(x, m));
        let (ms2, a2) = match a {
            None => {
                lemma_do_move_keeps_cards(x, m.0, m.1);
                lemma_apply_one(y, m);
                (seq![m], None)
            },
            Some(at1) => lemma_step(x, y, at1, m),
        };
        lemma_apply_moves_append(y0, ms, ms2);
        let all = ms + ms2;
        assert forall|i: int|
            0 <= i < all.len() && apply_moves(y0, all.take(i)) is Some implies !splits_run_into_empty(
            apply_moves(y0, all.take(i))->Some_0,
            #[trigger] all[i],
        ) by {
            if i < ms.len() {
                assert(all.take(i) =~= ms.take(i));
                assert(all[i] == ms[i]);
            } else {
                assert(all.take(i) =~= ms);
                assert(all[i] == m);
            }
        }
        (all, a2)
    }
}

/// Sending home a card that no card left on the board can still need keeps
/// the game winnable: if `line` wins from `p` and never splits an ordered
/// run onto an empty cascade, then once that card is home some line that
/// also never does so still wins.
pub proof fn lemma_send_home_keeps_win(p: Position, at: Loc, line: Seq<(Loc, Loc)>) -> (rest: Seq<(Loc, Loc)>)
    requires
        shaped(p),
        sound_cards(p),
        peek(p, at) is Ok,
        p.foundations[suit_index(peek(p, at)->Ok_0.suit)] + 1 == peek(p, at)->Ok_0.rank,
        forall|d: Card| #[trigger]
            stacks_on(d, peek(p, at)->Ok_0) ==> p.foundations[suit_index(d.suit)] >= d.rank,
        wins(p, line),
        keeps_runs_whole(p, line),
    ensures
        spec_do_move(p, at, Loc::Foundation) is Ok,
        wins(spec_do_move(p, at, Loc::Foundation)->Ok_0.0, rest),
        keeps_runs_whole(spec_do_move(p, at, Loc::Foundation)->Ok_0.0, rest),
{
    let y0 = spec_do_move(p, at, Loc::Foundation)->Ok_0.0;
    assert(sent_ahead(p, y0, at));
    assert(line.take(line.len() as int) =~= line);
    let (rest, a) = lemma_follow(p, y0, at, line, line.len());
    let x = apply_moves(p, line)->Some_0;
    if let Some(a) = a {
        lemma_board_card_facts(x, a);
        let c = peek(x, a)->Ok_0;
        assert(0 <= suit_index(c.suit) < 4);
        assert(x.foundations[suit_index(c.suit)] == 13);
    }
    rest
}

/// Legal play keeps the board's shape and a sound set of cards.
proof fn lemma_play_keeps_sound(p: Position, moves: Seq<(Loc, Loc)>)
    requires
        shaped(p),
        sound_cards(p),
        apply_moves(p, moves) is Some,
    ensures
        shaped(apply_moves(p, moves)->Some_0),
        sound_cards(apply_moves(p, moves)->Some_0),
    decreases moves.len(),
{
    if moves.len() > 0 {
        lemma_play_keeps_sound(p, moves.drop_last());
        let x = apply_moves(p, moves.drop_last())->Some_0;
        lemma_do_move_keeps_cards(x, moves.last().0, moves.last().1);
    }
}

/// The moves safe autoplay reports lead to the position it reports.
proof fn lemma_autoplay_reaches(p: Position)
    requires
        shaped(p),
    ensures
        apply_moves(p, safe_autoplay(p).1) == Some(safe_autoplay(p).0),
    decreases 1024 - crate::game::foundation_total(p),
{
    let (q, ms) = safe_pass(p, 12);
    lemma_safe_pass(p, 12);
    lemma_total_bound(q);
    if ms.len() == 0 {
        assert(apply_moves(p, Seq::<(Loc, Loc)>::empty()) == Some(p));
    } else {
        lemma_autoplay_reaches(q);
        lemma_apply_moves_append(p, ms, safe_autoplay(q).1);
    }
}

proof fn lemma_autoplay_prefix_keeps_win(p: Position, line: Seq<(Loc, Loc)>, k: nat) -> (rest: Seq<(Loc, Loc)>)
    requires
        shaped(p),
        sound_cards(p),
        wins(p, line),
        keeps_runs_whole(p, line),
        k <= safe_autoplay(p).1.len(),
    ensures
        apply_moves(p, safe_autoplay(p).1.take(k as int)) is Some,
        wins(apply_moves(p, safe_autoplay(p).1.take(k as int))->Some_0, rest),
        keeps_runs_whole(apply_moves(p, safe_autoplay(p).1.take(k as int))->Some_0, rest),
    decreases k,
{
    let ms = safe_autoplay(p).1;
    if k == 0 {
        assert(ms.take(0) =~= Seq::<(Loc, Loc)>::empty());
        assert(apply_moves(p, Seq::<(Loc, Loc)>::empty()) == Some(p));
        line
    } else {
        let before = lemma_autoplay_prefix_keeps_win(p, line, (k - 1) as nat);
        lemma_autoplay_sends_only_unneeded_cards(p, k - 1);
        let x = apply_moves(p, ms.take(k - 1))->Some_0;
        lemma_play_keeps_sound(p, ms.take(k - 1));
        let rest = lemma_send_home_keeps_win(x, ms[k - 1].0, before);
        assert(ms.take(k as int).drop_last() =~= ms.take(k - 1));
        assert(ms.take(k as int).last() == ms[k - 1]);
        rest
    }
}

/// Safe autoplay never throws a win away: if a line wins from `p` without
/// ever splitting an ordered run onto an empty cascade, some such line still
/// wins from where safe autoplay leaves the game.
pub proof fn lemma_autoplay_keeps_win(p: Position, line: Seq<(Loc, Loc)>) -> (rest: Seq<(Loc, Loc)>)
    requires
        shaped(p),
        sound_cards(p),
        wins(p, line),
        keeps_runs_whole(p, line),
    ensures
        wins(safe_autoplay(p).0, rest),
        keeps_runs_whole(safe_autoplay(p).0, rest),
{
    let ms = safe_autoplay(p).1;
    let rest = lemma_autoplay_prefix_keeps_win(p, line, ms.len());
    assert(ms.take(ms.len() as int) =~= ms);
    lemma_autoplay_reaches(p);
    rest
}

} // verus!
