//! Solvability analysis: a depth-first solver with a transposition table
//! that determines whether a position is still winnable. It adds no move
//! rules of its own: it only decides which legal moves to try and when to
//! stop.
use vstd::prelude::*;
use crate::card::{stacks_on, suit_index, suit_is_red, Card, Loc, Suit};
use crate::keyset::KeySet;
use crate::state::{is_won, peek, remove, shaped, spec_do_move, GameState, Position};
use crate::game::{autoplay_source, foundation_total};

verus! {

/// The position reached by playing `moves` from `p` in order, or `None`
/// when one of them is illegal where it is played.
pub open spec fn apply_moves(p: Position, moves: Seq<(Loc, Loc)>) -> Option<Position>
    decreases moves.len(),
{
    if moves.len() == 0 {
        Some(p)
    } else {
        match apply_moves(p, moves.drop_last()) {
            Some(q) => match spec_do_move(q, moves.last().0, moves.last().1) {
                Ok((r, _)) => Some(r),
                Err(_) => None,
            },
            None => None,
        }
    }
}

/// `moves` is a legal sequence of moves that wins from `p`.
pub open spec fn wins(p: Position, moves: Seq<(Loc, Loc)>) -> bool {
    apply_moves(p, moves) matches Some(q) && is_won(q)
}

/// Playing `a` then `b` is playing `a + b`.
pub proof fn lemma_apply_moves_append(p: Position, a: Seq<(Loc, Loc)>, b: Seq<(Loc, Loc)>)
    requires
        apply_moves(p, a) is Some,
    ensures
        apply_moves(p, a + b) == apply_moves(apply_moves(p, a)->Some_0, b),
    decreases b.len(),
{
    if b.len() == 0 {
        assert(a + b =~= a);
    } else {
        lemma_apply_moves_append(p, a, b.drop_last());
        assert((a + b).drop_last() =~= a + b.drop_last());
    }
}

/// Winnability never comes back along real play: if a position reached by
/// legal moves from `p` can still be won, then so can `p`, by making those
/// moves and then following the winning line.
pub proof fn lemma_winnable_before(p: Position, played: Seq<(Loc, Loc)>, line: Seq<(Loc, Loc)>)
    requires
        apply_moves(p, played) is Some,
        wins(apply_moves(p, played)->Some_0, line),
    ensures
        wins(p, played + line),
{
    lemma_apply_moves_append(p, played, line);
}

/// The result of a solvability search.
#[derive(Debug, Clone, PartialEq, Eq)]
pub enum Solvability {
    /// The position can be won; the moves are a complete, legal sequence
    /// from the given position to a win.
    Solvable(Vec<(Loc, Loc)>),
    /// Every reachable position was explored and none of them win.
    Unsolvable,
    /// The search budget was exhausted before a definitive answer.
    Unknown,
}

/// Tuning knobs for [`solve_with_config`].
#[derive(Debug, Clone, Copy)]
pub struct SolverConfig {
    /// The maximum number of candidate moves the search will attempt before
    /// giving up and returning [`Solvability::Unknown`].
    pub max_states: u64,
}

impl Default for SolverConfig {
    fn default() -> (c: SolverConfig)
        ensures
            c.max_states == 20_000_000,
    {
        SolverConfig { max_states: 20_000_000 }
    }
}

/// Determine whether `state` can still be won, using the default budget.
pub fn solve(state: &GameState) -> (r: Solvability)
    ensures
        r matches Solvability::Solvable(moves) ==> wins(state@, moves@),
        is_won(state@) && no_home_move(state@) ==> (r matches Solvability::Solvable(moves)
            && moves@.len() == 0),
        !is_won(state@) && no_move_at_all(state@) ==> r is Unsolvable,
        is_won(safe_autoplay(state@).0) ==> (r matches Solvability::Solvable(moves) && moves@
            == safe_autoplay(state@).1),
        reports(r, state@, 20_000_000),
{
    solve_with_config(state, SolverConfig::default())
}

/// Determine whether `state` can still be won, trying at most
/// `config.max_states` candidate moves.
pub fn solve_with_config(state: &GameState, config: SolverConfig) -> (r: Solvability)
    ensures
        r matches Solvability::Solvable(moves) ==> wins(state@, moves@),
        is_won(state@) && no_home_move(state@) ==> (r matches Solvability::Solvable(moves)
            && moves@.len() == 0),
        !is_won(state@) && no_move_at_all(state@) ==> r is Unsolvable,
        is_won(safe_autoplay(state@).0) ==> (r matches Solvability::Solvable(moves) && moves@
            == safe_autoplay(state@).1),
        reports(r, state@, config.max_states as nat),
{
    run_dfs(state.clone(), config)
}

fn run_dfs(state: GameState, config: SolverConfig) -> (r: Solvability)
    ensures
        r matches Solvability::Solvable(moves) ==> wins(state@, moves@),
        is_won(state@) && no_home_move(state@) ==> (r matches Solvability::Solvable(moves)
            && moves@.len() == 0),
        !is_won(state@) && no_move_at_all(state@) ==> r is Unsolvable,
        is_won(safe_autoplay(state@).0) ==> (r matches Solvability::Solvable(moves) && moves@
            == safe_autoplay(state@).1),
        reports(r, state@, config.max_states as nat),
{
    let ghost start = state@;
    let mut state = state;
    let mut path: Vec<(Loc, Loc)> = Vec::new();
    let mut visited = KeySet::new();
    let mut budget = config.max_states;
    proof {
        assert(apply_moves(start, path@) == Some(start));
    }
    match dfs(&mut state, &mut path, &mut visited, &mut budget) {
        DfsOutcome::Solved => {
            proof {
                assert(path@.skip(0) =~= path@);
            }
            Solvability::Solvable(path)
        },
        DfsOutcome::Exhausted => Solvability::Unsolvable,
        DfsOutcome::BudgetExceeded => Solvability::Unknown,
    }
}

/// A hard cap on search depth (moves on the current path), independent of
/// the state budget: hitting it aborts the search with `Unknown`.
pub const MAX_SEARCH_DEPTH: usize = 2_000;

/// How a search ended: a win found, every position it could reach from
/// here explored, or the move budget or depth cap reached first.
pub enum DfsOutcome {
    Solved,
    Exhausted,
    BudgetExceeded,
}

// ------------------------------------------------------------------ keys

/// A free cell's place in the canonical order: cards by suit then rank,
/// empty cells last.
pub open spec fn free_order(c: Option<Card>) -> int {
    match c {
        Some(card) => suit_index(card.suit) * 256 + card.rank,
        None => 1024,
    }
}

/// Where `x` goes in the sorted `s`: before the first larger element.
pub open spec fn insert_at(s: Seq<Option<Card>>, x: Option<Card>, from: int) -> int
    decreases s.len() - from,
{
    if from >= s.len() || from < 0 {
        s.len() as int
    } else if free_order(x) < free_order(s[from]) {
        from
    } else {
        insert_at(s, x, from + 1)
    }
}

/// The free cells in canonical order (an insertion sort by [`free_order`]).
pub open spec fn sorted_free(s: Seq<Option<Card>>) -> Seq<Option<Card>>
    decreases s.len(),
{
    if s.len() == 0 {
        s
    } else {
        let t = sorted_free(s.drop_last());
        t.insert(insert_at(t, s.last(), 0), s.last())
    }
}

pub open spec fn card_pair(c: Card) -> Seq<u8> {
    seq![c.rank, (suit_index(c.suit) + 1) as u8]
}

pub open spec fn cards_bytes(s: Seq<Card>) -> Seq<u8>
    decreases s.len(),
{
    if s.len() == 0 {
        seq![]
    } else {
        cards_bytes(s.drop_last()) + card_pair(s.last())
    }
}

pub open spec fn cascades_bytes(cs: Seq<Seq<Card>>) -> Seq<u8>
    decreases cs.len(),
{
    if cs.len() == 0 {
        seq![]
    } else {
        cascades_bytes(cs.drop_last()) + cards_bytes(cs.last()) + seq![0u8, 0u8]
    }
}

pub open spec fn free_bytes(f: Seq<Option<Card>>) -> Seq<u8>
    decreases f.len(),
{
    if f.len() == 0 {
        seq![]
    } else {
        free_bytes(f.drop_last()) + match f.last() {
            Some(c) => card_pair(c),
            None => seq![0u8, 0u8],
        }
    }
}

/// The transposition-table key of a position: every cascade (each card as
/// its rank and suit, each cascade closed by a zero pair), the free cells in
/// canonical order, then the foundations. Free cells are interchangeable,
/// so positions that differ only in which free cell holds a card share a
/// key.
pub open spec fn position_key(p: Position) -> Seq<u8> {
    cascades_bytes(p.cascades) + free_bytes(sorted_free(p.freecells)) + p.foundations
}

/// `s` is in canonical free-cell order.
pub open spec fn in_free_order(s: Seq<Option<Card>>) -> bool {
    forall|i: int, j: int| 0 <= i < j < s.len() ==> free_order(s[i]) <= free_order(s[j])
}

proof fn lemma_free_order_injective(x: Option<Card>, y: Option<Card>)
    requires
        free_order(x) == free_order(y),
    ensures
        x == y,
{
    match (x, y) {
        (Some(a), Some(b)) => {
            assert(suit_index(a.suit) == suit_index(b.suit));
            assert(a.suit == b.suit);
            assert(a.rank == b.rank);
        },
        _ => {},
    }
}

proof fn lemma_insert_at(t: Seq<Option<Card>>, x: Option<Card>, from: int)
    requires
        0 <= from <= t.len(),
    ensures
        from <= insert_at(t, x, from) <= t.len(),
        forall|k: int| from <= k < insert_at(t, x, from) ==> free_order(#[trigger] t[k]) <= free_order(x),
        insert_at(t, x, from) < t.len() ==> free_order(x) < free_order(t[insert_at(t, x, from)]),
    decreases t.len() - from,
{
    if from < t.len() && free_order(x) >= free_order(t[from]) {
        lemma_insert_at(t, x, from + 1);
    }
}

/// The canonical order is sorted and holds exactly the cells it was given.
proof fn lemma_sorted_free(s: Seq<Option<Card>>)
    ensures
        in_free_order(sorted_free(s)),
        sorted_free(s).to_multiset() == s.to_multiset(),
    decreases s.len(),
{
    broadcast use vstd::seq_lib::group_to_multiset_ensures;

    if s.len() > 0 {
        let t = sorted_free(s.drop_last());
        let x = s.last();
        lemma_sorted_free(s.drop_last());
        lemma_insert_at(t, x, 0);
        let at = insert_at(t, x, 0);
        let u = t.insert(at, x);
        assert forall|i: int, j: int| 0 <= i < j < u.len() implies free_order(u[i]) <= free_order(
            u[j],
        ) by {
            if j < at {
                assert(u[i] == t[i] && u[j] == t[j]);
            } else if j == at {
                assert(u[i] == t[i]);
            } else if i < at {
                assert(u[i] == t[i] && u[j] == t[j - 1]);
            } else if i == at {
                assert(u[j] == t[j - 1]);
                assert(free_order(t[at]) <= free_order(t[j - 1]));
            } else {
                assert(u[i] == t[i - 1] && u[j] == t[j - 1]);
            }
        }
        assert(s.drop_last().push(x) =~= s);
    }
}

/// Two sequences in canonical order holding the same cells are equal.
proof fn lemma_sorted_unique(a: Seq<Option<Card>>, b: Seq<Option<Card>>)
    requires
        in_free_order(a),
        in_free_order(b),
        a.to_multiset() == b.to_multiset(),
    ensures
        a == b,
    decreases a.len(),
{
    broadcast use vstd::seq_lib::group_to_multiset_ensures;

    assert(a.len() == a.to_multiset().len() && b.len() == b.to_multiset().len());
    if a.len() > 0 {
        assert(a.to_multiset().count(a[0]) > 0);
        assert(b.contains(a[0]));
        let j = choose|j: int| 0 <= j < b.len() && b[j] == a[0];
        assert(free_order(b[0]) <= free_order(b[j]));
        assert(b.to_multiset().count(b[0]) > 0);
        assert(a.contains(b[0]));
        let k = choose|k: int| 0 <= k < a.len() && a[k] == b[0];
        assert(free_order(a[0]) <= free_order(a[k]));
        lemma_free_order_injective(a[0], b[0]);
        let a1 = a.remove(0);
        let b1 = b.remove(0);
        assert(a1.to_multiset() == b1.to_multiset());
        assert(in_free_order(a1)) by {
            assert forall|i: int, j: int| 0 <= i < j < a1.len() implies free_order(a1[i]) <= free_order(
                a1[j],
            ) by {
                assert(a1[i] == a[i + 1] && a1[j] == a[j + 1]);
            }
        }
        assert(in_free_order(b1)) by {
            assert forall|i: int, j: int| 0 <= i < j < b1.len() implies free_order(b1[i]) <= free_order(
                b1[j],
            ) by {
                assert(b1[i] == b[i + 1] && b1[j] == b[j + 1]);
            }
        }
        lemma_sorted_unique(a1, b1);
        assert(a =~= b) by {
            assert forall|i: int| 0 <= i < a.len() implies a[i] == b[i] by {
                if i > 0 {
                    assert(a[i] == a1[i - 1] && b[i] == b1[i - 1]);
                }
            }
        }
    } else {
        assert(b.len() == 0);
        assert(a =~= b);
    }
}

/// Free cells are interchangeable: positions that differ only in which
/// free cell holds which card share a transposition-table key.
pub proof fn lemma_key_ignores_free_cell_order(p: Position, q: Position)
    requires
        p.cascades == q.cascades,
        p.foundations == q.foundations,
        p.freecells.to_multiset() == q.freecells.to_multiset(),
    ensures
        position_key(p) == position_key(q),
{
    lemma_sorted_free(p.freecells);
    lemma_sorted_free(q.freecells);
    lemma_sorted_unique(sorted_free(p.freecells), sorted_free(q.freecells));
}

/// Which empty free cell a card is moved to makes no difference to the
/// search: the two resulting positions share a transposition-table key.
pub proof fn lemma_free_cell_choice_irrelevant(p: Position, from: Loc, i: usize, j: usize)
    requires
        shaped(p),
    ensures
        spec_do_move(p, from, Loc::Free(i)) matches Ok((a, _)) ==> (spec_do_move(
            p,
            from,
            Loc::Free(j),
        ) matches Ok((b, _)) ==> position_key(a) == position_key(b)),
{
    broadcast use vstd::seq_lib::group_to_multiset_ensures;

    if let (Ok((a, _)), Ok((b, _))) = (spec_do_move(p, from, Loc::Free(i)), spec_do_move(p, from, Loc::Free(j))) {
        let q = remove(p, from);
        assert(q.freecells[i as int] is None && q.freecells[j as int] is None);
        assert(a.freecells.to_multiset() == b.freecells.to_multiset());
        lemma_key_ignores_free_cell_order(a, b);
    }
}

fn push_card(out: &mut Vec<u8>, c: Card)
    ensures
        final(out)@ == old(out)@ + card_pair(c),
{
    out.push(c.rank);
    out.push((c.suit.index() + 1) as u8);
    proof {
        assert(final(out)@ =~= old(out)@ + card_pair(c));
    }
}

fn sort_free(cells: &[Option<Card>; 4]) -> (r: Vec<Option<Card>>)
    ensures
        r@ == sorted_free(cells@),
{
    let mut sorted: Vec<Option<Card>> = Vec::new();
    let mut i: usize = 0;
    while i < 4
        invariant
            i <= 4,
            sorted@ == sorted_free(cells@.take(i as int)),
            sorted@.len() == i,
        decreases 4 - i,
    {
        proof {
            assert(cells@.take(i + 1).drop_last() =~= cells@.take(i as int));
        }
        let x = cells[i];
        let ghost t = sorted@;
        let mut at: usize = 0;
        while at < sorted.len() && order_of(&sorted[at]) <= order_of(&x)
            invariant
                at <= sorted@.len(),
                sorted@ == t,
                t.len() == i,
                insert_at(t, x, 0) == insert_at(t, x, at as int),
            decreases sorted@.len() - at,
        {
            at = at + 1;
        }
        sorted.insert(at, x);
        i = i + 1;
    }
    proof {
        assert(cells@.take(4) =~= cells@);
    }
    sorted
}

fn order_of(c: &Option<Card>) -> (r: u16)
    ensures
        r == free_order(*c),
{
    match c {
        Some(card) => (card.suit.index() as u16) * 256 + card.rank as u16,
        None => 1024,
    }
}

/// The transposition-table key of `state` (see [`position_key`]).
fn state_key(state: &GameState) -> (r: Vec<u8>)
    ensures
        r@ == position_key(state@),
{
    let mut out: Vec<u8> = Vec::new();
    proof {
        state.lemma_shaped();
    }
    let cascades = state.cascades();
    let mut i: usize = 0;
    while i < 8
        invariant
            i <= 8,
            forall|k: int| 0 <= k < 8 ==> cascades[k]@ == state@.cascades[k],
            shaped(state@),
            out@ == cascades_bytes(state@.cascades.take(i as int)),
        decreases 8 - i,
    {
        proof {
            assert(state@.cascades.take(i + 1).drop_last() =~= state@.cascades.take(i as int));
        }
        let col = &cascades[i];
        let ghost before = out@;
        let mut j: usize = 0;
        while j < col.len()
            invariant
                j <= col@.len(),
                out@ == before + cards_bytes(col@.take(j as int)),
            decreases col.len() - j,
        {
            proof {
                assert(col@.take(j + 1).drop_last() =~= col@.take(j as int));
            }
            push_card(&mut out, col[j]);
            proof {
                assert(out@ =~= before + cards_bytes(col@.take(j + 1)));
            }
            j = j + 1;
        }
        out.push(0);
        out.push(0);
        proof {
            assert(col@.take(col@.len() as int) =~= col@);
            assert(out@ =~= cascades_bytes(state@.cascades.take(i + 1)));
        }
        i = i + 1;
    }
    proof {
        state.lemma_shaped();
        assert(state@.cascades.take(8) =~= state@.cascades);
    }
    let ghost head = out@;
    let free = sort_free(state.freecells());
    let mut k: usize = 0;
    while k < free.len()
        invariant
            k <= free@.len(),
            out@ == head + free_bytes(free@.take(k as int)),
        decreases free.len() - k,
    {
        proof {
            assert(free@.take(k + 1).drop_last() =~= free@.take(k as int));
        }
        match free[k] {
            Some(c) => push_card(&mut out, c),
            None => {
                out.push(0);
                out.push(0);
            },
        }
        proof {
            assert(out@ =~= head + free_bytes(free@.take(k + 1)));
        }
        k = k + 1;
    }
    proof {
        assert(free@.take(free@.len() as int) =~= free@);
    }
    let foundations = state.foundations();
    out.push(foundations[0]);
    out.push(foundations[1]);
    out.push(foundations[2]);
    out.push(foundations[3]);
    proof {
        assert(out@ =~= position_key(state@));
    }
    out
}

// ------------------------------------------------------------------ safe autoplay

/// The top ranks of the two foundation piles of the other color than `s`.
pub open spec fn opposite_color_piles(s: Suit, foundations: Seq<u8>) -> (u8, u8) {
    if suit_is_red(s) {
        (foundations[0], foundations[3])
    } else {
        (foundations[1], foundations[2])
    }
}

/// The provably safe autoplay rule: a card may go home unconditionally
/// once it is the next card of its pile and both piles of the other color
/// already hold the rank below it.
pub open spec fn safe_to_autoplay(c: Card, foundations: Seq<u8>) -> bool {
    foundations[suit_index(c.suit)] + 1 == c.rank && {
        let (a, b) = opposite_color_piles(c.suit, foundations);
        a >= c.rank - 1 && b >= c.rank - 1
    }
}

fn opposite_color_foundations(suit: Suit, foundations: &[u8; 4]) -> (r: (u8, u8))
    ensures
        r == opposite_color_piles(suit, foundations@),
{
    if suit.is_red() {
        (foundations[0], foundations[3])
    } else {
        (foundations[1], foundations[2])
    }
}

fn is_safe_to_autoplay(card: Card, foundations: &[u8; 4]) -> (r: bool)
    ensures
        r == safe_to_autoplay(card, foundations@),
{
    if foundations[card.suit.index()] as u16 + 1 != card.rank as u16 {
        return false;
    }
    let (a, b) = opposite_color_foundations(card.suit, foundations);
    let threshold = card.rank - 1;
    a >= threshold && b >= threshold
}

/// Why the rule is safe: a card goes home unconditionally exactly when it
/// is the next card of its pile and every card that could ever be stacked
/// on it (one rank lower, other color) is already on its foundation, so no
/// later move can need it as a base.
pub proof fn lemma_safe_means_no_card_can_need_it(c: Card, foundations: Seq<u8>)
    ensures
        safe_to_autoplay(c, foundations) <==> (foundations[suit_index(c.suit)] + 1 == c.rank && forall|
            d: Card,
        | #![trigger stacks_on(d, c)] stacks_on(d, c) ==> foundations[suit_index(d.suit)] >= d.rank),
{
    if foundations[suit_index(c.suit)] + 1 == c.rank && forall|d: Card|
        #![trigger stacks_on(d, c)]
        stacks_on(d, c) ==> foundations[suit_index(d.suit)] >= d.rank {
        if c.rank > 1 {
            let (s1, s2) = if suit_is_red(c.suit) { (Suit::Clubs, Suit::Spades) } else { (Suit::Diamonds, Suit::Hearts) };
            let d1 = Card { rank: (c.rank - 1) as u8, suit: s1 };
            let d2 = Card { rank: (c.rank - 1) as u8, suit: s2 };
            assert(stacks_on(d1, c));
            assert(stacks_on(d2, c));
        }
    }
}

/// No card on a cascade or in a free cell can go home.
pub open spec fn no_home_move(p: Position) -> bool {
    &&& forall|i: usize| i < 8 ==> #[trigger] spec_do_move(p, Loc::Cascade(i), Loc::Foundation) is Err
    &&& forall|i: usize| i < 4 ==> #[trigger] spec_do_move(p, Loc::Free(i), Loc::Foundation) is Err
}

/// No move at all is legal.
pub open spec fn no_move_at_all(p: Position) -> bool {
    forall|from: Loc, to: Loc| #[trigger] spec_do_move(p, from, to) is Err
}

/// Send the card at `from` home if it is safe to and the move is legal.
pub open spec fn safe_send(p: Position, from: Loc) -> Option<Position> {
    match peek(p, from) {
        Ok(c) => if safe_to_autoplay(c, p.foundations) {
            match spec_do_move(p, from, Loc::Foundation) {
                Ok((q, _)) => Some(q),
                Err(_) => None,
            }
        } else {
            None
        },
        Err(_) => None,
    }
}

/// The first `k` attempts of one safe-autoplay pass over cascades 1-8 and
/// then free cells a-d: the position reached and the moves made.
pub open spec fn safe_pass(p: Position, k: nat) -> (Position, Seq<(Loc, Loc)>)
    decreases k,
{
    if k == 0 {
        (p, seq![])
    } else {
        let (q, ms) = safe_pass(p, (k - 1) as nat);
        match safe_send(q, autoplay_source(k - 1)) {
            Some(r) => (r, ms.push((autoplay_source(k - 1), Loc::Foundation))),
            None => (q, ms),
        }
    }
}

/// Safe autoplay: passes until one sends nothing home; the position
/// reached and every move made, in order.
pub open spec fn safe_autoplay(p: Position) -> (Position, Seq<(Loc, Loc)>)
    decreases 1024 - foundation_total(p),
    when shaped(p)
{
    let (q, ms) = safe_pass(p, 12);
    if ms.len() == 0 {
        (p, seq![])
    } else {
        proof {
            lemma_safe_pass(p, 12);
            lemma_total_bound(q);
        }
        let (r, rest) = safe_autoplay(q);
        (r, ms + rest)
    }
}

/// A safe-autoplay pass keeps the board's shape, raises the foundation
/// total by the number of cards it sends home, and plays legal moves.
pub proof fn lemma_safe_pass(p: Position, k: nat)
    requires
        shaped(p),
    ensures
        shaped(safe_pass(p, k).0),
        foundation_total(safe_pass(p, k).0) == foundation_total(p) + safe_pass(p, k).1.len(),
        safe_pass(p, k).1.len() == 0 ==> safe_pass(p, k).0 == p,
        apply_moves(p, safe_pass(p, k).1) == Some(safe_pass(p, k).0),
    decreases k,
{
    if k > 0 {
        lemma_safe_pass(p, (k - 1) as nat);
        let (q, ms) = safe_pass(p, (k - 1) as nat);
        lemma_home(q, autoplay_source(k - 1));
        if let Some(r) = safe_send(q, autoplay_source(k - 1)) {
            let m = (autoplay_source(k - 1), Loc::Foundation);
            assert(ms.push(m).drop_last() =~= ms);
        }
    }
}

/// Each move of the first `k` attempts of a pass is a safe send from the
/// position the earlier moves reached.
proof fn lemma_safe_pass_moves(p: Position, k: nat, j: int)
    requires
        shaped(p),
        0 <= j < safe_pass(p, k).1.len(),
    ensures
        ({
            let ms = safe_pass(p, k).1;
            let x = apply_moves(p, ms.take(j))->Some_0;
            &&& apply_moves(p, ms.take(j)) is Some
            &&& ms[j].1 == Loc::Foundation
            &&& peek(x, ms[j].0) is Ok
            &&& safe_to_autoplay(peek(x, ms[j].0)->Ok_0, x.foundations)
        }),
    decreases k,
{
    let (q, ms) = safe_pass(p, (k - 1) as nat);
    lemma_safe_pass(p, (k - 1) as nat);
    if j < ms.len() {
        lemma_safe_pass_moves(p, (k - 1) as nat, j);
        if safe_pass(p, k).1.len() > ms.len() {
            assert(safe_pass(p, k).1.take(j) =~= ms.take(j));
        }
    } else {
        assert(safe_pass(p, k).1.take(j) =~= ms);
    }
}

/// Safe autoplay only ever sends a card home when it is the next card of
/// its pile and every card that could be stacked on it is already on its
/// foundation: the `k`-th move, played from where the earlier ones lead,
/// moves such a card.
pub proof fn lemma_autoplay_sends_only_unneeded_cards(p: Position, k: int)
    requires
        shaped(p),
        0 <= k < safe_autoplay(p).1.len(),
    ensures
        ({
            let ms = safe_autoplay(p).1;
            let x = apply_moves(p, ms.take(k))->Some_0;
            let c = peek(x, ms[k].0)->Ok_0;
            &&& apply_moves(p, ms.take(k)) is Some
            &&& ms[k].1 == Loc::Foundation
            &&& peek(x, ms[k].0) is Ok
            &&& x.foundations[suit_index(c.suit)] + 1 == c.rank
            &&& forall|d: Card| #![trigger stacks_on(d, c)] stacks_on(d, c) ==> x.foundations[suit_index(d.suit)] >= d.rank
        }),
    decreases 1024 - crate::game::foundation_total(p),
{
    let (q, ms) = safe_pass(p, 12);
    lemma_safe_pass(p, 12);
    lemma_total_bound(q);
    let all = safe_autoplay(p).1;
    assert(all == ms + safe_autoplay(q).1);
    let x = if k < ms.len() {
        lemma_safe_pass_moves(p, 12, k);
        assert(all.take(k) =~= ms.take(k));
        apply_moves(p, ms.take(k))->Some_0
    } else {
        let rest = safe_autoplay(q).1;
        lemma_autoplay_sends_only_unneeded_cards(q, k - ms.len());
        assert(all.take(k) =~= ms + rest.take(k - ms.len()));
        lemma_apply_moves_append(p, ms, rest.take(k - ms.len()));
        apply_moves(q, rest.take(k - ms.len()))->Some_0
    };
    let c = peek(x, all[k].0)->Ok_0;
    lemma_safe_means_no_card_can_need_it(c, x.foundations);
}

/// A pass that sends nothing home found no safe card at any of the
/// sources it tried.
proof fn lemma_quiet_pass(p: Position, k: nat, j: int)
    requires
        shaped(p),
        safe_pass(p, k).1.len() == 0,
        0 <= j < k,
    ensures
        safe_send(p, autoplay_source(j)) is None,
    decreases k,
{
    let (q, ms) = safe_pass(p, (k - 1) as nat);
    lemma_safe_pass(p, (k - 1) as nat);
    assert(ms.len() == 0);
    if j < k - 1 {
        lemma_quiet_pass(p, (k - 1) as nat, j);
    }
}

/// Safe autoplay stops only when no card on top of a cascade or in a free
/// cell is the next card of its pile with every card that could be stacked
/// on it already home.
pub proof fn lemma_autoplay_leaves_no_safe_card(p: Position, from: Loc)
    requires
        shaped(p),
    ensures
        ({
            let q = safe_autoplay(p).0;
            let c = peek(q, from)->Ok_0;
            peek(q, from) is Ok ==> !(q.foundations[suit_index(c.suit)] + 1 == c.rank && forall|d: Card|
                #![trigger stacks_on(d, c)]
                stacks_on(d, c) ==> q.foundations[suit_index(d.suit)] >= d.rank)
        }),
    decreases 1024 - crate::game::foundation_total(p),
{
    let (q, ms) = safe_pass(p, 12);
    lemma_safe_pass(p, 12);
    lemma_total_bound(q);
    if ms.len() == 0 {
        if peek(p, from) is Ok {
            let c = peek(p, from)->Ok_0;
            let j: int = match from {
                Loc::Cascade(i) => i as int,
                Loc::Free(i) => 8 + i,
                Loc::Foundation => 0,
            };
            assert(autoplay_source(j) == from);
            lemma_quiet_pass(p, 12, j);
            lemma_safe_means_no_card_can_need_it(c, p.foundations);
        }
    } else {
        lemma_autoplay_leaves_no_safe_card(q, from);
    }
}

/// Repeatedly send home every provably safe card, and return the moves
/// performed in order.
fn apply_safe_autoplay(state: &mut GameState) -> (moves: Vec<(Loc, Loc)>)
    ensures
        (final(state)@, moves@) == safe_autoplay(old(state)@),
        apply_moves(old(state)@, moves@) == Some(final(state)@),
        no_home_move(old(state)@) ==> moves@.len() == 0 && final(state)@ == old(state)@,
{
    let mut moves: Vec<(Loc, Loc)> = Vec::new();
    let ghost start = state@;
    proof {
        state.lemma_shaped();
    }
    loop
        invariant
            shaped(state@),
            apply_moves(start, moves@) == Some(state@),
            start == old(state)@,
            no_home_move(start) ==> moves@.len() == 0 && state@ == start,
            safe_autoplay(start).0 == safe_autoplay(state@).0,
            safe_autoplay(start).1 == moves@ + safe_autoplay(state@).1,
        ensures
            apply_moves(start, moves@) == Some(state@),
            no_home_move(start) ==> moves@.len() == 0 && state@ == start,
            (state@, moves@) == safe_autoplay(start),
        decreases 1024 - foundation_total(state@),
    {
        let ghost round_start = state@;
        let ghost round_moves = moves@;
        let mut progressed = false;
        let mut i: usize = 0;
        while i < 8
            invariant
                i <= 8,
                shaped(round_start),
                apply_moves(start, moves@) == Some(state@),
                state@ == safe_pass(round_start, i as nat).0,
                moves@ == round_moves + safe_pass(round_start, i as nat).1,
                progressed == (safe_pass(round_start, i as nat).1.len() > 0),
                no_home_move(start) ==> moves@.len() == 0 && state@ == start && !progressed,
                no_home_move(start) ==> round_start == start && round_moves.len() == 0,
            decreases 8 - i,
        {
            proof {
                state.lemma_shaped();
                lemma_safe_pass(round_start, i as nat);
            }
            let ghost before = state@;
            let ghost before_moves = moves@;
            let cascades = state.cascades();
            let n = cascades[i].len();
            if n > 0 {
                let card = cascades[i][n - 1];
                if is_safe_to_autoplay(card, state.foundations()) {
                    let from = Loc::Cascade(i);
                    let r = state.do_move(from, Loc::Foundation);
                    proof {
                        lemma_home(before, from);
                    }
                    if r.is_ok() {
                        moves.push((from, Loc::Foundation));
                        proof {
                            assert(moves@.drop_last() =~= before_moves);
                        }
                        progressed = true;
                    }
                }
            }
            proof {
                assert(autoplay_source(i as int) == Loc::Cascade(i));
                assert(moves@ =~= round_moves + safe_pass(round_start, (i + 1) as nat).1);
            }
            i = i + 1;
        }
        let mut j: usize = 0;
        while j < 4
            invariant
                j <= 4,
                shaped(round_start),
                apply_moves(start, moves@) == Some(state@),
                state@ == safe_pass(round_start, (8 + j) as nat).0,
                moves@ == round_moves + safe_pass(round_start, (8 + j) as nat).1,
                progressed == (safe_pass(round_start, (8 + j) as nat).1.len() > 0),
                no_home_move(start) ==> moves@.len() == 0 && state@ == start && !progressed,
                no_home_move(start) ==> round_start == start && round_moves.len() == 0,
            decreases 4 - j,
        {
            proof {
                state.lemma_shaped();
                lemma_safe_pass(round_start, (8 + j) as nat);
            }
            let ghost before = state@;
            let ghost before_moves = moves@;
            match state.freecells()[j] {
                Some(card) => {
                    if is_safe_to_autoplay(card, state.foundations()) {
                        let from = Loc::Free(j);
                        let r = state.do_move(from, Loc::Foundation);
                        proof {
                            lemma_home(before, from);
                        }
                        if r.is_ok() {
                            moves.push((from, Loc::Foundation));
                            proof {
                                assert(moves@.drop_last() =~= before_moves);
                            }
                            progressed = true;
                        }
                    }
                },
                None => {},
            }
            proof {
                assert(autoplay_source(8 + j) == Loc::Free(j));
                assert(moves@ =~= round_moves + safe_pass(round_start, (8 + j + 1) as nat).1);
            }
            j = j + 1;
        }
        proof {
            state.lemma_shaped();
            lemma_total_bound(state@);
            lemma_total_bound(round_start);
            lemma_safe_pass(round_start, 12);
            let ms = safe_pass(round_start, 12).1;
            if progressed {
                assert(safe_autoplay(round_start).1 == ms + safe_autoplay(state@).1);
                assert(moves@ + safe_autoplay(state@).1 =~= round_moves + safe_autoplay(
                    round_start,
                ).1);
            } else {
                assert(moves@ =~= round_moves);
                assert(safe_autoplay(round_start) == (round_start, Seq::<(Loc, Loc)>::empty()));
                assert(moves@ =~= moves@ + safe_autoplay(state@).1);
            }
        }
        if !progressed {
            return moves;
        }
    }
}

/// Four `u8` piles total at most 1020.
pub proof fn lemma_total_bound(p: Position)
    ensures
        0 <= crate::game::foundation_total(p) <= 1020,
{
}

/// A successful move home raises the foundation total.
proof fn lemma_home(p: Position, from: Loc)
    requires
        shaped(p),
    ensures
        spec_do_move(p, from, Loc::Foundation) matches Ok((q, _)) ==> shaped(q)
            && crate::game::foundation_total(q) == crate::game::foundation_total(p) + 1,
{
    let g = crate::game::GameModel { state: p, past: seq![], future: seq![], seed: None };
    crate::game::lemma_home_move(g, from);
}

// ------------------------------------------------------------------ search

/// `m` as a one-move list when `b` holds, else nothing.
pub open spec fn move_if(b: bool, m: (Loc, Loc)) -> Seq<(Loc, Loc)> {
    if b { seq![m] } else { seq![] }
}

pub open spec fn legal(p: Position, from: Loc, to: Loc) -> bool {
    spec_do_move(p, from, to) is Ok
}

/// Moves home from the first `n` cascades that hold a card, in order.
pub open spec fn cascade_home_moves(p: Position, n: nat) -> Seq<(Loc, Loc)>
    decreases n,
{
    if n == 0 {
        seq![]
    } else {
        let from = Loc::Cascade((n - 1) as usize);
        cascade_home_moves(p, (n - 1) as nat) + move_if(
            p.cascades[n - 1].len() > 0 && legal(p, from, Loc::Foundation),
            (from, Loc::Foundation),
        )
    }
}

/// Moves home from the first `n` occupied free cells, in order.
pub open spec fn free_home_moves(p: Position, n: nat) -> Seq<(Loc, Loc)>
    decreases n,
{
    if n == 0 {
        seq![]
    } else {
        let from = Loc::Free((n - 1) as usize);
        free_home_moves(p, (n - 1) as nat) + move_if(
            p.freecells[n - 1] is Some && legal(p, from, Loc::Foundation),
            (from, Loc::Foundation),
        )
    }
}

/// Legal moves from `from` onto the first `n` cascades, skipping cascade
/// `skip` (where `from` itself is).
pub open spec fn onto_cascades(p: Position, from: Loc, skip: int, n: nat) -> Seq<(Loc, Loc)>
    decreases n,
{
    if n == 0 {
        seq![]
    } else {
        let to = Loc::Cascade((n - 1) as usize);
        onto_cascades(p, from, skip, (n - 1) as nat) + move_if(
            n - 1 != skip && legal(p, from, to),
            (from, to),
        )
    }
}

/// Cascade-to-cascade moves from the first `n` cascades that hold a card.
pub open spec fn cascade_to_cascade_moves(p: Position, n: nat) -> Seq<(Loc, Loc)>
    decreases n,
{
    if n == 0 {
        seq![]
    } else {
        cascade_to_cascade_moves(p, (n - 1) as nat) + if p.cascades[n - 1].len() > 0 {
            onto_cascades(p, Loc::Cascade((n - 1) as usize), n - 1, 8)
        } else {
            seq![]
        }
    }
}

/// Free-cell-to-cascade moves from the first `n` occupied free cells.
pub open spec fn free_to_cascade_moves(p: Position, n: nat) -> Seq<(Loc, Loc)>
    decreases n,
{
    if n == 0 {
        seq![]
    } else {
        free_to_cascade_moves(p, (n - 1) as nat) + if p.freecells[n - 1] is Some {
            onto_cascades(p, Loc::Free((n - 1) as usize), -1, 8)
        } else {
            seq![]
        }
    }
}

/// The first empty cell among the first `n` free cells.
pub open spec fn first_empty_cell(f: Seq<Option<Card>>, n: nat) -> Option<usize>
    decreases n,
{
    if n == 0 {
        None
    } else {
        match first_empty_cell(f, (n - 1) as nat) {
            Some(j) => Some(j),
            None => if f[n - 1] is None { Some((n - 1) as usize) } else { None },
        }
    }
}

/// Moves from the first `n` cascades that hold a card into the first empty
/// free cell.
pub open spec fn into_free_cell_moves(p: Position, n: nat) -> Seq<(Loc, Loc)>
    decreases n,
{
    if n == 0 {
        seq![]
    } else {
        let from = Loc::Cascade((n - 1) as usize);
        into_free_cell_moves(p, (n - 1) as nat) + if p.cascades[n - 1].len() > 0 {
            match first_empty_cell(p.freecells, 4) {
                Some(j) => move_if(legal(p, from, Loc::Free(j)), (from, Loc::Free(j))),
                None => seq![],
            }
        } else {
            seq![]
        }
    }
}

/// The moves the search tries from `p`, in order: moves home (cascades,
/// then free cells), cascade-to-cascade moves, free-cell-to-cascade moves,
/// then moves into the first empty free cell.
pub open spec fn candidate_seq(p: Position) -> Seq<(Loc, Loc)> {
    cascade_home_moves(p, 8) + free_home_moves(p, 4) + cascade_to_cascade_moves(p, 8)
        + free_to_cascade_moves(p, 4) + into_free_cell_moves(p, 8)
}

/// Every legal move worth trying from `state`, roughly best-first:
/// foundation moves, then cascade-to-cascade moves, then free-cell-to-
/// cascade moves, then moves into the first empty free cell.
fn candidate_moves(state: &GameState) -> (r: Vec<(Loc, Loc)>)
    ensures
        r@ == candidate_seq(state@),
        forall|k: int| 0 <= k < r@.len() ==> spec_do_move(state@, (#[trigger] r@[k]).0, r@[k].1) is Ok,
{
    let ghost p = state@;
    proof {
        state.lemma_shaped();
    }
    let mut to_foundation: Vec<(Loc, Loc)> = Vec::new();
    let mut cascade_to_cascade: Vec<(Loc, Loc)> = Vec::new();
    let mut free_to_cascade: Vec<(Loc, Loc)> = Vec::new();
    let mut to_free_cell: Vec<(Loc, Loc)> = Vec::new();

    let mut first_empty_free_cell: Option<usize> = None;
    let mut f: usize = 0;
    while f < 4
        invariant
            f <= 4,
            p == state@,
            first_empty_free_cell == first_empty_cell(p.freecells, f as nat),
            first_empty_free_cell matches Some(j) ==> j < 4,
        decreases 4 - f,
    {
        if first_empty_free_cell.is_none() && state.freecells()[f].is_none() {
            first_empty_free_cell = Some(f);
        }
        f = f + 1;
    }

    let mut i: usize = 0;
    while i < 8
        invariant
            i <= 8,
            p == state@,
            shaped(p),
            first_empty_free_cell == first_empty_cell(p.freecells, 4),
            first_empty_free_cell matches Some(j) ==> j < 4,
            to_foundation@ == cascade_home_moves(p, i as nat),
            cascade_to_cascade@ == cascade_to_cascade_moves(p, i as nat),
            to_free_cell@ == into_free_cell_moves(p, i as nat),
        decreases 8 - i,
    {
        let ghost tf = to_foundation@;
        let ghost cc = cascade_to_cascade@;
        let ghost tc = to_free_cell@;
        if state.cascades()[i].len() > 0 {
            let from = Loc::Cascade(i);
            if state.can_move(from, Loc::Foundation).is_ok() {
                to_foundation.push((from, Loc::Foundation));
            }
            let mut j: usize = 0;
            while j < 8
                invariant
                    j <= 8,
                    i < 8,
                    p == state@,
                    from == Loc::Cascade(i),
                    cascade_to_cascade@ == cc + onto_cascades(p, from, i as int, j as nat),
                decreases 8 - j,
            {
                let ghost before = cascade_to_cascade@;
                if i != j && state.can_move(from, Loc::Cascade(j)).is_ok() {
                    cascade_to_cascade.push((from, Loc::Cascade(j)));
                }
                proof {
                    assert(cascade_to_cascade@ =~= cc + onto_cascades(p, from, i as int, (j + 1) as nat));
                }
                j = j + 1;
            }
            match first_empty_free_cell {
                Some(j) => {
                    if state.can_move(from, Loc::Free(j)).is_ok() {
                        to_free_cell.push((from, Loc::Free(j)));
                    }
                },
                None => {},
            }
        }
        proof {
            assert(to_foundation@ =~= cascade_home_moves(p, (i + 1) as nat));
            assert(cascade_to_cascade@ =~= cascade_to_cascade_moves(p, (i + 1) as nat));
            assert(to_free_cell@ =~= into_free_cell_moves(p, (i + 1) as nat));
        }
        i = i + 1;
    }

    let mut i: usize = 0;
    while i < 4
        invariant
            i <= 4,
            p == state@,
            shaped(p),
            to_foundation@ == cascade_home_moves(p, 8) + free_home_moves(p, i as nat),
            free_to_cascade@ == free_to_cascade_moves(p, i as nat),
        decreases 4 - i,
    {
        let ghost ff = free_to_cascade@;
        if state.freecells()[i].is_some() {
            let from = Loc::Free(i);
            if state.can_move(from, Loc::Foundation).is_ok() {
                to_foundation.push((from, Loc::Foundation));
            }
            let mut j: usize = 0;
            while j < 8
                invariant
                    j <= 8,
                    p == state@,
                    from == Loc::Free(i),
                    free_to_cascade@ == ff + onto_cascades(p, from, -1, j as nat),
                decreases 8 - j,
            {
                if state.can_move(from, Loc::Cascade(j)).is_ok() {
                    free_to_cascade.push((from, Loc::Cascade(j)));
                }
                proof {
                    assert(free_to_cascade@ =~= ff + onto_cascades(p, from, -1, (j + 1) as nat));
                }
                j = j + 1;
            }
        }
        proof {
            assert(to_foundation@ =~= cascade_home_moves(p, 8) + free_home_moves(p, (i + 1) as nat));
            assert(free_to_cascade@ =~= free_to_cascade_moves(p, (i + 1) as nat));
        }
        i = i + 1;
    }

    let mut all = to_foundation;
    all.append(&mut cascade_to_cascade);
    all.append(&mut free_to_cascade);
    all.append(&mut to_free_cell);
    proof {
        assert(all@ =~= candidate_seq(p));
        lemma_candidates_legal(p);
    }
    all
}

proof fn lemma_onto_cascades_legal(p: Position, from: Loc, skip: int, n: nat)
    ensures
        legal_all(p, onto_cascades(p, from, skip, n)),
    decreases n,
{
    if n > 0 {
        lemma_onto_cascades_legal(p, from, skip, (n - 1) as nat);
    }
}

proof fn lemma_candidates_legal(p: Position)
    ensures
        legal_all(p, candidate_seq(p)),
{
    lemma_cascade_home_legal(p, 8);
    lemma_free_home_legal(p, 4);
    lemma_c2c_legal(p, 8);
    lemma_f2c_legal(p, 4);
    lemma_into_free_legal(p, 8);
    lemma_legal_all_add(p, cascade_home_moves(p, 8), free_home_moves(p, 4));
    let a = cascade_home_moves(p, 8) + free_home_moves(p, 4);
    lemma_legal_all_add(p, a, cascade_to_cascade_moves(p, 8));
    let b = a + cascade_to_cascade_moves(p, 8);
    lemma_legal_all_add(p, b, free_to_cascade_moves(p, 4));
    let c = b + free_to_cascade_moves(p, 4);
    lemma_legal_all_add(p, c, into_free_cell_moves(p, 8));
}

proof fn lemma_legal_all_add(p: Position, a: Seq<(Loc, Loc)>, b: Seq<(Loc, Loc)>)
    requires
        legal_all(p, a),
        legal_all(p, b),
    ensures
        legal_all(p, a + b),
{
    assert forall|k: int| 0 <= k < (a + b).len() implies spec_do_move(p, (#[trigger] (a + b)[k]).0, (a
        + b)[k].1) is Ok by {
        if k >= a.len() {
            assert((a + b)[k] == b[k - a.len()]);
        }
    }
}

proof fn lemma_cascade_home_legal(p: Position, n: nat)
    ensures
        legal_all(p, cascade_home_moves(p, n)),
    decreases n,
{
    if n > 0 {
        lemma_cascade_home_legal(p, (n - 1) as nat);
        let from = Loc::Cascade((n - 1) as usize);
        lemma_legal_all_add(p, cascade_home_moves(p, (n - 1) as nat), move_if(
            p.cascades[n - 1].len() > 0 && legal(p, from, Loc::Foundation),
            (from, Loc::Foundation),
        ));
    }
}

proof fn lemma_free_home_legal(p: Position, n: nat)
    ensures
        legal_all(p, free_home_moves(p, n)),
    decreases n,
{
    if n > 0 {
        lemma_free_home_legal(p, (n - 1) as nat);
        let from = Loc::Free((n - 1) as usize);
        lemma_legal_all_add(p, free_home_moves(p, (n - 1) as nat), move_if(
            p.freecells[n - 1] is Some && legal(p, from, Loc::Foundation),
            (from, Loc::Foundation),
        ));
    }
}

proof fn lemma_c2c_legal(p: Position, n: nat)
    ensures
        legal_all(p, cascade_to_cascade_moves(p, n)),
    decreases n,
{
    if n > 0 {
        lemma_c2c_legal(p, (n - 1) as nat);
        lemma_onto_cascades_legal(p, Loc::Cascade((n - 1) as usize), n - 1, 8);
        let tail = if p.cascades[n - 1].len() > 0 {
            onto_cascades(p, Loc::Cascade((n - 1) as usize), n - 1, 8)
        } else {
            seq![]
        };
        lemma_legal_all_add(p, cascade_to_cascade_moves(p, (n - 1) as nat), tail);
    }
}

proof fn lemma_f2c_legal(p: Position, n: nat)
    ensures
        legal_all(p, free_to_cascade_moves(p, n)),
    decreases n,
{
    if n > 0 {
        lemma_f2c_legal(p, (n - 1) as nat);
        lemma_onto_cascades_legal(p, Loc::Free((n - 1) as usize), -1, 8);
        let tail = if p.freecells[n - 1] is Some {
            onto_cascades(p, Loc::Free((n - 1) as usize), -1, 8)
        } else {
            seq![]
        };
        lemma_legal_all_add(p, free_to_cascade_moves(p, (n - 1) as nat), tail);
    }
}

proof fn lemma_into_free_legal(p: Position, n: nat)
    ensures
        legal_all(p, into_free_cell_moves(p, n)),
    decreases n,
{
    if n > 0 {
        lemma_into_free_legal(p, (n - 1) as nat);
        let from = Loc::Cascade((n - 1) as usize);
        let tail = if p.cascades[n - 1].len() > 0 {
            match first_empty_cell(p.freecells, 4) {
                Some(j) => move_if(legal(p, from, Loc::Free(j)), (from, Loc::Free(j))),
                None => seq![],
            }
        } else {
            seq![]
        };
        lemma_legal_all_add(p, into_free_cell_moves(p, (n - 1) as nat), tail);
    }
}

/// Every move in `moves` is legal in `p`.
pub open spec fn legal_all(p: Position, moves: Seq<(Loc, Loc)>) -> bool {
    forall|k: int| 0 <= k < moves.len() ==> spec_do_move(p, (#[trigger] moves[k]).0, moves[k].1) is Ok
}

/// How many more moves the path may grow by before the depth cap.
pub open spec fn depth_left(len: nat) -> nat {
    if len < MAX_SEARCH_DEPTH { (MAX_SEARCH_DEPTH - len) as nat } else { 0 }
}

/// The depth-first search from `p`, at path length `depth`, with the
/// positions already explored (by key) in `visited` and `budget` candidate
/// moves left to try: how it ends, the explored set and budget it leaves,
/// and, when it wins, the moves from `p` to the win.
///
/// It gives up at the depth cap; otherwise it plays safe autoplay, wins if
/// that wins, stops at an already-explored position, and else marks this
/// one explored and tries the candidate moves in order.
pub open spec fn spec_dfs(p: Position, depth: nat, visited: Set<Seq<u8>>, budget: nat) -> (
    DfsOutcome,
    Set<Seq<u8>>,
    nat,
    Seq<(Loc, Loc)>,
)
    decreases depth_left(depth), 1nat, 0nat,
{
    if depth >= MAX_SEARCH_DEPTH {
        (DfsOutcome::BudgetExceeded, visited, budget, seq![])
    } else {
        let (q, auto) = safe_autoplay(p);
        if is_won(q) {
            (DfsOutcome::Solved, visited, budget, auto)
        } else if visited.contains(position_key(q)) {
            (DfsOutcome::Exhausted, visited, budget, seq![])
        } else {
            let (o, v, b, line) = spec_dfs_moves(
                q,
                depth,
                depth + auto.len(),
                0,
                visited.insert(position_key(q)),
                budget,
            );
            (o, v, b, if o is Solved { auto + line } else { seq![] })
        }
    }
}

/// The search's loop over the candidate moves of `q` from the `c`-th on;
/// `depth` is where the search of `q`'s position began and `base` the path
/// length after its safe autoplay. On a win, the moves from `q` on.
pub open spec fn spec_dfs_moves(
    q: Position,
    depth: nat,
    base: nat,
    c: nat,
    visited: Set<Seq<u8>>,
    budget: nat,
) -> (DfsOutcome, Set<Seq<u8>>, nat, Seq<(Loc, Loc)>)
    decreases depth_left(depth), 0nat, candidate_seq(q).len() - c,
{
    let cands = candidate_seq(q);
    if depth >= MAX_SEARCH_DEPTH || base < depth || c >= cands.len() {
        (DfsOutcome::Exhausted, visited, budget, seq![])
    } else if budget == 0 {
        (DfsOutcome::BudgetExceeded, visited, budget, seq![])
    } else {
        let m = cands[c as int];
        match spec_do_move(q, m.0, m.1) {
            Err(_) => (DfsOutcome::BudgetExceeded, visited, (budget - 1) as nat, seq![]),
            Ok((child, _)) => {
                let (o, v, b, line) = spec_dfs(child, base + 1, visited, (budget - 1) as nat);
                match o {
                    DfsOutcome::Solved => (DfsOutcome::Solved, v, b, seq![m] + line),
                    DfsOutcome::BudgetExceeded => (DfsOutcome::BudgetExceeded, v, b, seq![]),
                    DfsOutcome::Exhausted => spec_dfs_moves(q, depth, base, c + 1, v, b),
                }
            },
        }
    }
}

/// The search `solve_with_config` runs from `p` with `max_states`
/// candidate moves to try: from path length 0, nothing explored yet.
pub open spec fn search(p: Position, max_states: nat) -> (DfsOutcome, Set<Seq<u8>>, nat, Seq<(Loc, Loc)>) {
    spec_dfs(p, 0, Set::empty(), max_states)
}

/// `r` is what that search reports: the winning line it found, `Unsolvable`
/// when it explored everything it could reach, `Unknown` when the budget or
/// the depth cap stopped it.
pub open spec fn reports(r: Solvability, p: Position, max_states: nat) -> bool {
    let (o, _, _, line) = search(p, max_states);
    match r {
        Solvability::Solvable(moves) => o is Solved && moves@ == line,
        Solvability::Unsolvable => o is Exhausted,
        Solvability::Unknown => o is BudgetExceeded,
    }
}

/// A search that ends without running out of budget ends the same way
/// with any larger budget: the same outcome, explored set and line, the
/// extra budget left untouched.
pub proof fn lemma_dfs_budget_monotone(p: Position, depth: nat, visited: Set<Seq<u8>>, budget: nat, extra: nat)
    requires
        !(spec_dfs(p, depth, visited, budget).0 is BudgetExceeded),
    ensures
        ({
            let r = spec_dfs(p, depth, visited, budget);
            spec_dfs(p, depth, visited, budget + extra) == (r.0, r.1, r.2 + extra, r.3)
        }),
    decreases depth_left(depth), 1nat, 0nat,
{
    if depth < MAX_SEARCH_DEPTH {
        let (q, auto) = safe_autoplay(p);
        if !is_won(q) && !visited.contains(position_key(q)) {
            lemma_dfs_moves_budget_monotone(
                q,
                depth,
                depth + auto.len(),
                0,
                visited.insert(position_key(q)),
                budget,
                extra,
            );
        }
    }
}

proof fn lemma_dfs_moves_budget_monotone(
    q: Position,
    depth: nat,
    base: nat,
    c: nat,
    visited: Set<Seq<u8>>,
    budget: nat,
    extra: nat,
)
    requires
        !(spec_dfs_moves(q, depth, base, c, visited, budget).0 is BudgetExceeded),
    ensures
        ({
            let r = spec_dfs_moves(q, depth, base, c, visited, budget);
            spec_dfs_moves(q, depth, base, c, visited, budget + extra) == (r.0, r.1, r.2 + extra, r.3)
        }),
    decreases depth_left(depth), 0nat, candidate_seq(q).len() - c,
{
    let cands = candidate_seq(q);
    if depth < MAX_SEARCH_DEPTH && base >= depth && c < cands.len() && budget > 0 {
        let m = cands[c as int];
        if let Ok((child, _)) = spec_do_move(q, m.0, m.1) {
            assert((budget + extra - 1) as nat == (budget - 1) as nat + extra);
            lemma_dfs_budget_monotone(child, base + 1, visited, (budget - 1) as nat, extra);
            let r = spec_dfs(child, base + 1, visited, (budget - 1) as nat);
            if r.0 is Exhausted {
                lemma_dfs_moves_budget_monotone(q, depth, base, c + 1, r.1, r.2, extra);
            }
        }
    }
}

/// The search from a position with a larger budget ends as the smaller one
/// did whenever the smaller one did not run out of budget.
pub proof fn lemma_search_budget_monotone(p: Position, small: nat, large: nat)
    requires
        small <= large,
        !(search(p, small).0 is BudgetExceeded),
    ensures
        search(p, large).0 == search(p, small).0,
        search(p, large).3 == search(p, small).3,
{
    lemma_dfs_budget_monotone(p, 0, Set::empty(), small, (large - small) as nat);
}

proof fn lemma_dfs_moves_step(q: Position, depth: nat, base: nat, c: nat, visited: Set<Seq<u8>>, budget: nat)
    requires
        depth < MAX_SEARCH_DEPTH,
        base >= depth,
        c < candidate_seq(q).len(),
        budget > 0,
        spec_do_move(q, candidate_seq(q)[c as int].0, candidate_seq(q)[c as int].1) is Ok,
    ensures
        ({
            let m = candidate_seq(q)[c as int];
            let child = spec_do_move(q, m.0, m.1)->Ok_0.0;
            let r = spec_dfs(child, base + 1, visited, (budget - 1) as nat);
            spec_dfs_moves(q, depth, base, c, visited, budget) == match r.0 {
                DfsOutcome::Solved => (DfsOutcome::Solved, r.1, r.2, seq![m] + r.3),
                DfsOutcome::BudgetExceeded => (DfsOutcome::BudgetExceeded, r.1, r.2, seq![]),
                DfsOutcome::Exhausted => spec_dfs_moves(q, depth, base, c + 1, r.1, r.2),
            }
        }),
{
}

#[verifier::rlimit(60)]
fn dfs(
    state: &mut GameState,
    path: &mut Vec<(Loc, Loc)>,
    visited: &mut KeySet,
    budget: &mut u64,
) -> (r: DfsOutcome)
    requires
        old(visited).wf(),
    ensures
        final(visited).wf(),
        r is Solved ==> final(path)@.len() >= old(path)@.len() && final(path)@.take(
            old(path)@.len() as int,
        ) == old(path)@ && wins(old(state)@, final(path)@.skip(old(path)@.len() as int)),
        !(r is Solved) ==> final(path)@ == old(path)@,
        old(path)@.len() < MAX_SEARCH_DEPTH && is_won(old(state)@) && no_home_move(old(state)@)
            ==> r is Solved && final(path)@ == old(path)@,
        old(path)@.len() < MAX_SEARCH_DEPTH && !is_won(old(state)@) && no_move_at_all(old(state)@)
            ==> r is Exhausted,
        old(path)@.len() < MAX_SEARCH_DEPTH && is_won(safe_autoplay(old(state)@).0) ==> r is Solved
            && final(path)@ == old(path)@ + safe_autoplay(old(state)@).1,
        ({
            let (o, v, b, line) = spec_dfs(
                old(state)@,
                old(path)@.len(),
                old(visited).contents(),
                *old(budget) as nat,
            );
            &&& r == o
            &&& final(visited).contents() == v
            &&& *final(budget) == b
            &&& o is Solved ==> final(path)@ == old(path)@ + line
        }),
    decreases depth_left(old(path)@.len()),
{
    if path.len() >= MAX_SEARCH_DEPTH {
        return DfsOutcome::BudgetExceeded;
    }
    let ghost p0 = path@;
    let ghost s0 = state@;
    let ghost v0 = visited.contents();
    let ghost b0 = *budget as nat;
    let ghost target = spec_dfs(s0, p0.len(), v0, b0);
    proof {
        state.lemma_shaped();
    }

    proof {
        if no_move_at_all(s0) {
            assert forall|i: usize| i < 8 implies #[trigger] spec_do_move(s0, Loc::Cascade(i), Loc::Foundation) is Err by {}
            assert forall|i: usize| i < 4 implies #[trigger] spec_do_move(s0, Loc::Free(i), Loc::Foundation) is Err by {}
        }
    }
    let mut auto_moves = apply_safe_autoplay(state);
    let auto_count = auto_moves.len();
    let ghost auto_s = auto_moves@;
    path.append(&mut auto_moves);
    proof {
        assert(path@ =~= p0 + auto_s);
        assert(path@.take(p0.len() as int) =~= p0);
        assert(path@.skip(p0.len() as int) =~= auto_s);
    }

    if state.is_won() {
        return DfsOutcome::Solved;
    }

    let key = state_key(state);
    if !visited.insert(key) {
        path.truncate(path.len() - auto_count);
        proof {
            assert(path@ =~= p0);
            assert(v0.insert(position_key(state@)) =~= v0);
        }
        return DfsOutcome::Exhausted;
    }

    let candidates = candidate_moves(state);
    let ghost here = state@;
    proof {
        if no_move_at_all(s0) && candidates@.len() > 0 {
            assert(spec_do_move(here, candidates@[0].0, candidates@[0].1) is Ok);
        }
    }
    let mut c: usize = 0;
    while c < candidates.len()
        invariant
            c <= candidates@.len(),
            p0 == old(path)@,
            s0 == old(state)@,
            legal_all(here, candidates@),
            visited.wf(),
            path@ == p0 + auto_s,
            auto_s.len() == auto_count,
            apply_moves(s0, auto_s) == Some(here),
            state@ == here,
            p0.len() < MAX_SEARCH_DEPTH,
            !(is_won(s0) && no_home_move(s0)),
            no_move_at_all(s0) ==> candidates@.len() == 0,
            !is_won(safe_autoplay(s0).0),
            candidates@ == candidate_seq(here),
            here == safe_autoplay(s0).0,
            auto_s == safe_autoplay(s0).1,
            target == spec_dfs(s0, p0.len(), v0, b0),
            v0 == old(visited).contents(),
            b0 == *old(budget) as nat,
            ({
                let (o, v, b, line) = spec_dfs_moves(
                    here,
                    p0.len(),
                    p0.len() + auto_s.len(),
                    c as nat,
                    visited.contents(),
                    *budget as nat,
                );
                target == (o, v, b, if o is Solved { auto_s + line } else { seq![] })
            }),
        decreases candidates@.len() - c,
    {
        if *budget == 0 {
            path.truncate(path.len() - auto_count);
            proof {
                assert(path@ =~= p0);
                assert(spec_dfs_moves(here, p0.len(), p0.len() + auto_s.len(), c as nat, visited.contents(), 0)
                    == (DfsOutcome::BudgetExceeded, visited.contents(), 0nat, Seq::<(Loc, Loc)>::empty()));
            }
            return DfsOutcome::BudgetExceeded;
        }
        *budget = *budget - 1;

        let (from, to) = candidates[c];
        let snapshot = state.clone();
        let ghost m = candidates@[c as int];
        match state.do_move(from, to) {
            Ok(_) => {},
            Err(_) => {
                proof {
                    assert(spec_do_move(here, m.0, m.1) is Ok);
                }
                return DfsOutcome::BudgetExceeded;
            },
        }
        let ghost after = state@;
        let ghost vis_c = visited.contents();
        let ghost b_c = *budget as nat;
        proof {
            lemma_dfs_moves_step(here, p0.len(), p0.len() + auto_s.len(), c as nat, vis_c, b_c + 1);
            assert(m == candidate_seq(here)[c as int]);
            assert(spec_do_move(here, m.0, m.1)->Ok_0.0 == after);
        }
        path.push((from, to));
        let ghost p1 = path@;
        proof {
            assert(p1 == p0 + auto_s.push(m));
            assert(auto_s.push(m).drop_last() =~= auto_s);
            assert(apply_moves(s0, auto_s.push(m)) == Some(after));
            assert(path@.len() == p0.len() + auto_count + 1);
            assert(depth_left(path@.len()) < depth_left(p0.len()));
        }

        match dfs(state, path, visited, budget) {
            DfsOutcome::Solved => {
                proof {
                    let rest = path@.skip(p1.len() as int);
                    assert(path@ =~= p1 + rest);
                    assert(p0 + (auto_s + (seq![m] + rest)) =~= path@);
                    assert(path@.skip(p0.len() as int) =~= auto_s.push(m) + rest);
                    lemma_apply_moves_append(s0, auto_s.push(m), rest);
                    assert(path@.take(p0.len() as int) =~= p0);
                    assert(rest == spec_dfs(after, p1.len(), vis_c, b_c).3);
                }
                return DfsOutcome::Solved;
            },
            DfsOutcome::BudgetExceeded => {
                path.truncate(path.len() - auto_count - 1);
                proof {
                    assert(path@ =~= p0);
                }
                return DfsOutcome::BudgetExceeded;
            },
            DfsOutcome::Exhausted => {
                path.pop();
                *state = snapshot;
                proof {
                    assert(path@ =~= p0 + auto_s);
                }
            },
        }
        c = c + 1;
    }

    path.truncate(path.len() - auto_count);
    proof {
        assert(path@ =~= p0);
    }
    DfsOutcome::Exhausted
}

} // verus!
