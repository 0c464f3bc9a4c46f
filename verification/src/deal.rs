//! Classic Microsoft FreeCell deals.
use vstd::prelude::*;
use vstd::multiset::Multiset;
use crate::card::{suit_index, suit_of_index, Card, Suit};
use crate::state::{GameState, Position};

verus! {

/// The state of the Microsoft C runtime `rand()` generator after `k` draws
/// from `seed`: `state = (state * 214013 + 2531011) mod 2^31`.
pub open spec fn rng_state(seed: u32, k: nat) -> int
    decreases k,
{
    if k == 0 {
        seed as int
    } else {
        (rng_state(seed, (k - 1) as nat) * 214013 + 2531011) % 0x8000_0000
    }
}

/// The `k`-th (0-based) value `rand()` returns: bits 16..30 of the state.
#[verifier::opaque]
pub open spec fn rng_value(seed: u32, k: nat) -> int {
    rng_state(seed, k + 1) / 0x1_0000
}

/// The unshuffled deck: all thirteen ranks of each suit, ace first, the four
/// suits interleaved (AC AD AH AS 2C ...).
pub open spec fn fresh_deck() -> Seq<Card> {
    Seq::new(52, |n: int| Card { rank: (n / 4 + 1) as u8, suit: suit_of_index(n % 4) })
}

/// The deck after the first `i` steps of the deal: step `k` swaps the card
/// at `rand() % (52 - k)` with the card at `51 - k`.
pub open spec fn deck_after(seed: u32, i: nat) -> Seq<Card>
    decreases i,
{
    if i == 0 {
        fresh_deck()
    } else {
        let k = (i - 1) as nat;
        let d = deck_after(seed, k);
        let j = rng_value(seed, k) % (52 - k);
        d.update(j, d[51 - k]).update(51 - k, d[j])
    }
}

/// The card dealt at step `k`: the one just swapped to position `51 - k`.
pub open spec fn dealt(seed: u32, k: nat) -> Card {
    deck_after(seed, k + 1)[51 - k]
}

/// How many of the first `i` dealt cards land on cascade `c` (cards go to
/// the cascades round-robin).
pub open spec fn dealt_to(i: nat, c: nat) -> nat {
    if i > c { ((i - c - 1) / 8 + 1) as nat } else { 0 }
}

/// Cascade `c` after the first `i` steps of the deal.
pub open spec fn dealt_cascade(seed: u32, i: nat, c: nat) -> Seq<Card> {
    Seq::new(dealt_to(i, c), |r: int| dealt(seed, (8 * r + c) as nat))
}

/// The numbered deal: every card dealt round-robin onto the eight cascades,
/// free cells and foundations empty.
pub open spec fn spec_deal(seed: u32) -> Position {
    Position {
        cascades: Seq::new(8, |c: int| dealt_cascade(seed, 52, c as nat)),
        freecells: seq![None, None, None, None],
        foundations: seq![0, 0, 0, 0],
    }
}

proof fn lemma_rng_state_bound(seed: u32, k: nat)
    ensures
        0 <= rng_state(seed, k) < 0x1_0000_0000,
        k > 0 ==> rng_state(seed, k) < 0x8000_0000,
{
    if k > 0 {
        let prev = rng_state(seed, (k - 1) as nat);
        assert(rng_state(seed, k) == (prev * 214013 + 2531011) % 0x8000_0000);
    }
}

proof fn lemma_deck_len(seed: u32, i: nat)
    requires
        i <= 52,
    ensures
        deck_after(seed, i).len() == 52,
    decreases i,
{
    if i > 0 {
        lemma_deck_len(seed, (i - 1) as nat);
    }
}

impl GameState {
    /// Deal a numbered game using the classic Microsoft FreeCell algorithm.
    pub fn deal(seed: u32) -> (s: GameState)
        ensures
            s@ == spec_deal(seed),
    {
        let mut state: u32 = seed;
        let mut deck: Vec<Card> = Vec::new();
        let mut n: usize = 0;
        while n < 52
            invariant
                n <= 52,
                deck@ == fresh_deck().take(n as int),
            decreases 52 - n,
        {
            deck.push(Card::new((n / 4 + 1) as u8, Suit::from_index(n % 4)));
            proof {
                assert(deck@ =~= fresh_deck().take(n + 1));
            }
            n = n + 1;
        }
        proof {
            assert(deck@ =~= fresh_deck().take(52));
            assert(fresh_deck().take(52) =~= fresh_deck());
        }
        let mut c0: Vec<Card> = Vec::new();
        let mut c1: Vec<Card> = Vec::new();
        let mut c2: Vec<Card> = Vec::new();
        let mut c3: Vec<Card> = Vec::new();
        let mut c4: Vec<Card> = Vec::new();
        let mut c5: Vec<Card> = Vec::new();
        let mut c6: Vec<Card> = Vec::new();
        let mut c7: Vec<Card> = Vec::new();
        let mut i: usize = 0;
        while i < 52
            invariant
                i <= 52,
                state == rng_state(seed, i as nat),
                deck@ == deck_after(seed, i as nat),
                c0@ == dealt_cascade(seed, i as nat, 0),
                c1@ == dealt_cascade(seed, i as nat, 1),
                c2@ == dealt_cascade(seed, i as nat, 2),
                c3@ == dealt_cascade(seed, i as nat, 3),
                c4@ == dealt_cascade(seed, i as nat, 4),
                c5@ == dealt_cascade(seed, i as nat, 5),
                c6@ == dealt_cascade(seed, i as nat, 6),
                c7@ == dealt_cascade(seed, i as nat, 7),
            decreases 52 - i,
        {
            proof {
                lemma_rng_state_bound(seed, i as nat);
                lemma_deck_len(seed, i as nat);
            }
            state = ((state as u64 * 214013 + 2531011) % 0x8000_0000) as u32;
            let r = state >> 16;
            proof {
                assert(r == state / 0x1_0000) by (bit_vector)
                    requires r == state >> 16;
            }
            let j = (r as usize) % (52 - i);
            let a = deck[j];
            let b = deck[51 - i];
            deck.set(j, b);
            deck.set(51 - i, a);
            let card = deck[51 - i];
            let ghost k = i as nat;
            proof {
                reveal(rng_value);
                assert(deck@ =~= deck_after(seed, k + 1));
                assert(card == dealt(seed, k));
            }
            match i % 8 {
                0 => c0.push(card),
                1 => c1.push(card),
                2 => c2.push(card),
                3 => c3.push(card),
                4 => c4.push(card),
                5 => c5.push(card),
                6 => c6.push(card),
                _ => c7.push(card),
            }
            proof {
                lemma_dealt_step(seed, k, 0);
                lemma_dealt_step(seed, k, 1);
                lemma_dealt_step(seed, k, 2);
                lemma_dealt_step(seed, k, 3);
                lemma_dealt_step(seed, k, 4);
                lemma_dealt_step(seed, k, 5);
                lemma_dealt_step(seed, k, 6);
                lemma_dealt_step(seed, k, 7);
            }
            i = i + 1;
        }
        let s = GameState::from_parts([c0, c1, c2, c3, c4, c5, c6, c7], [None, None, None, None], [0, 0, 0, 0]);
        proof {
            assert(s@.cascades =~= spec_deal(seed).cascades);
            assert(s@.freecells =~= spec_deal(seed).freecells);
            assert(s@.foundations =~= spec_deal(seed).foundations);
        }
        s
    }
}

/// Dealing step `k` extends cascade `k % 8` by the card dealt at that step
/// and leaves the others alone.
proof fn lemma_dealt_step(seed: u32, k: nat, c: nat)
    requires
        c < 8,
    ensures
        c == k % 8 ==> dealt_cascade(seed, k + 1, c) == dealt_cascade(seed, k, c).push(dealt(seed, k)),
        c != k % 8 ==> dealt_cascade(seed, k + 1, c) == dealt_cascade(seed, k, c),
{
    let old_s = dealt_cascade(seed, k, c);
    let new_s = dealt_cascade(seed, k + 1, c);
    if c == k % 8 {
        assert(dealt_to(k + 1, c) == dealt_to(k, c) + 1);
        assert(8 * (dealt_to(k, c) as int) + c == k);
        assert(new_s =~= old_s.push(dealt(seed, k)));
    } else {
        assert(dealt_to(k + 1, c) == dealt_to(k, c));
        assert(new_s =~= old_s);
    }
}

// ------------------------------------------------------------------ the deck is dealt once

/// The cards dealt in the first `i` steps, in dealing order.
pub open spec fn dealt_seq(seed: u32, i: nat) -> Seq<Card> {
    Seq::new(i, |k: int| dealt(seed, k as nat))
}

/// All the cards on the cascades of `p`, as a multiset.
pub open spec fn cascade_cards(p: Position) -> Multiset<Card> {
    p.cascades[0].to_multiset().add(p.cascades[1].to_multiset()).add(p.cascades[2].to_multiset()).add(
        p.cascades[3].to_multiset(),
    ).add(p.cascades[4].to_multiset()).add(p.cascades[5].to_multiset()).add(
        p.cascades[6].to_multiset(),
    ).add(p.cascades[7].to_multiset())
}

/// A card of the standard deck: ace through king.
pub open spec fn standard_card(c: Card) -> bool {
    1 <= c.rank <= 13
}

spec fn dealt_cascades_cards(seed: u32, i: nat) -> Multiset<Card> {
    dealt_cascade(seed, i, 0).to_multiset().add(dealt_cascade(seed, i, 1).to_multiset()).add(
        dealt_cascade(seed, i, 2).to_multiset(),
    ).add(dealt_cascade(seed, i, 3).to_multiset()).add(dealt_cascade(seed, i, 4).to_multiset()).add(
        dealt_cascade(seed, i, 5).to_multiset(),
    ).add(dealt_cascade(seed, i, 6).to_multiset()).add(dealt_cascade(seed, i, 7).to_multiset())
}

proof fn lemma_swap_keeps_cards(s: Seq<Card>, j: int, k: int)
    requires
        0 <= j < s.len(),
        0 <= k < s.len(),
    ensures
        s.update(j, s[k]).update(k, s[j]).to_multiset() == s.to_multiset(),
{
    broadcast use vstd::seq_lib::to_multiset_update, vstd::multiset::group_multiset_axioms;
    broadcast use vstd::seq_lib::to_multiset_contains;

    let t = s.update(j, s[k]);
    let u = t.update(k, s[j]);
    assert(t[k] == s[k]);
    assert(s.contains(s[j]));
    assert(s.contains(s[k]));
    assert(u.to_multiset() =~= s.to_multiset());
}

/// The cards still in the undealt part of the deck, together with those
/// dealt so far, are always the whole fresh deck.
proof fn lemma_deck_accounting(seed: u32, i: nat)
    requires
        i <= 52,
    ensures
        deck_after(seed, i).take(52 - i).to_multiset().add(dealt_seq(seed, i).to_multiset())
            == fresh_deck().to_multiset(),
    decreases i, 0nat,
{
    broadcast use vstd::multiset::group_multiset_axioms, vstd::seq_lib::to_multiset_build;
    broadcast use vstd::seq_lib::to_multiset_contains;

    if i == 0 {
        assert(deck_after(seed, 0).take(52) =~= fresh_deck());
        assert(dealt_seq(seed, 0) =~= Seq::<Card>::empty());
        assert(fresh_deck().to_multiset().add(Seq::<Card>::empty().to_multiset()) =~= fresh_deck().to_multiset());
    } else {
        let k = (i - 1) as nat;
        lemma_deal_accounting_step(seed, k);
    }
}

proof fn lemma_deal_accounting_step(seed: u32, k: nat)
    requires
        k < 52,
    ensures
        deck_after(seed, k + 1).take(52 - (k + 1)).to_multiset().add(dealt_seq(seed, k + 1).to_multiset())
            == fresh_deck().to_multiset(),
    decreases k, 1nat,
{
    broadcast use vstd::multiset::group_multiset_axioms, vstd::seq_lib::to_multiset_build;

    lemma_deck_accounting(seed, k);
    lemma_deck_len(seed, k);
    let d = deck_after(seed, k);
    let j = rng_value(seed, k) % (52 - k);
    let n = deck_after(seed, k + 1);
    let p = d.take(52 - k);
    let p2 = n.take(52 - k);
    assert(p2 =~= p.update(j, p[51 - k]).update(51 - k, p[j]));
    lemma_swap_keeps_cards(p, j, 51 - k);
    assert(p2 =~= n.take(52 - (k + 1)).push(dealt(seed, k)));
    assert(dealt_seq(seed, k + 1) =~= dealt_seq(seed, k).push(dealt(seed, k)));
    assert(n.take(52 - (k + 1)).to_multiset().add(dealt_seq(seed, k + 1).to_multiset())
        =~= p2.to_multiset().add(dealt_seq(seed, k).to_multiset()));
}

/// The cascades after `i` steps hold exactly the cards dealt so far.
proof fn lemma_cascades_accounting(seed: u32, i: nat)
    ensures
        dealt_cascades_cards(seed, i) == dealt_seq(seed, i).to_multiset(),
    decreases i,
{
    broadcast use vstd::multiset::group_multiset_axioms, vstd::seq_lib::to_multiset_build;
    broadcast use vstd::seq_lib::to_multiset_contains;

    if i == 0 {
        assert forall|c: nat| c < 8 implies dealt_cascade(seed, 0, c) =~= Seq::<Card>::empty() by {}
        assert(dealt_seq(seed, 0) =~= Seq::<Card>::empty());
        assert(dealt_cascades_cards(seed, 0) =~= Multiset::<Card>::empty());
    } else {
        let k = (i - 1) as nat;
        lemma_cascades_accounting(seed, k);
        lemma_dealt_step(seed, k, 0);
        lemma_dealt_step(seed, k, 1);
        lemma_dealt_step(seed, k, 2);
        lemma_dealt_step(seed, k, 3);
        lemma_dealt_step(seed, k, 4);
        lemma_dealt_step(seed, k, 5);
        lemma_dealt_step(seed, k, 6);
        lemma_dealt_step(seed, k, 7);
        assert(dealt_seq(seed, i) =~= dealt_seq(seed, k).push(dealt(seed, k)));
        assert(dealt_cascades_cards(seed, i) =~= dealt_cascades_cards(seed, k).insert(dealt(seed, k)));
    }
}

/// The fresh deck holds each standard card exactly once and nothing else.
proof fn lemma_fresh_deck_cards(card: Card)
    ensures
        fresh_deck().to_multiset().count(card) == if standard_card(card) { 1nat } else { 0nat },
{
    broadcast use vstd::seq_lib::to_multiset_contains;

    let d = fresh_deck();
    assert(d.no_duplicates()) by {
        assert forall|a: int, b: int| 0 <= a < d.len() && 0 <= b < d.len() && a != b implies d[a] != d[b] by {
            if a / 4 == b / 4 {
                assert(a % 4 != b % 4);
                assert(suit_index(d[a].suit) == a % 4);
                assert(suit_index(d[b].suit) == b % 4);
            } else {
                assert(d[a].rank == a / 4 + 1);
                assert(d[b].rank == b / 4 + 1);
            }
        }
    }
    d.lemma_multiset_has_no_duplicates();
    if standard_card(card) {
        let n = (card.rank - 1) * 4 + suit_index(card.suit);
        assert(d[n] == card);
        assert(d.contains(card));
    } else {
        assert(!d.contains(card)) by {
            if d.contains(card) {
                let n = choose|n: int| 0 <= n < d.len() && d[n] == card;
                assert(d[n].rank == n / 4 + 1);
            }
        }
    }
}

/// Every numbered deal puts each of the 52 standard cards on the cascades
/// exactly once (and no other card), seven cards on each of the first four
/// cascades and six on each of the others.
pub proof fn lemma_deal_deals_each_card_once(seed: u32)
    ensures
        forall|card: Card| #[trigger] cascade_cards(spec_deal(seed)).count(card) == if standard_card(card) { 1nat } else { 0nat },
        forall|c: int| 0 <= c < 8 ==> #[trigger] spec_deal(seed).cascades[c].len() == if c < 4 { 7nat } else { 6nat },
{
    lemma_deck_accounting(seed, 52);
    lemma_cascades_accounting(seed, 52);
    assert(deck_after(seed, 52).take(0) =~= Seq::<Card>::empty());
    broadcast use vstd::multiset::group_multiset_axioms;
    broadcast use vstd::seq_lib::to_multiset_contains;
    assert(Seq::<Card>::empty().to_multiset() =~= Multiset::<Card>::empty());
    assert(dealt_seq(seed, 52).to_multiset() =~= fresh_deck().to_multiset());
    assert(cascade_cards(spec_deal(seed)) =~= dealt_cascades_cards(seed, 52));
    assert forall|card: Card| #[trigger] cascade_cards(spec_deal(seed)).count(card) == if standard_card(card) { 1nat } else { 0nat } by {
        lemma_fresh_deck_cards(card);
    }
}

/// A classic deal number, 1 to 32000, drawn from a clock reading.
pub fn classic_deal_number(nanos: u32) -> (r: u32)
    ensures
        r == nanos % 32000 + 1,
        1 <= r <= 32000,
{
    nanos % 32000 + 1
}

} // verus!
