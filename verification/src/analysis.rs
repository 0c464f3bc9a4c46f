//! Hints and post-game self-analysis, built on the solver: suggest a move
//! during play, and grade an attempt against the solver's best line, where
//! it went wrong, and which foundations stalled.
use vstd::prelude::*;
use crate::card::Loc;
use crate::game::{Game, GameModel};
use crate::solver::{self, no_home_move, no_move_at_all, reports, safe_autoplay, search, wins, Solvability, SolverConfig};
use crate::state::{is_won, pow2, GameState, Position};

verus! {

/// The search budget [`hint`] uses: small enough to stay responsive, at the
/// cost of occasionally finding nothing on a genuinely hard position.
fn hint_config() -> (c: SolverConfig)
    ensures
        c.max_states == 20_000,
{
    SolverConfig { max_states: 20_000 }
}

/// The move [`hint`] suggests: the first move of the line the search with
/// the interactive budget finds, if it finds one with any move in it.
pub open spec fn spec_hint(p: Position) -> Option<(Loc, Loc)> {
    let (o, _, _, line) = search(p, 20_000);
    if o is Solved && line.len() > 0 {
        Some(line[0])
    } else {
        None
    }
}

/// The hint searches with the full interactive budget: whenever a search
/// with at most 20,000 candidate moves finds a winning line with a move in
/// it, the hint is that line's first move.
pub proof fn lemma_hint_sees_every_line_within_budget(p: Position, budget: nat)
    requires
        budget <= 20_000,
        search(p, budget).0 is Solved,
        search(p, budget).3.len() > 0,
    ensures
        spec_hint(p) == Some(search(p, budget).3[0]),
{
    solver::lemma_search_budget_monotone(p, budget, 20_000);
}

/// The hint gives up only where the budget does: if a search with at least
/// 20,000 candidate moves still runs out of budget, there is no hint.
pub proof fn lemma_no_hint_when_budget_runs_out(p: Position, budget: nat)
    requires
        budget >= 20_000,
        search(p, budget).0 is BudgetExceeded,
    ensures
        spec_hint(p) is None,
{
    if !(search(p, 20_000).0 is BudgetExceeded) {
        solver::lemma_search_budget_monotone(p, 20_000, budget);
    }
}

/// Suggest a next move for `state`: the first move of a winning line the
/// solver found, or `None` if the search was inconclusive within the
/// interactive budget or the position cannot be won.
pub fn hint(state: &GameState) -> (r: Option<(Loc, Loc)>)
    ensures
        r matches Some(m) ==> exists|line: Seq<(Loc, Loc)>| line.len() > 0 && line[0] == m && wins(state@, line),
        is_won(state@) && no_home_move(state@) ==> r is None,
        !is_won(state@) && no_move_at_all(state@) ==> r is None,
        is_won(safe_autoplay(state@).0) && safe_autoplay(state@).1.len() > 0 ==> r == Some(
            safe_autoplay(state@).1[0],
        ),
        r == spec_hint(state@),
{
    match solver::solve_with_config(state, hint_config()) {
        Solvability::Solvable(moves) => {
            if moves.len() > 0 {
                let m = moves[0];
                proof {
                    assert(moves@[0] == m);
                }
                Some(m)
            } else {
                None
            }
        },
        Solvability::Unsolvable | Solvability::Unknown => None,
    }
}

/// A post-game (or post-abandonment) self-analysis report.
#[derive(Debug, Clone, PartialEq, Eq)]
pub struct GameReport {
    /// How many moves have been played in this attempt.
    pub moves_played: usize,
    /// The solver's assessment of the original deal, before any moves.
    pub best_line: Solvability,
    /// The index into the attempt's positions (0 = the original deal) of the
    /// first position that was no longer winnable, or `None` when the final
    /// position is still winnable or the search was inconclusive.
    pub first_unsolvable_move: Option<usize>,
    /// The final position's foundation ranks: which foundations stalled.
    pub foundations: [u8; 4],
}

/// Position `i` of an attempt: its history oldest first, then the current
/// position.
pub open spec fn attempt_position(g: GameModel, i: int) -> Position {
    if i < g.past.len() {
        g.past[i]
    } else {
        g.state
    }
}

fn position_at(game: &Game, i: usize) -> (r: &GameState)
    requires
        i <= game@.past.len(),
    ensures
        r@ == attempt_position(game@, i as int),
{
    let history = game.history();
    if i < history.len() {
        proof {
            assert(crate::game::views(history@)[i as int] == history@[i as int]@);
        }
        &history[i]
    } else {
        game.state()
    }
}

/// The binary search between `lo` and `hi`, given which indices a probe
/// calls unsolvable (`uns`) and which it cannot decide (`unk`): an
/// unsolvable middle moves `hi` down to it, an undecided one gives up, and
/// any other moves `lo` past it.
pub open spec fn bisect_from(uns: spec_fn(int) -> bool, unk: spec_fn(int) -> bool, lo: int, hi: int) -> Option<usize>
    decreases hi - lo,
{
    if lo >= hi {
        Some(lo as usize)
    } else {
        let mid = lo + (hi - lo) / 2;
        if uns(mid) {
            bisect_from(uns, unk, lo, mid)
        } else if unk(mid) {
            None
        } else {
            bisect_from(uns, unk, mid + 1, hi)
        }
    }
}

/// [`bisect_unsolvable_boundary`]'s answer for indices `0..len`: `None`
/// unless the last index is unsolvable, else the binary search over all.
pub open spec fn spec_bisect(uns: spec_fn(int) -> bool, unk: spec_fn(int) -> bool, len: int) -> Option<usize> {
    if !uns(len - 1) {
        None
    } else {
        bisect_from(uns, unk, 0, len - 1)
    }
}

/// How many probes the binary search between `lo` and `hi` makes.
pub open spec fn bisect_probes_from(uns: spec_fn(int) -> bool, unk: spec_fn(int) -> bool, lo: int, hi: int) -> nat
    decreases hi - lo,
{
    if lo >= hi {
        0
    } else {
        let mid = lo + (hi - lo) / 2;
        1 + if uns(mid) {
            bisect_probes_from(uns, unk, lo, mid)
        } else if unk(mid) {
            0
        } else {
            bisect_probes_from(uns, unk, mid + 1, hi)
        }
    }
}

/// How many probes [`bisect_unsolvable_boundary`] makes for indices
/// `0..len`: the last index first, then the binary search.
pub open spec fn bisect_probes(uns: spec_fn(int) -> bool, unk: spec_fn(int) -> bool, len: int) -> nat {
    1 + if !uns(len - 1) { 0 } else { bisect_probes_from(uns, unk, 0, len - 1) }
}

proof fn lemma_bisect_probes_from(uns: spec_fn(int) -> bool, unk: spec_fn(int) -> bool, lo: int, hi: int, k: nat)
    requires
        lo <= hi,
        hi - lo + 1 <= pow2(k),
    ensures
        bisect_probes_from(uns, unk, lo, hi) <= k,
    decreases hi - lo,
{
    if lo < hi {
        let mid = lo + (hi - lo) / 2;
        assert(k > 0) by {
            if k == 0 {
                assert(pow2(0) == 1);
            }
        }
        assert(pow2(k) == 2 * pow2((k - 1) as nat));
        lemma_bisect_probes_from(uns, unk, lo, mid, (k - 1) as nat);
        if mid + 1 <= hi {
            lemma_bisect_probes_from(uns, unk, mid + 1, hi, (k - 1) as nat);
        }
    }
}

/// The binary search makes at most `1 + k` probes over `len <= 2^k`
/// indices: one for the last index and at most one per halving.
pub proof fn lemma_bisect_probes_bounded(uns: spec_fn(int) -> bool, unk: spec_fn(int) -> bool, len: int, k: nat)
    requires
        1 <= len <= pow2(k),
    ensures
        bisect_probes(uns, unk, len) <= 1 + k,
{
    lemma_bisect_probes_from(uns, unk, 0, len - 1, k);
}

/// Every result `probe` may give for an index below `len` is unsolvable
/// exactly where `uns` says and undecided exactly where `unk` says.
pub open spec fn probe_follows<F: FnMut(usize) -> Solvability>(
    probe: F,
    len: usize,
    uns: spec_fn(int) -> bool,
    unk: spec_fn(int) -> bool,
) -> bool {
    forall|i: usize, x: Solvability|
        i < len && #[trigger] call_ensures(probe, (i,), x) ==> ((x is Unsolvable) == uns(i as int) && (x
            is Unknown) == unk(i as int))
}

/// Which positions of the attempt the default-budget search calls
/// unsolvable.
pub open spec fn unsolvable_at(g: GameModel) -> spec_fn(int) -> bool {
    |i: int| search(attempt_position(g, i), 20_000_000).0 is Exhausted
}

/// Which positions of the attempt the default-budget search cannot decide.
pub open spec fn undecided_at(g: GameModel) -> spec_fn(int) -> bool {
    |i: int| search(attempt_position(g, i), 20_000_000).0 is BudgetExceeded
}

/// The first position of the attempt the solver calls unsolvable, as the
/// binary search over the attempt's positions finds it.
pub open spec fn spec_first_unsolvable(g: GameModel) -> Option<usize> {
    spec_bisect(unsolvable_at(g), undecided_at(g), g.past.len() + 1int)
}

/// Grade `game`'s current attempt (from its last deal or restart to now),
/// whether it has been won, lost, or is still in progress.
pub fn grade(game: &Game) -> (r: GameReport)
    requires
        game@.past.len() < usize::MAX,
    ensures
        r.moves_played == game@.past.len(),
        r.foundations@ == game@.state.foundations,
        r.best_line matches Solvability::Solvable(line) ==> wins(attempt_position(game@, 0), line@),
        r.first_unsolvable_move matches Some(k) ==> k <= game@.past.len() && (k > 0 ==> exists|line: Seq<
            (Loc, Loc),
        >| #[trigger] wins(attempt_position(game@, k - 1), line)),
        is_won(attempt_position(game@, 0)) && no_home_move(attempt_position(game@, 0)) ==> (
        r.best_line matches Solvability::Solvable(line) && line@.len() == 0),
        !is_won(attempt_position(game@, 0)) && no_move_at_all(attempt_position(game@, 0))
            ==> r.best_line is Unsolvable,
        is_won(game@.state) && no_home_move(game@.state) ==> r.first_unsolvable_move is None,
        reports(r.best_line, attempt_position(game@, 0), 20_000_000),
        r.first_unsolvable_move == spec_first_unsolvable(game@),
{
    let moves_played = game.moves_played();
    let best_line = solver::solve(position_at(game, 0));
    let first_unsolvable_move = first_unsolvable_move(game);
    let foundations = *game.foundations();
    GameReport { moves_played, best_line, first_unsolvable_move, foundations }
}

/// Binary search the attempt's positions for the first one the solver
/// reports unsolvable.
fn first_unsolvable_move(game: &Game) -> (r: Option<usize>)
    requires
        game@.past.len() < usize::MAX,
    ensures
        r matches Some(k) ==> k <= game@.past.len() && (k > 0 ==> exists|line: Seq<(Loc, Loc)>|
            #[trigger] wins(attempt_position(game@, k - 1), line)),
        r matches Some(k) ==> !is_won(safe_autoplay(attempt_position(game@, k as int)).0),
        is_won(game@.state) && no_home_move(game@.state) ==> r is None,
        is_won(safe_autoplay(game@.state).0) ==> r is None,
        game@.past.len() == 0 && !is_won(game@.state) && no_move_at_all(game@.state) ==> r == Some(
            0usize,
        ),
        r == spec_first_unsolvable(game@),
{
    let len = game.moves_played() + 1;
    let probe = |i: usize| -> (s: Solvability)
        requires
            i < len,
            len == game@.past.len() + 1,
        ensures
            s matches Solvability::Solvable(line) ==> wins(attempt_position(game@, i as int), line@),
            is_won(attempt_position(game@, i as int)) && no_home_move(attempt_position(game@, i as int))
                ==> s is Solvable,
            is_won(safe_autoplay(attempt_position(game@, i as int)).0) ==> s is Solvable,
            !is_won(attempt_position(game@, i as int)) && no_move_at_all(attempt_position(game@, i as int))
                ==> s is Unsolvable,
            reports(s, attempt_position(game@, i as int), 20_000_000),
        { solver::solve(position_at(game, i)) };
    let r = bisect_unsolvable_boundary(len, probe);
    proof {
        assert(probe_follows(probe, len, unsolvable_at(game@), undecided_at(game@)));
    }
    proof {
        if let Some(k) = r {
            if k > 0 {
                let line = choose|m: Vec<(Loc, Loc)>|
                    call_ensures(probe, ((k - 1) as usize,), Solvability::Solvable(m));
                assert(wins(attempt_position(game@, k - 1), line@));
            }
        }
    }
    proof {
        if r is Some {
            assert(call_ensures(probe, ((len - 1) as usize,), Solvability::Unsolvable));
            assert(attempt_position(game@, (len - 1) as int) == game@.state);
        }
        if let Some(k) = r {
            assert(call_ensures(probe, (k,), Solvability::Unsolvable));
        }
    }
    r
}

/// Binary search indices `0..len` for the first one whose `probe` returns
/// `Unsolvable`, relying on solvability never coming back along real play.
/// Returns `None` if the last index is not unsolvable, or if a probe the
/// search needs is inconclusive (`Unknown`).
///
/// A returned `k` was probed `Unsolvable`, and `k - 1` (if any) was probed
/// `Solvable`: for a probe that is monotone along the indices, exactly the
/// first unsolvable index.
pub fn bisect_unsolvable_boundary(len: usize, mut probe: impl FnMut(usize) -> Solvability) -> (r:
    Option<usize>)
    requires
        len > 0,
        forall|i: usize| i < len ==> call_requires(probe, (i,)),
    ensures
        r matches Some(k) ==> {
            &&& k < len
            &&& call_ensures(probe, ((len - 1) as usize,), Solvability::Unsolvable)
            &&& call_ensures(probe, (k,), Solvability::Unsolvable)
            &&& k > 0 ==> exists|line: Vec<(Loc, Loc)>|
                call_ensures(probe, ((k - 1) as usize,), Solvability::Solvable(line))
        },
        len == 1 ==> r == Some(0usize) || exists|x: Solvability|
            !(x is Unsolvable) && #[trigger] call_ensures(probe, (0usize,), x),
        forall|uns: spec_fn(int) -> bool, unk: spec_fn(int) -> bool|
            #[trigger] probe_follows(probe, len, uns, unk) ==> r == spec_bisect(uns, unk, len as int),
        r is None ==> (exists|x: Solvability|
            !(x is Unsolvable) && #[trigger] call_ensures(probe, ((len - 1) as usize,), x)) || (exists|i: usize|
            i < len && #[trigger] call_ensures(probe, (i,), Solvability::Unknown)),
{
    let ghost p0 = probe;
    let last = probe(len - 1);
    proof {
        assert(call_ensures(p0, ((len - 1) as usize,), last));
    }
    if !matches!(last, Solvability::Unsolvable) {
        proof {
            assert forall|uns: spec_fn(int) -> bool, unk: spec_fn(int) -> bool|
                #[trigger] probe_follows(p0, len, uns, unk) implies None::<usize> == spec_bisect(
                uns,
                unk,
                len as int,
            ) by {
                assert(call_ensures(p0, ((len - 1) as usize,), last));
            }
        }
        return None;
    }
    let mut lo: usize = 0;
    let mut hi: usize = len - 1;
    #[verifier::loop_isolation(false)]
    while lo < hi
        invariant
            lo <= hi < len,
            probe == p0,
            forall|i: usize| i < len ==> call_requires(probe, (i,)),
            call_ensures(p0, (hi,), Solvability::Unsolvable),
            call_ensures(p0, ((len - 1) as usize,), Solvability::Unsolvable),
            forall|uns: spec_fn(int) -> bool, unk: spec_fn(int) -> bool|
                #[trigger] probe_follows(p0, len, uns, unk) ==> spec_bisect(uns, unk, len as int)
                    == bisect_from(uns, unk, lo as int, hi as int),
            lo > 0 ==> exists|line: Vec<(Loc, Loc)>|
                call_ensures(p0, ((lo - 1) as usize,), Solvability::Solvable(line)),
        decreases hi - lo,
    {
        let mid = lo + (hi - lo) / 2;
        let answer = probe(mid);
        proof {
            assert(call_ensures(p0, (mid,), answer));
        }
        match answer {
            Solvability::Unsolvable => {
                hi = mid;
            },
            Solvability::Solvable(line) => {
                proof {
                    assert(call_ensures(p0, (((mid + 1) - 1) as usize,), Solvability::Solvable(line)));
                }
                lo = mid + 1;
            },
            Solvability::Unknown => {
                proof {
                    assert(call_ensures(probe, (mid,), Solvability::Unknown));
                }
                return None;
            },
        }
    }
    Some(lo)
}

} // verus!
