//! Classic FreeCell statistics: games played, won and lost, current and
//! longest winning and losing streaks, and per-deal history, all computed
//! from the history of finished games in play order.
use vstd::prelude::*;

verus! {

/// One finished game: which numbered deal it was, whether it was won, and
/// how many moves it took.
#[derive(Debug, Clone, Copy, PartialEq, Eq, Structural)]
pub struct GameResult {
    pub seed: u32,
    pub won: bool,
    pub moves: u32,
}

/// The outcome and length of the run of games at the end of the history.
/// `NoGames` only when no games have been recorded yet.
#[derive(Debug, Clone, Copy, PartialEq, Eq, Structural)]
pub enum Streak {
    Winning(u32),
    Losing(u32),
    NoGames,
}

/// How many games in `s` were won.
pub open spec fn count_won(s: Seq<GameResult>) -> nat
    decreases s.len(),
{
    if s.len() == 0 {
        0
    } else {
        count_won(s.drop_last()) + if s.last().won { 1nat } else { 0nat }
    }
}

/// The length of the run of games with outcome `won` at the end of `s`.
pub open spec fn run_at_end(s: Seq<GameResult>, won: bool) -> nat
    decreases s.len(),
{
    if s.len() == 0 || s.last().won != won {
        0
    } else {
        run_at_end(s.drop_last(), won) + 1
    }
}

/// The longest run of consecutive games with outcome `won` anywhere in `s`.
pub open spec fn longest_run(s: Seq<GameResult>, won: bool) -> nat
    decreases s.len(),
{
    if s.len() == 0 {
        0
    } else {
        let earlier = longest_run(s.drop_last(), won);
        let here = run_at_end(s, won);
        if earlier < here { here } else { earlier }
    }
}

/// The streak still in progress at the end of `s`.
pub open spec fn spec_current_streak(s: Seq<GameResult>) -> Streak {
    if s.len() == 0 {
        Streak::NoGames
    } else if s.last().won {
        Streak::Winning(run_at_end(s, true) as u32)
    } else {
        Streak::Losing(run_at_end(s, false) as u32)
    }
}

/// The games of `s` with deal number `seed`, in order.
pub open spec fn games_of_deal(s: Seq<GameResult>, seed: u32) -> Seq<GameResult>
    decreases s.len(),
{
    if s.len() == 0 {
        s
    } else if s.last().seed == seed {
        games_of_deal(s.drop_last(), seed).push(s.last())
    } else {
        games_of_deal(s.drop_last(), seed)
    }
}

/// The classic statistics, computed from the complete history of finished
/// games in play order.
#[derive(Debug, Clone, PartialEq)]
pub struct Stats {
    history: Vec<GameResult>,
}

impl View for Stats {
    type V = Seq<GameResult>;

    closed spec fn view(&self) -> Seq<GameResult> {
        self.history@
    }
}

impl Default for Stats {
    fn default() -> (s: Stats)
        ensures
            s@ == Seq::<GameResult>::empty(),
    {
        Stats { history: Vec::new() }
    }
}

proof fn lemma_count_won_bound(s: Seq<GameResult>)
    ensures
        count_won(s) <= s.len(),
    decreases s.len(),
{
    if s.len() > 0 {
        lemma_count_won_bound(s.drop_last());
    }
}

proof fn lemma_run_bound(s: Seq<GameResult>, won: bool)
    ensures
        run_at_end(s, won) <= s.len(),
        longest_run(s, won) <= s.len(),
    decreases s.len(),
{
    if s.len() > 0 {
        lemma_run_bound(s.drop_last(), won);
    }
}

/// Every game of `s` from index `i` up to (not including) `j` has outcome
/// `won`.
pub open spec fn block_of(s: Seq<GameResult>, won: bool, i: int, j: int) -> bool {
    forall|k: int| i <= k < j ==> (#[trigger] s[k]).won == won
}

proof fn lemma_run_at_end_block(s: Seq<GameResult>, won: bool)
    ensures
        run_at_end(s, won) <= s.len(),
        block_of(s, won, s.len() - run_at_end(s, won), s.len() as int),
        forall|i: int| 0 <= i <= s.len() && block_of(s, won, i, s.len() as int) ==> s.len() - i
            <= run_at_end(s, won),
    decreases s.len(),
{
    if s.len() > 0 {
        let t = s.drop_last();
        lemma_run_at_end_block(t, won);
        assert forall|k: int| 0 <= k < t.len() implies t[k] == s[k] by {}
        assert forall|i: int| 0 <= i <= s.len() && block_of(s, won, i, s.len() as int) implies s.len() - i
            <= run_at_end(s, won) by {
            if i < s.len() {
                assert(s[s.len() - 1].won == won);
                assert(block_of(t, won, i, t.len() as int)) by {
                    assert forall|k: int| i <= k < t.len() implies (#[trigger] t[k]).won == won by {
                        assert(s[k].won == won);
                    }
                }
            }
        }
        if s.last().won == won {
            assert forall|k: int| s.len() - run_at_end(s, won) <= k < s.len() implies (#[trigger] s[k]).won
                == won by {
                if k < s.len() - 1 {
                    assert(t[k].won == won);
                }
            }
        }
    }
}

/// The longest run is the longest block of consecutive games with that
/// outcome: no such block is longer, and one is exactly that long.
pub proof fn lemma_longest_run_is_longest_block(s: Seq<GameResult>, won: bool)
    ensures
        forall|i: int, j: int| 0 <= i <= j <= s.len() && block_of(s, won, i, j) ==> j - i <= longest_run(
            s,
            won,
        ),
        exists|i: int, j: int|
            0 <= i <= j <= s.len() && j - i == longest_run(s, won) && #[trigger] block_of(s, won, i, j),
    decreases s.len(),
{
    if s.len() == 0 {
        assert(block_of(s, won, 0, 0));
    } else {
        let t = s.drop_last();
        lemma_longest_run_is_longest_block(t, won);
        lemma_run_at_end_block(s, won);
        assert forall|k: int| 0 <= k < t.len() implies t[k] == s[k] by {}
        assert forall|i: int, j: int| 0 <= i <= j <= s.len() && block_of(s, won, i, j) implies j - i
            <= longest_run(s, won) by {
            if j == s.len() {
            } else {
                assert(block_of(t, won, i, j)) by {
                    assert forall|k: int| i <= k < j implies (#[trigger] t[k]).won == won by {
                        assert(s[k].won == won);
                    }
                }
            }
        }
        let earlier = longest_run(t, won);
        let here = run_at_end(s, won);
        if earlier < here {
            assert(block_of(s, won, s.len() - here, s.len() as int));
        } else {
            let (i, j) = choose|i: int, j: int|
                0 <= i <= j <= t.len() && j - i == earlier && #[trigger] block_of(t, won, i, j);
            assert(block_of(s, won, i, j)) by {
                assert forall|k: int| i <= k < j implies (#[trigger] s[k]).won == won by {
                    assert(t[k].won == won);
                }
            }
        }
    }
}

/// The longest streak of an outcome is at least as long as the streak of it
/// in progress: a reset of the current streak never erases the record.
pub proof fn lemma_longest_covers_current(s: Seq<GameResult>, won: bool)
    ensures
        run_at_end(s, won) <= longest_run(s, won),
{
}

/// Every game recorded is either won or lost.
pub proof fn lemma_won_and_lost_partition(s: Seq<GameResult>)
    ensures
        count_won(s) + (s.len() - count_won(s)) == s.len(),
        count_won(s) <= s.len(),
{
    lemma_count_won_bound(s);
}

impl Stats {
    /// The recorded games, in play order.
    pub fn history(&self) -> (r: &[GameResult])
        ensures
            r@ == self@,
    {
        self.history.as_slice()
    }

    /// Record one finished game. Games must be recorded in play order.
    pub fn record(&mut self, result: GameResult)
        ensures
            final(self)@ == old(self)@.push(result),
    {
        self.history.push(result);
    }

    pub fn games_played(&self) -> (r: usize)
        ensures
            r == self@.len(),
    {
        self.history.len()
    }

    pub fn games_won(&self) -> (r: usize)
        ensures
            r == count_won(self@),
    {
        let mut won: usize = 0;
        let mut i: usize = 0;
        while i < self.history.len()
            invariant
                i <= self@.len(),
                won == count_won(self@.take(i as int)),
                won <= i,
            decreases self@.len() - i,
        {
            proof {
                assert(self@.take(i + 1).drop_last() =~= self@.take(i as int));
            }
            if self.history[i].won {
                won = won + 1;
            }
            i = i + 1;
        }
        proof {
            assert(self@.take(self@.len() as int) =~= self@);
        }
        won
    }

    pub fn games_lost(&self) -> (r: usize)
        ensures
            r == self@.len() - count_won(self@),
    {
        proof {
            lemma_count_won_bound(self@);
        }
        self.games_played() - self.games_won()
    }

    /// The outcome and length of the run of identical outcomes at the end
    /// of the history: the streak still in progress.
    pub fn current_streak(&self) -> (r: Streak)
        requires
            self@.len() <= u32::MAX,
        ensures
            r == spec_current_streak(self@),
    {
        let n = self.history.len();
        if n == 0 {
            return Streak::NoGames;
        }
        let last = self.history[n - 1].won;
        let mut len: usize = 1;
        while len < n && self.history[n - 1 - len].won == last
            invariant
                n == self@.len(),
                1 <= len <= n,
                last == self@.last().won,
                run_at_end(self@, last) == len + run_at_end(self@.take(n - len), last),
            decreases n - len,
        {
            proof {
                let t = self@.take(n - len);
                assert(t.drop_last() =~= self@.take(n - len - 1));
            }
            len = len + 1;
        }
        proof {
            let t = self@.take(n - len);
            if len < n {
                assert(t.last() == self@[n - 1 - len]);
            } else {
                assert(t.len() == 0);
            }
            assert(run_at_end(self@.take(n as int - 1), last) + 1 == run_at_end(self@, last)) by {
                assert(self@.drop_last() =~= self@.take(n as int - 1));
            }
            assert(self@.take(n as int) =~= self@);
        }
        if last {
            Streak::Winning(len as u32)
        } else {
            Streak::Losing(len as u32)
        }
    }

    /// The longest run of consecutive wins anywhere in the history.
    pub fn longest_winning_streak(&self) -> (r: u32)
        requires
            self@.len() <= u32::MAX,
        ensures
            r == longest_run(self@, true),
    {
        self.longest_streak(true)
    }

    /// The longest run of consecutive losses anywhere in the history.
    pub fn longest_losing_streak(&self) -> (r: u32)
        requires
            self@.len() <= u32::MAX,
        ensures
            r == longest_run(self@, false),
    {
        self.longest_streak(false)
    }

    fn longest_streak(&self, won: bool) -> (r: u32)
        requires
            self@.len() <= u32::MAX,
        ensures
            r == longest_run(self@, won),
    {
        let mut longest: u32 = 0;
        let mut current: u32 = 0;
        let mut i: usize = 0;
        while i < self.history.len()
            invariant
                i <= self@.len() <= u32::MAX,
                current == run_at_end(self@.take(i as int), won),
                longest == longest_run(self@.take(i as int), won),
            decreases self@.len() - i,
        {
            proof {
                assert(self@.take(i + 1).drop_last() =~= self@.take(i as int));
                lemma_run_bound(self@.take(i as int), won);
            }
            if self.history[i].won == won {
                current = current + 1;
                if longest < current {
                    longest = current;
                }
            } else {
                current = 0;
            }
            i = i + 1;
        }
        proof {
            assert(self@.take(self@.len() as int) =~= self@);
        }
        longest
    }

    /// Every recorded attempt of numbered deal `seed`, in play order.
    pub fn deal_history(&self, seed: u32) -> (r: Vec<&GameResult>)
        ensures
            r@.len() == games_of_deal(self@, seed).len(),
            forall|i: int| 0 <= i < r@.len() ==> *r@[i] == games_of_deal(self@, seed)[i],
    {
        let mut out: Vec<&GameResult> = Vec::new();
        let mut i: usize = 0;
        while i < self.history.len()
            invariant
                i <= self@.len(),
                out@.len() == games_of_deal(self@.take(i as int), seed).len(),
                forall|k: int| 0 <= k < out@.len() ==> *out@[k] == games_of_deal(self@.take(i as int), seed)[k],
            decreases self@.len() - i,
        {
            proof {
                assert(self@.take(i + 1).drop_last() =~= self@.take(i as int));
            }
            if self.history[i].seed == seed {
                out.push(&self.history[i]);
            }
            i = i + 1;
        }
        proof {
            assert(self@.take(self@.len() as int) =~= self@);
        }
        out
    }
}


/// How many moves wide each bar of the move-count distribution is.
pub const MOVES_PER_BUCKET: u32 = 10;

/// The most moves any game of `s` took; 0 for no games.
pub open spec fn max_moves(s: Seq<GameResult>) -> nat
    decreases s.len(),
{
    if s.len() == 0 {
        0
    } else {
        let earlier = max_moves(s.drop_last());
        if earlier < s.last().moves { s.last().moves as nat } else { earlier }
    }
}

/// How many games of `s` with outcome `won` took a number of moves that
/// falls in bucket `b` (moves `10 * b` to `10 * b + 9`).
pub open spec fn count_in_bucket(s: Seq<GameResult>, won: bool, b: int) -> nat
    decreases s.len(),
{
    if s.len() == 0 {
        0
    } else {
        count_in_bucket(s.drop_last(), won, b) + if s.last().won == won && s.last().moves
            / MOVES_PER_BUCKET == b {
            1nat
        } else {
            0nat
        }
    }
}

proof fn lemma_max_moves_bounds(s: Seq<GameResult>)
    ensures
        max_moves(s) <= u32::MAX,
        forall|k: int| 0 <= k < s.len() ==> (#[trigger] s[k]).moves <= max_moves(s),
    decreases s.len(),
{
    if s.len() > 0 {
        lemma_max_moves_bounds(s.drop_last());
        assert forall|k: int| 0 <= k < s.len() implies (#[trigger] s[k]).moves <= max_moves(s) by {
            if k < s.len() - 1 {
                assert(s[k] == s.drop_last()[k]);
            }
        }
    }
}

proof fn lemma_count_in_bucket_bound(s: Seq<GameResult>, won: bool, b: int)
    ensures
        count_in_bucket(s, won, b) <= s.len(),
    decreases s.len(),
{
    if s.len() > 0 {
        lemma_count_in_bucket_bound(s.drop_last(), won, b);
    }
}

/// The move-count distribution of `history`: for each bucket of
/// `MOVES_PER_BUCKET` moves, from 0 up to the bucket of the longest game,
/// how many games in it were won and how many were lost.
pub fn move_count_buckets(history: &[GameResult]) -> (r: (Vec<u32>, Vec<u32>))
    requires
        history@.len() <= u32::MAX,
    ensures
        r.0@.len() == max_moves(history@) / (MOVES_PER_BUCKET as nat) + 1,
        r.1@.len() == r.0@.len(),
        forall|b: int| 0 <= b < r.0@.len() ==> r.0@[b] == count_in_bucket(history@, true, b),
        forall|b: int| 0 <= b < r.1@.len() ==> r.1@[b] == count_in_bucket(history@, false, b),
{
    let mut most: u32 = 0;
    let mut i: usize = 0;
    while i < history.len()
        invariant
            i <= history@.len(),
            most == max_moves(history@.take(i as int)),
        decreases history@.len() - i,
    {
        proof {
            assert(history@.take(i + 1).drop_last() =~= history@.take(i as int));
        }
        if most < history[i].moves {
            most = history[i].moves;
        }
        i = i + 1;
    }
    proof {
        assert(history@.take(history@.len() as int) =~= history@);
        lemma_max_moves_bounds(history@);
    }
    let bucket_count: usize = (most / MOVES_PER_BUCKET) as usize + 1;
    let mut won: Vec<u32> = Vec::new();
    let mut lost: Vec<u32> = Vec::new();
    let mut b: usize = 0;
    while b < bucket_count
        invariant
            b <= bucket_count,
            won@.len() == b,
            lost@.len() == b,
            forall|k: int| 0 <= k < b ==> won@[k] == 0 && lost@[k] == 0,
        decreases bucket_count - b,
    {
        won.push(0);
        lost.push(0);
        b = b + 1;
    }
    let mut i: usize = 0;
    while i < history.len()
        invariant
            i <= history@.len() <= u32::MAX,
            most == max_moves(history@),
            bucket_count == most / MOVES_PER_BUCKET + 1,
            forall|k: int| 0 <= k < history@.len() ==> (#[trigger] history@[k]).moves <= most,
            won@.len() == bucket_count,
            lost@.len() == bucket_count,
            forall|k: int|
                0 <= k < bucket_count ==> won@[k] == count_in_bucket(history@.take(i as int), true, k),
            forall|k: int|
                0 <= k < bucket_count ==> lost@[k] == count_in_bucket(history@.take(i as int), false, k),
        decreases history@.len() - i,
    {
        let g = history[i];
        let bucket: usize = (g.moves / MOVES_PER_BUCKET) as usize;
        proof {
            let prefix = history@.take(i as int);
            assert(history@.take(i + 1).drop_last() =~= prefix);
            assert(history@.take(i + 1).last() == g);
            assert(g.moves <= most);
            assert(g.moves / MOVES_PER_BUCKET <= most / MOVES_PER_BUCKET) by (nonlinear_arith)
                requires
                    g.moves <= most,
            ;
            lemma_count_in_bucket_bound(prefix, true, bucket as int);
            lemma_count_in_bucket_bound(prefix, false, bucket as int);
        }
        if g.won {
            let n = won[bucket] + 1;
            won.set(bucket, n);
        } else {
            let n = lost[bucket] + 1;
            lost.set(bucket, n);
        }
        i = i + 1;
    }
    proof {
        assert(history@.take(history@.len() as int) =~= history@);
    }
    (won, lost)
}

/// The number of games won among the first `k + 1` games of `history`, for
/// every `k`: the running tally the win-rate trend is drawn from.
pub fn running_wins(history: &[GameResult]) -> (r: Vec<u32>)
    requires
        history@.len() <= u32::MAX,
    ensures
        r@.len() == history@.len(),
        forall|k: int| 0 <= k < r@.len() ==> r@[k] == count_won(history@.take(k + 1)),
{
    let mut out: Vec<u32> = Vec::new();
    let mut wins: u32 = 0;
    let mut i: usize = 0;
    while i < history.len()
        invariant
            i <= history@.len() <= u32::MAX,
            out@.len() == i,
            wins == count_won(history@.take(i as int)),
            forall|k: int| 0 <= k < i ==> out@[k] == count_won(history@.take(k + 1)),
        decreases history@.len() - i,
    {
        proof {
            assert(history@.take(i + 1).drop_last() =~= history@.take(i as int));
            lemma_count_won_bound(history@.take(i as int));
        }
        if history[i].won {
            wins = wins + 1;
        }
        out.push(wins);
        i = i + 1;
    }
    out
}

} // verus!
