//! The board as lines of text, as the line-mode interface prints it: a
//! blank line, the game number and move count, the free cells and the
//! foundation piles, a blank line, the column numbers, then one row per
//! card depth of the deepest cascade.
use vstd::prelude::*;
use vstd::string::StringExecFns;
use crate::action::Action;
use crate::card::{loc_char, rank_char, spec_loc_char, spellable, suit_char, suit_of_index, Card};
use crate::game::{Game, GameModel};
use crate::state::{shaped, Position};

verus! {

/// The decimal digit `d`.
pub open spec fn digit_char(d: nat) -> char {
    ('0' as int + d) as char
}

/// `n` written in decimal.
pub open spec fn decimal(n: nat) -> Seq<char>
    decreases n,
{
    if n < 10 {
        seq![digit_char(n)]
    } else {
        decimal(n / 10).push(digit_char(n % 10))
    }
}

/// A card as rank then suit, such as `AS` or `TD`.
pub open spec fn card_text(c: Card) -> Seq<char> {
    seq![rank_char(c.rank as int), suit_char(c.suit)]
}

/// A free cell: its card, or `__` when empty.
pub open spec fn cell_text(c: Option<Card>) -> Seq<char> {
    match c {
        Some(card) => card_text(card),
        None => seq!['_', '_'],
    }
}

/// Foundation pile `i` topped at `rank`: the suit, then the rank or `-`.
pub open spec fn pile_text(i: int, rank: u8) -> Seq<char> {
    seq![suit_char(suit_of_index(i)), if rank == 0 { '-' } else { rank_char(rank as int) }]
}

/// Every card has a rank from ace to king and no pile is past the king:
/// the board can be written.
pub open spec fn writable(p: Position) -> bool {
    &&& shaped(p)
    &&& forall|j: int, k: int|
        0 <= j < 8 && 0 <= k < p.cascades[j].len() ==> 1 <= (#[trigger] p.cascades[j][k]).rank <= 13
    &&& forall|i: int| 0 <= i < 4 ==> (#[trigger] p.freecells[i] matches Some(c) ==> 1 <= c.rank <= 13)
    &&& forall|i: int| 0 <= i < 4 ==> #[trigger] p.foundations[i] <= 13
}

pub open spec fn header_line(g: GameModel) -> Seq<char> {
    "Game #"@ + decimal(
        match g.seed {
            Some(s) => s as nat,
            None => 0,
        },
    ) + "   moves: "@ + decimal(g.past.len())
}

pub open spec fn cells_line(p: Position) -> Seq<char> {
    "free  a:"@ + cell_text(p.freecells[0]) + " b:"@ + cell_text(p.freecells[1]) + " c:"@ + cell_text(
        p.freecells[2],
    ) + " d:"@ + cell_text(p.freecells[3]) + "    home  "@ + pile_text(0, p.foundations[0]) + " "@
        + pile_text(1, p.foundations[1]) + " "@ + pile_text(2, p.foundations[2]) + " "@ + pile_text(
        3,
        p.foundations[3],
    )
}

pub open spec fn numbers_line() -> Seq<char> {
    "   1   2   3   4   5   6   7   8"@
}

/// Depth `k` of the first `n` cascades: each card indented by two spaces,
/// four spaces where a cascade is shorter.
pub open spec fn row_cells(p: Position, k: int, n: nat) -> Seq<char>
    decreases n,
{
    if n == 0 {
        seq![]
    } else {
        row_cells(p, k, (n - 1) as nat) + if k < p.cascades[n - 1].len() {
            "  "@ + card_text(p.cascades[n - 1][k])
        } else {
            "    "@
        }
    }
}

pub open spec fn row_line(p: Position, k: int) -> Seq<char> {
    " "@ + row_cells(p, k, 8)
}

/// The length of the longest of the first `n` cascades.
pub open spec fn max_cascade_len(p: Position, n: nat) -> nat
    decreases n,
{
    if n == 0 {
        0
    } else {
        let earlier = max_cascade_len(p, (n - 1) as nat);
        if earlier < p.cascades[n - 1].len() { p.cascades[n - 1].len() } else { earlier }
    }
}

/// Line `i` of the board of `g`.
pub open spec fn board_line(g: GameModel, i: int) -> Seq<char> {
    if i == 0 || i == 3 {
        seq![]
    } else if i == 1 {
        header_line(g)
    } else if i == 2 {
        cells_line(g.state)
    } else if i == 4 {
        numbers_line()
    } else {
        row_line(g.state, i - 5)
    }
}

fn push_decimal(s: &mut String, n: u64)
    ensures
        final(s)@ == old(s)@ + decimal(n as nat),
    decreases n,
{
    if n >= 10 {
        push_decimal(s, n / 10);
    }
    let d = (48u8 + (n % 10) as u8) as char;
    s.push(d);
    proof {
        if n >= 10 {
            assert(final(s)@ =~= old(s)@ + decimal(n as nat));
        } else {
            assert(final(s)@ =~= old(s)@ + decimal(n as nat));
        }
    }
}

fn push_card(s: &mut String, c: Card)
    requires
        1 <= c.rank <= 13,
    ensures
        final(s)@ == old(s)@ + card_text(c),
{
    s.push(Card::rank_char(c.rank));
    s.push(Card::suit_char(c.suit));
    proof {
        assert(final(s)@ =~= old(s)@ + card_text(c));
    }
}

fn push_cell(s: &mut String, c: Option<Card>)
    requires
        c matches Some(card) ==> 1 <= card.rank <= 13,
    ensures
        final(s)@ == old(s)@ + cell_text(c),
{
    match c {
        Some(card) => push_card(s, card),
        None => {
            s.push('_');
            s.push('_');
            proof {
                assert(final(s)@ =~= old(s)@ + cell_text(c));
            }
        },
    }
}

fn push_pile(s: &mut String, i: usize, rank: u8)
    requires
        i < 4,
        rank <= 13,
    ensures
        final(s)@ == old(s)@ + pile_text(i as int, rank),
{
    s.push(Card::suit_char(crate::card::Suit::from_index(i)));
    if rank == 0 {
        s.push('-');
    } else {
        s.push(Card::rank_char(rank));
    }
    proof {
        assert(final(s)@ =~= old(s)@ + pile_text(i as int, rank));
    }
}

/// The board of `game` as the line-mode interface prints it, one string
/// per line.
pub fn board_lines(game: &Game) -> (r: Vec<String>)
    requires
        writable(game@.state),
    ensures
        r@.len() == 5 + max_cascade_len(game@.state, 8),
        forall|i: int| 0 <= i < r@.len() ==> (#[trigger] r@[i])@ == board_line(game@, i),
{
    let g = Ghost(game@);
    let state = game.state();
    let mut lines: Vec<String> = Vec::new();
    lines.push(String::new());

    let mut header = String::new();
    header.append("Game #");
    let seed: u32 = match game.seed() {
        Some(s) => s,
        None => 0,
    };
    push_decimal(&mut header, seed as u64);
    header.append("   moves: ");
    push_decimal(&mut header, game.moves_played() as u64);
    proof {
        assert(header@ =~= header_line(g@));
    }
    lines.push(header);

    let cells = state.freecells();
    let piles = state.foundations();
    let mut line = String::new();
    line.append("free  a:");
    push_cell(&mut line, cells[0]);
    line.append(" b:");
    push_cell(&mut line, cells[1]);
    line.append(" c:");
    push_cell(&mut line, cells[2]);
    line.append(" d:");
    push_cell(&mut line, cells[3]);
    line.append("    home  ");
    push_pile(&mut line, 0, piles[0]);
    line.append(" ");
    push_pile(&mut line, 1, piles[1]);
    line.append(" ");
    push_pile(&mut line, 2, piles[2]);
    line.append(" ");
    push_pile(&mut line, 3, piles[3]);
    proof {
        assert(line@ =~= cells_line(g@.state));
    }
    lines.push(line);
    lines.push(String::new());
    let mut numbers = String::new();
    numbers.append("   1   2   3   4   5   6   7   8");
    lines.push(numbers);

    let cascades = state.cascades();
    let mut depth: usize = 0;
    let mut j: usize = 0;
    while j < 8
        invariant
            j <= 8,
            g@ == game@,
            forall|k: int| 0 <= k < 8 ==> cascades[k]@ == g@.state.cascades[k],
            depth == max_cascade_len(g@.state, j as nat),
        decreases 8 - j,
    {
        if depth < cascades[j].len() {
            depth = cascades[j].len();
        }
        j = j + 1;
    }

    let mut k: usize = 0;
    while k < depth
        invariant
            k <= depth,
            g@ == game@,
            writable(g@.state),
            depth == max_cascade_len(g@.state, 8),
            forall|c: int| 0 <= c < 8 ==> cascades[c]@ == g@.state.cascades[c],
            lines@.len() == 5 + k,
            forall|i: int| 0 <= i < lines@.len() ==> (#[trigger] lines@[i])@ == board_line(g@, i),
        decreases depth - k,
    {
        let mut row = String::new();
        row.append(" ");
        let ghost start = row@;
        let mut c: usize = 0;
        while c < 8
            invariant
                c <= 8,
                k < depth,
                writable(g@.state),
                forall|x: int| 0 <= x < 8 ==> cascades[x]@ == g@.state.cascades[x],
                row@ == " "@ + row_cells(g@.state, k as int, c as nat),
            decreases 8 - c,
        {
            if k < cascades[c].len() {
                row.append("  ");
                proof {
                    assert(1 <= g@.state.cascades[c as int][k as int].rank <= 13);
                }
                push_card(&mut row, cascades[c][k]);
            } else {
                row.append("    ");
            }
            proof {
                assert(row@ =~= " "@ + row_cells(g@.state, k as int, (c + 1) as nat));
            }
            c = c + 1;
        }
        lines.push(row);
        proof {
            assert(lines@[(5 + k) as int]@ == board_line(g@, 5 + k));
        }
        k = k + 1;
    }
    lines
}

/// An action as the action log shows it: `Deal #617`, `Move 1a`,
/// `AutoPlay`, `Undo`, `Redo`, `Restart`.
pub open spec fn action_text(a: Action) -> Seq<char> {
    match a {
        Action::Deal { seed } => "Deal #"@ + decimal(seed as nat),
        Action::Move { from, to } => "Move "@ + seq![spec_loc_char(from), spec_loc_char(to)],
        Action::AutoPlay => "AutoPlay"@,
        Action::Undo => "Undo"@,
        Action::Redo => "Redo"@,
        Action::Restart => "Restart"@,
    }
}

/// The actions of `acts`, two spaces apart.
pub open spec fn actions_text(acts: Seq<Action>) -> Seq<char>
    decreases acts.len(),
{
    if acts.len() == 0 {
        seq![]
    } else if acts.len() == 1 {
        action_text(acts[0])
    } else {
        actions_text(acts.drop_last()) + "  "@ + action_text(acts.last())
    }
}

/// The last three actions of `log` (fewer when it is shorter).
pub open spec fn recent(log: Seq<Action>) -> Seq<Action> {
    if log.len() <= 3 { log } else { log.subrange(log.len() - 3, log.len() as int) }
}

/// An action can be written: a move's locations have characters.
pub open spec fn action_writable(a: Action) -> bool {
    a matches Action::Move { from, to } ==> spellable(from) && spellable(to)
}

/// The terminal footer: the typed line, the status if any, the last three
/// actions if any, the replay check's message if any, and the help prompt.
pub open spec fn footer_text(
    input: Seq<char>,
    status: Option<Seq<char>>,
    log: Seq<Action>,
    replay: Option<Seq<char>>,
) -> Seq<Seq<char>> {
    seq!["> "@ + input] + match status {
        Some(s) => seq![s],
        None => seq![],
    } + if recent(log).len() > 0 {
        seq!["Log: "@ + actions_text(recent(log))]
    } else {
        seq![]
    } + match replay {
        Some(m) => seq![m],
        None => seq![],
    } + seq!["Press ? for help."@]
}

fn push_action(s: &mut String, a: Action)
    requires
        action_writable(a),
    ensures
        final(s)@ == old(s)@ + action_text(a),
{
    match a {
        Action::Deal { seed } => {
            s.append("Deal #");
            push_decimal(s, seed as u64);
        },
        Action::Move { from, to } => {
            s.append("Move ");
            s.push(loc_char(from));
            s.push(loc_char(to));
        },
        Action::AutoPlay => s.append("AutoPlay"),
        Action::Undo => s.append("Undo"),
        Action::Redo => s.append("Redo"),
        Action::Restart => s.append("Restart"),
    }
    proof {
        assert(final(s)@ =~= old(s)@ + action_text(a));
    }
}

/// The characters of an optional text.
pub open spec fn opt_text(o: Option<&str>) -> Option<Seq<char>> {
    match o {
        Some(t) => Some(t@),
        None => None,
    }
}

/// The footer of the terminal board, one string per line.
pub fn footer_lines(input: &str, status: Option<&str>, log: &[Action], replay: Option<&str>) -> (r: Vec<
    String,
>)
    requires
        forall|i: int| 0 <= i < recent(log@).len() ==> action_writable(#[trigger] recent(log@)[i]),
    ensures
        r@.len() == footer_text(input@, opt_text(status), log@, opt_text(replay)).len(),
        forall|i: int| 0 <= i < r@.len() ==> (#[trigger] r@[i])@ == footer_text(
            input@,
            opt_text(status),
            log@,
            opt_text(replay),
        )[i],
{
    let ghost want = footer_text(input@, opt_text(status), log@, opt_text(replay));
    let mut lines: Vec<String> = Vec::new();
    let mut first = String::new();
    first.append("> ");
    first.append(input);
    lines.push(first);
    let ghost mut expect: Seq<Seq<char>> = seq!["> "@ + input@];
    match status {
        Some(s) => {
            lines.push(s.to_owned());
            proof {
                expect = expect + seq![s@];
            }
        },
        None => {},
    }
    let n = log.len();
    let start: usize = if n <= 3 { 0 } else { n - 3 };
    proof {
        assert(recent(log@) =~= log@.subrange(start as int, n as int));
    }
    if start < n {
        let mut line = String::new();
        line.append("Log: ");
        let ghost head = line@;
        let mut k = start;
        while k < n
            invariant
                start <= k <= n == log@.len(),
                start < n,
                recent(log@) == log@.subrange(start as int, n as int),
                forall|i: int| 0 <= i < recent(log@).len() ==> action_writable(#[trigger] recent(log@)[i]),
                line@ == head + actions_text(log@.subrange(start as int, k as int)),
            decreases n - k,
        {
            if k > start {
                line.append("  ");
            }
            proof {
                assert(recent(log@)[k - start] == log@[k as int]);
            }
            push_action(&mut line, log[k]);
            proof {
                let part = log@.subrange(start as int, k + 1);
                assert(part.drop_last() =~= log@.subrange(start as int, k as int));
                assert(part.last() == log@[k as int]);
                if k == start {
                    assert(part.len() == 1);
                    assert(log@.subrange(start as int, k as int).len() == 0);
                }
                assert(line@ =~= head + actions_text(part));
            }
            k = k + 1;
        }
        lines.push(line);
        proof {
            expect = expect + seq!["Log: "@ + actions_text(recent(log@))];
        }
    }
    match replay {
        Some(m) => {
            lines.push(m.to_owned());
            proof {
                expect = expect + seq![m@];
            }
        },
        None => {},
    }
    let mut last = String::new();
    last.append("Press ? for help.");
    lines.push(last);
    proof {
        expect = expect + seq!["Press ? for help."@];
        assert(expect =~= want);
        assert forall|i: int| 0 <= i < lines@.len() implies (#[trigger] lines@[i])@ == want[i] by {}
    }
    lines
}

} // verus!
