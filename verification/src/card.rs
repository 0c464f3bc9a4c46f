//! Playing cards, board locations, and the two-character move grammar.
use vstd::prelude::*;
use vstd::std_specs::iter::IteratorSpec;

verus! {

/// `String::push` appends one character to the end of the string; this is
/// all that is assumed of it.
pub assume_specification[ String::push ](s: &mut String, ch: char)
    ensures
        final(s)@ == old(s)@.push(ch),
;

/// The four suits, in foundation-index order (clubs, diamonds, hearts, spades).
#[derive(Debug, Clone, Copy, PartialEq, Eq, Hash, Structural)]
pub enum Suit {
    Clubs,
    Diamonds,
    Hearts,
    Spades,
}

/// True for the red suits (diamonds and hearts).
pub open spec fn suit_is_red(s: Suit) -> bool {
    s is Diamonds || s is Hearts
}

/// The foundation pile a suit builds on: clubs 0, diamonds 1, hearts 2, spades 3.
pub open spec fn suit_index(s: Suit) -> int {
    match s {
        Suit::Clubs => 0,
        Suit::Diamonds => 1,
        Suit::Hearts => 2,
        Suit::Spades => 3,
    }
}

/// The suit whose foundation pile is `i` (the inverse of [`suit_index`]).
pub open spec fn suit_of_index(i: int) -> Suit {
    if i == 0 {
        Suit::Clubs
    } else if i == 1 {
        Suit::Diamonds
    } else if i == 2 {
        Suit::Hearts
    } else {
        Suit::Spades
    }
}

impl Suit {
    pub fn is_red(self) -> (r: bool)
        ensures
            r == suit_is_red(self),
    {
        match self {
            Suit::Diamonds | Suit::Hearts => true,
            _ => false,
        }
    }

    /// The foundation pile this suit builds on.
    pub fn index(self) -> (r: usize)
        ensures
            r == suit_index(self),
    {
        match self {
            Suit::Clubs => 0,
            Suit::Diamonds => 1,
            Suit::Hearts => 2,
            Suit::Spades => 3,
        }
    }

    pub(crate) fn from_index(i: usize) -> (r: Suit)
        requires
            i < 4,
        ensures
            r == suit_of_index(i as int),
            suit_index(r) == i,
    {
        if i == 0 {
            Suit::Clubs
        } else if i == 1 {
            Suit::Diamonds
        } else if i == 2 {
            Suit::Hearts
        } else {
            Suit::Spades
        }
    }
}

/// A playing card: rank 1 (ace) through 13 (king) of a suit.
#[derive(Debug, Clone, Copy, PartialEq, Eq, Hash, Structural)]
pub struct Card {
    pub rank: u8,
    pub suit: Suit,
}

/// True when `a` may sit on `b` in a cascade: one rank lower and the
/// opposite color.
pub open spec fn stacks_on(a: Card, b: Card) -> bool {
    a.rank + 1 == b.rank && suit_is_red(a.suit) != suit_is_red(b.suit)
}

impl Card {
    pub fn new(rank: u8, suit: Suit) -> (c: Card)
        requires
            1 <= rank <= 13,
        ensures
            c.rank == rank,
            c.suit == suit,
    {
        Card { rank, suit }
    }

    /// True when `self` may sit on `other` in a cascade.
    pub fn stacks_on(&self, other: &Card) -> (r: bool)
        ensures
            r == stacks_on(*self, *other),
    {
        (self.rank as u16) + 1 == other.rank as u16 && self.suit.is_red() != other.suit.is_red()
    }

    /// The two-character display name, such as `"AS"`, `"TD"` or `"KH"`.
    pub fn name(&self) -> (s: String)
        requires
            1 <= self.rank <= 13,
        ensures
            s@ == seq![rank_char(self.rank as int), suit_char(self.suit)],
    {
        let mut s = String::new();
        s.push(Card::rank_char(self.rank));
        s.push(Card::suit_char(self.suit));
        s
    }

    pub(crate) fn rank_char(rank: u8) -> (c: char)
        requires
            1 <= rank <= 13,
        ensures
            c == rank_char(rank as int),
    {
        match rank {
            1 => 'A',
            2 => '2',
            3 => '3',
            4 => '4',
            5 => '5',
            6 => '6',
            7 => '7',
            8 => '8',
            9 => '9',
            10 => 'T',
            11 => 'J',
            12 => 'Q',
            _ => 'K',
        }
    }

    pub(crate) fn suit_char(suit: Suit) -> (c: char)
        ensures
            c == suit_char(suit),
    {
        match suit {
            Suit::Clubs => 'C',
            Suit::Diamonds => 'D',
            Suit::Hearts => 'H',
            Suit::Spades => 'S',
        }
    }
}

/// The character naming a rank: `A 2 3 4 5 6 7 8 9 T J Q K`.
pub open spec fn rank_char(rank: int) -> char {
    if rank == 1 {
        'A'
    } else if rank == 10 {
        'T'
    } else if rank == 11 {
        'J'
    } else if rank == 12 {
        'Q'
    } else if rank == 13 {
        'K'
    } else {
        (48 + rank) as char
    }
}

/// The character naming a suit: `C D H S`.
pub open spec fn suit_char(s: Suit) -> char {
    match s {
        Suit::Clubs => 'C',
        Suit::Diamonds => 'D',
        Suit::Hearts => 'H',
        Suit::Spades => 'S',
    }
}

/// A move source or destination.
#[derive(Debug, Clone, Copy, PartialEq, Eq, Structural)]
pub enum Loc {
    Cascade(usize),
    Free(usize),
    /// Foundations are addressed collectively; the card's suit picks the pile.
    Foundation,
}

/// Unicode `White_Space`, the set `char::is_whitespace` tests.
pub open spec fn is_white_space(c: char) -> bool {
    ||| '\t' <= c <= '\r'
    ||| c == ' '
    ||| c == '\u{85}'
    ||| c == '\u{A0}'
    ||| c == '\u{1680}'
    ||| '\u{2000}' <= c <= '\u{200A}'
    ||| c == '\u{2028}'
    ||| c == '\u{2029}'
    ||| c == '\u{202F}'
    ||| c == '\u{205F}'
    ||| c == '\u{3000}'
}

pub(crate) fn is_white_space_char(c: char) -> (r: bool)
    ensures
        r == is_white_space(c),
{
    ('\t' <= c && c <= '\r') || c == ' ' || c == '\u{85}' || c == '\u{A0}' || c == '\u{1680}'
        || ('\u{2000}' <= c && c <= '\u{200A}') || c == '\u{2028}' || c == '\u{2029}' || c
        == '\u{202F}' || c == '\u{205F}' || c == '\u{3000}'
}

/// The characters of `s` with all white space removed.
pub open spec fn without_white_space(s: Seq<char>) -> Seq<char>
    decreases s.len(),
{
    if s.len() == 0 {
        s
    } else if is_white_space(s.last()) {
        without_white_space(s.drop_last())
    } else {
        without_white_space(s.drop_last()).push(s.last())
    }
}

/// The location one command character names: `1`-`8` cascades, `a`-`d`
/// free cells, `h` or `f` the foundations.
pub open spec fn loc_of_char(c: char) -> Option<Loc> {
    if '1' <= c <= '8' {
        Some(Loc::Cascade((c as int - '1' as int) as usize))
    } else if 'a' <= c <= 'd' {
        Some(Loc::Free((c as int - 'a' as int) as usize))
    } else if c == 'h' || c == 'f' {
        Some(Loc::Foundation)
    } else {
        None
    }
}

/// The move a command names: exactly two non-blank characters, both
/// locations, the first of them not the foundations.
pub open spec fn spec_parse_move(cmd: Seq<char>) -> Option<(Loc, Loc)> {
    let t = without_white_space(cmd);
    if t.len() == 2 && loc_of_char(t[0]) is Some && loc_of_char(t[1]) is Some && loc_of_char(t[0])
        != Some(Loc::Foundation) {
        Some((loc_of_char(t[0]).unwrap(), loc_of_char(t[1]).unwrap()))
    } else {
        None
    }
}

/// Parse the two-character move command grammar: source then destination,
/// `1`-`8` for cascade columns, `a`-`d` for free cells, `h` or `f` for
/// foundations (e.g. "1a", "35", "ah", "2h"). White space anywhere is
/// ignored. Foundations are never a valid source.
pub fn parse_move(cmd: &str) -> (r: Option<(Loc, Loc)>)
    ensures
        r == spec_parse_move(cmd@),
{
    let mut first: Option<char> = None;
    let mut second: Option<char> = None;
    let mut count: usize = 0;
    let ghost s = cmd@;
    let mut it = cmd.chars();
    let ghost mut k: int = 0;
    proof {
        broadcast use vstd::string::group_string_axioms;
        assert(s.take(0) =~= Seq::<char>::empty());
    }
    loop
        invariant
            0 <= k <= s.len(),
            it.remaining() == s.skip(k),
            count <= 3,
            count == if without_white_space(s.take(k)).len() < 3 { without_white_space(s.take(k)).len() } else { 3 },
            count >= 1 ==> first == Some(without_white_space(s.take(k))[0]),
            count >= 2 ==> second == Some(without_white_space(s.take(k))[1]),
        ensures
            count == if without_white_space(s).len() < 3 { without_white_space(s).len() } else { 3 },
            count >= 1 ==> first == Some(without_white_space(s)[0]),
            count >= 2 ==> second == Some(without_white_space(s)[1]),
        decreases s.len() - k,
    {
        proof {
            broadcast use vstd::string::group_string_axioms;
        }
        let ghost before = it;
        match it.next() {
            None => {
                proof {
                    assert(s.skip(k).len() == 0);
                    assert(s.take(k) =~= s);
                }
                break;
            },
            Some(c) => {
                proof {
                    assert(c == s[k]);
                    assert(s.take(k + 1).drop_last() =~= s.take(k));
                    assert(s.skip(k).drop_first() =~= s.skip(k + 1));
                    k = k + 1;
                }
                if !is_white_space_char(c) {
                    if count == 0 {
                        first = Some(c);
                    } else if count == 1 {
                        second = Some(c);
                    }
                    if count < 3 {
                        count = count + 1;
                    }
                }
            },
        }
    }
    if count != 2 {
        return None;
    }
    let from = match parse_loc(first.unwrap()) {
        Some(l) => l,
        None => return None,
    };
    let to = match parse_loc(second.unwrap()) {
        Some(l) => l,
        None => return None,
    };
    if matches!(from, Loc::Foundation) {
        return None;
    }
    Some((from, to))
}

fn parse_loc(c: char) -> (r: Option<Loc>)
    ensures
        r == loc_of_char(c),
{
    if '1' <= c && c <= '8' {
        Some(Loc::Cascade(c as usize - '1' as usize))
    } else if 'a' <= c && c <= 'd' {
        Some(Loc::Free(c as usize - 'a' as usize))
    } else if c == 'h' || c == 'f' {
        Some(Loc::Foundation)
    } else {
        None
    }
}

/// A location on the board: one of the eight cascades, one of the four
/// free cells, or the foundations.
pub open spec fn on_board(loc: Loc) -> bool {
    match loc {
        Loc::Cascade(i) => i < 8,
        Loc::Free(i) => i < 4,
        Loc::Foundation => true,
    }
}

/// The character the move grammar spells a location with.
pub open spec fn spec_loc_char(loc: Loc) -> char {
    match loc {
        Loc::Cascade(i) => ('1' as int + i) as char,
        Loc::Free(i) => ('a' as int + i) as char,
        Loc::Foundation => 'h',
    }
}

/// The locations a character can spell: the character code stays within
/// a byte.
pub open spec fn spellable(loc: Loc) -> bool {
    match loc {
        Loc::Cascade(i) => i <= 206,
        Loc::Free(i) => i <= 158,
        Loc::Foundation => true,
    }
}

/// Spell a location as the move grammar does: `1`-`8`, `a`-`d`, `h`, and
/// the characters after them for locations past the board.
pub fn loc_char(loc: Loc) -> (c: char)
    requires
        spellable(loc),
    ensures
        c == spec_loc_char(loc),
{
    match loc {
        Loc::Cascade(i) => (49u8 + i as u8) as char,
        Loc::Free(i) => (97u8 + i as u8) as char,
        Loc::Foundation => 'h',
    }
}

/// Spelling a location and reading the character back gives the location.
pub proof fn lemma_loc_char_reads_back(loc: Loc)
    requires
        on_board(loc),
    ensures
        loc_of_char(spec_loc_char(loc)) == Some(loc),
{
}

/// A move spelled as two characters reads back as that move, as long as
/// its source is not the foundations.
pub proof fn lemma_spelled_move_reads_back(from: Loc, to: Loc)
    requires
        on_board(from),
        on_board(to),
        from != Loc::Foundation,
    ensures
        spec_parse_move(seq![spec_loc_char(from), spec_loc_char(to)]) == Some((from, to)),
{
    let a = spec_loc_char(from);
    let b = spec_loc_char(to);
    let one = seq![a];
    let s = seq![a, b];
    assert(!is_white_space(a) && !is_white_space(b));
    assert(one.drop_last().len() == 0);
    assert(without_white_space(one.drop_last()).len() == 0);
    assert(without_white_space(one) =~= one);
    assert(s.drop_last() =~= one);
    assert(without_white_space(s) =~= s);
}

} // verus!
