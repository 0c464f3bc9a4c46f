//! The typed command grammar shared by the line-mode and terminal
//! interfaces: single-letter and word commands, `n [seed]` for a new deal,
//! and the two-character move grammar as the fallback.
use vstd::prelude::*;
use vstd::std_specs::iter::IteratorSpec;
use crate::card::{is_white_space, is_white_space_char, parse_move, spec_parse_move, Loc};

verus! {

/// One command line, read.
#[derive(Debug, Clone, PartialEq, Eq)]
pub enum Command {
    /// A blank line.
    Empty,
    Quit,
    Help,
    Undo,
    Redo,
    AutoPlay,
    Restart,
    Hint,
    Report,
    /// `n [seed]`: a new deal, numbered when a seed follows.
    NewGame(Option<u32>),
    Move(Loc, Loc),
    /// Anything else, as it was read.
    Unrecognized(String),
}

/// `s` without its leading white space.
pub open spec fn trim_start(s: Seq<char>) -> Seq<char>
    decreases s.len(),
{
    if s.len() > 0 && is_white_space(s[0]) {
        trim_start(s.drop_first())
    } else {
        s
    }
}

/// `s` without its trailing white space.
pub open spec fn trim_end(s: Seq<char>) -> Seq<char>
    decreases s.len(),
{
    if s.len() > 0 && is_white_space(s.last()) {
        trim_end(s.drop_last())
    } else {
        s
    }
}

/// `s` without white space at either end.
pub open spec fn trimmed(s: Seq<char>) -> Seq<char> {
    trim_end(trim_start(s))
}

/// The value of a string of decimal digits.
pub open spec fn digits_value(s: Seq<char>) -> int
    decreases s.len(),
{
    if s.len() == 0 {
        0
    } else {
        digits_value(s.drop_last()) * 10 + (s.last() as int - '0' as int)
    }
}

pub open spec fn all_digits(s: Seq<char>) -> bool {
    forall|i: int| 0 <= i < s.len() ==> '0' <= #[trigger] s[i] <= '9'
}

/// A decimal `u32`: an optional `+`, then at least one digit, and a value
/// that fits.
pub open spec fn spec_parse_u32(s: Seq<char>) -> Option<u32> {
    let digits = if s.len() >= 2 && s[0] == '+' { s.drop_first() } else { s };
    if digits.len() > 0 && all_digits(digits) && digits_value(digits) <= u32::MAX {
        Some(digits_value(digits) as u32)
    } else {
        None
    }
}

/// The command a trimmed, lower-cased line names; `None` when it names none.
pub open spec fn spec_command(t: Seq<char>) -> Option<Command> {
    if t.len() == 0 {
        Some(Command::Empty)
    } else if t == seq!['q'] || t == seq!['q', 'u', 'i', 't'] || t == seq!['e', 'x', 'i', 't'] {
        Some(Command::Quit)
    } else if t == seq!['?'] || t == seq!['h', 'e', 'l', 'p'] {
        Some(Command::Help)
    } else if t == seq!['u'] || t == seq!['u', 'n', 'd', 'o'] {
        Some(Command::Undo)
    } else if t == seq!['y'] || t == seq!['r', 'e', 'd', 'o'] {
        Some(Command::Redo)
    } else if t == seq!['a'] || t == seq!['a', 'u', 't', 'o'] {
        Some(Command::AutoPlay)
    } else if t == seq!['r'] || t == seq!['r', 'e', 's', 't', 'a', 'r', 't'] {
        Some(Command::Restart)
    } else if t == seq!['h'] || t == seq!['h', 'i', 'n', 't'] {
        Some(Command::Hint)
    } else if t == seq!['g'] || t == seq!['r', 'e', 'p', 'o', 'r', 't'] {
        Some(Command::Report)
    } else if t[0] == 'n' {
        Some(Command::NewGame(spec_parse_u32(trimmed(t.drop_first()))))
    } else {
        match spec_parse_move(t) {
            Some((from, to)) => Some(Command::Move(from, to)),
            None => None,
        }
    }
}

/// What a command reads as: the named command, or `Unrecognized` holding
/// the text itself.
pub open spec fn reads_as(r: Command, t: Seq<char>) -> bool {
    match spec_command(t) {
        Some(c) => r == c,
        None => r matches Command::Unrecognized(s) && s@ == t,
    }
}

/// Unicode lower-casing, as `str::to_lowercase` does it.
pub uninterp spec fn lowercase(s: Seq<char>) -> Seq<char>;

/// Calls `str::to_lowercase`. All that is claimed of it is that its result
/// depends on the argument's characters alone: it is `lowercase` of them.
/// Which characters Unicode maps to which is not stated.
#[verifier::external_body]
fn to_lowercase(s: &str) -> (r: String)
    ensures
        r@ == lowercase(s@),
{
    s.to_lowercase()
}

/// The characters of `s`, in order.
fn chars_of(s: &str) -> (v: Vec<char>)
    ensures
        v@ == s@,
{
    let mut v: Vec<char> = Vec::new();
    let ghost t = s@;
    let mut it = s.chars();
    proof {
        broadcast use vstd::string::group_string_axioms;
    }
    loop
        invariant
            v@.len() <= t.len(),
            it.remaining() == t.skip(v@.len() as int),
            v@ == t.take(v@.len() as int),
        ensures
            v@ == t,
        decreases t.len() - v@.len(),
    {
        proof {
            broadcast use vstd::string::group_string_axioms;
        }
        match it.next() {
            None => {
                proof {
                    assert(t.skip(v@.len() as int).len() == 0);
                    assert(t.take(v@.len() as int) =~= t);
                }
                break;
            },
            Some(c) => {
                proof {
                    let k = v@.len() as int;
                    assert(c == t[k]);
                    assert(t.skip(k).drop_first() =~= t.skip(k + 1));
                    assert(t.take(k).push(c) =~= t.take(k + 1));
                }
                v.push(c);
            },
        }
    }
    v
}

/// The bounds, within `v[from..]`, of its part without white space at
/// either end.
fn trim_bounds(v: &Vec<char>, from: usize) -> (r: (usize, usize))
    requires
        from <= v@.len(),
    ensures
        from <= r.0 <= r.1 <= v@.len(),
        v@.subrange(r.0 as int, r.1 as int) == trimmed(v@.subrange(from as int, v@.len() as int)),
{
    let len = v.len();
    let mut lo = from;
    while lo < len && is_white_space_char(v[lo])
        invariant
            from <= lo <= len == v@.len(),
            trim_start(v@.subrange(from as int, len as int)) == trim_start(
                v@.subrange(lo as int, len as int),
            ),
        decreases len - lo,
    {
        proof {
            assert(v@.subrange(lo as int, len as int).drop_first() =~= v@.subrange(
                lo + 1,
                len as int,
            ));
        }
        lo = lo + 1;
    }
    let mut hi = len;
    while hi > lo && is_white_space_char(v[hi - 1])
        invariant
            lo <= hi <= len == v@.len(),
            trim_end(v@.subrange(lo as int, len as int)) == trim_end(
                v@.subrange(lo as int, hi as int),
            ),
        decreases hi - lo,
    {
        proof {
            assert(v@.subrange(lo as int, hi as int).drop_last() =~= v@.subrange(
                lo as int,
                hi - 1,
            ));
        }
        hi = hi - 1;
    }
    (lo, hi)
}

/// A string holding `v[lo..hi]`.
fn string_of(v: &Vec<char>, lo: usize, hi: usize) -> (s: String)
    requires
        lo <= hi <= v@.len(),
    ensures
        s@ == v@.subrange(lo as int, hi as int),
{
    let mut s = String::new();
    let mut i = lo;
    while i < hi
        invariant
            lo <= i <= hi <= v@.len(),
            s@ == v@.subrange(lo as int, i as int),
        decreases hi - i,
    {
        s.push(v[i]);
        proof {
            assert(v@.subrange(lo as int, i + 1) =~= v@.subrange(lo as int, i as int).push(v@[i as int]));
        }
        i = i + 1;
    }
    s
}

/// Parse `v[lo..hi]` as a decimal `u32`, as `str::parse::<u32>` does.
fn parse_u32_in(v: &Vec<char>, lo: usize, hi: usize) -> (r: Option<u32>)
    requires
        lo <= hi <= v@.len(),
    ensures
        r == spec_parse_u32(v@.subrange(lo as int, hi as int)),
{
    let ghost s = v@.subrange(lo as int, hi as int);
    let start: usize = if hi - lo >= 2 && v[lo] == '+' { lo + 1 } else { lo };
    let ghost digits = v@.subrange(start as int, hi as int);
    proof {
        if hi - lo >= 2 && v[lo as int] == '+' {
            assert(s.drop_first() =~= digits);
        } else {
            assert(s =~= digits);
        }
    }
    if start == hi {
        return None;
    }
    let mut valid = true;
    let mut overflow = false;
    let mut acc: u64 = 0;
    let mut i = start;
    while i < hi
        invariant
            start <= i <= hi <= v@.len(),
            digits == v@.subrange(start as int, hi as int),
            valid == all_digits(v@.subrange(start as int, i as int)),
            valid && !overflow ==> acc == digits_value(v@.subrange(start as int, i as int)),
            valid && !overflow ==> acc <= u32::MAX,
            valid && overflow ==> digits_value(v@.subrange(start as int, i as int)) > u32::MAX,
        decreases hi - i,
    {
        let c = v[i];
        let ghost prefix = v@.subrange(start as int, i as int);
        let ghost next = v@.subrange(start as int, i + 1);
        proof {
            assert(next.drop_last() =~= prefix);
            assert(next.last() == c);
        }
        if '0' <= c && c <= '9' {
            if valid && !overflow {
                let d = (c as u64) - ('0' as u64);
                acc = acc * 10 + d;
                if acc > 0xFFFF_FFFF {
                    overflow = true;
                }
            }
            proof {
                if valid {
                    assert forall|j: int| 0 <= j < next.len() implies '0' <= #[trigger] next[j] <= '9' by {
                        if j < prefix.len() {
                            assert(next[j] == prefix[j]);
                        }
                    }
                }
            }
        } else {
            valid = false;
            proof {
                assert(next[next.len() - 1] == c);
            }
        }
        i = i + 1;
    }
    proof {
        assert(v@.subrange(start as int, hi as int) =~= digits);
    }
    if valid && !overflow {
        Some(acc as u32)
    } else {
        None
    }
}

/// Read a trimmed, lower-cased command line.
pub fn command_of(line: &str) -> (r: Command)
    ensures
        reads_as(r, line@),
{
    let v = chars_of(line);
    let n = v.len();
    if n == 0 {
        return Command::Empty;
    }
    if is_word1(&v, 'q') || is_word4(&v, 'q', 'u', 'i', 't') || is_word4(&v, 'e', 'x', 'i', 't') {
        return Command::Quit;
    }
    if is_word1(&v, '?') || is_word4(&v, 'h', 'e', 'l', 'p') {
        return Command::Help;
    }
    if is_word1(&v, 'u') || is_word4(&v, 'u', 'n', 'd', 'o') {
        return Command::Undo;
    }
    if is_word1(&v, 'y') || is_word4(&v, 'r', 'e', 'd', 'o') {
        return Command::Redo;
    }
    if is_word1(&v, 'a') || is_word4(&v, 'a', 'u', 't', 'o') {
        return Command::AutoPlay;
    }
    if is_word1(&v, 'r') || is_word7(&v, 'r', 'e', 's', 't', 'a', 'r', 't') {
        return Command::Restart;
    }
    if is_word1(&v, 'h') || is_word4(&v, 'h', 'i', 'n', 't') {
        return Command::Hint;
    }
    if is_word1(&v, 'g') || is_word6(&v, 'r', 'e', 'p', 'o', 'r', 't') {
        return Command::Report;
    }
    if v[0] == 'n' {
        let (lo, hi) = trim_bounds(&v, 1);
        proof {
            assert(v@.subrange(1, n as int) =~= line@.drop_first());
        }
        return Command::NewGame(parse_u32_in(&v, lo, hi));
    }
    match parse_move(line) {
        Some((from, to)) => Command::Move(from, to),
        None => Command::Unrecognized(line.to_owned()),
    }
}

fn is_word1(v: &Vec<char>, a: char) -> (r: bool)
    ensures
        r == (v@ == seq![a]),
{
    let r = v.len() == 1 && v[0] == a;
    proof {
        if r {
            assert(v@ =~= seq![a]);
        }
    }
    r
}

fn is_word4(v: &Vec<char>, a: char, b: char, c: char, d: char) -> (r: bool)
    ensures
        r == (v@ == seq![a, b, c, d]),
{
    let r = v.len() == 4 && v[0] == a && v[1] == b && v[2] == c && v[3] == d;
    proof {
        if r {
            assert(v@ =~= seq![a, b, c, d]);
        }
    }
    r
}

fn is_word6(v: &Vec<char>, a: char, b: char, c: char, d: char, e: char, f: char) -> (r: bool)
    ensures
        r == (v@ == seq![a, b, c, d, e, f]),
{
    let r = v.len() == 6 && v[0] == a && v[1] == b && v[2] == c && v[3] == d && v[4] == e && v[5]
        == f;
    proof {
        if r {
            assert(v@ =~= seq![a, b, c, d, e, f]);
        }
    }
    r
}

fn is_word7(v: &Vec<char>, a: char, b: char, c: char, d: char, e: char, f: char, g: char) -> (r:
    bool)
    ensures
        r == (v@ == seq![a, b, c, d, e, f, g]),
{
    let r = v.len() == 7 && v[0] == a && v[1] == b && v[2] == c && v[3] == d && v[4] == e && v[5]
        == f && v[6] == g;
    proof {
        if r {
            assert(v@ =~= seq![a, b, c, d, e, f, g]);
        }
    }
    r
}

/// Read a typed command line: white space at either end is dropped and
/// the rest lower-cased before it is read.
pub fn parse_command(line: &str) -> (r: Command)
    ensures
        reads_as(r, lowercase(trimmed(line@))),
{
    let v = chars_of(line);
    let (lo, hi) = trim_bounds(&v, 0);
    proof {
        assert(v@.subrange(0, v@.len() as int) =~= v@);
    }
    let trimmed_line = string_of(&v, lo, hi);
    let lowered = to_lowercase(trimmed_line.as_str());
    command_of(lowered.as_str())
}

} // verus!
