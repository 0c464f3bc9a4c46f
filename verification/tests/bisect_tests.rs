//! The bisection underlying `grade`'s "where did it go wrong", tested
//! directly against mock solvability sequences.

use freecell::analysis::bisect_unsolvable_boundary;
use freecell::solver::Solvability;

/// A boundary in the middle of the range is found exactly, using far
/// fewer probes than a linear scan would need.
#[test]
fn bisect_finds_a_boundary_in_the_middle() {
    let solvable_up_to = 6; // indices 0..=5 solvable, 6..=9 unsolvable
    let mut probes = 0;
    let result = bisect_unsolvable_boundary(10, |i| {
        probes += 1;
        if i <= solvable_up_to {
            Solvability::Solvable(vec![])
        } else {
            Solvability::Unsolvable
        }
    });
    assert_eq!(result, Some(solvable_up_to + 1));
    assert!(probes < 10, "expected fewer probes than a linear scan");
}

#[test]
fn bisect_returns_none_when_the_end_is_still_solvable() {
    let result = bisect_unsolvable_boundary(5, |_| Solvability::Solvable(vec![]));
    assert_eq!(result, None);
}

#[test]
fn bisect_returns_zero_when_unsolvable_from_the_start() {
    let result = bisect_unsolvable_boundary(5, |_| Solvability::Unsolvable);
    assert_eq!(result, Some(0));
}

#[test]
fn bisect_gives_up_honestly_on_an_inconclusive_probe() {
    // Unsolvable at the end, but an early probe the search happens to
    // need is inconclusive -- must not guess.
    let result = bisect_unsolvable_boundary(8, |i| match i {
        7 => Solvability::Unsolvable,
        3 => Solvability::Unknown,
        _ => Solvability::Solvable(vec![]),
    });
    assert_eq!(result, None);
}
