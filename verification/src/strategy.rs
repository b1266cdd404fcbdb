//! Scoring for a two-player shape game.
//!
//! Each round is a line of the form `"A X"`.  The first letter (`A`, `B`, `C`)
//! is the opponent's shape: rock, paper or scissors.  In the first scoring
//! scheme the second letter (`X`, `Y`, `Z`) is the player's own shape; in the
//! second scheme it is the required outcome: a loss, a draw or a win.  A round
//! scores the value of the player's shape (1 for rock, 2 for paper, 3 for
//! scissors) plus 0 for a loss, 3 for a draw and 6 for a win.

use vstd::prelude::*;

verus! {

/// The opponent letters that a round may hold.
pub open spec fn valid_opponent(c: char) -> bool {
    c == 'A' || c == 'B' || c == 'C'
}

/// The player letters that a round may hold.
pub open spec fn valid_player(c: char) -> bool {
    c == 'X' || c == 'Y' || c == 'Z'
}

/// Value of the player's shape: rock 1, paper 2, scissors 3.
pub open spec fn shape_value(you: char) -> u32 {
    if you == 'X' {
        1
    } else if you == 'Y' {
        2
    } else {
        3
    }
}

/// True iff the player's shape beats the opponent's.
pub open spec fn player_wins(opponent: char, you: char) -> bool {
    (opponent == 'A' && you == 'Y') || (opponent == 'B' && you == 'Z') || (opponent == 'C' && you
        == 'X')
}

/// True iff both picked the same shape.
pub open spec fn is_draw(opponent: char, you: char) -> bool {
    (opponent == 'A' && you == 'X') || (opponent == 'B' && you == 'Y') || (opponent == 'C' && you
        == 'Z')
}

/// Score of a round when the second letter is the player's shape.
pub open spec fn spec_part1_score(opponent: char, you: char) -> u32 {
    (shape_value(you) + if player_wins(opponent, you) {
        6u32
    } else if is_draw(opponent, you) {
        3u32
    } else {
        0u32
    }) as u32
}

/// The shape the player must pick to reach the outcome `you` asks for:
/// `X` loses to the opponent's shape, `Y` draws, `Z` wins.
pub open spec fn required_shape(opponent: char, you: char) -> u32 {
    let opp: u32 = if opponent == 'A' {
        1
    } else if opponent == 'B' {
        2
    } else {
        3
    };
    if you == 'Y' {
        opp
    } else if you == 'Z' {
        (opp % 3 + 1) as u32
    } else {
        ((opp + 1) % 3 + 1) as u32
    }
}

/// Score of a round when the second letter is the required outcome.
pub open spec fn spec_part2_score(opponent: char, you: char) -> u32 {
    (required_shape(opponent, you) + if you == 'X' {
        0u32
    } else if you == 'Y' {
        3u32
    } else {
        6u32
    }) as u32
}

/// Score of a round under the first scheme (second letter = own shape).
pub fn part1_score(opponent: char, you: char) -> (r: u32)
    requires
        valid_opponent(opponent),
        valid_player(you),
    ensures
        r == spec_part1_score(opponent, you),
{
    match (opponent, you) {
        ('A', 'X') => 1 + 3,
        ('A', 'Y') => 2 + 6,
        ('A', 'Z') => 3 + 0,
        ('B', 'X') => 1 + 0,
        ('B', 'Y') => 2 + 3,
        ('B', 'Z') => 3 + 6,
        ('C', 'X') => 1 + 6,
        ('C', 'Y') => 2 + 0,
        _ => 3 + 3,
    }
}

/// Score of a round under the second scheme (second letter = outcome).
pub fn part2_score(opponent: char, you: char) -> (r: u32)
    requires
        valid_opponent(opponent),
        valid_player(you),
    ensures
        r == spec_part2_score(opponent, you),
{
    match (opponent, you) {
        ('A', 'X') => 0 + 3,
        ('A', 'Y') => 3 + 1,
        ('A', 'Z') => 6 + 2,
        ('B', 'X') => 0 + 1,
        ('B', 'Y') => 3 + 2,
        ('B', 'Z') => 6 + 3,
        ('C', 'X') => 0 + 2,
        ('C', 'Y') => 3 + 3,
        _ => 6 + 1,
    }
}

/// Splits a round line into its two letters: the first character and the
/// character after the separator.
pub fn parse_line(line: &str) -> (r: (char, char))
    requires
        line@.len() >= 3,
    ensures
        r.0 == line@[0],
        r.1 == line@[2],
{
    (line.get_char(0), line.get_char(2))
}

/// Score of one line under the first scheme.
pub fn part1_score_line(line: &str) -> (r: u32)
    requires
        line@.len() >= 3,
        valid_opponent(line@[0]),
        valid_player(line@[2]),
    ensures
        r == spec_part1_score(line@[0], line@[2]),
{
    let (opponent, you) = parse_line(line);
    part1_score(opponent, you)
}

/// Score of one line under the second scheme.
pub fn part2_score_line(line: &str) -> (r: u32)
    requires
        line@.len() >= 3,
        valid_opponent(line@[0]),
        valid_player(line@[2]),
    ensures
        r == spec_part2_score(line@[0], line@[2]),
{
    let (opponent, you) = parse_line(line);
    part2_score(opponent, you)
}

} // verus!
