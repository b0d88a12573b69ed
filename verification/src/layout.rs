//! The shape of the tournament: the 64 starting slots, the 63 games, the rounds
//! and the points each game is worth.
//!
//! A bracket is 63 team numbers, one per game, in game order: the 32 first round
//! games, then the 16 of the second round, and so on up to the championship.
//! The tournament is a binary tree of 127 nodes: nodes 0 to 63 are the starting
//! slots and node 64 + k is the winner of game k.  Game k is played between the
//! teams standing at nodes 2k (the top team) and 2k + 1 (the bottom team).
use vstd::prelude::*;

verus! {

/// Number of games in a bracket.
pub const NUM_GAMES: usize = 63;

/// Number of starting slots.
pub const NUM_TEAMS: usize = 64;

/// Points of a perfect bracket.
pub const PERFECT_SCORE: u8 = 192;

/// The seed in position `p` (0 to 15) of a region's first round.
pub open spec fn region_seed(p: int) -> u8 {
    if p == 0 { 1 }
    else if p == 1 { 16 }
    else if p == 2 { 8 }
    else if p == 3 { 9 }
    else if p == 4 { 5 }
    else if p == 5 { 12 }
    else if p == 6 { 4 }
    else if p == 7 { 13 }
    else if p == 8 { 6 }
    else if p == 9 { 11 }
    else if p == 10 { 3 }
    else if p == 11 { 14 }
    else if p == 12 { 7 }
    else if p == 13 { 10 }
    else if p == 14 { 2 }
    else { 15 }
}

/// The team in starting slot `i` (0 to 63): the regions east, west, south and
/// midwest hold teams 1 to 16, 17 to 32, 33 to 48 and 49 to 64, placed by seed.
pub open spec fn starting_team(i: int) -> u8 {
    (16 * (i / 16) + region_seed(i % 16)) as u8
}

/// The team standing at node `n` of the tournament tree, in bracket `b`.
pub open spec fn node_team(b: Seq<u8>, n: int) -> u8 {
    if n < 64 { starting_team(n) } else { b[n - 64] }
}

/// The top (first) team of game `k`.
pub open spec fn top_team(b: Seq<u8>, k: int) -> u8 {
    node_team(b, 2 * k)
}

/// The bottom (second) team of game `k`.
pub open spec fn bottom_team(b: Seq<u8>, k: int) -> u8 {
    node_team(b, 2 * k + 1)
}

/// A bracket that could come out of the tournament: the winner of every game
/// is one of the two teams that play it.
pub open spec fn is_consistent(b: Seq<u8>) -> bool {
    &&& b.len() == 63
    &&& forall|k: int| 0 <= k < 63 ==> #[trigger] b[k] == top_team(b, k) || b[k] == bottom_team(b, k)
}

/// First game of the round that game `k` belongs to.
pub open spec fn round_start(k: int) -> int {
    if k < 32 { 0 }
    else if k < 48 { 32 }
    else if k < 56 { 48 }
    else if k < 60 { 56 }
    else if k < 62 { 60 }
    else if k < 63 { 62 }
    else { 63 }
}

/// Number of games in the round that game `k` belongs to.
pub open spec fn round_length(k: int) -> int {
    if k < 32 { 32 }
    else if k < 48 { 16 }
    else if k < 56 { 8 }
    else if k < 60 { 4 }
    else if k < 62 { 2 }
    else if k < 63 { 1 }
    else { 0 }
}

/// Points for picking the winner of game `k`: 1, 2, 4, 8, 16 and 32 in rounds
/// 1 to 6 (64 past the last game).
pub open spec fn game_points(k: int) -> int {
    if k < 32 { 1 }
    else if k < 48 { 2 }
    else if k < 56 { 4 }
    else if k < 60 { 8 }
    else if k < 62 { 16 }
    else if k < 63 { 32 }
    else { 64 }
}

/// Sum of the points of the games before `n`.
pub open spec fn points_before(n: int) -> int
    decreases n,
{
    if n <= 0 { 0 } else { points_before(n - 1) + game_points(n - 1) }
}

/// The points of the games before `n`, in closed form.
pub proof fn lemma_points_before(n: int)
    requires
        0 <= n <= 63,
    ensures
        points_before(n) == (if n <= 32 { n }
        else if n <= 48 { 32 + 2 * (n - 32) }
        else if n <= 56 { 64 + 4 * (n - 48) }
        else if n <= 60 { 96 + 8 * (n - 56) }
        else if n <= 62 { 128 + 16 * (n - 60) }
        else { 160 + 32 * (n - 62) }),
        points_before(n) <= 192,
        n == 63 ==> points_before(n) == 192,
    decreases n,
{
    if n > 0 {
        lemma_points_before(n - 1);
    }
}

/// The seed in position `p` of a region's first round.
pub fn region_seed_at(p: usize) -> (seed: u8)
    requires
        p < 16,
    ensures
        seed == region_seed(p as int),
{
    match p {
        0 => 1,
        1 => 16,
        2 => 8,
        3 => 9,
        4 => 5,
        5 => 12,
        6 => 4,
        7 => 13,
        8 => 6,
        9 => 11,
        10 => 3,
        11 => 14,
        12 => 7,
        13 => 10,
        14 => 2,
        _ => 15,
    }
}

/// The team in starting slot `i`.
pub fn starting_team_at(i: usize) -> (team: u8)
    requires
        i < 64,
    ensures
        team == starting_team(i as int),
        1 <= team <= 64,
{
    let region: u8 = (i / 16) as u8;
    16 * region + region_seed_at(i % 16)
}

/// The 64 starting slots, in bracket order.
pub fn starting_bracket() -> (teams: [u8; 64])
    ensures
        forall|i: int| 0 <= i < 64 ==> #[trigger] teams@[i] == starting_team(i),
{
    let mut teams: [u8; 64] = [0; 64];
    let mut i: usize = 0;
    while i < 64
        invariant
            i <= 64,
            forall|j: int| 0 <= j < i ==> #[trigger] teams@[j] == starting_team(j),
        decreases 64 - i,
    {
        teams[i] = starting_team_at(i);
        i += 1;
    }
    teams
}

} // verus!
