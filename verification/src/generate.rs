//! Playing out a tournament, round by round, from the outcome of each game.
//!
//! Who wins a game is decided by the caller (the tool samples scores from a
//! distribution weighted by seed); this module keeps the teams of the current
//! round and records the winners into the bracket.
use vstd::prelude::*;
use crate::layout::{bottom_team, is_consistent, node_team, starting_bracket, top_team};

verus! {

/// The seed (1 to 16) of a team: its number modulo 16, 16 for a multiple of 16.
pub open spec fn seed(team: u8) -> u8 {
    if team % 16 == 0 { 16 } else { team % 16 }
}

/// The seed (1 to 16) of a team.
pub fn seed_of(team: u8) -> (s: u8)
    ensures
        s == seed(team),
        1 <= s <= 16,
{
    let mut s: u8 = team % 16;
    if s == 0 {
        s = 16;
    }
    s
}

/// Plays one round: the winner of the game between `teams[2g]` and
/// `teams[2g + 1]` is the first of them when `left_won[g]`, else the second; the
/// winners move to the front of `teams`, the rest of the first `teams_len`
/// places is cleared.
pub fn get_round_winners(teams: &mut [u8; 64], teams_len: u8, left_won: &[bool])
    requires
        teams_len <= 64,
        left_won@.len() >= (teams_len + 1) / 2,
    ensures
        forall|g: int|
            0 <= g < (teams_len + 1) / 2 ==> #[trigger] final(teams)@[g] == if left_won@[g] {
                old(teams)@[2 * g]
            } else {
                old(teams)@[2 * g + 1]
            },
        forall|g: int| (teams_len + 1) / 2 <= g < teams_len ==> #[trigger] final(teams)@[g] == 0,
        forall|g: int| teams_len <= g < 64 ==> #[trigger] final(teams)@[g] == old(teams)@[g],
{
    let mut winning_teams: [u8; 64] = [0; 64];
    let len: usize = teams_len as usize;
    let mut i: usize = 0;
    while i < len
        invariant
            i % 2 == 0,
            i <= len + 1,
            len == teams_len,
            len <= 64,
            left_won@.len() >= (len + 1) / 2,
            forall|g: int|
                0 <= g < i / 2 ==> #[trigger] winning_teams@[g] == if left_won@[g] {
                    teams@[2 * g]
                } else {
                    teams@[2 * g + 1]
                },
            forall|g: int| i / 2 <= g < 64 ==> #[trigger] winning_teams@[g] == 0,
        decreases len + 1 - i,
    {
        if left_won[i / 2] {
            // the left team scored more points in the game
            winning_teams[i / 2] = teams[i];
        } else {
            // the right team scored more points in the game
            winning_teams[i / 2] = teams[i + 1];
        }
        i += 2;
    }
    let ghost before = teams@;
    let mut j: usize = 0;
    while j < len
        invariant
            j <= len,
            len == teams_len,
            len <= 64,
            forall|g: int| 0 <= g < j ==> #[trigger] teams@[g] == winning_teams@[g],
            forall|g: int| j <= g < 64 ==> #[trigger] teams@[g] == before[g],
        decreases len - j,
    {
        teams[j] = winning_teams[j];
        j += 1;
    }
}

/// The bracket node of the first team of a round that has `len` teams.
pub open spec fn first_node(len: int) -> int {
    128 - 2 * len
}

/// A tournament being played round by round.
pub struct BracketGenerator {
    teams: [u8; 64],
    team_length: u8,
    index: usize,
    bracket: [u8; 63],
}

/// The winners of a round, as `get_round_winners` leaves them, are the teams
/// that the outcomes pick.
proof fn lemma_round_winners(
    played: Seq<u8>,
    before: Seq<u8>,
    after: Seq<u8>,
    len: int,
    left_won: Seq<bool>,
    new_games: Seq<u8>,
)
    requires
        2 <= len <= 64,
        played.len() == 64 - len,
        forall|i: int| 0 <= i < len ==> #[trigger] before[i] == node_team(played, first_node(len) + i),
        forall|g: int|
            0 <= g < (len + 1) / 2 ==> #[trigger] after[g] == if left_won[g] {
                before[2 * g]
            } else {
                before[2 * g + 1]
            },
        new_games == Seq::new(
            (len / 2) as nat,
            |g: int|
                if left_won[g] {
                    top_team(played, played.len() + g)
                } else {
                    bottom_team(played, played.len() + g)
                },
        ),
    ensures
        forall|g: int| 0 <= g < len / 2 ==> #[trigger] after[g] == new_games[g],
{
    assert forall|g: int| 0 <= g < len / 2 implies #[trigger] after[g] == new_games[g] by {
        assert(before[2 * g] == node_team(played, first_node(len) + 2 * g));
        assert(before[2 * g + 1] == node_team(played, first_node(len) + 2 * g + 1));
    }
}

/// After a round, the winners are the teams of the next round, and every game
/// played so far was won by one of its two teams.
proof fn lemma_next_round(old_played: Seq<u8>, new_games: Seq<u8>, len: int, teams: Seq<u8>)
    requires
        len == 64 || len == 32 || len == 16 || len == 8 || len == 4 || len == 2,
        old_played.len() == 64 - len,
        new_games.len() == len / 2,
        forall|k: int|
            0 <= k < old_played.len() ==> #[trigger] old_played[k] == top_team(old_played, k)
                || old_played[k] == bottom_team(old_played, k),
        forall|g: int|
            0 <= g < len / 2 ==> #[trigger] new_games[g] == top_team(old_played, old_played.len() + g)
                || new_games[g] == bottom_team(old_played, old_played.len() + g),
        forall|g: int| 0 <= g < len / 2 ==> #[trigger] teams[g] == new_games[g],
    ensures
        forall|g: int|
            0 <= g < len / 2 ==> #[trigger] teams[g] == node_team(
                old_played + new_games,
                first_node(len / 2) + g,
            ),
        forall|k: int|
            0 <= k < 64 - len / 2 ==> #[trigger] (old_played + new_games)[k] == top_team(
                old_played + new_games,
                k,
            ) || (old_played + new_games)[k] == bottom_team(old_played + new_games, k),
{
    let played = old_played + new_games;
    assert forall|g: int| 0 <= g < len / 2 implies #[trigger] teams[g] == node_team(
        played,
        first_node(len / 2) + g,
    ) by {
        assert(node_team(played, first_node(len / 2) + g) == played[64 - len + g]);
    }
    assert forall|k: int| 0 <= k < 64 - len / 2 implies #[trigger] played[k] == top_team(played, k)
        || played[k] == bottom_team(played, k) by {
        if k < old_played.len() {
            assert(played[k] == old_played[k]);
            assert(top_team(played, k) == top_team(old_played, k));
            assert(bottom_team(played, k) == bottom_team(old_played, k));
        } else {
            let g = k - old_played.len();
            assert(played[k] == new_games[g]);
            assert(top_team(played, k) == top_team(old_played, old_played.len() + g));
            assert(bottom_team(played, k) == bottom_team(old_played, old_played.len() + g));
        }
    }
}

impl BracketGenerator {
    /// The winners decided so far, in game order.
    pub closed spec fn played(self) -> Seq<u8> {
        self.bracket@.take(self.index as int)
    }

    /// Number of teams still in the tournament.
    pub closed spec fn teams_left(self) -> int {
        self.team_length as int
    }

    #[verifier::type_invariant]
    closed spec fn wf(self) -> bool {
        &&& (self.team_length == 64 || self.team_length == 32 || self.team_length == 16
            || self.team_length == 8 || self.team_length == 4 || self.team_length == 2
            || self.team_length == 1)
        &&& self.index == 64 - self.team_length
        &&& forall|i: int|
            0 <= i < self.team_length ==> #[trigger] self.teams@[i] == node_team(
                self.played(),
                first_node(self.team_length as int) + i,
            )
        &&& forall|k: int|
            0 <= k < self.index ==> #[trigger] self.played()[k] == top_team(self.played(), k)
                || self.played()[k] == bottom_team(self.played(), k)
    }

    /// A tournament before its first game.
    pub fn new() -> (generator: Self)
        ensures
            generator.played() == Seq::<u8>::empty(),
            generator.teams_left() == 64,
    {
        let teams = starting_bracket();
        let generator = BracketGenerator { teams, team_length: 64, index: 0, bracket: [0; 63] };
        assert(generator.played() =~= Seq::<u8>::empty());
        generator
    }

    /// Whether the champion is decided.
    pub fn is_finished(&self) -> (finished: bool)
        ensures
            finished == (self.teams_left() == 1),
            finished == (self.played().len() == 63),
    {
        proof {
            use_type_invariant(self);
        }
        self.team_length <= 1
    }

    /// The games of the current round: for each, its top and bottom team.
    pub fn round_games(&self) -> (games: Vec<(u8, u8)>)
        ensures
            games@.len() == self.teams_left() / 2,
            forall|g: int|
                0 <= g < games@.len() ==> #[trigger] games@[g] == (
                    top_team(self.played(), self.played().len() + g),
                    bottom_team(self.played(), self.played().len() + g),
                ),
    {
        proof {
            use_type_invariant(self);
        }
        let mut games: Vec<(u8, u8)> = Vec::new();
        let half: usize = (self.team_length / 2) as usize;
        let mut g: usize = 0;
        while g < half
            invariant
                g <= half,
                half == self.team_length / 2,
                self.index == 64 - self.team_length,
                games@.len() == g,
                forall|i: int|
                    0 <= i < self.team_length ==> #[trigger] self.teams@[i] == node_team(
                        self.played(),
                        first_node(self.team_length as int) + i,
                    ),
                forall|h: int|
                    0 <= h < g ==> #[trigger] games@[h] == (
                        top_team(self.played(), self.index + h),
                        bottom_team(self.played(), self.index + h),
                    ),
            decreases half - g,
        {
            assert(self.played().len() == self.index);
            games.push((self.teams[2 * g], self.teams[2 * g + 1]));
            g += 1;
        }
        games
    }

    /// Plays the current round: in game `g` of the round the top team wins when
    /// `left_won[g]`, else the bottom team.
    #[verifier::spinoff_prover]
    #[verifier::rlimit(40)]
    pub fn play_round(&mut self, left_won: &[bool])
        requires
            old(self).teams_left() > 1,
            left_won@.len() >= old(self).teams_left() / 2,
        ensures
            final(self).teams_left() == old(self).teams_left() / 2,
            final(self).played() == old(self).played() + Seq::new(
                (old(self).teams_left() / 2) as nat,
                |g: int|
                    if left_won@[g] {
                        top_team(old(self).played(), old(self).played().len() + g)
                    } else {
                        bottom_team(old(self).played(), old(self).played().len() + g)
                    },
            ),
    {
        proof {
            use_type_invariant(&*self);
        }
        let ghost old_played = self.played();
        let ghost len = self.team_length as int;
        let mut teams: [u8; 64] = self.teams;
        let team_length: u8 = self.team_length;
        get_round_winners(&mut teams, team_length, left_won);
        let half: u8 = team_length / 2;
        let mut bracket: [u8; 63] = self.bracket;
        let mut index: usize = self.index;
        let mut i: usize = 0;
        let ghost new_games = Seq::new(
            (len / 2) as nat,
            |g: int|
                if left_won@[g] {
                    top_team(old_played, old_played.len() + g)
                } else {
                    bottom_team(old_played, old_played.len() + g)
                },
        );
        proof {
            lemma_round_winners(old_played, self.teams@, teams@, len, left_won@, new_games);
        }
        while i < half as usize
            invariant
                i <= half,
                half == team_length / 2,
                team_length == len,
                len >= 2,
                old_played.len() == 64 - len,
                index == 64 - len + i,
                index <= 63,
                new_games.len() == half,
                bracket@.take(index as int) == old_played + new_games.take(i as int),
                forall|g: int| 0 <= g < len / 2 ==> #[trigger] teams@[g] == new_games[g],
            decreases half - i,
        {
            let ghost before = bracket@;
            let winner: u8 = teams[i];
            assert(winner == new_games[i as int]);
            bracket[index] = winner;
            assert(bracket@.take(index + 1) =~= before.take(index as int).push(winner));
            assert(new_games.take(i + 1) =~= new_games.take(i as int).push(winner));
            index += 1;
            i += 1;
        }
        assert(new_games.take(half as int) =~= new_games);
        proof {
            lemma_next_round(old_played, new_games, len, teams@);
        }
        *self = BracketGenerator { teams, team_length: half, index, bracket };
    }

    /// The bracket of a finished tournament.
    pub fn bracket(&self) -> (bracket: [u8; 63])
        requires
            self.teams_left() == 1,
        ensures
            bracket@ == self.played(),
            is_consistent(bracket@),
    {
        proof {
            use_type_invariant(self);
            assert(self.bracket@.take(63) =~= self.bracket@);
        }
        self.bracket
    }
}

} // verus!
