use march_madness::codec::{decode_and_score, encode_to_bytes};
use march_madness::collect::{
    remove_brackets, remove_brackets_with_capacity, unique_brackets_limit, word_to_be_bytes, BracketCollector,
    CREATE_NEW_FILE_BRACKET_THRESHOLD,
};
use march_madness::generate::{get_round_winners, seed_of, BracketGenerator};
use march_madness::layout::starting_bracket;
use rand_distr::{Distribution, Normal};
use std::collections::HashSet;

const TEAMS_SCORE_STDEV: f64 = 10.0;
const SEED1_MEAN_SCORE: f64 = 85.0;

/// Plays a tournament, each game decided by scores sampled around a mean that
/// falls with the seed.
fn generate_bracket(distribution: &Normal<f64>) -> [u8; 63] {
    let mut rng = rand::rng();
    let mut generator = BracketGenerator::new();
    while !generator.is_finished() {
        let outcomes: Vec<bool> = generator
            .round_games()
            .iter()
            .map(|&(top, bottom)| {
                let top_points = SEED1_MEAN_SCORE - (seed_of(top) - 1) as f64 + distribution.sample(&mut rng);
                let bottom_points = SEED1_MEAN_SCORE - (seed_of(bottom) - 1) as f64 + distribution.sample(&mut rng);
                top_points > bottom_points
            })
            .collect();
        generator.play_round(&outcomes);
    }
    generator.bracket()
}

#[test]
fn test_bracket_generation() {
    let distribution: Normal<f64> = Normal::new(0.0, TEAMS_SCORE_STDEV).unwrap();
    let bracket: [u8; 63] = generate_bracket(&distribution);
    let starting = starting_bracket();

    // Verify round 1: Each winner should be one of the two starting teams
    for game_idx in 0..32 {
        let winner: u8 = bracket[game_idx];
        let team1: u8 = starting[2 * game_idx];
        let team2: u8 = starting[2 * game_idx + 1];

        assert!(winner == team1 || winner == team2,
            "Round 1 game {} winner {} must be either {} or {}",
            game_idx, winner, team1, team2);
    }

    // Verify rounds 2-6: Each winner should be one of the two previous round winners
    let mut round_start: usize = 32;
    let mut round_size: usize = 16;
    let mut prev_round_start: usize = 0;

    for round in 2..=6 {
        for game_idx in 0..round_size {
            let winner: u8 = bracket[round_start + game_idx];
            let team1: u8 = bracket[prev_round_start + 2 * game_idx];
            let team2: u8 = bracket[prev_round_start + 2 * game_idx + 1];

            assert!(winner == team1 || winner == team2,
                "Round {} game {} winner {} must be either {} or {}",
                round, game_idx, winner, team1, team2);
        }

        prev_round_start = round_start;
        round_start += round_size;
        round_size /= 2;
    }
}

#[test]
fn test_bracket_generation_sanitycheck() {
    let distribution: Normal<f64> = Normal::new(0.0, TEAMS_SCORE_STDEV).unwrap();
    let num_brackets: i32 = 1000;

    // Track wins for each seed (1-16), using indices 0-15
    let mut seed_wins: [usize; 16] = [0; 16];

    for _ in 0..num_brackets {
        let bracket: [u8; 63] = generate_bracket(&distribution);

        // Count wins for each seed in this bracket
        for winner_team in bracket.iter() {
            let seed: usize = (*winner_team % 16) as usize;
            // Convert seed 0 (which is 16) to index 15, otherwise seed X to index X-1
            let seed_index: usize = if seed == 0 { 15 } else { seed - 1 };
            seed_wins[seed_index] += 1;
        }
    }

    // Verify that lower seed numbers (better seeds) win more often than higher seed numbers (worse seeds)
    for seed_index in 0..15 {
        assert!(seed_wins[seed_index] > seed_wins[seed_index + 1],
            "Seed {} should win more often ({} total wins) than seed {} ({} total wins)",
            seed_index + 1, seed_wins[seed_index], seed_index + 2, seed_wins[seed_index + 1]);
    }
}

// ---------------------------------------------------------------------------

#[test]
fn starting_bracket_is_by_seed() {
    let starting = starting_bracket();
    assert_eq!(&starting[..16], &[1, 16, 8, 9, 5, 12, 4, 13, 6, 11, 3, 14, 7, 10, 2, 15]);
    assert_eq!(&starting[48..], &[49, 64, 56, 57, 53, 60, 52, 61, 54, 59, 51, 62, 55, 58, 50, 63]);
}

#[test]
fn seeds() {
    assert_eq!(seed_of(1), 1);
    assert_eq!(seed_of(16), 16);
    assert_eq!(seed_of(17), 1);
    assert_eq!(seed_of(63), 15);
    assert_eq!(seed_of(64), 16);
    assert_eq!(seed_of(0), 16);
}

#[test]
fn round_winners_move_to_the_front() {
    let mut teams = starting_bracket();
    let left_won: Vec<bool> = (0..32).map(|g| g % 3 == 0).collect();
    get_round_winners(&mut teams, 64, &left_won);
    assert_eq!(&teams[..4], &[1, 9, 12, 4]);
    assert!(teams[32..].iter().all(|t| *t == 0));

    let mut teams = [7u8; 64];
    teams[0] = 3;
    teams[1] = 4;
    get_round_winners(&mut teams, 2, &[false]);
    assert_eq!(&teams[..3], &[4, 0, 7]);
}

#[test]
fn chalk_tournament() {
    // the top team wins every game
    let mut generator = BracketGenerator::new();
    while !generator.is_finished() {
        let games = generator.round_games();
        generator.play_round(&vec![true; games.len()]);
    }
    let bracket = generator.bracket();
    assert_eq!(bracket[0], 1);
    assert_eq!(bracket[32], 1);
    assert_eq!(bracket[62], 1);
    assert_eq!(encode_to_bytes(&bracket), 0);
}

#[test]
fn generated_brackets_decode_back() {
    let distribution: Normal<f64> = Normal::new(0.0, TEAMS_SCORE_STDEV).unwrap();
    for _ in 0..100 {
        let bracket = generate_bracket(&distribution);
        let bytes = encode_to_bytes(&bracket).to_be_bytes();
        let mut decoded = [0u8; 63];
        let score = decode_and_score(&bytes, &bracket, &mut decoded);
        assert_eq!(decoded, bracket);
        assert_eq!(score, 192);
    }
}

#[test]
fn word_bytes_are_big_endian() {
    for w in [0u64, 1, 0x0102_0304_0506_0708, u64::MAX, 0x5242_0250_07B7_852C] {
        assert_eq!(word_to_be_bytes(w), w.to_be_bytes());
    }
}

#[test]
fn limit_of_the_seen_set() {
    assert_eq!(unique_brackets_limit(1_000_000), 1_000_000 + 240_000_000);
    assert_eq!(unique_brackets_limit(u32::MAX as u64 * 4), 8 * 1024 * 1024 * 1024 + 240_000_000);
}

#[test]
fn pruning_keeps_repeats() {
    let mut unique: HashSet<u64> = (0..100u64).collect();
    let repeated: HashSet<u64> = [3u64, 50, 99, 1000].into_iter().collect();
    // capacity 100: 75 < 100 brackets, so prune down with 100 - 62 + 4 = 42 counted
    remove_brackets_with_capacity(&mut unique, &repeated, 100);
    assert!(unique.contains(&3) && unique.contains(&50) && unique.contains(&99));
    assert!(!unique.contains(&1000));
    let dropped = 100 - unique.len();
    // the first 42 walked are counted; at most 3 of them are repeats that stay
    assert!((39..=42).contains(&dropped), "dropped {}", dropped);

    // not full enough: nothing happens
    let mut small: HashSet<u64> = (0..10u64).collect();
    remove_brackets_with_capacity(&mut small, &repeated, 100);
    assert_eq!(small.len(), 10);

    let mut set: HashSet<u64> = (0..5u64).collect();
    remove_brackets(&mut set, &repeated);
    assert!(set.is_subset(&(0..5u64).collect()));
}

#[test]
fn collector_counts_new_and_repeated_brackets() {
    let mut collector = BracketCollector::new(2, HashSet::new());
    let mut bracket = [0u8; 63];
    let _ = decode_and_score(&[0; 8], &[0; 63], &mut bracket);
    let first = collector.add_bracket(&bracket);
    assert!(first.is_new);
    assert_eq!(first.encoded, 0);
    assert_eq!(first.bytes, [0; 8]);
    assert!(!first.file_full);
    let again = collector.add_bracket(&bracket);
    assert!(!again.is_new);
    assert_eq!(collector.repeat_count(), 1);
    assert_eq!(collector.written_count(), 1);
    assert!(!collector.is_done());

    let mut other = [0u8; 63];
    let _ = decode_and_score(&[0x80, 0, 0, 0, 0, 0, 0, 0], &[0; 63], &mut other);
    let second = collector.add_bracket(&other);
    assert!(second.is_new);
    assert_eq!(second.bytes, [0x80, 0, 0, 0, 0, 0, 0, 0]);
    assert!(collector.is_done());
    assert_eq!(collector.seen_count(), 2);
    assert_eq!(collector.file_number(), 0);
    assert!(CREATE_NEW_FILE_BRACKET_THRESHOLD > 2);
}
