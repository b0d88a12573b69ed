use march_madness::codec::encode_to_bytes;
use march_madness::scoring::{rank_by_score, sort_by_score_stable, summarize_distribution, FileScoreResult, TopBracket};
use march_madness::text::parse_bracket;

const WINNING: &str = "1 9 5 13 6 3 10 2 17 25 21 20 22 19 26 18 33 40 37 36 38 35 42 34 49 57 53 61 54 51 55 50;1 5 6 10 17 20 19 18 40 37 35 34 49 61 51 50;5 6 17 19 40 34 49 50;5 17 34 49;17 49;17";

fn entry(score: u8, starting_byte: usize) -> TopBracket {
    (score, starting_byte, "f".to_string(), [0; 63])
}

#[test]
fn stable_sort_then_reverse() {
    let entries = vec![entry(5, 0), entry(3, 8), entry(5, 16), entry(7, 24), entry(3, 32)];
    let sorted: Vec<(u8, usize)> = sort_by_score_stable(entries.clone()).iter().map(|e| (e.0, e.1)).collect();
    assert_eq!(sorted, vec![(3, 8), (3, 32), (5, 0), (5, 16), (7, 24)]);
    let ranked: Vec<(u8, usize)> = rank_by_score(entries).iter().map(|e| (e.0, e.1)).collect();
    assert_eq!(ranked, vec![(7, 24), (5, 16), (5, 0), (3, 32), (3, 8)]);
}

#[test]
fn scoring_a_file_of_brackets() {
    let winning = parse_bracket(&WINNING.to_string());
    let file = "0_brackets.bin".to_string();
    let mut result = FileScoreResult::new();
    let perfect = encode_to_bytes(&winning).to_be_bytes();
    assert!(result.has_room());
    let score = result.add_bracket(&perfect, &winning, 192, &file, 0);
    assert_eq!(score, 192);
    let chalk: [u8; 8] = [0; 8];
    let score2 = result.add_bracket(&chalk, &winning, 192, &file, 8);
    assert!(score2 < 192);
    assert_eq!(result.total_brackets, 2);
    assert_eq!(result.perfect_brackets, 1);
    assert_eq!(result.bracket_score_accumulator, 192 + score2 as usize);
    assert_eq!(result.score_distribution[192], 1);
    assert_eq!(result.score_distribution[score2 as usize], 1);
    assert_eq!(result.top_brackets.len(), 2);
    assert_eq!(result.top_brackets[0].0, 192);
    assert_eq!(result.top_brackets[0].1, 0);
    assert_eq!(result.top_brackets[0].2, file);
    assert_eq!(result.top_brackets[0].3, winning);
    assert_eq!(result.top_brackets[1].1, 8);
}

#[test]
fn only_ten_best_brackets_are_kept() {
    let winning = parse_bracket(&WINNING.to_string());
    let file = "1_brackets.bin".to_string();
    let mut result = FileScoreResult::new();
    for i in 0..40u8 {
        let bytes = [i, i.wrapping_mul(7), 3, 0x50, i, 0xB7, 0x85, 0x2C];
        let _ = result.add_bracket(&bytes, &winning, 192, &file, 8 * i as usize);
    }
    assert_eq!(result.total_brackets, 40);
    assert_eq!(result.top_brackets.len(), 10);
    for w in result.top_brackets.windows(2) {
        assert!(w[0].0 >= w[1].0);
    }
    let lowest_kept = result.top_brackets[9].0;
    let above: usize = result.score_distribution[(lowest_kept as usize + 1)..].iter().sum();
    assert!(above <= 10);
}

#[test]
fn merging_results() {
    let mut a = FileScoreResult::new();
    a.total_brackets = 3;
    a.perfect_brackets = 1;
    a.bracket_score_accumulator = 300;
    a.score_distribution[192] = 1;
    a.top_brackets = vec![entry(192, 0)];
    let mut b = FileScoreResult::new();
    b.total_brackets = 2;
    b.bracket_score_accumulator = 50;
    b.score_distribution[25] = 2;
    b.top_brackets = (0..12).map(|i| entry(i as u8, i * 8)).collect();
    assert!(a.can_merge(&b));
    a.merge(b);
    assert_eq!(a.total_brackets, 5);
    assert_eq!(a.perfect_brackets, 1);
    assert_eq!(a.bracket_score_accumulator, 350);
    assert_eq!(a.score_distribution[25], 2);
    assert_eq!(a.top_brackets.len(), 13);
    a.keep_top_brackets();
    let scores: Vec<u8> = a.top_brackets.iter().map(|e| e.0).collect();
    assert_eq!(scores, vec![192, 11, 10, 9, 8, 7, 6, 5, 4, 3]);

    let mut full = FileScoreResult::new();
    full.total_brackets = usize::MAX;
    let mut one = FileScoreResult::new();
    one.total_brackets = 1;
    assert!(!full.can_merge(&one));
    assert!(!full.has_room());
}

#[test]
fn distribution_summary() {
    let mut dist = [0usize; 193];
    let empty = summarize_distribution(&dist);
    assert_eq!(empty.lowest_score, usize::MAX);
    assert_eq!(empty.highest_population, 0);
    assert_eq!(empty.highest_population_score, 0);
    dist[40] = 3;
    dist[12] = 1;
    dist[100] = 3;
    let s = summarize_distribution(&dist);
    assert_eq!(s.lowest_score, 12);
    assert_eq!(s.highest_population, 3);
    assert_eq!(s.highest_population_score, 40);
}

#[test]
fn merging_all_files() {
    let mut a = FileScoreResult::new();
    a.total_brackets = 4;
    a.perfect_brackets = 1;
    a.bracket_score_accumulator = 400;
    a.score_distribution[192] = 1;
    a.score_distribution[60] = 3;
    a.top_brackets = vec![entry(192, 0), entry(60, 8)];
    let mut b = FileScoreResult::new();
    b.total_brackets = 2;
    b.bracket_score_accumulator = 120;
    b.score_distribution[60] = 2;
    b.top_brackets = (0..11).map(|i| entry(50 + i as u8, i * 8)).collect();
    let merged = march_madness::scoring::merge_results(vec![a, b]).unwrap();
    assert_eq!(merged.total_brackets, 6);
    assert_eq!(merged.perfect_brackets, 1);
    assert_eq!(merged.bracket_score_accumulator, 520);
    assert_eq!(merged.score_distribution[60], 5);
    assert_eq!(merged.score_distribution[192], 1);
    let scores: Vec<u8> = merged.top_brackets.iter().map(|e| e.0).collect();
    assert_eq!(scores, vec![192, 60, 60, 59, 58, 57, 56, 55, 54, 53]);
    // ties: the later entry of equal score comes first
    assert_eq!(merged.top_brackets[1].1, 80);

    let mut big = FileScoreResult::new();
    big.total_brackets = usize::MAX;
    let mut one = FileScoreResult::new();
    one.total_brackets = 1;
    assert!(march_madness::scoring::merge_results(vec![big, one]).is_none());
    assert_eq!(march_madness::scoring::merge_results(Vec::new()).unwrap().total_brackets, 0);
}
