use march_madness::codec::{calc_max_bracket_points, decode_and_score, encode_to_bytes};
use march_madness::text::{bracket_team_numbers, get_human_readable_bracket, parse_bracket, parse_team};

#[test]
fn test_get_human_readable_bracket() {
    let a: [u8; 63] = [35; 63];
    let b: String = get_human_readable_bracket(&a);
    assert_eq!(b, "35 35 35 35 35 35 35 35 35 35 35 35 35 35 35 35 35 35 35 35 35 35 35 35 35 35 35 35 35 35 35 35;35 35 35 35 35 35 35 35 35 35 35 35 35 35 35 35;35 35 35 35 35 35 35 35;35 35 35 35;35 35;35".to_string());
}

#[test]
fn test_encode_bracket() {
    let test_bracket: [u8; 63] = [ // expanded for clarity
        1, 8, 5, 4, 11, 14, 7, 2, 17, 24, 28, 29, 22, 19, 23, 18, 33, 41, 44, 45, 38, 35, 42, 34, 49, 57, 53, 52, 59, 51, 55, 50,
          1,    5,    11,     7,     17,    29,     19,     18,     33,      44,    38,     34,      49,     52,    51,     50,
             1,            7,           17,             18,              33,             34,             49,             50,
                    1,                           17,                             33,                            49,
                                 17,                                                            33,
                                                                 33
    ];

    let test_bracket_encoded: [u8; 8] = encode_to_bytes(&test_bracket).to_be_bytes();

    let answer: [u8; 8] = [12, 48, 114, 72, 7, 23, 85, 10];
    assert!(test_bracket_encoded.iter().eq(answer.iter()));
}

#[test]
fn test_decode_bracket() {
    let answer: [u8; 63] = [1, 9, 5, 13, 6, 3, 10, 2, 17, 25, 21, 20, 22, 19, 26, 18, 33, 40, 37,
                            36, 38, 35, 42, 34, 49, 57, 53, 61, 54, 51, 55, 50, 1, 5, 6, 10, 17,
                            20, 19, 18, 40, 37, 35, 34, 49, 61, 51, 50, 5, 6, 17, 19, 40, 34, 49,
                            50, 5, 17, 34, 49, 17, 49, 17];
    let test_bracket: [u8; 8] = [0x52, 0x42, 0x02, 0x50, 0x07, 0xB7, 0x85, 0x2C];
    let mut test_bracket_decoded: [u8; 63] = [0; 63];
    let _ = decode_and_score(&test_bracket, &[0; 63], &mut test_bracket_decoded);
    assert!(test_bracket_decoded.iter().eq(answer.iter()));
}

#[test]
fn test_score_bracket() {
    // this test uses the encode and decode functionality from the two previous tests, so a failure
    // there may cascade into this one

    let test_bracket: &str = "1 8 5 4 11 14 7 2 17 24 28 29 22 19 23 18 33 41 44 45 38 35 42 34 49 57 53 52 59 51 55 50;1 4 11 7 17 29 19 18 33 44 38 34 49 52 51 50;1 7 17 18 33 34 49 50;1 17 33 49;17 33;17";
    let winning_bracket: &str = "0 8 5 4 11 14 7 2 17 24 28 29 22 19 23 18 33 41 44 45 38 35 42 34 49 57 53 52 59 51 55 50;1 0 11 7 17 29 19 18 33 44 38 34 49 52 51 50;1 7 0 18 33 34 49 50;1 17 33 0;17 0;0";

    let winning_bracket_encoded: [u8; 63] = parse_bracket(&winning_bracket.to_string());
    let test_bracket_encoded: [u8; 8] = encode_to_bytes(&parse_bracket(&test_bracket.to_string())).to_be_bytes();
    let mut test_bracket_decoded: [u8; 63] = [0; 63];

    // check scoring functionality
    assert_eq!(decode_and_score(&test_bracket_encoded, &winning_bracket_encoded, &mut test_bracket_decoded), 129);
}

fn encode_to_bytes_binary_version1(bracket: &[u8; 63]) -> [u8; 64] {
    let mut encoded_bracket: [u8; 64] = [0; 64];

    for (idx, team) in bracket.iter().enumerate() {
        encoded_bracket[idx] = team + 32;
    }

    encoded_bracket[63] = b'\n';
    encoded_bracket
}

#[test]
fn test_print_example() {
    // not a check: it prints the example bracket in each format

    let test_bracket: [u8; 63] = [1, 9, 5, 13, 6, 3, 10, 2, 17, 25, 21, 20, 22, 19, 26, 18, 33, 40, 37, 36, 38, 35, 42, 34, 49, 57, 53, 61, 54, 51, 55, 50, 1, 5, 6, 10, 17, 20, 19, 18, 40, 37, 35, 34, 49, 61, 51, 50, 5, 6, 17, 19, 40, 34, 49, 50, 5, 17, 34, 49, 17, 49, 17];
    let test_bracket_encoded1: [u8; 64] = encode_to_bytes_binary_version1(&test_bracket);
    let test_bracket_encoded2: [u8; 8] = encode_to_bytes(&test_bracket).to_be_bytes();

    let mut line = String::new();
    for t in test_bracket {
        line.push_str(&format!("{} ", t));
    }
    println!("{}", line);

    let mut line = String::new();
    for t in test_bracket_encoded1 {
        line.push(t as char);
    }

    for t in test_bracket_encoded2 {
        line.push_str(&format!("0x{:0>2X} ", t));
    }
    println!("{}", line);
}

// ---------------------------------------------------------------------------

const README_TEXT: &str = "1 9 5 13 6 3 10 2 17 25 21 20 22 19 26 18 33 40 37 36 38 35 42 34 49 57 53 61 54 51 55 50;1 5 6 10 17 20 19 18 40 37 35 34 49 61 51 50;5 6 17 19 40 34 49 50;5 17 34 49;17 49;17";

#[test]
fn readme_example_in_every_format() {
    let bracket = parse_bracket(&README_TEXT.to_string());
    assert_eq!(encode_to_bytes(&bracket).to_be_bytes(), [0x52, 0x42, 0x02, 0x50, 0x07, 0xB7, 0x85, 0x2C]);
    assert_eq!(get_human_readable_bracket(&bracket), README_TEXT);
    let v1 = encode_to_bytes_binary_version1(&bracket);
    let v1_text: String = v1[..63].iter().map(|b| *b as char).collect();
    assert_eq!(v1_text, "!)%-&#*\"195463:2AHEDFCJBQYU]VSWR!%&*1432HECBQ]SR%&13HBQR%1BQ1Q1");
}

#[test]
fn encoding_of_the_last_three_rounds() {
    // the last games, 5 17 34 49;17 49;17, are won by the bottom, the bottom and the top team
    let bracket = parse_bracket(&README_TEXT.to_string());
    let word = encode_to_bytes(&bracket);
    assert_eq!(word & 1, 0);
    assert_eq!((word >> 1) & 0b111, 0b110);
}

#[test]
fn all_top_teams_win_encodes_to_zero() {
    let mut decoded = [0u8; 63];
    let score = decode_and_score(&[0; 8], &[0; 63], &mut decoded);
    assert_eq!(score, 0);
    assert_eq!(decoded[0], 1);
    assert_eq!(decoded[31], 50);
    assert_eq!(decoded[62], 1);
    assert_eq!(encode_to_bytes(&decoded), 0);
}

#[test]
fn all_bottom_teams_win_round_trips_without_lowest_bit() {
    let mut decoded = [0u8; 63];
    let _ = decode_and_score(&[0xFF; 8], &[0; 63], &mut decoded);
    assert_eq!(decoded[0], 16);
    assert_eq!(encode_to_bytes(&decoded).to_be_bytes(), [0xFF, 0xFF, 0xFF, 0xFF, 0xFF, 0xFF, 0xFF, 0xFE]);
}

#[test]
fn decode_then_encode_gives_the_bytes_back() {
    let samples: [[u8; 8]; 4] = [
        [0x52, 0x42, 0x02, 0x50, 0x07, 0xB7, 0x85, 0x2C],
        [12, 48, 114, 72, 7, 23, 85, 10],
        [0xA5, 0x5A, 0x00, 0xFF, 0x13, 0x37, 0xC0, 0xDF],
        [1, 2, 3, 4, 5, 6, 7, 9],
    ];
    for bytes in samples {
        let mut decoded = [0u8; 63];
        let _ = decode_and_score(&bytes, &[0; 63], &mut decoded);
        let mut expected = bytes;
        expected[7] &= 0xFE;
        assert_eq!(encode_to_bytes(&decoded).to_be_bytes(), expected);
    }
}

#[test]
fn perfect_bracket_scores_192() {
    let bracket = parse_bracket(&README_TEXT.to_string());
    let bytes = encode_to_bytes(&bracket).to_be_bytes();
    let mut decoded = [0u8; 63];
    assert_eq!(calc_max_bracket_points(&bracket), 192);
    assert_eq!(decode_and_score(&bytes, &bracket, &mut decoded), 192);
    assert_eq!(decoded, bracket);
}

#[test]
fn scores_per_round() {
    let bracket = parse_bracket(&README_TEXT.to_string());
    let bytes = encode_to_bytes(&bracket).to_be_bytes();
    // winning bracket that only has the champion right
    let mut winning = [0u8; 63];
    winning[62] = 17;
    let mut decoded = [0u8; 63];
    assert_eq!(decode_and_score(&bytes, &winning, &mut decoded), 32);
    assert_eq!(calc_max_bracket_points(&winning), 32);
    // one correct pick in each round: 1 + 2 + 4 + 8 + 16 + 32
    let mut winning = [0u8; 63];
    for k in [0usize, 32, 48, 56, 60, 62] {
        winning[k] = bracket[k];
    }
    assert_eq!(decode_and_score(&bytes, &winning, &mut decoded), 63);
    assert_eq!(calc_max_bracket_points(&winning), 63);
}

#[test]
fn max_points_skip_games_without_winner() {
    let mut winning = [1u8; 63];
    winning[0] = 0; // a first round game: 1 point
    winning[40] = 0; // a second round game: 2 points
    winning[62] = 0; // the championship: 32 points
    assert_eq!(calc_max_bracket_points(&winning), 192 - 1 - 2 - 32);
}

#[test]
fn text_round_trip_of_any_numbers() {
    let mut bracket = [0u8; 63];
    for (k, team) in bracket.iter_mut().enumerate() {
        *team = (k * 37 % 256) as u8;
    }
    bracket[5] = 255;
    bracket[6] = 0;
    let text = get_human_readable_bracket(&bracket);
    assert_eq!(parse_bracket(&text), bracket);
    assert_eq!(bracket_team_numbers(&text).len(), 63);
}

#[test]
fn parse_team_follows_u8_parsing() {
    let cases = ["5", "+5", "007", "255", "256", "-5", "+", "", "5a", "1000", "++5", "٣"];
    for case in cases {
        let chars: Vec<char> = case.chars().collect();
        assert_eq!(parse_team(&chars), case.parse::<u8>().unwrap_or(0), "token {:?}", case);
    }
}

#[test]
fn parse_bracket_with_odd_spacing() {
    let text = "  1\t2\u{A0};\u{A0}3 4\u{A0}5 ;; 6\r\n".to_string();
    let bracket = parse_bracket(&text);
    // the no-break space between 4 and 5 is part of the word "4\u{A0}5", which is no number
    assert_eq!(&bracket[..6], &[1, 2, 3, 0, 6, 0]);
    assert!(bracket[6..].iter().all(|t| *t == 0));
    assert_eq!(bracket_team_numbers(&text), vec![1, 2, 3, 0, 6]);
}

#[test]
fn parse_short_bracket_fills_zeros() {
    let bracket = parse_bracket(&"17;;33".to_string());
    assert_eq!(bracket[0], 17);
    assert_eq!(bracket[1], 33);
    assert!(bracket[2..].iter().all(|t| *t == 0));
}
