//! The binary bracket format (version 2) and the scoring of a bracket.
//!
//! A bracket is stored as one 64 bit word, written big endian: bit 63 - k of the
//! word (counting from the least significant bit) is 0 when the top team won
//! game k and 1 when the bottom team won it; the lowest bit is 0.
use vstd::prelude::*;
use crate::layout::{
    game_points, is_consistent, lemma_points_before, node_team, points_before, round_length,
    round_start, starting_team, starting_team_at, top_team, bottom_team, PERFECT_SCORE,
};

verus! {

/// For each game, whether the bottom team won it.
pub open spec fn winner_bits(b: Seq<u8>) -> Seq<bool> {
    Seq::new(63, |k: int| b[k] != top_team(b, k))
}

/// The 63 bits packed into a word, the first one highest.
pub open spec fn pack_bits(bits: Seq<bool>) -> u64
    decreases bits.len(),
{
    if bits.len() == 0 {
        0
    } else {
        (pack_bits(bits.drop_last()) << 1u64) | (if bits.last() { 1u64 } else { 0u64 })
    }
}

/// The word that stores bracket `b`.
pub open spec fn encoding_of(b: Seq<u8>) -> u64 {
    pack_bits(winner_bits(b)) << 1u64
}

/// Bit `k` of word `w`, counted from the most significant one.
pub open spec fn word_bit(w: u64, k: int) -> bool {
    ((w >> ((63 - k) as u64)) & 1u64) == 1u64
}

/// The 8 bytes of `w`, most significant first.
pub open spec fn be_bytes(w: u64) -> Seq<u8> {
    Seq::new(8, |j: int| (w >> ((56 - 8 * j) as u64)) as u8)
}

/// Bit `k` of a stored bracket, counted from the most significant bit of its
/// first byte.
pub open spec fn byte_bit(bytes: Seq<u8>, k: int) -> bool {
    ((bytes[k / 8] >> ((7 - k % 8) as u8)) & 1u8) == 1u8
}

/// The 63 game bits of a stored bracket.
pub open spec fn stored_bits(bytes: Seq<u8>) -> Seq<bool> {
    Seq::new(63, |k: int| byte_bit(bytes, k))
}

/// The winners of the first `n` games, when `bits` says which team won each.
pub open spec fn winners_upto(bits: Seq<bool>, n: int) -> Seq<u8>
    decreases n,
{
    if n <= 0 {
        Seq::empty()
    } else {
        let p = winners_upto(bits, n - 1);
        p.push(node_team(p, 2 * (n - 1) + (if bits[n - 1] { 1int } else { 0int })))
    }
}

/// The bracket in which `bits` says which team won each game.
pub open spec fn bracket_from_bits(bits: Seq<bool>) -> Seq<u8> {
    winners_upto(bits, 63)
}

/// Points scored by the first `n` games of bracket `d` against `w`.
pub open spec fn score_upto(d: Seq<u8>, w: Seq<u8>, n: int) -> int
    decreases n,
{
    if n <= 0 {
        0
    } else {
        score_upto(d, w, n - 1) + (if d[n - 1] == w[n - 1] { game_points(n - 1) } else { 0 })
    }
}

/// Points scored by bracket `d` against the winning bracket `w`.
pub open spec fn bracket_score(d: Seq<u8>, w: Seq<u8>) -> int {
    score_upto(d, w, 63)
}

/// Points of the first `n` games that have a winner (a team other than 0) in `w`.
pub open spec fn max_points_upto(w: Seq<u8>, n: int) -> int
    decreases n,
{
    if n <= 0 {
        0
    } else {
        max_points_upto(w, n - 1) + (if w[n - 1] != 0 { game_points(n - 1) } else { 0 })
    }
}

/// Points that a bracket can score at most against the winning bracket `w`.
pub open spec fn max_points(w: Seq<u8>) -> int {
    max_points_upto(w, 63)
}

// ---------------------------------------------------------------------------
// Lemmas

proof fn lemma_shift_in(x: u64, b: u64, s: u64)
    requires
        b <= 1,
        1 <= s < 64,
    ensures
        (((x << 1u64) | b) >> s) & 1u64 == (x >> ((s - 1) as u64)) & 1u64,
        ((x << 1u64) | b) & 1u64 == b,
        ((x << 1u64) | b) >> 0u64 == (x << 1u64) | b,
{
    assert((((x << 1u64) | b) >> s) & 1u64 == (x >> ((s - 1) as u64)) & 1u64) by (bit_vector)
        requires
            b <= 1,
            1 <= s < 64,
    ;
    assert(((x << 1u64) | b) & 1u64 == b) by (bit_vector)
        requires
            b <= 1,
    ;
    assert(((x << 1u64) | b) >> 0u64 == (x << 1u64) | b) by (bit_vector);
}

proof fn lemma_shift_bound(x: u64, b: u64, i: u64)
    requires
        b <= 1,
        i < 64,
        x >> i == 0,
    ensures
        ((x << 1u64) | b) >> (i + 1) as u64 == 0,
{
    assert(((x << 1u64) | b) >> (i + 1) as u64 == 0) by (bit_vector)
        requires
            b <= 1,
            i < 64,
            x >> i == 0,
    ;
}

/// The packed bits, read back one by one: bit `k` of the first `n` packed bits
/// stands `n - 1 - k` places above the lowest.
proof fn lemma_pack_bits(bits: Seq<bool>)
    requires
        bits.len() <= 63,
    ensures
        forall|k: int|
            0 <= k < bits.len() ==> (((pack_bits(bits) >> ((bits.len() - 1 - k) as u64)) & 1u64)
                == 1u64) == #[trigger] bits[k],
        pack_bits(bits) >> (bits.len() as u64) == 0,
    decreases bits.len(),
{
    if bits.len() == 0 {
        assert(0u64 >> 0u64 == 0) by (bit_vector);
    } else {
        let rest = bits.drop_last();
        lemma_pack_bits(rest);
        let x = pack_bits(rest);
        let b: u64 = if bits.last() { 1 } else { 0 };
        lemma_shift_bound(x, b, rest.len() as u64);
        assert forall|k: int| 0 <= k < bits.len() implies (((pack_bits(bits) >> ((bits.len() - 1
            - k) as u64)) & 1u64) == 1u64) == #[trigger] bits[k] by {
            if k == bits.len() - 1 {
                lemma_shift_in(x, b, 1);
            } else {
                lemma_shift_in(x, b, (bits.len() - 1 - k) as u64);
                assert(rest[k] == bits[k]);
            }
        }
    }
}

/// The bits of a stored word are the packed bits, the lowest bit being 0.
pub proof fn lemma_encoding_bits(bits: Seq<bool>)
    requires
        bits.len() == 63,
    ensures
        forall|k: int| 0 <= k < 63 ==> word_bit(pack_bits(bits) << 1u64, k) == #[trigger] bits[k],
        (pack_bits(bits) << 1u64) & 1u64 == 0,
{
    lemma_pack_bits(bits);
    let x = pack_bits(bits);
    assert forall|k: int| 0 <= k < 63 implies word_bit(x << 1u64, k) == #[trigger] bits[k] by {
        lemma_shift_in(x, 0, (63 - k) as u64);
        assert((x << 1u64) | 0u64 == x << 1u64) by (bit_vector);
    }
    assert((x << 1u64) & 1u64 == 0) by (bit_vector);
}

/// Reading a bit of the big endian bytes of a word reads that bit of the word.
pub proof fn lemma_be_bytes_bits(w: u64)
    ensures
        be_bytes(w).len() == 8,
        forall|k: int| 0 <= k < 64 ==> #[trigger] byte_bit(be_bytes(w), k) == word_bit(w, k),
{
    assert forall|k: int| 0 <= k < 64 implies #[trigger] byte_bit(be_bytes(w), k) == word_bit(w, k) by {
        let j: u64 = (k / 8) as u64;
        let r: u64 = (k % 8) as u64;
        assert(be_bytes(w)[k / 8] == (w >> ((56 - 8 * j) as u64)) as u8);
        assert(((((w >> ((56 - 8 * j) as u64)) as u8) >> ((7 - r) as u8)) & 1u8 == 1u8) == (((w
            >> ((63 - 8 * j - r) as u64)) & 1u64) == 1u64)) by (bit_vector)
            requires
                j < 8,
                r < 8,
        ;
    }
}

/// Every stored bracket is built from its first games on: the winners of the
/// first `n` games do not change when more games are decoded.
pub proof fn lemma_winners_prefix(bits: Seq<bool>, n: int, m: int)
    requires
        0 <= n <= m,
    ensures
        winners_upto(bits, n) == winners_upto(bits, m).subrange(0, n),
        winners_upto(bits, m).len() == m,
    decreases m,
{
    if m > 0 {
        if n < m {
            lemma_winners_prefix(bits, n, m - 1);
        }
        lemma_winners_prefix(bits, m - 1, m - 1);
    }
    assert(winners_upto(bits, m).subrange(0, m) =~= winners_upto(bits, m));
}

/// In a decoded bracket the winner of each game is the team the bit picks.
pub proof fn lemma_decoded_games(bits: Seq<bool>)
    ensures
        bracket_from_bits(bits).len() == 63,
        forall|k: int|
            0 <= k < 63 ==> #[trigger] bracket_from_bits(bits)[k] == node_team(
                bracket_from_bits(bits),
                2 * k + (if bits[k] { 1int } else { 0int }),
            ),
{
    let full = bracket_from_bits(bits);
    lemma_winners_prefix(bits, 63, 63);
    assert forall|k: int| 0 <= k < 63 implies #[trigger] full[k] == node_team(
        full,
        2 * k + (if bits[k] { 1int } else { 0int }),
    ) by {
        lemma_winners_prefix(bits, k, 63);
        lemma_winners_prefix(bits, k + 1, 63);
        let p = winners_upto(bits, k);
        assert(winners_upto(bits, k + 1)[k] == full[k]);
    }
}

/// A decoded bracket is consistent.
pub proof fn lemma_decoded_is_consistent(bits: Seq<bool>)
    ensures
        is_consistent(bracket_from_bits(bits)),
{
    lemma_decoded_games(bits);
    let full = bracket_from_bits(bits);
    assert forall|k: int| 0 <= k < 63 implies #[trigger] full[k] == top_team(full, k) || full[k]
        == bottom_team(full, k) by {
        assert(full[k] == node_team(full, 2 * k + (if bits[k] { 1int } else { 0int })));
    }
}

/// A score counts at most the points of the games that have a winner.
pub proof fn lemma_score_upto_bound(d: Seq<u8>, w: Seq<u8>, n: int)
    requires
        0 <= n <= 63,
        d.len() >= n,
        forall|i: int| 0 <= i < n ==> d[i] != 0,
    ensures
        0 <= score_upto(d, w, n) <= max_points_upto(w, n),
        max_points_upto(w, n) <= points_before(n),
    decreases n,
{
    if n > 0 {
        lemma_score_upto_bound(d, w, n - 1);
    }
}

proof fn lemma_max_points_bound(w: Seq<u8>, n: int)
    requires
        0 <= n <= 63,
    ensures
        0 <= max_points_upto(w, n) <= points_before(n),
    decreases n,
{
    if n > 0 {
        lemma_max_points_bound(w, n - 1);
    }
}

proof fn lemma_score_bound(d: Seq<u8>, w: Seq<u8>, n: int)
    requires
        0 <= n <= 63,
    ensures
        0 <= score_upto(d, w, n) <= points_before(n),
    decreases n,
{
    if n > 0 {
        lemma_score_bound(d, w, n - 1);
    }
}

/// Encoding a consistent bracket and reading its bits back gives its winner bits.
proof fn lemma_winners_of_consistent(b: Seq<u8>, n: int)
    requires
        is_consistent(b),
        0 <= n <= 63,
    ensures
        winners_upto(winner_bits(b), n) == b.subrange(0, n),
    decreases n,
{
    if n > 0 {
        lemma_winners_of_consistent(b, n - 1);
        let p = winners_upto(winner_bits(b), n - 1);
        let k = n - 1;
        assert(b[k] == top_team(b, k) || b[k] == bottom_team(b, k));
        assert(node_team(p, 2 * k) == top_team(b, k));
        assert(node_team(p, 2 * k + 1) == bottom_team(b, k));
        assert(winners_upto(winner_bits(b), n) =~= b.subrange(0, n));
    }
}

/// First starting slot below node `n` of the tournament tree.
pub open spec fn first_slot(n: int) -> int {
    if n < 64 { n }
    else if n < 96 { (n - 64) * 2 }
    else if n < 112 { (n - 96) * 4 }
    else if n < 120 { (n - 112) * 8 }
    else if n < 124 { (n - 120) * 16 }
    else if n < 126 { (n - 124) * 32 }
    else { 0 }
}

/// Number of starting slots below node `n` of the tournament tree.
pub open spec fn slot_count(n: int) -> int {
    if n < 64 { 1 }
    else if n < 96 { 2 }
    else if n < 112 { 4 }
    else if n < 120 { 8 }
    else if n < 124 { 16 }
    else if n < 126 { 32 }
    else { 64 }
}

/// No two starting slots hold the same team.
proof fn lemma_starting_teams_distinct(s1: int, s2: int)
    requires
        0 <= s1 < 64,
        0 <= s2 < 64,
        s1 != s2,
    ensures
        starting_team(s1) != starting_team(s2),
        1 <= starting_team(s1) <= 64,
{
}

/// The team at a node of a consistent bracket started in a slot below that node.
proof fn lemma_node_slot(b: Seq<u8>, n: int) -> (s: int)
    requires
        is_consistent(b),
        0 <= n < 127,
    ensures
        first_slot(n) <= s < first_slot(n) + slot_count(n),
        0 <= s < 64,
        node_team(b, n) == starting_team(s),
    decreases n,
{
    if n < 64 {
        n
    } else {
        let k = n - 64;
        if b[k] == top_team(b, k) {
            lemma_node_slot(b, 2 * k)
        } else {
            lemma_node_slot(b, 2 * k + 1)
        }
    }
}

/// The two teams of a game of a consistent bracket are different teams, and
/// every winner is a team from 1 to 64.
pub proof fn lemma_game_teams_distinct(b: Seq<u8>, k: int)
    requires
        is_consistent(b),
        0 <= k < 63,
    ensures
        top_team(b, k) != bottom_team(b, k),
        1 <= b[k] <= 64,
{
    let s1 = lemma_node_slot(b, 2 * k);
    let s2 = lemma_node_slot(b, 2 * k + 1);
    lemma_starting_teams_distinct(s1, s2);
    let s = lemma_node_slot(b, 64 + k);
    lemma_starting_teams_distinct(s, (s + 1) % 64);
}

/// Decoding then reading the winner bits gives back the bits.
pub proof fn lemma_winner_bits_of_decoded(bits: Seq<bool>)
    requires
        bits.len() == 63,
    ensures
        winner_bits(bracket_from_bits(bits)) == bits,
{
    let d = bracket_from_bits(bits);
    lemma_decoded_games(bits);
    lemma_decoded_is_consistent(bits);
    assert forall|k: int| 0 <= k < 63 implies #[trigger] winner_bits(d)[k] == bits[k] by {
        lemma_game_teams_distinct(d, k);
    }
    assert(winner_bits(d) =~= bits);
}

/// Stored bracket round trip: the big endian bytes of the word that
/// `encode_to_bytes` gives for a consistent bracket decode to that bracket.
pub proof fn law_decode_of_encode(b: Seq<u8>)
    requires
        is_consistent(b),
    ensures
        bracket_from_bits(stored_bits(be_bytes(encoding_of(b)))) == b,
{
    let bits = winner_bits(b);
    lemma_encoding_bits(bits);
    lemma_be_bytes_bits(encoding_of(b));
    assert(stored_bits(be_bytes(encoding_of(b))) =~= bits);
    lemma_winners_of_consistent(b, 63);
    assert(b.subrange(0, 63) =~= b);
}

/// The other round trip: encoding the bracket that 8 stored bytes decode to
/// gives back those bytes, but for their lowest bit, which is always 0.
pub proof fn law_encode_of_decode(bytes: Seq<u8>)
    requires
        bytes.len() == 8,
    ensures
        be_bytes(encoding_of(bracket_from_bits(stored_bits(bytes)))) == bytes.update(
            7,
            bytes[7] & 0xFEu8,
        ),
{
    let bits = stored_bits(bytes);
    let w = encoding_of(bracket_from_bits(bits));
    lemma_winner_bits_of_decoded(bits);
    lemma_encoding_bits(bits);
    lemma_be_bytes_bits(w);
    let target = bytes.update(7, bytes[7] & 0xFEu8);
    assert forall|j: int| 0 <= j < 8 implies #[trigger] be_bytes(w)[j] == target[j] by {
        let x = be_bytes(w)[j];
        let y = target[j];
        assert forall|r: int| 0 <= r < 8 implies #[trigger] bit_of_byte(x, r) == bit_of_byte(y, r) by {
            let k = 8 * j + r;
            assert(k / 8 == j && k % 8 == r);
            let rr = (7 - r) as u8;
            assert((x >> rr) & 1u8 <= 1) by (bit_vector);
            assert((y >> rr) & 1u8 <= 1) by (bit_vector);
            assert(byte_bit(be_bytes(w), k) == (((x >> rr) & 1u8) == 1u8));
            assert(byte_bit(be_bytes(w), k) == word_bit(w, k));
            if k < 63 {
                assert(word_bit(w, k) == bits[k]);
                assert(byte_bit(bytes, k) == bits[k]);
                let z = bytes[j];
                assert(byte_bit(bytes, k) == (((z >> rr) & 1u8) == 1u8));
                if j == 7 {
                    assert(((z & 0xFEu8) >> rr) & 1u8 == (z >> rr) & 1u8) by (bit_vector)
                        requires
                            rr >= 1,
                            rr < 8,
                    ;
                } else {
                    assert(y == z);
                }
            } else {
                let z = bytes[7];
                assert(rr == 0);
                assert(y == z & 0xFEu8);
                assert(((z & 0xFEu8) >> 0u8) & 1u8 == 0) by (bit_vector);
                assert((w >> 0u64) & 1u64 == w & 1u64) by (bit_vector);
                assert(!word_bit(w, k));
            }
        }
        assert(bit_of_byte(x, 0) == bit_of_byte(y, 0));
        assert(bit_of_byte(x, 1) == bit_of_byte(y, 1));
        assert(bit_of_byte(x, 2) == bit_of_byte(y, 2));
        assert(bit_of_byte(x, 3) == bit_of_byte(y, 3));
        assert(bit_of_byte(x, 4) == bit_of_byte(y, 4));
        assert(bit_of_byte(x, 5) == bit_of_byte(y, 5));
        assert(bit_of_byte(x, 6) == bit_of_byte(y, 6));
        assert(bit_of_byte(x, 7) == bit_of_byte(y, 7));
        assert(x == y) by (bit_vector)
            requires
                (x >> 7u8) & 1u8 == (y >> 7u8) & 1u8,
                (x >> 6u8) & 1u8 == (y >> 6u8) & 1u8,
                (x >> 5u8) & 1u8 == (y >> 5u8) & 1u8,
                (x >> 4u8) & 1u8 == (y >> 4u8) & 1u8,
                (x >> 3u8) & 1u8 == (y >> 3u8) & 1u8,
                (x >> 2u8) & 1u8 == (y >> 2u8) & 1u8,
                (x >> 1u8) & 1u8 == (y >> 1u8) & 1u8,
                (x >> 0u8) & 1u8 == (y >> 0u8) & 1u8,
        ;
    }
    assert(be_bytes(w) =~= target);
}

/// Bit `r` of byte `x`, counted from the most significant one.
spec fn bit_of_byte(x: u8, r: int) -> u8 {
    (x >> ((7 - r) as u8)) & 1u8
}

/// Every bracket that a stored word decodes to is consistent, and its winners
/// are teams 1 to 64.
pub proof fn law_decoded_is_consistent(bits: Seq<bool>)
    ensures
        is_consistent(bracket_from_bits(bits)),
        forall|k: int| 0 <= k < 63 ==> 1 <= #[trigger] bracket_from_bits(bits)[k] <= 64,
{
    lemma_decoded_is_consistent(bits);
    assert forall|k: int| 0 <= k < 63 implies 1 <= #[trigger] bracket_from_bits(bits)[k] <= 64 by {
        lemma_game_teams_distinct(bracket_from_bits(bits), k);
    }
}

/// A decoded bracket never scores more than the most points the winning bracket
/// allows, which are at most 192.
pub proof fn law_score_at_most_max(bits: Seq<bool>, w: Seq<u8>)
    ensures
        0 <= bracket_score(bracket_from_bits(bits), w) <= max_points(w) <= 192,
{
    law_decoded_is_consistent(bits);
    lemma_score_upto_bound(bracket_from_bits(bits), w, 63);
    lemma_points_before(63);
}

proof fn lemma_max_score_matches(d: Seq<u8>, w: Seq<u8>, n: int)
    requires
        0 <= n <= 63,
        d.len() == 63,
        forall|i: int| 0 <= i < 63 ==> d[i] != 0,
        forall|i: int| 0 <= i < 63 ==> w[i] != 0,
        score_upto(d, w, n) == max_points_upto(w, n),
    ensures
        forall|i: int| 0 <= i < n ==> d[i] == w[i],
    decreases n,
{
    if n > 0 {
        lemma_score_upto_bound(d, w, n - 1);
        lemma_max_score_matches(d, w, n - 1);
    }
}

proof fn lemma_max_points_all(w: Seq<u8>, n: int)
    requires
        0 <= n <= 63,
        forall|i: int| 0 <= i < 63 ==> w[i] != 0,
    ensures
        max_points_upto(w, n) == points_before(n),
    decreases n,
{
    if n > 0 {
        lemma_max_points_all(w, n - 1);
    }
}

/// Against a winning bracket with a winner for every game, a decoded bracket
/// scores the most points exactly when it is the winning bracket, and the most
/// points are 192.
pub proof fn law_perfect_score(bits: Seq<bool>, w: Seq<u8>)
    requires
        w.len() == 63,
        forall|i: int| 0 <= i < 63 ==> #[trigger] w[i] != 0,
    ensures
        max_points(w) == 192,
        bracket_score(bracket_from_bits(bits), w) == max_points(w) <==> bracket_from_bits(bits)
            == w,
{
    let d = bracket_from_bits(bits);
    law_decoded_is_consistent(bits);
    lemma_max_points_all(w, 63);
    lemma_points_before(63);
    if bracket_score(d, w) == max_points(w) {
        lemma_max_score_matches(d, w, 63);
        assert(d =~= w);
    }
    if d == w {
        lemma_max_points_all(d, 63);
        lemma_score_of_itself(d, 63);
    }
}

proof fn lemma_score_of_itself(d: Seq<u8>, n: int)
    requires
        0 <= n <= 63,
        forall|i: int| 0 <= i < 63 ==> d[i] != 0,
    ensures
        score_upto(d, d, n) == max_points_upto(d, n),
    decreases n,
{
    if n > 0 {
        lemma_score_of_itself(d, n - 1);
    }
}

/// Doubling the points of a round gives those of the next round.
proof fn lemma_double_points(x: u8)
    ensures
        x == 1 ==> x << 1u8 == 2,
        x == 2 ==> x << 1u8 == 4,
        x == 4 ==> x << 1u8 == 8,
        x == 8 ==> x << 1u8 == 16,
        x == 16 ==> x << 1u8 == 32,
        x == 32 ==> x << 1u8 == 64,
{
    assert(x == 1 ==> x << 1u8 == 2) by (bit_vector);
    assert(x == 2 ==> x << 1u8 == 4) by (bit_vector);
    assert(x == 4 ==> x << 1u8 == 8) by (bit_vector);
    assert(x == 8 ==> x << 1u8 == 16) by (bit_vector);
    assert(x == 16 ==> x << 1u8 == 32) by (bit_vector);
    assert(x == 32 ==> x << 1u8 == 64) by (bit_vector);
}


/// Points of each round: 1, 2, 4, 8, 16 and 32 for games 0-31, 32-47, 48-55,
/// 56-59, 60-61 and 62.
pub proof fn law_round_points(k: int)
    requires
        0 <= k < 63,
    ensures
        0 <= k < 32 ==> game_points(k) == 1,
        32 <= k < 48 ==> game_points(k) == 2,
        48 <= k < 56 ==> game_points(k) == 4,
        56 <= k < 60 ==> game_points(k) == 8,
        60 <= k < 62 ==> game_points(k) == 16,
        k == 62 ==> game_points(k) == 32,
{
}

proof fn lemma_score_update(d: Seq<u8>, w: Seq<u8>, k: int, t: u8, n: int)
    requires
        0 <= k < 63,
        0 <= n <= 63,
        d.len() == 63,
        d[k] == w[k],
        t != w[k],
    ensures
        score_upto(d, w, n) == score_upto(d.update(k, t), w, n) + (if k < n { game_points(k) } else { 0 }),
    decreases n,
{
    if n > 0 {
        lemma_score_update(d, w, k, t, n - 1);
    }
}

/// Each game is worth the points of its round, on its own: turning a right pick
/// into a wrong one lowers the score by exactly the points of that game's round,
/// whatever the bracket's other picks.
pub proof fn law_score_per_game(d: Seq<u8>, w: Seq<u8>, k: int, t: u8)
    requires
        d.len() == 63,
        w.len() == 63,
        0 <= k < 63,
        d[k] == w[k],
        t != w[k],
    ensures
        bracket_score(d, w) == bracket_score(d.update(k, t), w) + game_points(k),
{
    lemma_score_update(d, w, k, t, 63);
}

proof fn lemma_score_none_right(d: Seq<u8>, w: Seq<u8>, n: int)
    requires
        0 <= n <= 63,
        forall|i: int| 0 <= i < 63 ==> d[i] != w[i],
    ensures
        score_upto(d, w, n) == 0,
    decreases n,
{
    if n > 0 {
        lemma_score_none_right(d, w, n - 1);
    }
}

/// A bracket with no right pick scores nothing.
pub proof fn law_score_none_right(d: Seq<u8>, w: Seq<u8>)
    requires
        forall|i: int| 0 <= i < 63 ==> d[i] != w[i],
    ensures
        bracket_score(d, w) == 0,
{
    lemma_score_none_right(d, w, 63);
}

proof fn lemma_max_points_update(w: Seq<u8>, k: int, n: int)
    requires
        0 <= k < 63,
        0 <= n <= 63,
        w.len() == 63,
    ensures
        max_points_upto(w, n) == max_points_upto(w.update(k, 0), n) + (if k < n && w[k] != 0 {
            game_points(k)
        } else {
            0
        }),
    decreases n,
{
    if n > 0 {
        lemma_max_points_update(w, k, n - 1);
    }
}

/// Each game of the winning bracket adds the points of its round to the most
/// points when it has a winner, and nothing when it has none (0): clearing the
/// winner of game `k` lowers the most points by exactly that, and nothing else.
pub proof fn law_max_points_per_game(w: Seq<u8>, k: int)
    requires
        w.len() == 63,
        0 <= k < 63,
    ensures
        max_points(w) == max_points(w.update(k, 0)) + (if w[k] != 0 { game_points(k) } else { 0 }),
{
    lemma_max_points_update(w, k, 63);
}

proof fn lemma_max_points_blank(w: Seq<u8>, n: int)
    requires
        0 <= n <= 63,
        forall|i: int| 0 <= i < 63 ==> w[i] == 0,
    ensures
        max_points_upto(w, n) == 0,
    decreases n,
{
    if n > 0 {
        lemma_max_points_blank(w, n - 1);
    }
}

/// A winning bracket with no winner yet allows no points.
pub proof fn law_max_points_blank(w: Seq<u8>)
    requires
        forall|i: int| 0 <= i < 63 ==> w[i] == 0,
    ensures
        max_points(w) == 0,
{
    lemma_max_points_blank(w, 63);
}

// ---------------------------------------------------------------------------
// Executable code

/// Packs a bracket into its 64 bit word: bit 63 - k is 1 when the bottom team
/// won game k; the lowest bit is 0.
pub fn encode_to_bytes(bracket: &[u8; 63]) -> (encoded: u64)
    ensures
        encoded == encoding_of(bracket@),
        forall|k: int| 0 <= k < 63 ==> word_bit(encoded, k) == #[trigger] winner_bits(bracket@)[k],
        encoded & 1u64 == 0,
{
    let ghost bits = winner_bits(bracket@);
    let mut encoded_bracket: u64 = 0;
    let mut idx: usize = 0;
    while idx < 63
        invariant
            idx <= 63,
            bits == winner_bits(bracket@),
            encoded_bracket == pack_bits(bits.take(idx as int)),
        decreases 63 - idx,
    {
        let top_team = bracket[idx];
        // 0 bit if the first (top) team won, 1 bit if the second (bottom) team won
        let bottom_won: bool = if idx < 32 {
            // round 1 winners are compared with the top slot of the starting bracket
            starting_team_at(idx * 2) != top_team
        } else {
            // later winners are compared with the top winner of the round before
            bracket[2 * (idx - 32)] != top_team
        };
        let encoded_bit: u64 = if bottom_won { 1 } else { 0 };
        assert(bits.take(idx + 1).drop_last() =~= bits.take(idx as int));
        assert(bits[idx as int] == bottom_won);
        encoded_bracket = (encoded_bracket << 1u64) | encoded_bit;
        idx += 1;
    }
    assert(bits.take(63) =~= bits);
    proof {
        lemma_encoding_bits(bits);
    }
    // left justify the 63 bits
    encoded_bracket << 1u64
}

/// Decodes a stored bracket into `decoded_bracket` and scores it against the
/// winning bracket.
pub fn decode_and_score(
    bracket: &[u8; 8],
    winning_bracket: &[u8; 63],
    decoded_bracket: &mut [u8; 63],
) -> (score: u8)
    ensures
        final(decoded_bracket)@ == bracket_from_bits(stored_bits(bracket@)),
        score == bracket_score(final(decoded_bracket)@, winning_bracket@),
{
    let ghost bits = stored_bits(bracket@);
    let ghost full = bracket_from_bits(bits);
    proof {
        lemma_decoded_games(bits);
    }
    let mut bit_count: usize = 0;  // also the number of games decoded
    let mut round_size: usize = 32;
    let mut round_count: usize = 0;
    let mut round_score: u8 = 1;
    let mut score: u8 = 0;
    let mut byte_index: usize = 0;

    while byte_index < 8
        invariant
            byte_index <= 8,
            bit_count == (if 8 * byte_index < 63 { 8 * byte_index } else { 63 }),
            bits == stored_bits(bracket@),
            full == bracket_from_bits(bits),
            full.len() == 63,
            forall|k: int|
                0 <= k < 63 ==> #[trigger] full[k] == node_team(
                    full,
                    2 * k + (if bits[k] { 1int } else { 0int }),
                ),
            forall|i: int| 0 <= i < bit_count ==> decoded_bracket@[i] == full[i],
            score as int == score_upto(full, winning_bracket@, bit_count as int),
            round_size as int == round_length(bit_count as int),
            round_count as int == bit_count - round_start(bit_count as int),
            round_score as int == game_points(bit_count as int),
        decreases 8 - byte_index,
    {
        let b: u8 = bracket[byte_index];
        let mut mask: u8 = 0x80;
        let ghost mut j: u8 = 0;
        assert(0x80u8 >> 0u8 == 0x80u8) by (bit_vector);
        while mask > 0 && bit_count < 63
            invariant
                byte_index < 8,
                j <= 8,
                mask == 0x80u8 >> j,
                bit_count == 8 * byte_index + j,
                bit_count <= 63,
                b == bracket@[byte_index as int],
                bits == stored_bits(bracket@),
                full == bracket_from_bits(bits),
                full.len() == 63,
                forall|k: int|
                    0 <= k < 63 ==> #[trigger] full[k] == node_team(
                        full,
                        2 * k + (if bits[k] { 1int } else { 0int }),
                    ),
                forall|i: int| 0 <= i < bit_count ==> decoded_bracket@[i] == full[i],
                score as int == score_upto(full, winning_bracket@, bit_count as int),
                round_size as int == round_length(bit_count as int),
                round_count as int == bit_count - round_start(bit_count as int),
                round_score as int == game_points(bit_count as int),
            decreases 8 - j,
        {
            proof {
                assert(j < 8) by {
                    if j >= 8 {
                        assert(0x80u8 >> j == 0) by (bit_vector)
                            requires
                                j >= 8,
                        ;
                    }
                }
                let k = bit_count as int;
                assert(k / 8 == byte_index && k % 8 == j);
                assert(((mask & b) != 0) == (((b >> ((7 - j) as u8)) & 1u8) == 1u8)) by (bit_vector)
                    requires
                        mask == 0x80u8 >> j,
                        j < 8,
                ;
            }
            let second_team_offset: usize = if (mask & b) != 0 { 1 } else { 0 };
            assert(second_team_offset == (if bits[bit_count as int] { 1int } else { 0int }));
            let winner: u8 = if bit_count < 32 {
                // the first round takes its winners from the starting bracket
                starting_team_at(2 * bit_count + second_team_offset)
            } else {
                // later rounds take their winners from the winners of the round before
                decoded_bracket[2 * (bit_count - 32) + second_team_offset]
            };
            decoded_bracket[bit_count] = winner;

            // calculate the score
            proof {
                lemma_score_bound(full, winning_bracket@, bit_count as int + 1);
                lemma_points_before(bit_count as int + 1);
            }
            let correct: u8 = if winner == winning_bracket[bit_count] { 1 } else { 0 };
            score += round_score * correct;

            let ghost old_bit_count = bit_count;
            mask >>= 1u8;
            proof {
                assert((0x80u8 >> j) >> 1u8 == 0x80u8 >> (j + 1) as u8) by (bit_vector)
                    requires
                        j < 8,
                ;
                j = (j + 1) as u8;
            }
            bit_count += 1;
            round_count += 1;

            let should_advance: bool = round_count >= round_size;
            if should_advance {
                round_count = 0;
                assert(round_size >> 1usize == round_size / 2) by (bit_vector);
                round_size >>= 1usize;
                proof {
                    lemma_double_points(round_score);
                }
                round_score <<= 1u8;
            }
            assert forall|i: int| 0 <= i < bit_count implies decoded_bracket@[i] == full[i] by {
                if i == old_bit_count {
                    assert(full[i] == node_team(full, 2 * i + second_team_offset));
                }
            }
        }
        proof {
            if bit_count < 63 {
                assert(j < 8 ==> 0x80u8 >> j != 0) by (bit_vector);
            }
        }
        byte_index += 1;
    }
    assert(decoded_bracket@ =~= full);
    score
}

/// The most points a bracket can score against the winning bracket: the points
/// of every game that has a winner (a team other than 0) in it.
pub fn calc_max_bracket_points(winning_bracket: &[u8; 63]) -> (score: u8)
    ensures
        score == max_points(winning_bracket@),
        score <= PERFECT_SCORE,
{
    let mut score: u8 = 0;
    let mut round_length_end: u8 = 32;  // 32 results in the first round
    let mut round_points: u8 = 1;  // points per correct team
    let mut rounds: u8 = 0;
    let mut idx: usize = 0;
    while idx < 63
        invariant
            idx <= 63,
            rounds == idx,
            score as int == max_points_upto(winning_bracket@, idx as int),
            round_points as int == game_points(idx as int),
            round_length_end as int == round_start(idx as int) + round_length(idx as int),
        decreases 63 - idx,
    {
        proof {
            lemma_max_points_bound(winning_bracket@, idx as int + 1);
            lemma_points_before(idx as int + 1);
        }
        if winning_bracket[idx] != 0 {
            score += round_points;
        }
        rounds += 1;
        if rounds >= round_length_end {
            proof {
                lemma_double_points(round_points);
            }
            round_points <<= 1u8;
            round_length_end += 32 / round_points;
        }
        idx += 1;
    }
    proof {
        lemma_max_points_bound(winning_bracket@, 63);
        lemma_points_before(63);
    }
    score
}

} // verus!
