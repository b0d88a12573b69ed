//! The text bracket format: the winners of each round as decimal team numbers
//! separated by spaces, the rounds separated by `;`.
use vstd::prelude::*;

verus! {

// ---------------------------------------------------------------------------
// Writing

/// The character of decimal digit `d`.
pub open spec fn digit_char(d: int) -> char {
    (48 + d) as char
}

/// The decimal digits of `n`, without leading zeros.
pub open spec fn decimal(n: nat) -> Seq<char>
    decreases n,
{
    if n < 10 {
        seq![digit_char(n as int)]
    } else {
        decimal(n / 10).push(digit_char((n % 10) as int))
    }
}

/// The team numbers of games `start` to `end - 1`, separated by spaces.
pub open spec fn games_text(b: Seq<u8>, start: int, end: int) -> Seq<char>
    decreases end - start,
{
    if end <= start {
        Seq::empty()
    } else if end == start + 1 {
        decimal(b[start] as nat)
    } else {
        games_text(b, start, end - 1) + seq![' '] + decimal(b[end - 1] as nat)
    }
}

/// First game of round `r` (0 to 5); 63 for `r` = 6.
pub open spec fn round_first_game(r: int) -> int {
    if r <= 0 { 0 }
    else if r == 1 { 32 }
    else if r == 2 { 48 }
    else if r == 3 { 56 }
    else if r == 4 { 60 }
    else if r == 5 { 62 }
    else { 63 }
}

/// The text of rounds 0 to `r - 1`, separated by `;`.
pub open spec fn rounds_text(b: Seq<u8>, r: int) -> Seq<char>
    decreases r,
{
    if r <= 1 {
        games_text(b, 0, 32)
    } else {
        rounds_text(b, r - 1) + seq![';'] + games_text(
            b,
            round_first_game(r - 1),
            round_first_game(r),
        )
    }
}

/// The text form of a bracket: its six rounds.
pub open spec fn bracket_text(b: Seq<u8>) -> Seq<char> {
    rounds_text(b, 6)
}

/// Appends a character to a string.
///
/// Calls `String::push`, which appends the character at the end of the string;
/// the contract states exactly that.
#[verifier::external_body]
fn push_char(s: &mut String, c: char)
    ensures
        final(s)@ == old(s)@.push(c),
{
    s.push(c);
}

/// The character of a decimal digit.
fn digit_char_of(d: u8) -> (c: char)
    requires
        d < 10,
    ensures
        c == digit_char(d as int),
{
    (48u8 + d) as char
}

/// Appends the decimal digits of `n`.
fn push_decimal(s: &mut String, n: u8)
    ensures
        final(s)@ == old(s)@ + decimal(n as nat),
{
    proof {
        reveal_with_fuel(decimal, 3);
    }
    if n >= 100 {
        push_char(s, digit_char_of(n / 100));
        assert(decimal((n / 10) as nat) == seq![digit_char((n / 100) as int)].push(digit_char(((n / 10) % 10) as int)));
    }
    if n >= 10 {
        push_char(s, digit_char_of((n / 10) % 10));
    }
    push_char(s, digit_char_of(n % 10));
    assert(final(s)@ =~= old(s)@ + decimal(n as nat));
}

/// The text form of a bracket: the winners of each round separated by spaces,
/// the rounds separated by `;`.
pub fn get_human_readable_bracket(bracket: &[u8; 63]) -> (human_bracket: String)
    ensures
        human_bracket@ == bracket_text(bracket@),
{
    let mut human_bracket: String = String::new();
    let mut start: usize = 0;
    let mut games_left: usize = 32;
    let ghost mut r: int = 0;
    while games_left > 0
        invariant
            0 <= r <= 6,
            start == round_first_game(r),
            games_left == round_first_game(r + 1) - round_first_game(r),
            r == 0 ==> human_bracket@ == Seq::<char>::empty(),
            r > 0 && games_left > 0 ==> human_bracket@ == rounds_text(bracket@, r) + seq![';'],
            r > 0 && games_left == 0 ==> human_bracket@ == rounds_text(bracket@, r),
            r == 6 ==> games_left == 0,
        decreases 6 - r,
    {
        let ghost base = human_bracket@;
        let end: usize = start + games_left;
        let mut i: usize = start;
        while i < end
            invariant
                start <= i <= end,
                end == start + games_left,
                end <= 63,
                human_bracket@ == base + games_text(bracket@, start as int, i as int),
            decreases end - i,
        {
            if i > start {
                push_char(&mut human_bracket, ' ');
            }
            push_decimal(&mut human_bracket, bracket[i]);
            i += 1;
            assert(human_bracket@ =~= base + games_text(bracket@, start as int, i as int));
        }
        games_left = games_left / 2;
        start = end;
        proof {
            r = r + 1;
        }
        if games_left > 0 {
            push_char(&mut human_bracket, ';');
        }
        assert(human_bracket@ =~= (if games_left > 0 {
            rounds_text(bracket@, r) + seq![';']
        } else {
            rounds_text(bracket@, r)
        }));
    }
    human_bracket
}

// ---------------------------------------------------------------------------
// Reading

/// A character with the Unicode `White_Space` property (what `char::is_whitespace`
/// tests, and what `str::trim` removes).
pub open spec fn is_unicode_space(c: char) -> bool {
    ||| c == '\t'
    ||| c == '\n'
    ||| c == '\u{0B}'
    ||| c == '\u{0C}'
    ||| c == '\r'
    ||| c == ' '
    ||| c == '\u{85}'
    ||| c == '\u{A0}'
    ||| c == '\u{1680}'
    ||| ('\u{2000}' <= c && c <= '\u{200A}')
    ||| c == '\u{2028}'
    ||| c == '\u{2029}'
    ||| c == '\u{202F}'
    ||| c == '\u{205F}'
    ||| c == '\u{3000}'
}

/// An ASCII white space character (what `str::split_ascii_whitespace` splits on).
pub open spec fn is_ascii_space(c: char) -> bool {
    c == ' ' || c == '\t' || c == '\n' || c == '\u{0C}' || c == '\r'
}

/// The text split on `;`, empty pieces included.
pub open spec fn split_pieces(s: Seq<char>) -> Seq<Seq<char>>
    decreases s.len(),
{
    if s.len() == 0 {
        seq![Seq::empty()]
    } else {
        let p = split_pieces(s.drop_last());
        if s.last() == ';' {
            p.push(Seq::empty())
        } else {
            p.update(p.len() - 1, p.last().push(s.last()))
        }
    }
}

/// The text without its leading white space.
pub open spec fn trim_start(p: Seq<char>) -> Seq<char>
    decreases p.len(),
{
    if p.len() > 0 && is_unicode_space(p[0]) {
        trim_start(p.drop_first())
    } else {
        p
    }
}

/// The text without its trailing white space.
pub open spec fn trim_end(p: Seq<char>) -> Seq<char>
    decreases p.len(),
{
    if p.len() > 0 && is_unicode_space(p.last()) {
        trim_end(p.drop_last())
    } else {
        p
    }
}

/// The text without leading and trailing white space.
pub open spec fn trimmed(p: Seq<char>) -> Seq<char> {
    trim_end(trim_start(p))
}

/// The words of a text: its longest runs of characters other than ASCII white space.
pub open spec fn ascii_words(t: Seq<char>) -> Seq<Seq<char>>
    decreases t.len(),
{
    if t.len() == 0 {
        Seq::empty()
    } else {
        let w = ascii_words(t.drop_last());
        let c = t.last();
        if is_ascii_space(c) {
            w
        } else if t.len() > 1 && !is_ascii_space(t[t.len() - 2]) {
            w.update(w.len() - 1, w.last().push(c))
        } else {
            w.push(seq![c])
        }
    }
}

/// The words of each piece, one piece after the other.
pub open spec fn pieces_words(ps: Seq<Seq<char>>) -> Seq<Seq<char>>
    decreases ps.len(),
{
    if ps.len() == 0 {
        Seq::empty()
    } else {
        pieces_words(ps.drop_last()) + ascii_words(trimmed(ps.last()))
    }
}

/// The team tokens of a text bracket, in order.
pub open spec fn bracket_tokens(s: Seq<char>) -> Seq<Seq<char>> {
    pieces_words(split_pieces(s))
}

/// An ASCII decimal digit.
pub open spec fn is_digit(c: char) -> bool {
    '0' <= c && c <= '9'
}

/// The value of a run of decimal digits.
pub open spec fn digits_value(d: Seq<char>) -> nat
    decreases d.len(),
{
    if d.len() == 0 {
        0
    } else {
        digits_value(d.drop_last()) * 10 + ((d.last() as int - 48) as nat)
    }
}

/// The digits of a token, after an optional leading `+`.
pub open spec fn unsigned_digits(t: Seq<char>) -> Seq<char> {
    if t.len() > 1 && t[0] == '+' {
        t.drop_first()
    } else {
        t
    }
}

/// The value of a token read as a `u8` (what `str::parse::<u8>` accepts: an
/// optional `+` then decimal digits, of value at most 255), or `None`.
pub open spec fn parse_u8(t: Seq<char>) -> Option<u8> {
    let d = unsigned_digits(t);
    if d.len() > 0 && (forall|i: int| 0 <= i < d.len() ==> is_digit(#[trigger] d[i]))
        && digits_value(d) <= 255 {
        Some(digits_value(d) as u8)
    } else {
        None
    }
}

/// The team number of a token: its value, or 0 when it is not a `u8`.
pub open spec fn team_of_token(t: Seq<char>) -> u8 {
    match parse_u8(t) {
        Some(v) => v,
        None => 0,
    }
}

/// The teams of a text bracket, in order.
pub open spec fn bracket_teams(s: Seq<char>) -> Seq<u8> {
    bracket_tokens(s).map_values(|t: Seq<char>| team_of_token(t))
}

/// The bracket that a text holds: its teams, then 0 for every game it leaves out.
pub open spec fn parsed_bracket(s: Seq<char>) -> Seq<u8> {
    Seq::new(63, |i: int| if i < bracket_teams(s).len() { bracket_teams(s)[i] } else { 0 })
}

proof fn lemma_digits_value_grows(d: Seq<char>, i: int, m: int)
    requires
        0 <= i <= m <= d.len(),
        forall|j: int| 0 <= j < m ==> is_digit(#[trigger] d[j]),
    ensures
        digits_value(d.take(i)) <= digits_value(d.take(m)),
    decreases m - i,
{
    if i < m {
        lemma_digits_value_grows(d, i, m - 1);
        assert(d.take(m).drop_last() =~= d.take(m - 1));
    }
}

/// The team number of a token (`token.parse::<u8>().unwrap_or(0)`).
pub fn parse_team(token: &Vec<char>) -> (team: u8)
    ensures
        team == team_of_token(token@),
{
    let n: usize = token.len();
    let start: usize = if n > 1 && token[0] == '+' { 1 } else { 0 };
    let ghost d = unsigned_digits(token@);
    assert(d =~= token@.skip(start as int));
    if start == n {
        return 0;
    }
    let mut value: u32 = 0;
    let mut i: usize = start;
    while i < n
        invariant
            start <= i <= n,
            n == token@.len(),
            d == token@.skip(start as int),
            d == unsigned_digits(token@),
            value as nat == digits_value(d.take(i - start)),
            value <= 255,
            forall|j: int| 0 <= j < i - start ==> is_digit(#[trigger] d[j]),
        decreases n - i,
    {
        let c: char = token[i];
        assert(d[i - start] == c);
        if !('0' <= c && c <= '9') {
            assert(!is_digit(d[i - start]));
            return 0;
        }
        assert(d.take(i - start + 1).drop_last() =~= d.take(i - start));
        value = value * 10 + (c as u32 - 48);
        assert(value as nat == digits_value(d.take(i - start + 1)));
        i += 1;
        if value > 255 {
            proof {
                if forall|j: int| 0 <= j < d.len() ==> is_digit(#[trigger] d[j]) {
                    lemma_digits_value_grows(d, i - start, d.len() as int);
                    assert(d.take(d.len() as int) =~= d);
                }
            }
            return 0;
        }
    }
    assert(d.take(n - start) =~= d);
    value as u8
}

proof fn lemma_trim_start(p: Seq<char>, a: int)
    requires
        0 <= a <= p.len(),
        forall|i: int| 0 <= i < a ==> is_unicode_space(#[trigger] p[i]),
        a == p.len() || !is_unicode_space(p[a]),
    ensures
        trim_start(p) == p.subrange(a, p.len() as int),
    decreases a,
{
    if a > 0 {
        assert forall|i: int| 0 <= i < a - 1 implies is_unicode_space(#[trigger] p.drop_first()[i]) by {
            assert(p.drop_first()[i] == p[i + 1]);
        }
        lemma_trim_start(p.drop_first(), a - 1);
        assert(p.drop_first().subrange(a - 1, p.len() - 1) =~= p.subrange(a, p.len() as int));
    } else {
        assert(p.subrange(0, p.len() as int) =~= p);
    }
}

proof fn lemma_trim_end(q: Seq<char>, b: int)
    requires
        0 <= b <= q.len(),
        forall|i: int| b <= i < q.len() ==> is_unicode_space(#[trigger] q[i]),
        b == 0 || !is_unicode_space(q[b - 1]),
    ensures
        trim_end(q) == q.subrange(0, b),
    decreases q.len() - b,
{
    if b < q.len() {
        lemma_trim_end(q.drop_last(), b);
        assert(q.drop_last().subrange(0, b) =~= q.subrange(0, b));
    } else {
        assert(q.subrange(0, b) =~= q);
    }
}

/// Whether a character is Unicode white space.
fn is_unicode_space_char(c: char) -> (r: bool)
    ensures
        r == is_unicode_space(c),
{
    c == '\t' || c == '\n' || c == '\u{0B}' || c == '\u{0C}' || c == '\r' || c == ' ' || c
        == '\u{85}' || c == '\u{A0}' || c == '\u{1680}' || ('\u{2000}' <= c && c <= '\u{200A}')
        || c == '\u{2028}' || c == '\u{2029}' || c == '\u{202F}' || c == '\u{205F}' || c
        == '\u{3000}'
}

/// Whether a character is ASCII white space.
fn is_ascii_space_char(c: char) -> (r: bool)
    ensures
        r == is_ascii_space(c),
{
    c == ' ' || c == '\t' || c == '\n' || c == '\u{0C}' || c == '\r'
}

/// The team numbers of the words of a piece of text, once trimmed.
pub fn piece_teams(piece: &Vec<char>) -> (teams: Vec<u8>)
    ensures
        teams@ == ascii_words(trimmed(piece@)).map_values(|t: Seq<char>| team_of_token(t)),
{
    let n: usize = piece.len();
    let mut a: usize = 0;
    while a < n && is_unicode_space_char(piece[a])
        invariant
            a <= n,
            n == piece@.len(),
            forall|i: int| 0 <= i < a ==> is_unicode_space(#[trigger] piece@[i]),
        decreases n - a,
    {
        a += 1;
    }
    let mut b: usize = n;
    while b > a && is_unicode_space_char(piece[b - 1])
        invariant
            a <= b <= n,
            n == piece@.len(),
            forall|i: int| b <= i < n ==> is_unicode_space(#[trigger] piece@[i]),
        decreases b,
    {
        b -= 1;
    }
    proof {
        lemma_trim_start(piece@, a as int);
        let q = piece@.subrange(a as int, n as int);
        assert forall|i: int| b - a <= i < q.len() implies is_unicode_space(#[trigger] q[i]) by {
            assert(q[i] == piece@[a + i]);
        }
        if b > a {
            assert(q[b - a - 1] == piece@[b - 1]);
        }
        lemma_trim_end(q, b - a);
        assert(q.subrange(0, b - a) =~= piece@.subrange(a as int, b as int));
    }
    let ghost t = trimmed(piece@);
    let mut teams: Vec<u8> = Vec::new();
    let mut current: Vec<char> = Vec::new();
    let mut in_word: bool = false;
    let mut i: usize = a;
    while i < b
        invariant
            a <= i <= b <= n,
            n == piece@.len(),
            t == piece@.subrange(a as int, b as int),
            in_word == (i > a && !is_ascii_space(t[i - a - 1])),
            !in_word ==> current@.len() == 0,
            in_word ==> ascii_words(t.take(i - a)).len() > 0 && ascii_words(t.take(i - a)).last()
                == current@,
            in_word ==> teams@ == ascii_words(t.take(i - a)).drop_last().map_values(
                |w: Seq<char>| team_of_token(w),
            ),
            !in_word ==> teams@ == ascii_words(t.take(i - a)).map_values(
                |w: Seq<char>| team_of_token(w),
            ),
        decreases b - i,
    {
        let c: char = piece[i];
        let ghost m = i - a;
        let ghost words = ascii_words(t.take(m));
        assert(t[m] == c);
        assert(t.take(m + 1).drop_last() =~= t.take(m));
        assert(t.take(m + 1).last() == c);
        if is_ascii_space_char(c) {
            if in_word {
                let team = parse_team(&current);
                teams.push(team);
                current = Vec::new();
                in_word = false;
                assert(teams@ =~= words.map_values(|w: Seq<char>| team_of_token(w)));
            }
        } else {
            if in_word {
                assert(t.take(m + 1)[m - 1] == t[m - 1]);
                current.push(c);
                assert(ascii_words(t.take(m + 1)).drop_last() =~= words.drop_last());
            } else {
                proof {
                    if m > 0 {
                        assert(t.take(m + 1)[m - 1] == t[m - 1]);
                    }
                }
                current.push(c);
                assert(current@ =~= seq![c]);
                assert(ascii_words(t.take(m + 1)).drop_last() =~= words);
            }
            in_word = true;
        }
        i += 1;
    }
    assert(t.take(b - a) =~= t);
    if in_word {
        let team = parse_team(&current);
        teams.push(team);
        assert(teams@ =~= ascii_words(t).map_values(|w: Seq<char>| team_of_token(w)));
    }
    teams
}

/// The team numbers of a text bracket, in order: its pieces between `;`, each
/// trimmed and split at ASCII white space, each word read as a `u8` or 0.
pub fn bracket_team_numbers(raw_bracket: &String) -> (teams: Vec<u8>)
    ensures
        teams@ == bracket_teams(raw_bracket@),
{
    let s: &str = raw_bracket.as_str();
    let n: usize = s.unicode_len();
    let mut teams: Vec<u8> = Vec::new();
    let mut piece: Vec<char> = Vec::new();
    let ghost mut done: Seq<Seq<char>> = Seq::empty();
    let mut i: usize = 0;
    assert(raw_bracket@.take(0) =~= Seq::<char>::empty());
    assert(split_pieces(Seq::<char>::empty()) =~= done.push(piece@));
    while i < n
        invariant
            i <= n,
            n == s@.len(),
            s@ == raw_bracket@,
            split_pieces(s@.take(i as int)) == done.push(piece@),
            teams@ == pieces_words(done).map_values(|t: Seq<char>| team_of_token(t)),
        decreases n - i,
    {
        let c: char = s.get_char(i);
        assert(s@.take(i + 1).drop_last() =~= s@.take(i as int));
        assert(s@.take(i + 1).last() == c);
        if c == ';' {
            let mut piece_words = piece_teams(&piece);
            let ghost before = teams@;
            teams.append(&mut piece_words);
            proof {
                assert(done.push(piece@).drop_last() =~= done);
                assert(pieces_words(done.push(piece@)) == pieces_words(done) + ascii_words(
                    trimmed(piece@),
                ));
                assert(pieces_words(done.push(piece@)).map_values(|t: Seq<char>| team_of_token(t))
                    =~= before + ascii_words(trimmed(piece@)).map_values(
                    |t: Seq<char>| team_of_token(t),
                ));
                done = done.push(piece@);
            }
            piece = Vec::new();
            assert(split_pieces(s@.take(i + 1)) =~= done.push(piece@));
        } else {
            piece.push(c);
            assert(split_pieces(s@.take(i + 1)) =~= done.push(piece@));
        }
        i += 1;
    }
    let mut piece_words = piece_teams(&piece);
    let ghost before = teams@;
    teams.append(&mut piece_words);
    assert(s@.take(n as int) =~= s@);
    assert(done.push(piece@).drop_last() =~= done);
    assert(pieces_words(done.push(piece@)) == pieces_words(done) + ascii_words(trimmed(piece@)));
    assert(teams@ =~= pieces_words(done.push(piece@)).map_values(|t: Seq<char>| team_of_token(t)));
    teams
}

/// Reads a text bracket: its team numbers in game order, 0 for a word that is
/// not a number from 0 to 255 and for every game past the last word.
pub fn parse_bracket(raw_bracket: &String) -> (bracket: [u8; 63])
    requires
        bracket_teams(raw_bracket@).len() <= 63,
    ensures
        bracket@ == parsed_bracket(raw_bracket@),
{
    let teams = bracket_team_numbers(raw_bracket);
    let mut bracket: [u8; 63] = [0; 63];
    let mut team_index: usize = 0;
    while team_index < teams.len()
        invariant
            team_index <= teams@.len() <= 63,
            teams@ == bracket_teams(raw_bracket@),
            forall|i: int| 0 <= i < team_index ==> #[trigger] bracket@[i] == teams@[i],
            forall|i: int| team_index <= i < 63 ==> #[trigger] bracket@[i] == 0,
        decreases teams@.len() - team_index,
    {
        bracket[team_index] = teams[team_index];
        team_index += 1;
    }
    assert(bracket@ =~= parsed_bracket(raw_bracket@));
    bracket
}

// ---------------------------------------------------------------------------
// The text form reads back

proof fn lemma_decimal(n: nat)
    ensures
        decimal(n).len() >= 1,
        forall|i: int| 0 <= i < decimal(n).len() ==> is_digit(#[trigger] decimal(n)[i]),
        digits_value(decimal(n)) == n,
    decreases n,
{
    let c = digit_char((n % 10) as int);
    assert(c as int == 48 + n % 10);
    assert(decimal(n).last() == c);
    if n < 10 {
        assert(decimal(n).drop_last() =~= Seq::<char>::empty());
        assert(digits_value(decimal(n)) == digits_value(Seq::<char>::empty()) * 10 + ((c as int - 48) as nat));
    } else {
        lemma_decimal(n / 10);
        let p = decimal(n / 10);
        assert(decimal(n).drop_last() =~= p);
        assert(digits_value(decimal(n)) == digits_value(p) * 10 + ((c as int - 48) as nat));
        assert(digits_value(p) * 10 == (n / 10) * 10);
        assert forall|i: int| 0 <= i < decimal(n).len() implies is_digit(#[trigger] decimal(n)[i]) by {
            if i < p.len() {
                assert(decimal(n)[i] == p[i]);
            }
        }
    }
}

/// A run of digits is no white space and no `;`.
proof fn lemma_digit_is_not_space(c: char)
    requires
        is_digit(c),
    ensures
        !is_ascii_space(c),
        !is_unicode_space(c),
        c != ';',
        c != '+',
{
}

/// The words of a text that ends with white space (or is empty), followed by
/// the first `i` characters of a word `d`.
proof fn lemma_words_then_word(z: Seq<char>, d: Seq<char>, i: int)
    requires
        z.len() == 0 || is_ascii_space(z.last()),
        1 <= i <= d.len(),
        forall|j: int| 0 <= j < d.len() ==> !is_ascii_space(#[trigger] d[j]),
    ensures
        ascii_words(z + d.take(i)) == ascii_words(z).push(d.take(i)),
    decreases i,
{
    let t = z + d.take(i);
    assert(t.drop_last() =~= z + d.take(i - 1));
    assert(t.last() == d[i - 1]);
    if i == 1 {
        assert(z + d.take(0) =~= z);
        assert(d.take(1) =~= seq![d[0]]);
        if t.len() > 1 {
            assert(t[t.len() - 2] == z.last());
        }
    } else {
        lemma_words_then_word(z, d, i - 1);
        assert(t[t.len() - 2] == d[i - 2]);
        assert(d.take(i - 1).push(d[i - 1]) =~= d.take(i));
    }
}

/// The team numbers of games `s` to `e - 1`, in decimal.
pub open spec fn decimal_tokens(b: Seq<u8>, s: int, e: int) -> Seq<Seq<char>> {
    Seq::new((e - s) as nat, |i: int| decimal(b[s + i] as nat))
}

proof fn lemma_games_text(b: Seq<u8>, s: int, e: int)
    requires
        0 <= s < e <= b.len(),
    ensures
        ascii_words(games_text(b, s, e)) == decimal_tokens(b, s, e),
        games_text(b, s, e).len() > 0,
        is_digit(games_text(b, s, e)[0]),
        is_digit(games_text(b, s, e).last()),
        forall|j: int|
            0 <= j < games_text(b, s, e).len() ==> #[trigger] games_text(b, s, e)[j] != ';',
    decreases e - s,
{
    let g = games_text(b, s, e);
    let d = decimal(b[e - 1] as nat);
    lemma_decimal(b[e - 1] as nat);
    assert forall|j: int| 0 <= j < d.len() implies !is_ascii_space(#[trigger] d[j]) by {
        lemma_digit_is_not_space(d[j]);
    }
    assert(d.take(d.len() as int) =~= d);
    if e == s + 1 {
        lemma_words_then_word(Seq::empty(), d, d.len() as int);
        assert(Seq::<char>::empty() + d =~= d);
        assert(decimal_tokens(b, s, e) =~= seq![d]);
        assert forall|j: int| 0 <= j < g.len() implies #[trigger] g[j] != ';' by {
            lemma_digit_is_not_space(d[j]);
        }
    } else {
        lemma_games_text(b, s, e - 1);
        let h = games_text(b, s, e - 1);
        let z = h + seq![' '];
        assert(z.drop_last() =~= h);
        assert(ascii_words(z) == ascii_words(h));
        lemma_words_then_word(z, d, d.len() as int);
        assert(g =~= z + d);
        assert(decimal_tokens(b, s, e) =~= decimal_tokens(b, s, e - 1).push(d));
        assert(g[0] == h[0]);
        assert forall|j: int| 0 <= j < g.len() implies #[trigger] g[j] != ';' by {
            if j < h.len() {
                assert(g[j] == h[j]);
            } else if j > h.len() {
                assert(g[j] == d[j - h.len() - 1]);
                lemma_digit_is_not_space(d[j - h.len() - 1]);
            }
        }
    }
    lemma_digit_is_not_space(g.last());
}

proof fn lemma_split_without_semicolon(y: Seq<char>)
    requires
        forall|j: int| 0 <= j < y.len() ==> #[trigger] y[j] != ';',
    ensures
        split_pieces(y) == seq![y],
    decreases y.len(),
{
    if y.len() > 0 {
        lemma_split_without_semicolon(y.drop_last());
        assert(y.drop_last().push(y.last()) =~= y);
    }
    assert(y.len() == 0 ==> y =~= Seq::<char>::empty());
}

proof fn lemma_split_after_semicolon(x: Seq<char>, y: Seq<char>)
    requires
        forall|j: int| 0 <= j < y.len() ==> #[trigger] y[j] != ';',
    ensures
        split_pieces(x + seq![';'] + y) == split_pieces(x).push(y),
    decreases y.len(),
{
    let t = x + seq![';'] + y;
    if y.len() == 0 {
        assert(t.drop_last() =~= x);
        assert(y =~= Seq::<char>::empty());
    } else {
        lemma_split_after_semicolon(x, y.drop_last());
        assert(t.drop_last() =~= x + seq![';'] + y.drop_last());
        assert(y.drop_last().push(y.last()) =~= y);
    }
}

proof fn lemma_trimmed_unchanged(t: Seq<char>)
    requires
        t.len() > 0,
        !is_unicode_space(t[0]),
        !is_unicode_space(t.last()),
    ensures
        trimmed(t) == t,
{
}

proof fn lemma_rounds_text(b: Seq<u8>, r: int)
    requires
        b.len() == 63,
        1 <= r <= 6,
    ensures
        pieces_words(split_pieces(rounds_text(b, r))) == decimal_tokens(b, 0, round_first_game(r)),
    decreases r,
{
    let g = games_text(b, round_first_game(r - 1), round_first_game(r));
    lemma_games_text(b, round_first_game(r - 1), round_first_game(r));
    lemma_digit_is_not_space(g[0]);
    lemma_digit_is_not_space(g.last());
    lemma_trimmed_unchanged(g);
    assert(ascii_words(trimmed(g)) == decimal_tokens(b, round_first_game(r - 1), round_first_game(r)));
    if r == 1 {
        assert(rounds_text(b, r) == g);
        lemma_split_without_semicolon(g);
        assert(seq![g].drop_last() =~= Seq::<Seq<char>>::empty());
        assert(pieces_words(seq![g]) == pieces_words(Seq::<Seq<char>>::empty()) + ascii_words(trimmed(g)));
        assert(decimal_tokens(b, 0, 32) =~= Seq::<Seq<char>>::empty() + decimal_tokens(b, 0, 32));
    } else {
        lemma_rounds_text(b, r - 1);
        let x = rounds_text(b, r - 1);
        lemma_split_after_semicolon(x, g);
        assert(rounds_text(b, r) == x + seq![';'] + g);
        assert(split_pieces(x).push(g).drop_last() =~= split_pieces(x));
        assert(pieces_words(split_pieces(x).push(g)) == pieces_words(split_pieces(x)) + ascii_words(trimmed(g)));
        assert(decimal_tokens(b, 0, round_first_game(r)) =~= decimal_tokens(
            b,
            0,
            round_first_game(r - 1),
        ) + decimal_tokens(b, round_first_game(r - 1), round_first_game(r)));
    }
}

/// Text round trip: reading the text form of any bracket gives back its 63 team
/// numbers, and no more.
pub proof fn law_parse_of_text(b: Seq<u8>)
    requires
        b.len() == 63,
    ensures
        bracket_teams(bracket_text(b)) == b,
        parsed_bracket(bracket_text(b)) == b,
{
    lemma_rounds_text(b, 6);
    let toks = bracket_tokens(bracket_text(b));
    assert(toks == decimal_tokens(b, 0, 63));
    assert forall|k: int| 0 <= k < 63 implies #[trigger] bracket_teams(bracket_text(b))[k] == b[k] by {
        let d = decimal(b[k] as nat);
        assert(toks[k] == d);
        lemma_decimal(b[k] as nat);
        lemma_digit_is_not_space(d[0]);
        assert(unsigned_digits(d) == d);
    }
    assert(bracket_teams(bracket_text(b)) =~= b);
    assert(parsed_bracket(bracket_text(b)) =~= b);
}

} // verus!
