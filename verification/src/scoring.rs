//! Scoring many stored brackets against the winning bracket: totals, the
//! distribution of scores and the best brackets.
use vstd::prelude::*;
use crate::codec::{bracket_from_bits, bracket_score, decode_and_score, law_score_at_most_max, stored_bits};

verus! {

/// A bracket among the best: its score, the byte where it starts in its file,
/// the file's name and the bracket.
pub type TopBracket = (u8, usize, String, [u8; 63]);

/// How many of the best brackets are kept.
pub const TOP_BRACKETS: usize = 10;

/// Inserts `x` into `sorted` just before the run of entries at its end that all
/// score more than `x`: one step of a stable insertion sort.
pub open spec fn insert_by_score(sorted: Seq<TopBracket>, x: TopBracket) -> Seq<TopBracket>
    decreases sorted.len(),
{
    if sorted.len() == 0 {
        seq![x]
    } else if sorted.last().0 <= x.0 {
        sorted.push(x)
    } else {
        insert_by_score(sorted.drop_last(), x).push(sorted.last())
    }
}

/// The entries sorted by ascending score, entries of equal score in their
/// order in `s` (a stable sort, like `sort_by_key`).
pub open spec fn sort_by_score(s: Seq<TopBracket>) -> Seq<TopBracket>
    decreases s.len(),
{
    if s.len() == 0 {
        Seq::empty()
    } else {
        insert_by_score(sort_by_score(s.drop_last()), s.last())
    }
}

/// The entries from the highest score down: the stable ascending sort, reversed.
pub open spec fn ranked(s: Seq<TopBracket>) -> Seq<TopBracket> {
    sort_by_score(s).reverse()
}

/// The best entries after `x` joins them: ranked, and cut to ten.
pub open spec fn with_top_bracket(top: Seq<TopBracket>, x: TopBracket) -> Seq<TopBracket> {
    let r = ranked(top.push(x));
    if r.len() > TOP_BRACKETS { r.remove(TOP_BRACKETS as int) } else { r }
}

/// Whether a bracket of score `score` joins the best ones: when fewer than ten
/// are kept, or when it scores more than the last of them.
pub open spec fn joins_top(top: Seq<TopBracket>, score: u8) -> bool {
    top.len() < TOP_BRACKETS || score > top.last().0
}

/// Results of scoring brackets.
pub struct FileScoreResult {
    pub total_brackets: usize,
    pub perfect_brackets: usize,
    pub bracket_score_accumulator: usize,
    pub score_distribution: [usize; 193],
    pub top_brackets: Vec<TopBracket>,
}

/// Whether one more bracket can be counted without overflow.
pub open spec fn has_room(r: FileScoreResult) -> bool {
    &&& r.total_brackets < usize::MAX
    &&& r.perfect_brackets < usize::MAX
    &&& r.bracket_score_accumulator + 192 <= usize::MAX
    &&& forall|s: int| 0 <= s < 193 ==> #[trigger] r.score_distribution@[s] < usize::MAX
}

/// Whether two results can be added up without overflow.
pub open spec fn can_merge(a: FileScoreResult, b: FileScoreResult) -> bool {
    &&& a.total_brackets + b.total_brackets <= usize::MAX
    &&& a.perfect_brackets + b.perfect_brackets <= usize::MAX
    &&& a.bracket_score_accumulator + b.bracket_score_accumulator <= usize::MAX
    &&& forall|s: int|
        0 <= s < 193 ==> #[trigger] a.score_distribution@[s] + b.score_distribution@[s]
            <= usize::MAX
}

proof fn lemma_insert_at(sorted: Seq<TopBracket>, x: TopBracket, p: int)
    requires
        0 <= p <= sorted.len(),
        forall|i: int| p <= i < sorted.len() ==> (#[trigger] sorted[i]).0 > x.0,
        p == 0 || sorted[p - 1].0 <= x.0,
    ensures
        insert_by_score(sorted, x) == sorted.insert(p, x),
    decreases sorted.len(),
{
    if sorted.len() == 0 {
        assert(sorted.insert(p, x) =~= seq![x]);
    } else if p == sorted.len() {
        assert(sorted.insert(p, x) =~= sorted.push(x));
    } else {
        lemma_insert_at(sorted.drop_last(), x, p);
        assert(sorted.drop_last().insert(p, x).push(sorted.last()) =~= sorted.insert(p, x));
    }
}

/// Sorts entries by ascending score, keeping entries of equal score in order.
pub fn sort_by_score_stable(entries: Vec<TopBracket>) -> (sorted: Vec<TopBracket>)
    ensures
        sorted@ == sort_by_score(entries@),
{
    let ghost all = entries@;
    let mut input: Vec<TopBracket> = entries;
    let mut sorted: Vec<TopBracket> = Vec::new();
    let ghost mut k: int = 0;
    assert(all.take(0) =~= Seq::<TopBracket>::empty());
    while input.len() > 0
        invariant
            0 <= k <= all.len(),
            input@ == all.skip(k),
            sorted@ == sort_by_score(all.take(k)),
        decreases input@.len(),
    {
        let x = input.remove(0);
        assert(x == all[k]);
        let mut p: usize = sorted.len();
        while p > 0 && sorted[p - 1].0 > x.0
            invariant
                p <= sorted@.len(),
                forall|i: int| p <= i < sorted@.len() ==> (#[trigger] sorted@[i]).0 > x.0,
            decreases p,
        {
            p -= 1;
        }
        proof {
            lemma_insert_at(sorted@, x, p as int);
            assert(all.take(k + 1).drop_last() =~= all.take(k));
            assert(all.take(k + 1).last() == x);
            assert(input@ =~= all.skip(k + 1));
            k = k + 1;
        }
        sorted.insert(p, x);
    }
    assert(all.take(k) =~= all);
    sorted
}

/// Entries ranked from the highest score down (a stable ascending sort, then
/// reversed).
pub fn rank_by_score(entries: Vec<TopBracket>) -> (ranked_entries: Vec<TopBracket>)
    ensures
        ranked_entries@ == ranked(entries@),
{
    let mut sorted = sort_by_score_stable(entries);
    let ghost s = sorted@;
    let mut out: Vec<TopBracket> = Vec::new();
    while sorted.len() > 0
        invariant
            sorted@ == s.take(sorted@.len() as int),
            out@ == s.skip(sorted@.len() as int).reverse(),
            sorted@.len() <= s.len(),
        decreases sorted@.len(),
    {
        let ghost n: int = sorted@.len() as int;
        let x = sorted.pop().unwrap();
        assert(x == s[n - 1]);
        out.push(x);
        assert(s.take(n - 1) =~= s.take(n).drop_last());
        assert(s.skip(n - 1).reverse() =~= s.skip(n).reverse().push(x));
    }
    assert(s.skip(0) =~= s);
    out
}

impl FileScoreResult {
    /// No bracket scored yet.
    pub fn new() -> (result: Self)
        ensures
            result.total_brackets == 0,
            result.perfect_brackets == 0,
            result.bracket_score_accumulator == 0,
            forall|s: int| 0 <= s < 193 ==> #[trigger] result.score_distribution@[s] == 0,
            result.top_brackets@ == Seq::<TopBracket>::empty(),
    {
        FileScoreResult {
            total_brackets: 0,
            perfect_brackets: 0,
            bracket_score_accumulator: 0,
            score_distribution: [0; 193],
            top_brackets: Vec::new(),
        }
    }

    /// Whether one more bracket can be counted without overflow.
    pub fn has_room(&self) -> (room: bool)
        ensures
            room == has_room(*self),
    {
        if self.total_brackets == usize::MAX || self.perfect_brackets == usize::MAX
            || self.bracket_score_accumulator > usize::MAX - 192 {
            return false;
        }
        let mut s: usize = 0;
        while s < 193
            invariant
                s <= 193,
                forall|t: int| 0 <= t < s ==> #[trigger] self.score_distribution@[t] < usize::MAX,
            decreases 193 - s,
        {
            if self.score_distribution[s] == usize::MAX {
                return false;
            }
            s += 1;
        }
        true
    }

    /// Scores the stored bracket `bytes` (starting at byte `starting_byte` of the
    /// file `filename`) against the winning bracket, counts it, and keeps it
    /// among the best when it scores well enough.  Returns its score.
    pub fn add_bracket(
        &mut self,
        bytes: &[u8; 8],
        winning_bracket: &[u8; 63],
        max_bracket_score: u8,
        filename: &String,
        starting_byte: usize,
    ) -> (score: u8)
        requires
            has_room(*old(self)),
        ensures
            score == bracket_score(bracket_from_bits(stored_bits(bytes@)), winning_bracket@),
            score <= 192,
            final(self).total_brackets == old(self).total_brackets + 1,
            final(self).perfect_brackets == old(self).perfect_brackets + (if score
                == max_bracket_score {
                1int
            } else {
                0int
            }),
            final(self).bracket_score_accumulator == old(self).bracket_score_accumulator + score,
            final(self).score_distribution@ == old(self).score_distribution@.update(
                score as int,
                (old(self).score_distribution@[score as int] + 1) as usize,
            ),
            final(self).top_brackets@ == (if joins_top(old(self).top_brackets@, score) {
                with_top_bracket(
                    old(self).top_brackets@,
                    (score, starting_byte, *filename, array_of(bracket_from_bits(stored_bits(bytes@)))),
                )
            } else {
                old(self).top_brackets@
            }),
    {
        let mut bracket: [u8; 63] = [0; 63];
        let score: u8 = decode_and_score(bytes, winning_bracket, &mut bracket);
        proof {
            law_score_at_most_max(stored_bits(bytes@), winning_bracket@);
            assert(bracket == array_of(bracket@));
        }
        self.bracket_score_accumulator += score as usize;
        self.score_distribution[score as usize] += 1;
        if score == max_bracket_score {
            self.perfect_brackets += 1;
        }
        self.total_brackets += 1;

        let len: usize = self.top_brackets.len();
        if len < TOP_BRACKETS || score > self.top_brackets[len - 1].0 {
            let mut top: Vec<TopBracket> = Vec::new();
            std::mem::swap(&mut top, &mut self.top_brackets);
            top.push((score, starting_byte, filename.clone(), bracket));
            let mut ranked_top = rank_by_score(top);
            if ranked_top.len() > TOP_BRACKETS {
                ranked_top.remove(TOP_BRACKETS);
            }
            self.top_brackets = ranked_top;
        }
        score
    }
}

impl FileScoreResult {
    /// Whether `other` can be added to these results without overflow.
    pub fn can_merge(&self, other: &FileScoreResult) -> (fits: bool)
        ensures
            fits == can_merge(*self, *other),
    {
        if self.total_brackets > usize::MAX - other.total_brackets || self.perfect_brackets
            > usize::MAX - other.perfect_brackets || self.bracket_score_accumulator > usize::MAX
            - other.bracket_score_accumulator {
            return false;
        }
        let mut s: usize = 0;
        while s < 193
            invariant
                s <= 193,
                forall|t: int|
                    0 <= t < s ==> #[trigger] self.score_distribution@[t]
                        + other.score_distribution@[t] <= usize::MAX,
            decreases 193 - s,
        {
            if self.score_distribution[s] > usize::MAX - other.score_distribution[s] {
                return false;
            }
            s += 1;
        }
        true
    }

    /// Adds the results of another file: totals and distributions add up, its
    /// best brackets follow these.
    pub fn merge(&mut self, other: FileScoreResult)
        requires
            can_merge(*old(self), other),
        ensures
            final(self).total_brackets == old(self).total_brackets + other.total_brackets,
            final(self).perfect_brackets == old(self).perfect_brackets + other.perfect_brackets,
            final(self).bracket_score_accumulator == old(self).bracket_score_accumulator
                + other.bracket_score_accumulator,
            forall|s: int|
                0 <= s < 193 ==> #[trigger] final(self).score_distribution@[s] == old(
                    self,
                ).score_distribution@[s] + other.score_distribution@[s],
            final(self).top_brackets@ == old(self).top_brackets@ + other.top_brackets@,
    {
        self.total_brackets += other.total_brackets;
        self.perfect_brackets += other.perfect_brackets;
        self.bracket_score_accumulator += other.bracket_score_accumulator;
        let ghost before = self.score_distribution@;
        let mut idx: usize = 0;
        while idx < 193
            invariant
                idx <= 193,
                can_merge(*old(self), other),
                before == old(self).score_distribution@,
                self.total_brackets == old(self).total_brackets + other.total_brackets,
                self.perfect_brackets == old(self).perfect_brackets + other.perfect_brackets,
                self.bracket_score_accumulator == old(self).bracket_score_accumulator
                    + other.bracket_score_accumulator,
                self.top_brackets == old(self).top_brackets,
                forall|s: int|
                    0 <= s < idx ==> #[trigger] self.score_distribution@[s] == before[s]
                        + other.score_distribution@[s],
                forall|s: int| idx <= s < 193 ==> #[trigger] self.score_distribution@[s] == before[s],
            decreases 193 - idx,
        {
            self.score_distribution[idx] += other.score_distribution[idx];
            idx += 1;
        }
        let mut other_top = other.top_brackets;
        self.top_brackets.append(&mut other_top);
    }

    /// Keeps only the ten best brackets: ranked from the highest score down,
    /// then cut to ten.
    pub fn keep_top_brackets(&mut self)
        ensures
            final(self).top_brackets@ == (if ranked(old(self).top_brackets@).len() > TOP_BRACKETS {
                ranked(old(self).top_brackets@).take(TOP_BRACKETS as int)
            } else {
                ranked(old(self).top_brackets@)
            }),
            final(self).total_brackets == old(self).total_brackets,
            final(self).perfect_brackets == old(self).perfect_brackets,
            final(self).bracket_score_accumulator == old(self).bracket_score_accumulator,
            final(self).score_distribution == old(self).score_distribution,
    {
        let mut top: Vec<TopBracket> = Vec::new();
        std::mem::swap(&mut top, &mut self.top_brackets);
        let mut ranked_top = rank_by_score(top);
        if ranked_top.len() > TOP_BRACKETS {
            ranked_top.truncate(TOP_BRACKETS);
        }
        self.top_brackets = ranked_top;
    }
}

/// Lowest score that some bracket got, highest population of a score, and the
/// first score with that population.
pub struct ScoreSummary {
    pub lowest_score: usize,
    pub highest_population: usize,
    pub highest_population_score: usize,
}

/// Summarizes a score distribution: the lowest score with a bracket
/// (`usize::MAX` when there is none), the highest population and the lowest
/// score that has it (0 when every population is 0).
pub fn summarize_distribution(score_distribution: &[usize; 193]) -> (summary: ScoreSummary)
    ensures
        summary.lowest_score == usize::MAX <==> forall|s: int|
            0 <= s < 193 ==> #[trigger] score_distribution@[s] == 0,
        summary.lowest_score < usize::MAX ==> summary.lowest_score < 193
            && score_distribution@[summary.lowest_score as int] > 0 && forall|s: int|
            0 <= s < summary.lowest_score ==> #[trigger] score_distribution@[s] == 0,
        summary.highest_population_score < 193,
        forall|s: int|
            0 <= s < 193 ==> #[trigger] score_distribution@[s] <= summary.highest_population,
        summary.highest_population == score_distribution@[summary.highest_population_score as int]
            || (summary.highest_population == 0 && summary.highest_population_score == 0),
        forall|s: int|
            0 <= s < summary.highest_population_score ==> #[trigger] score_distribution@[s]
                < summary.highest_population,
{
    let mut lowest_score: usize = usize::MAX;
    let mut highest_population: usize = 0;
    let mut highest_population_score: usize = 0;
    let mut score: usize = 0;
    while score < 193
        invariant
            score <= 193,
            lowest_score == usize::MAX <==> forall|s: int|
                0 <= s < score ==> #[trigger] score_distribution@[s] == 0,
            lowest_score < usize::MAX ==> lowest_score < score && score_distribution@[lowest_score as int] > 0
                && forall|s: int| 0 <= s < lowest_score ==> #[trigger] score_distribution@[s] == 0,
            highest_population_score < 193,
            highest_population_score <= score,
            forall|s: int|
                0 <= s < score ==> #[trigger] score_distribution@[s] <= highest_population,
            highest_population == score_distribution@[highest_population_score as int] || (
            highest_population == 0 && highest_population_score == 0),
            forall|s: int|
                0 <= s < highest_population_score ==> #[trigger] score_distribution@[s]
                    < highest_population,
        decreases 193 - score,
    {
        let population: usize = score_distribution[score];
        if score < lowest_score && population > 0 {
            lowest_score = score;
        }
        if population > highest_population {
            highest_population = population;
            highest_population_score = score;
        }
        score += 1;
    }
    ScoreSummary { lowest_score, highest_population, highest_population_score }
}

// ---------------------------------------------------------------------------
// Laws of the ranking

/// Entries in ascending order of score.
pub open spec fn ascending(s: Seq<TopBracket>) -> bool {
    forall|i: int, j: int| 0 <= i < j < s.len() ==> (#[trigger] s[i]).0 <= (#[trigger] s[j]).0
}

/// Entries in descending order of score.
pub open spec fn descending(s: Seq<TopBracket>) -> bool {
    forall|i: int, j: int| 0 <= i < j < s.len() ==> (#[trigger] s[i]).0 >= (#[trigger] s[j]).0
}

proof fn lemma_insert_by_score(sorted: Seq<TopBracket>, x: TopBracket)
    requires
        ascending(sorted),
    ensures
        ascending(insert_by_score(sorted, x)),
        insert_by_score(sorted, x).to_multiset() == sorted.to_multiset().insert(x),
        insert_by_score(sorted, x).len() == sorted.len() + 1,
    decreases sorted.len(),
{
    broadcast use vstd::seq_lib::group_to_multiset_ensures;

    if sorted.len() == 0 {
        assert(seq![x] =~= Seq::<TopBracket>::empty().push(x));
    } else if sorted.last().0 <= x.0 {
    } else {
        let rest = sorted.drop_last();
        let last = sorted.last();
        lemma_insert_by_score(rest, x);
        let inner = insert_by_score(rest, x);
        assert forall|i: int| 0 <= i < inner.len() implies (#[trigger] inner[i]).0 <= last.0 by {
            let e = inner[i];
            assert(inner.contains(e));
            assert(inner.to_multiset().count(e) > 0);
            if e != x {
                assert(rest.to_multiset().count(e) > 0);
                assert(rest.contains(e));
                let j = choose|j: int| 0 <= j < rest.len() && rest[j] == e;
                assert(sorted[j] == rest[j]);
            }
        }
        assert(sorted =~= rest.push(last));
    }
}

proof fn lemma_sort_by_score(s: Seq<TopBracket>)
    ensures
        ascending(sort_by_score(s)),
        sort_by_score(s).to_multiset() == s.to_multiset(),
        sort_by_score(s).len() == s.len(),
    decreases s.len(),
{
    broadcast use vstd::seq_lib::group_to_multiset_ensures;

    if s.len() > 0 {
        lemma_sort_by_score(s.drop_last());
        lemma_insert_by_score(sort_by_score(s.drop_last()), s.last());
        assert(s =~= s.drop_last().push(s.last()));
    }
}

/// Ranking keeps the entries (as a multiset) and puts them from the highest
/// score down.
pub proof fn law_ranked(s: Seq<TopBracket>)
    ensures
        ranked(s).len() == s.len(),
        ranked(s).to_multiset() == s.to_multiset(),
        descending(ranked(s)),
{
    lemma_sort_by_score(s);
    sort_by_score(s).lemma_reverse_to_multiset();
    let r = ranked(s);
    let t = sort_by_score(s);
    assert forall|i: int, j: int| 0 <= i < j < r.len() implies (#[trigger] r[i]).0 >= (
    #[trigger] r[j]).0 by {
        assert(r[i] == t[t.len() - 1 - i]);
        assert(r[j] == t[t.len() - 1 - j]);
    }
}

/// The best brackets stay at most ten, from the highest score down, and a new
/// bracket that joins them is among them unless ten others score at least as
/// much.
pub proof fn law_top_brackets(top: Seq<TopBracket>, x: TopBracket)
    requires
        top.len() <= TOP_BRACKETS,
    ensures
        with_top_bracket(top, x).len() == (if top.len() < TOP_BRACKETS {
            top.len() + 1int
        } else {
            TOP_BRACKETS as int
        }),
        descending(with_top_bracket(top, x)),
        forall|e: TopBracket|
            with_top_bracket(top, x).contains(e) ==> #[trigger] top.push(x).contains(e),
{
    broadcast use vstd::seq_lib::group_to_multiset_ensures;

    let all = top.push(x);
    law_ranked(all);
    let r = ranked(all);
    assert forall|e: TopBracket| r.contains(e) implies #[trigger] all.contains(e) by {
        assert(r.to_multiset().count(e) > 0);
    }
    if r.len() > TOP_BRACKETS {
        let w = r.remove(TOP_BRACKETS as int);
        assert(w =~= r.take(TOP_BRACKETS as int));
        assert forall|e: TopBracket| w.contains(e) implies #[trigger] all.contains(e) by {
            let i = choose|i: int| 0 <= i < w.len() && w[i] == e;
            assert(r[i] == e);
        }
    }
}

// ---------------------------------------------------------------------------
// Results of many files

/// Brackets scored over the first `n` results.
pub open spec fn sum_total(rs: Seq<FileScoreResult>, n: int) -> int
    decreases n,
{
    if n <= 0 { 0 } else { sum_total(rs, n - 1) + rs[n - 1].total_brackets }
}

/// Perfect brackets over the first `n` results.
pub open spec fn sum_perfect(rs: Seq<FileScoreResult>, n: int) -> int
    decreases n,
{
    if n <= 0 { 0 } else { sum_perfect(rs, n - 1) + rs[n - 1].perfect_brackets }
}

/// Sum of the scores over the first `n` results.
pub open spec fn sum_scores(rs: Seq<FileScoreResult>, n: int) -> int
    decreases n,
{
    if n <= 0 { 0 } else { sum_scores(rs, n - 1) + rs[n - 1].bracket_score_accumulator }
}

/// Brackets of score `s` over the first `n` results.
pub open spec fn sum_population(rs: Seq<FileScoreResult>, n: int, s: int) -> int
    decreases n,
{
    if n <= 0 { 0 } else { sum_population(rs, n - 1, s) + rs[n - 1].score_distribution@[s] }
}

/// The best brackets of the first `n` results, one result after the other.
pub open spec fn all_top_brackets(rs: Seq<FileScoreResult>, n: int) -> Seq<TopBracket>
    decreases n,
{
    if n <= 0 { Seq::empty() } else { all_top_brackets(rs, n - 1) + rs[n - 1].top_brackets@ }
}

/// Whether the results of all files add up without overflow.
pub open spec fn results_fit(rs: Seq<FileScoreResult>) -> bool {
    &&& sum_total(rs, rs.len() as int) <= usize::MAX
    &&& sum_perfect(rs, rs.len() as int) <= usize::MAX
    &&& sum_scores(rs, rs.len() as int) <= usize::MAX
    &&& forall|s: int| 0 <= s < 193 ==> #[trigger] sum_population(rs, rs.len() as int, s) <= usize::MAX
}

/// Entries ranked from the highest score down and cut to ten.
pub open spec fn best_ten(s: Seq<TopBracket>) -> Seq<TopBracket> {
    if ranked(s).len() > TOP_BRACKETS {
        ranked(s).take(TOP_BRACKETS as int)
    } else {
        ranked(s)
    }
}

proof fn lemma_sums_grow(rs: Seq<FileScoreResult>, n: int, m: int)
    requires
        0 <= n <= m <= rs.len(),
    ensures
        sum_total(rs, n) <= sum_total(rs, m),
        sum_perfect(rs, n) <= sum_perfect(rs, m),
        sum_scores(rs, n) <= sum_scores(rs, m),
        forall|s: int| 0 <= s < 193 ==> #[trigger] sum_population(rs, n, s) <= sum_population(rs, m, s),
    decreases m - n,
{
    if n < m {
        lemma_sums_grow(rs, n, m - 1);
    }
}

/// Adds up the results of all files, in order, and keeps the ten best
/// brackets over all of them; `None` exactly when a total does not fit in a
/// `usize`.
pub fn merge_results(file_results: Vec<FileScoreResult>) -> (merged: Option<FileScoreResult>)
    ensures
        merged is Some <==> results_fit(file_results@),
        merged matches Some(r) ==> {
            &&& r.total_brackets == sum_total(file_results@, file_results@.len() as int)
            &&& r.perfect_brackets == sum_perfect(file_results@, file_results@.len() as int)
            &&& r.bracket_score_accumulator == sum_scores(file_results@, file_results@.len() as int)
            &&& forall|s: int|
                0 <= s < 193 ==> #[trigger] r.score_distribution@[s] == sum_population(
                    file_results@,
                    file_results@.len() as int,
                    s,
                )
            &&& r.top_brackets@ == best_ten(all_top_brackets(file_results@, file_results@.len() as int))
        },
{
    let ghost all = file_results@;
    let mut rest: Vec<FileScoreResult> = file_results;
    let mut total = FileScoreResult::new();
    let ghost mut k: int = 0;
    while rest.len() > 0
        invariant
            0 <= k <= all.len(),
            all == file_results@,
            rest@ == all.skip(k),
            total.total_brackets == sum_total(all, k),
            total.perfect_brackets == sum_perfect(all, k),
            total.bracket_score_accumulator == sum_scores(all, k),
            forall|s: int| 0 <= s < 193 ==> #[trigger] total.score_distribution@[s] == sum_population(all, k, s),
            total.top_brackets@ == all_top_brackets(all, k),
        decreases rest@.len(),
    {
        let result = rest.remove(0);
        assert(result == all[k]);
        assert(rest@ =~= all.skip(k + 1));
        if !total.can_merge(&result) {
            proof {
                lemma_sums_grow(all, k + 1, all.len() as int);
                assert(sum_total(all, k + 1) == total.total_brackets + result.total_brackets);
                assert(sum_perfect(all, k + 1) == total.perfect_brackets + result.perfect_brackets);
                assert(sum_scores(all, k + 1) == total.bracket_score_accumulator
                    + result.bracket_score_accumulator);
                if !(forall|s: int|
                    0 <= s < 193 ==> #[trigger] total.score_distribution@[s]
                        + result.score_distribution@[s] <= usize::MAX) {
                    let s = choose|s: int|
                        0 <= s < 193 && #[trigger] total.score_distribution@[s]
                            + result.score_distribution@[s] > usize::MAX;
                    assert(sum_population(all, k + 1, s) > usize::MAX);
                    assert(sum_population(all, k + 1, s) <= sum_population(all, all.len() as int, s));
                }
                assert(!results_fit(all));
            }
            return None;
        }
        total.merge(result);
        proof {
            assert forall|s: int| 0 <= s < 193 implies #[trigger] total.score_distribution@[s]
                == sum_population(all, k + 1, s) by {}
            k = k + 1;
        }
    }
    assert(all.skip(k).len() == 0);
    assert(k == all.len());
    total.keep_top_brackets();
    proof {
        assert forall|s: int| 0 <= s < 193 implies #[trigger] sum_population(all, all.len() as int, s)
            <= usize::MAX by {
            assert(total.score_distribution@[s] == sum_population(all, all.len() as int, s));
        }
        assert(results_fit(all));
    }
    Some(total)
}

proof fn lemma_sums_concat(a: Seq<FileScoreResult>, b: Seq<FileScoreResult>, m: int)
    requires
        0 <= m <= b.len(),
    ensures
        sum_total(a + b, a.len() + m) == sum_total(a, a.len() as int) + sum_total(b, m),
        sum_perfect(a + b, a.len() + m) == sum_perfect(a, a.len() as int) + sum_perfect(b, m),
        sum_scores(a + b, a.len() + m) == sum_scores(a, a.len() as int) + sum_scores(b, m),
        forall|s: int|
            #![trigger sum_population(a + b, a.len() + m, s)]
            sum_population(a + b, a.len() + m, s) == sum_population(a, a.len() as int, s)
                + sum_population(b, m, s),
        all_top_brackets(a + b, a.len() + m) == all_top_brackets(a, a.len() as int)
            + all_top_brackets(b, m),
    decreases m,
{
    if m == 0 {
        lemma_sums_prefix(a, b);
        assert(all_top_brackets(a, a.len() as int) + Seq::<TopBracket>::empty() =~= all_top_brackets(a, a.len() as int));
    } else {
        lemma_sums_concat(a, b, m - 1);
        assert((a + b)[a.len() + m - 1] == b[m - 1]);
        assert forall|s: int|
            #[trigger] sum_population(a + b, a.len() + m, s) == sum_population(a, a.len() as int, s)
                + sum_population(b, m, s) by {
            assert(sum_population(a + b, a.len() + m - 1, s) == sum_population(a, a.len() as int, s)
                + sum_population(b, m - 1, s));
        }
        assert(all_top_brackets(a + b, a.len() + m) =~= all_top_brackets(a, a.len() as int)
            + all_top_brackets(b, m));
    }
}

proof fn lemma_sums_prefix(a: Seq<FileScoreResult>, b: Seq<FileScoreResult>)
    ensures
        sum_total(a + b, a.len() as int) == sum_total(a, a.len() as int),
        sum_perfect(a + b, a.len() as int) == sum_perfect(a, a.len() as int),
        sum_scores(a + b, a.len() as int) == sum_scores(a, a.len() as int),
        forall|s: int|
            #![trigger sum_population(a + b, a.len() as int, s)]
            sum_population(a + b, a.len() as int, s) == sum_population(a, a.len() as int, s),
        all_top_brackets(a + b, a.len() as int) == all_top_brackets(a, a.len() as int),
{
    lemma_sums_agree(a + b, a, a.len() as int);
}

proof fn lemma_sums_agree(x: Seq<FileScoreResult>, y: Seq<FileScoreResult>, n: int)
    requires
        0 <= n <= x.len(),
        n <= y.len(),
        forall|i: int| 0 <= i < n ==> x[i] == y[i],
    ensures
        sum_total(x, n) == sum_total(y, n),
        sum_perfect(x, n) == sum_perfect(y, n),
        sum_scores(x, n) == sum_scores(y, n),
        forall|s: int| #![trigger sum_population(x, n, s)] sum_population(x, n, s) == sum_population(y, n, s),
        all_top_brackets(x, n) == all_top_brackets(y, n),
    decreases n,
{
    if n > 0 {
        lemma_sums_agree(x, y, n - 1);
        assert(x[n - 1] == y[n - 1]);
        assert forall|s: int| #[trigger] sum_population(x, n, s) == sum_population(y, n, s) by {
            assert(sum_population(x, n - 1, s) == sum_population(y, n - 1, s));
        }
    }
}

/// Merging is additive over the files: the totals of two lists of results
/// joined together are the totals of each list added up, and the best brackets
/// of the joined list are those of the first list then those of the second.
pub proof fn law_merge_additive(a: Seq<FileScoreResult>, b: Seq<FileScoreResult>)
    ensures
        sum_total(a + b, (a + b).len() as int) == sum_total(a, a.len() as int) + sum_total(
            b,
            b.len() as int,
        ),
        sum_perfect(a + b, (a + b).len() as int) == sum_perfect(a, a.len() as int) + sum_perfect(
            b,
            b.len() as int,
        ),
        sum_scores(a + b, (a + b).len() as int) == sum_scores(a, a.len() as int) + sum_scores(
            b,
            b.len() as int,
        ),
        forall|s: int|
            #![trigger sum_population(a + b, (a + b).len() as int, s)]
            sum_population(a + b, (a + b).len() as int, s) == sum_population(a, a.len() as int, s)
                + sum_population(b, b.len() as int, s),
        all_top_brackets(a + b, (a + b).len() as int) == all_top_brackets(a, a.len() as int)
            + all_top_brackets(b, b.len() as int),
{
    lemma_sums_concat(a, b, b.len() as int);
}

/// The totals of a single file's results are that file's own, and those of
/// no file are 0.
pub proof fn law_merge_single(r: FileScoreResult)
    ensures
        sum_total(seq![r], 1) == r.total_brackets,
        sum_perfect(seq![r], 1) == r.perfect_brackets,
        sum_scores(seq![r], 1) == r.bracket_score_accumulator,
        forall|s: int| #![trigger sum_population(seq![r], 1, s)] sum_population(seq![r], 1, s) == r.score_distribution@[s],
        all_top_brackets(seq![r], 1) == r.top_brackets@,
        sum_total(Seq::<FileScoreResult>::empty(), 0) == 0,
        sum_perfect(Seq::<FileScoreResult>::empty(), 0) == 0,
        sum_scores(Seq::<FileScoreResult>::empty(), 0) == 0,
{
    let one = seq![r];
    assert(one[0] == r);
    assert(sum_total(one, 0) == 0);
    assert(sum_perfect(one, 0) == 0);
    assert(sum_scores(one, 0) == 0);
    assert(all_top_brackets(one, 0) == Seq::<TopBracket>::empty());
    assert forall|s: int| #[trigger] sum_population(one, 1, s) == r.score_distribution@[s] by {
        assert(sum_population(one, 0, s) == 0);
    }
    assert(Seq::<TopBracket>::empty() + r.top_brackets@ =~= r.top_brackets@);
}

/// The best brackets after one more bracket `x` is scored: what `add_bracket`
/// leaves in the list.
pub open spec fn top_after(top: Seq<TopBracket>, x: TopBracket) -> Seq<TopBracket> {
    if joins_top(top, x.0) {
        with_top_bracket(top, x)
    } else {
        top
    }
}

/// The kept list holds the best brackets: after a bracket is scored, the list
/// is at most ten long and still from the highest score down; it holds as many
/// entries as it held plus the new one, up to ten; every entry comes from the old
/// list or is the new bracket; and every entry left out scores at most as much
/// as every entry kept (so a bracket that scores more than the lowest of ten
/// kept ones joins them).
pub proof fn law_top_keeps_best(top: Seq<TopBracket>, x: TopBracket)
    requires
        top.len() <= TOP_BRACKETS,
        descending(top),
    ensures
        top_after(top, x).len() == (if top.len() < TOP_BRACKETS {
            top.len() + 1int
        } else {
            TOP_BRACKETS as int
        }),
        descending(top_after(top, x)),
        top_after(top, x).to_multiset().subset_of(top.push(x).to_multiset()),
        forall|e: TopBracket, i: int|
            #![trigger top.push(x).to_multiset().count(e), top_after(top, x)[i]]
            top.push(x).to_multiset().count(e) > top_after(top, x).to_multiset().count(e) && 0 <= i
                < top_after(top, x).len() ==> e.0 <= top_after(top, x)[i].0,
{
    broadcast use vstd::seq_lib::group_to_multiset_ensures;
    broadcast use vstd::multiset::group_multiset_axioms;

    let all = top.push(x);
    let new = top_after(top, x);
    if joins_top(top, x.0) {
        law_ranked(all);
        let r = ranked(all);
        if r.len() > TOP_BRACKETS {
            let last = r[TOP_BRACKETS as int];
            assert(new == r.remove(TOP_BRACKETS as int));
            assert(r.remove(TOP_BRACKETS as int).to_multiset() =~= r.to_multiset().remove(last));
            assert forall|e: TopBracket, i: int|
                #![trigger all.to_multiset().count(e), new[i]]
                all.to_multiset().count(e) > new.to_multiset().count(e) && 0 <= i < new.len()
                implies e.0 <= new[i].0 by {
                assert(e == last);
                assert(new[i] == r[i]);
            }
            assert forall|e: TopBracket| #[trigger] new.to_multiset().count(e) <= all.to_multiset().count(e) by {}
            assert forall|i: int, j: int| 0 <= i < j < new.len() implies (#[trigger] new[i]).0 >= (#[trigger] new[j]).0 by {
                assert(new[i] == r[i]);
                assert(new[j] == r[j]);
            }
        } else {
            assert(new == r);
        }
    } else {
        // ten kept, and `x` scores at most the lowest of them
        assert(top.push(x).to_multiset() =~= top.to_multiset().insert(x));
        assert forall|e: TopBracket, i: int|
            #![trigger all.to_multiset().count(e), new[i]]
            all.to_multiset().count(e) > new.to_multiset().count(e) && 0 <= i < new.len()
            implies e.0 <= new[i].0 by {
            assert(e == x);
            if i < new.len() - 1 {
                assert(top[i].0 >= top[top.len() - 1].0);
            }
        }
    }
}

/// The ten best of many entries: at most ten of them, as many as there are
/// up to ten, from the highest score down, all taken from the entries, and every
/// entry left out scores at most as much as every entry kept.
pub proof fn law_best_ten(all: Seq<TopBracket>)
    ensures
        best_ten(all).len() == (if all.len() < TOP_BRACKETS { all.len() as int } else { TOP_BRACKETS as int }),
        descending(best_ten(all)),
        best_ten(all).to_multiset().subset_of(all.to_multiset()),
        forall|e: TopBracket, i: int|
            #![trigger all.to_multiset().count(e), best_ten(all)[i]]
            all.to_multiset().count(e) > best_ten(all).to_multiset().count(e) && 0 <= i
                < best_ten(all).len() ==> e.0 <= best_ten(all)[i].0,
{
    broadcast use vstd::seq_lib::group_to_multiset_ensures;
    broadcast use vstd::multiset::group_multiset_axioms;

    law_ranked(all);
    let r = ranked(all);
    let new = best_ten(all);
    if r.len() > TOP_BRACKETS {
        let n = TOP_BRACKETS as int;
        let kept = r.take(n);
        let dropped = r.skip(n);
        assert(r =~= kept + dropped);
        vstd::seq_lib::lemma_multiset_commutative(kept, dropped);
        assert(r.to_multiset() =~= kept.to_multiset().add(dropped.to_multiset()));
        assert forall|e: TopBracket, i: int|
            #![trigger all.to_multiset().count(e), new[i]]
            all.to_multiset().count(e) > new.to_multiset().count(e) && 0 <= i < new.len()
            implies e.0 <= new[i].0 by {
            assert(dropped.to_multiset().count(e) > 0);
            assert(dropped.contains(e));
            let j = choose|j: int| 0 <= j < dropped.len() && dropped[j] == e;
            assert(r[n + j] == e);
            assert(new[i] == r[i]);
        }
        assert forall|i: int, j: int| 0 <= i < j < new.len() implies (#[trigger] new[i]).0 >= (#[trigger] new[j]).0 by {
            assert(new[i] == r[i]);
            assert(new[j] == r[j]);
        }
    }
}

/// The array whose elements are `s` (63 of them).
pub open spec fn array_of(s: Seq<u8>) -> [u8; 63] {
    choose|a: [u8; 63]| a@ == s
}

} // verus!
