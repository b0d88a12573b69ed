//! Collecting generated brackets: only brackets not seen before are kept, and
//! they are spread over files of a bounded number of brackets each.
use vstd::prelude::*;
use std::collections::HashSet;
use crate::codec::{be_bytes, encode_to_bytes, encoding_of};

verus! {

/// After so many brackets a new file is started.
pub const CREATE_NEW_FILE_BRACKET_THRESHOLD: usize = 120_000_000;

/// Most bytes that the set of seen brackets may take (64 gibibytes).
pub const UNIQUE_BRACKETS_MAX_SIZE: u64 = 68_719_476_736;

/// The capacity to ask for the set of seen brackets, when generating
/// `num_of_brackets` brackets: as many as fit in the allowed bytes, at most the
/// number to generate, plus room for two files of brackets.
pub fn unique_brackets_limit(num_of_brackets: u64) -> (limit: u64)
    ensures
        limit == (if UNIQUE_BRACKETS_MAX_SIZE / 8 < num_of_brackets {
            UNIQUE_BRACKETS_MAX_SIZE / 8
        } else {
            num_of_brackets
        }) + 2 * CREATE_NEW_FILE_BRACKET_THRESHOLD,
{
    let per_memory: u64 = UNIQUE_BRACKETS_MAX_SIZE / 8;
    let bounded: u64 = if per_memory < num_of_brackets { per_memory } else { num_of_brackets };
    bounded + 2 * (CREATE_NEW_FILE_BRACKET_THRESHOLD as u64)
}

/// The big endian bytes of a word (what `u64::to_be_bytes` gives): the most
/// significant byte first.
pub fn word_to_be_bytes(x: u64) -> (bytes: [u8; 8])
    ensures
        bytes@ == be_bytes(x),
{
    let mut bytes: [u8; 8] = [0; 8];
    let mut j: usize = 0;
    while j < 8
        invariant
            j <= 8,
            forall|i: int| 0 <= i < j ==> #[trigger] bytes@[i] == be_bytes(x)[i],
        decreases 8 - j,
    {
        bytes[j] = (x >> ((56 - 8 * j) as u64)) as u8;
        j += 1;
    }
    assert(bytes@ =~= be_bytes(x));
    bytes
}

/// The capacity of a set.
///
/// Calls `HashSet::capacity`, documented as the number of elements the set can
/// hold without reallocating (a lower bound): the contract states only that it
/// covers the elements the set holds.  Its exact value depends on the allocator
/// and on the set's history, and is left unsaid.
#[verifier::external_body]
fn set_capacity(set: &HashSet<u64>) -> (capacity: usize)
    ensures
        capacity >= set@.len(),
{
    set.capacity()
}

/// Whether a set of `len` brackets with room for `capacity` is full enough (more
/// than 75%) to be pruned.
pub open spec fn should_prune(len: int, capacity: int) -> bool {
    capacity / 2 + capacity / 4 < len
}

/// How many brackets a pruning walks over before it keeps the rest: enough to
/// bring the set down to 62.5% of its capacity, plus the number of repeated
/// brackets.
pub open spec fn prune_count(len: int, capacity: int, repeated: int) -> int {
    (len - (capacity / 2 + capacity / 8)) + repeated
}

/// The brackets that a pruning keeps when it walks over them in the order
/// `order`: those past the first `count`, and the repeated ones.
pub open spec fn pruned(order: Seq<u64>, repeated: Set<u64>, count: int) -> Set<u64> {
    Set::new(
        |x: u64|
            exists|i: int|
                0 <= i < order.len() && #[trigger] order[i] == x && (i >= count || repeated.contains(
                    x,
                )),
    )
}

/// An order in which a set can be walked: each member once.
pub open spec fn is_walk_of(order: Seq<u64>, set: Set<u64>) -> bool {
    &&& order.no_duplicates()
    &&& order.to_set() == set
    &&& order.len() == set.len()
}

/// What pruning `before` may leave, for a set of the given capacity: nothing
/// changes unless it is more than 75% full; else walking over it in some order,
/// the brackets walked first are dropped, but the repeated ones.
pub open spec fn pruning_outcome(
    before: Set<u64>,
    repeated: Set<u64>,
    capacity: int,
    after: Set<u64>,
) -> bool {
    if should_prune(before.len() as int, capacity) {
        exists|order: Seq<u64>|
            is_walk_of(order, before) && after == #[trigger] pruned(
                order,
                repeated,
                prune_count(before.len() as int, capacity, repeated.len() as int),
            )
    } else {
        after == before
    }
}

/// What pruning leaves, for a capacity that covers the set: never a bracket
/// that was not there, always the repeated ones; the set unchanged when it is at
/// most 75% full; and when it is pruned, at least 62.5% of the capacity's worth
/// of brackets, less the repeated ones.
pub proof fn law_pruning(before: Set<u64>, repeated: Set<u64>, capacity: int, after: Set<u64>)
    requires
        before.finite(),
        capacity >= before.len(),
        pruning_outcome(before, repeated, capacity, after),
    ensures
        after.subset_of(before),
        forall|x: u64| before.contains(x) && repeated.contains(x) ==> #[trigger] after.contains(x),
        capacity / 2 + capacity / 4 >= before.len() ==> after == before,
        capacity / 2 + capacity / 4 < before.len() ==> after.len() >= capacity / 2 + capacity / 8
            - repeated.len(),
{
    if should_prune(before.len() as int, capacity) {
        let count = prune_count(before.len() as int, capacity, repeated.len() as int);
        let order = choose|order: Seq<u64>|
            is_walk_of(order, before) && after == #[trigger] pruned(order, repeated, count);
        assert forall|x: u64| after.contains(x) implies before.contains(x) by {
            let j = choose|j: int|
                0 <= j < order.len() && #[trigger] order[j] == x && (j >= count || repeated.contains(x));
            assert(order.to_set().contains(x));
        }
        assert forall|x: u64| before.contains(x) && repeated.contains(x) implies #[trigger] after.contains(x) by {
            assert(order.to_set().contains(x));
            let j = choose|j: int| 0 <= j < order.len() && order[j] == x;
            assert(order[j] == x);
        }
        vstd::set_lib::lemma_len_subset(after, before);
        if count < order.len() {
            let start = if count < 0 { 0 } else { count };
            let rest = order.subrange(start, order.len() as int);
            assert(rest.no_duplicates()) by {
                assert forall|i: int, j: int| 0 <= i < rest.len() && 0 <= j < rest.len() && i != j
                    implies rest[i] != rest[j] by {
                    assert(rest[i] == order[start + i]);
                    assert(rest[j] == order[start + j]);
                }
            }
            rest.unique_seq_to_set();
            assert forall|x: u64| rest.to_set().contains(x) implies after.contains(x) by {
                let i = choose|i: int| 0 <= i < rest.len() && rest[i] == x;
                assert(order[start + i] == x);
            }
            vstd::set_lib::lemma_len_subset(rest.to_set(), after);
        }
    }
}

/// Prunes the set of seen brackets, when it is more than 75% full for the
/// given capacity: walking over it, the first brackets are dropped, but the
/// repeated ones, until enough are counted (see `prune_count`).  The order of
/// the walk is the set's own.
pub fn remove_brackets_with_capacity(
    unique_brackets: &mut HashSet<u64>,
    repeated_brackets: &HashSet<u64>,
    capacity: usize,
)
    requires
        old(unique_brackets)@.len() + repeated_brackets@.len() <= usize::MAX,
    ensures
        pruning_outcome(
            old(unique_brackets)@,
            repeated_brackets@,
            capacity as int,
            final(unique_brackets)@,
        ),
{
    proof {
        assert(capacity >> 1usize == capacity / 2) by (bit_vector);
        assert(capacity >> 2usize == capacity / 4) by (bit_vector);
        assert(capacity >> 3usize == capacity / 8) by (bit_vector);
    }
    let len: usize = unique_brackets.len();
    // when it gets to 75% full or more
    if (capacity >> 1usize) + (capacity >> 2usize) < len {
        // clear it down to at least 62.5%
        let target_size: usize = (capacity >> 1usize) + (capacity >> 3usize);
        let need_to_remove: usize = (len - target_size) + repeated_brackets.len();
        let ghost count = need_to_remove as int;
        let ghost repeated = repeated_brackets@;
        let mut removed: usize = 0;
        let mut to_keep: HashSet<u64> = HashSet::new();
        let ghost old_set = unique_brackets@;
        for b in it: unique_brackets.iter()
            invariant
                removed == (if it.index() < count { it.index() as int } else { count }),
                removed <= need_to_remove,
                count == need_to_remove,
                repeated == repeated_brackets@,
                to_keep@ == pruned(it.seq().take(it.index() as int).unref(), repeated, count),
                is_walk_of(it.seq().unref(), old_set),
                it.index() == it.seq().len() ==> exists|order: Seq<u64>|
                    is_walk_of(order, old_set) && #[trigger] pruned(order, repeated, count) == to_keep@,
        {
            let ghost i = it.index();
            let ghost walked = it.seq().take(i as int).unref();
            let ghost next = it.seq().take(i + 1).unref();
            assert(next =~= walked.push(*b));
            if removed >= need_to_remove {
                // keep this one: enough are removed
                to_keep.insert(*b);
            } else if repeated_brackets.contains(b) {
                // count it as removed (space reserved) but keep it
                removed += 1;
                to_keep.insert(*b);
            } else {
                removed += 1;
            }
            proof {
                assert forall|x: u64| #[trigger] to_keep@.contains(x) == pruned(next, repeated, count).contains(x) by {
                    if x == *b {
                        assert(next[i as int] == x);
                    }
                    if pruned(walked, repeated, count).contains(x) {
                        let j = choose|j: int| 0 <= j < walked.len() && #[trigger] walked[j] == x && (j >= count || repeated.contains(x));
                        assert(next[j] == x);
                    }
                    if pruned(next, repeated, count).contains(x) {
                        let j = choose|j: int| 0 <= j < next.len() && #[trigger] next[j] == x && (j >= count || repeated.contains(x));
                        if j < walked.len() {
                            assert(walked[j] == x);
                        }
                    }
                }
                assert(to_keep@ =~= pruned(next, repeated, count));
                assert(i + 1 == it.seq().len() ==> next =~= it.seq().unref());
                assert(i + 1 == it.seq().len() ==> pruned(it.seq().unref(), repeated, count) == to_keep@);
            }
        }
        proof {
            let order = choose|order: Seq<u64>|
                is_walk_of(order, old_set) && #[trigger] pruned(order, repeated, count) == to_keep@;
            assert(count == prune_count(old_set.len() as int, capacity as int, repeated.len() as int));
            assert(pruned(
                order,
                repeated,
                prune_count(old_set.len() as int, capacity as int, repeated.len() as int),
            ) == to_keep@);
        }
        *unique_brackets = to_keep;
    }
}

/// Prunes the set of seen brackets when it is more than 75% full (see
/// `remove_brackets_with_capacity`); the capacity is the set's own.  Whatever the
/// capacity, no repeated bracket is dropped and no bracket is added.
pub fn remove_brackets(unique_brackets: &mut HashSet<u64>, repeated_brackets: &HashSet<u64>)
    requires
        old(unique_brackets)@.len() + repeated_brackets@.len() <= usize::MAX,
    ensures
        exists|capacity: usize|
            capacity >= old(unique_brackets)@.len() && #[trigger] pruning_outcome(
                old(unique_brackets)@,
                repeated_brackets@,
                capacity as int,
                final(unique_brackets)@,
            ),
        final(unique_brackets)@.subset_of(old(unique_brackets)@),
        forall|x: u64|
            old(unique_brackets)@.contains(x) && repeated_brackets@.contains(x) ==> #[trigger] final(unique_brackets)@.contains(x),
{
    let capacity: usize = set_capacity(unique_brackets);
    let ghost before = unique_brackets@;
    remove_brackets_with_capacity(unique_brackets, repeated_brackets, capacity);
    proof {
        if should_prune(before.len() as int, capacity as int) {
            let order = choose|order: Seq<u64>|
                is_walk_of(order, before) && unique_brackets@ == pruned(
                    order,
                    repeated_brackets@,
                    prune_count(before.len() as int, capacity as int, repeated_brackets@.len() as int),
                );
            assert forall|x: u64| unique_brackets@.contains(x) implies before.contains(x) by {
                let j = choose|j: int|
                    0 <= j < order.len() && #[trigger] order[j] == x && (j >= prune_count(
                        before.len() as int,
                        capacity as int,
                        repeated_brackets@.len() as int,
                    ) || repeated_brackets@.contains(x));
                assert(order.to_set().contains(x));
            }
            assert forall|x: u64|
                before.contains(x) && repeated_brackets@.contains(x) implies #[trigger] unique_brackets@.contains(x) by {
                assert(order.to_set().contains(x));
                let j = choose|j: int| 0 <= j < order.len() && order[j] == x;
                assert(order[j] == x);
            }
        }
    }
}

/// What became of a generated bracket.
pub struct AddedBracket {
    /// The word that stores the bracket.
    pub encoded: u64,
    /// The bytes to write for it.
    pub bytes: [u8; 8],
    /// Whether it was not seen before (and is to be written).
    pub is_new: bool,
    /// Whether the current file now holds as many brackets as a file may.
    pub file_full: bool,
}

/// The state of a run that generates `num_of_brackets` distinct brackets.
pub struct BracketCollector {
    unique_brackets: HashSet<u64>,
    repeated_brackets: HashSet<u64>,
    num_of_brackets: usize,
    generated: usize,
    file_number: usize,
    file_count: usize,
    file_words: Ghost<Seq<u64>>,
}

impl BracketCollector {
    /// The words written to the current file, in order.
    pub closed spec fn written_in_file(self) -> Seq<u64> {
        self.file_words@
    }

    /// The words of the brackets seen (and not pruned since).
    pub closed spec fn seen(self) -> Set<u64> {
        self.unique_brackets@
    }

    /// The words of the brackets that were generated more than once.
    pub closed spec fn repeats(self) -> Set<u64> {
        self.repeated_brackets@
    }

    /// How many brackets the run is to write.
    pub closed spec fn target(self) -> int {
        self.num_of_brackets as int
    }

    /// How many brackets were written so far.
    pub closed spec fn written(self) -> int {
        self.generated as int
    }

    /// Number of the current file (from 0).
    pub closed spec fn current_file(self) -> int {
        self.file_number as int
    }

    /// How many brackets the current file holds.
    pub closed spec fn in_current_file(self) -> int {
        self.file_count as int
    }

    #[verifier::type_invariant]
    closed spec fn wf(self) -> bool {
        &&& self.generated <= self.num_of_brackets
        &&& self.file_count <= CREATE_NEW_FILE_BRACKET_THRESHOLD
        &&& self.file_number * CREATE_NEW_FILE_BRACKET_THRESHOLD + self.file_count <= self.generated
        &&& self.file_words@.len() == self.file_count
        &&& self.file_words@.no_duplicates()
        &&& forall|i: int|
            0 <= i < self.file_words@.len() ==> self.unique_brackets@.contains(
                #[trigger] self.file_words@[i],
            )
    }

    /// A run with nothing to write (a placeholder while a run is taken apart).
    fn empty() -> (collector: Self) {
        BracketCollector {
            unique_brackets: HashSet::new(),
            repeated_brackets: HashSet::new(),
            num_of_brackets: 0,
            generated: 0,
            file_number: 0,
            file_count: 0,
            file_words: Ghost(Seq::empty()),
        }
    }

    /// A run that is to write `num_of_brackets` distinct brackets, with an empty
    /// set (of the capacity chosen by the caller) for the brackets seen.
    pub fn new(num_of_brackets: usize, unique_brackets: HashSet<u64>) -> (collector: Self)
        requires
            unique_brackets@ == Set::<u64>::empty(),
        ensures
            collector.seen() == Set::<u64>::empty(),
            collector.repeats() == Set::<u64>::empty(),
            collector.target() == num_of_brackets,
            collector.written() == 0,
            collector.current_file() == 0,
            collector.in_current_file() == 0,
            collector.written_in_file() == Seq::<u64>::empty(),
    {
        BracketCollector {
            unique_brackets,
            repeated_brackets: HashSet::new(),
            num_of_brackets,
            generated: 0,
            file_number: 0,
            file_count: 0,
            file_words: Ghost(Seq::empty()),
        }
    }

    /// Whether all brackets are written.
    pub fn is_done(&self) -> (done: bool)
        ensures
            done == (self.written() >= self.target()),
    {
        self.generated >= self.num_of_brackets
    }

    /// Number of the current file.
    pub fn file_number(&self) -> (n: usize)
        ensures
            n == self.current_file(),
    {
        self.file_number
    }

    /// Number of brackets written so far.
    pub fn written_count(&self) -> (n: usize)
        ensures
            n == self.written(),
    {
        self.generated
    }

    /// Number of brackets generated more than once.
    pub fn repeat_count(&self) -> (n: usize)
        ensures
            n == self.repeats().len(),
    {
        self.repeated_brackets.len()
    }

    /// Number of brackets seen (and not pruned since).
    pub fn seen_count(&self) -> (n: usize)
        ensures
            n == self.seen().len(),
    {
        self.unique_brackets.len()
    }

    /// Takes a generated bracket: it is to be written when it was not seen
    /// before, else it is counted as a repeat.
    pub fn add_bracket(&mut self, bracket: &[u8; 63]) -> (added: AddedBracket)
        requires
            old(self).written() < old(self).target(),
            old(self).in_current_file() < CREATE_NEW_FILE_BRACKET_THRESHOLD,
        ensures
            added.encoded == encoding_of(bracket@),
            added.bytes@ == be_bytes(added.encoded),
            added.is_new == !old(self).seen().contains(added.encoded),
            final(self).seen() == old(self).seen().insert(added.encoded),
            final(self).repeats() == (if added.is_new {
                old(self).repeats()
            } else {
                old(self).repeats().insert(added.encoded)
            }),
            final(self).written() == old(self).written() + (if added.is_new { 1int } else { 0int }),
            final(self).in_current_file() == old(self).in_current_file() + (if added.is_new {
                1int
            } else {
                0int
            }),
            final(self).current_file() == old(self).current_file(),
            final(self).target() == old(self).target(),
            added.file_full == (final(self).in_current_file() >= CREATE_NEW_FILE_BRACKET_THRESHOLD),
            final(self).written_in_file() == (if added.is_new {
                old(self).written_in_file().push(added.encoded)
            } else {
                old(self).written_in_file()
            }),
            final(self).written_in_file().no_duplicates(),
            final(self).written_in_file().len() == final(self).in_current_file(),
            final(self).in_current_file() <= CREATE_NEW_FILE_BRACKET_THRESHOLD,
    {
        let mut taken = BracketCollector::empty();
        std::mem::swap(&mut taken, self);
        proof {
            use_type_invariant(&taken);
        }
        let BracketCollector {
            mut unique_brackets,
            mut repeated_brackets,
            num_of_brackets,
            mut generated,
            file_number,
            mut file_count,
            file_words,
        } = taken;
        let ghost mut words = file_words@;
        let encoded_bracket: u64 = encode_to_bytes(bracket);
        let bytes = word_to_be_bytes(encoded_bracket);
        // only written when it is a new bracket (inserted into the seen ones)
        let is_new = unique_brackets.insert(encoded_bracket);
        if is_new {
            generated += 1;
            file_count += 1;
            proof {
                assert forall|i: int| 0 <= i < words.len() implies words[i] != encoded_bracket by {
                    assert(old(self).seen().contains(words[i]));
                }
                words = words.push(encoded_bracket);
                assert(words.no_duplicates());
            }
        } else {
            repeated_brackets.insert(encoded_bracket);
        }
        let file_full = file_count >= CREATE_NEW_FILE_BRACKET_THRESHOLD;
        *self = BracketCollector {
            unique_brackets,
            repeated_brackets,
            num_of_brackets,
            generated,
            file_number,
            file_count,
            file_words: Ghost(words),
        };
        AddedBracket { encoded: encoded_bracket, bytes, is_new, file_full }
    }

    /// Closes a full file: the count starts over for the next file, and the
    /// set of seen brackets is pruned (see `remove_brackets`).  Returns whether
    /// more brackets are to be written (in a new file).
    pub fn start_next_file(&mut self) -> (more: bool)
        requires
            old(self).in_current_file() >= CREATE_NEW_FILE_BRACKET_THRESHOLD,
            old(self).seen().len() + old(self).repeats().len() <= usize::MAX,
        ensures
            more == (final(self).written() < final(self).target()),
            final(self).current_file() == old(self).current_file() + 1,
            final(self).in_current_file() == 0,
            final(self).written() == old(self).written(),
            final(self).target() == old(self).target(),
            final(self).repeats() == old(self).repeats(),
            exists|capacity: usize|
                capacity >= old(self).seen().len() && #[trigger] pruning_outcome(
                    old(self).seen(),
                    old(self).repeats(),
                    capacity as int,
                    final(self).seen(),
                ),
            final(self).seen().subset_of(old(self).seen()),
            forall|x: u64|
                old(self).seen().contains(x) && old(self).repeats().contains(x)
                    ==> #[trigger] final(self).seen().contains(x),
            final(self).written_in_file() == Seq::<u64>::empty(),
    {
        let mut taken = BracketCollector::empty();
        std::mem::swap(&mut taken, self);
        proof {
            use_type_invariant(&taken);
        }
        let BracketCollector {
            mut unique_brackets,
            repeated_brackets,
            num_of_brackets,
            generated,
            file_number,
            file_count,
            file_words,
        } = taken;
        // check whether the set is getting too big and remove some if necessary
        let ghost before = unique_brackets@;
        remove_brackets(&mut unique_brackets, &repeated_brackets);
        let ghost capacity = choose|capacity: usize|
            capacity >= before.len() && #[trigger] pruning_outcome(
                before,
                repeated_brackets@,
                capacity as int,
                unique_brackets@,
            );
        let more = generated < num_of_brackets;
        *self = BracketCollector {
            unique_brackets,
            repeated_brackets,
            num_of_brackets,
            generated,
            file_number: file_number + 1,
            file_count: 0,
            file_words: Ghost(Seq::empty()),
        };
        assert(pruning_outcome(old(self).seen(), old(self).repeats(), capacity as int, self.seen()));
        more
    }
}

} // verus!
