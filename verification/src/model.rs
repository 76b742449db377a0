//! The mathematical model of a text with counts, and what holds of it.

use vstd::prelude::*;
use crate::occurrences::occurrences;
use crate::order::{ascending, lemma_ascending_unique};

verus! {

/// What `counts` holds for `key`: nothing where it has no entry for `key`.
pub open spec fn counted_for(counts: Map<Seq<char>, nat>, key: Seq<char>) -> nat {
    if counts.contains_key(key) {
        counts[key]
    } else {
        0
    }
}

/// The counts `counts` after `amount` was added to what they hold for `key`.
pub open spec fn with_added(counts: Map<Seq<char>, nat>, key: Seq<char>, amount: nat) -> Map<
    Seq<char>,
    nat,
> {
    counts.insert(key, counted_for(counts, key) + amount)
}

/// A text, what has been counted in it so far, and the list of counted
/// substrings that was made last.
pub struct CountedText {
    /// The text in which substrings are counted.
    pub content: Seq<char>,
    /// For each substring counted so far, the sum of what each count of it
    /// found.
    pub counts: Map<Seq<char>, nat>,
    /// The substrings that had been counted when they were last put in order,
    /// in that order.
    pub ordered: Seq<Seq<char>>,
}

impl CountedText {
    /// The text `content` with nothing counted and nothing put in order yet.
    pub open spec fn fresh(content: Seq<char>) -> CountedText {
        CountedText { content, counts: Map::empty(), ordered: Seq::empty() }
    }

    /// What one count of `key` finds.
    pub open spec fn found(self, key: Seq<char>) -> nat {
        occurrences(self.content, key)
    }

    /// The sum of what the counts of `key` found so far.
    pub open spec fn total(self, key: Seq<char>) -> nat {
        counted_for(self.counts, key)
    }

    /// The state after one count of `key`: what the count found is added to
    /// the total of `key`, and nothing else changes. The list of ordered
    /// substrings is not brought up to date.
    pub open spec fn counted(self, key: Seq<char>) -> CountedText {
        CountedText { counts: with_added(self.counts, key, self.found(key)), ..self }
    }

    /// The state after `times` counts of `key`, one after the other.
    pub open spec fn counted_times(self, key: Seq<char>, times: nat) -> CountedText
        decreases times,
    {
        if times == 0 {
            self
        } else {
            self.counted_times(key, (times - 1) as nat).counted(key)
        }
    }

    /// Whether `keys` lists the substrings counted so far in ascending order,
    /// each of them once and no other text.
    pub open spec fn in_order(self, keys: Seq<Seq<char>>) -> bool {
        &&& ascending(keys)
        &&& keys.no_duplicates()
        &&& keys.to_set() == self.counts.dom()
    }

    /// The state after the counted substrings were put in order as `keys`.
    pub open spec fn ordered_as(self, keys: Seq<Seq<char>>) -> CountedText {
        CountedText { ordered: keys, ..self }
    }

    /// Whether `entries` lists what is counted: each counted substring once,
    /// with its total, and nothing else.
    pub open spec fn listed_by(self, entries: Seq<(Seq<char>, u32)>) -> bool {
        &&& entries.len() == self.counts.dom().len()
        &&& forall|i: int|
            0 <= i < entries.len() ==> self.counts.contains_key(#[trigger] entries[i].0)
                && self.counts[entries[i].0] == entries[i].1
        &&& forall|i: int, j: int|
            0 <= i < j < entries.len() ==> #[trigger] entries[i].0 != #[trigger] entries[j].0
        &&& forall|key: Seq<char>| #[trigger]
            self.counts.contains_key(key) ==> exists|i: int|
                0 <= i < entries.len() && #[trigger] entries[i].0 == key
    }

    /// A count of `key` adds what it found to the total of `key`, makes `key` a
    /// counted substring, and leaves every other total, the text and the list
    /// of ordered substrings as they were.
    pub proof fn lemma_count_adds(self, key: Seq<char>)
        ensures
            self.counted(key).counts.contains_key(key),
            self.counted(key).total(key) == self.total(key) + self.found(key),
            forall|other: Seq<char>|
                other != key ==> self.counted(key).counts.contains_key(other)
                    == self.counts.contains_key(other) && #[trigger] self.counted(key).total(other)
                    == self.total(other),
            self.counted(key).content == self.content,
            self.counted(key).ordered == self.ordered,
    {
    }

    /// One count of `key` in a fresh text finds the occurrences of `key` in the
    /// text, and that number is what is then kept for `key`.
    pub proof fn lemma_count_in_fresh_text(content: Seq<char>, key: Seq<char>)
        ensures
            Self::fresh(content).found(key) == occurrences(content, key),
            Self::fresh(content).counted(key).counts.contains_key(key),
            Self::fresh(content).counted(key).counts[key] == occurrences(content, key),
    {
    }

    /// After a count of `key` before which nothing was kept for `key`, what is
    /// kept for `key` is what the count found.
    pub proof fn lemma_first_count_is_total(self, key: Seq<char>)
        requires
            self.total(key) == 0,
        ensures
            self.counted(key).counts.contains_key(key),
            self.counted(key).counts[key] == self.found(key),
    {
    }

    /// Two counts of `key`, one after the other, find the same number, and
    /// where nothing was counted for `key` before, what is kept for `key` after
    /// them is the sum of what the two found.
    pub proof fn lemma_two_counts_add_up(self, key: Seq<char>)
        requires
            self.total(key) == 0,
        ensures
            self.counted(key).found(key) == self.found(key),
            self.counted(key).counted(key).counts.contains_key(key),
            self.counted(key).counted(key).counts[key] == self.found(key) + self.counted(
                key,
            ).found(key),
    {
    }

    /// Two counts leave the same state behind in whichever order they are
    /// made.
    pub proof fn lemma_counts_commute(self, first: Seq<char>, second: Seq<char>)
        ensures
            self.counted(first).counted(second) == self.counted(second).counted(first),
    {
        assert(self.counted(first).counted(second).counts =~= self.counted(second).counted(
            first,
        ).counts);
    }

    /// However many callers count `key` once each, one after the other and in
    /// whatever order they come to it, what is then kept for `key` is what was
    /// kept before and, for each of the counts, what one count finds.
    pub proof fn lemma_counts_add_up(self, key: Seq<char>, times: nat)
        ensures
            self.counted_times(key, times).content == self.content,
            self.counted_times(key, times).ordered == self.ordered,
            self.counted_times(key, times).total(key) == self.total(key) + times * self.found(key),
            times > 0 ==> self.counted_times(key, times).counts.contains_key(key),
        decreases times,
    {
        if times > 0 {
            let earlier = (times - 1) as nat;
            self.lemma_counts_add_up(key, earlier);
            assert(times * self.found(key) == earlier * self.found(key) + self.found(key))
                by (nonlinear_arith)
                requires
                    times == earlier + 1,
            ;
        }
    }

    /// The counted substrings have one ascending order only: whoever puts them
    /// in order twice with no count between gets the same list twice.
    pub proof fn lemma_order_is_unique(self, first: Seq<Seq<char>>, second: Seq<Seq<char>>)
        requires
            self.in_order(first),
            self.ordered_as(first).in_order(second),
        ensures
            first == second,
            self.ordered_as(first).ordered_as(second) == self.ordered_as(first),
    {
        lemma_ascending_unique(first, second);
    }
}

} // verus!
