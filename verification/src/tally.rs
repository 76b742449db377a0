//! Counts kept by text.

use vstd::prelude::*;
use vstd::hash_map::StringHashMap;
use crate::model::{counted_for, with_added};

verus! {

/// A count for each of a set of texts.
///
/// The counts are held in a hash map. Beside it stands the list of the texts
/// that have a count, each of them once, since a hash map is not walked in an
/// order that anything can be said of.
pub struct Tally {
    counts: StringHashMap<u32>,
    keys: Vec<String>,
}

impl View for Tally {
    type V = Map<Seq<char>, nat>;

    closed spec fn view(&self) -> Map<Seq<char>, nat> {
        self.counts@.map_values(|count: u32| count as nat)
    }
}

impl Tally {
    /// The list of texts holds each text that has a count once, and no other.
    pub closed spec fn wf(&self) -> bool {
        &&& self.keys.deep_view().no_duplicates()
        &&& self.keys.deep_view().to_set() == self.counts@.dom()
    }

    /// A tally in which no text has a count.
    pub fn new() -> (tally: Self)
        ensures
            tally.wf(),
            tally@ == Map::<Seq<char>, nat>::empty(),
    {
        let tally = Tally { counts: StringHashMap::new(), keys: Vec::new() };
        assert(tally.keys.deep_view().to_set() =~= tally.counts@.dom());
        assert(tally@ =~= Map::<Seq<char>, nat>::empty());
        tally
    }

    /// The count of `key`, where it has one.
    pub fn get(&self, key: &str) -> (count: Option<&u32>)
        ensures
            match count {
                Some(count) => self@.contains_key(key@) && self@[key@] == *count,
                None => !self@.contains_key(key@),
            },
    {
        self.counts.get(key)
    }

    /// Adds `amount` to the count of `key`, which starts at nothing.
    pub fn add(&mut self, key: &str, amount: u32)
        requires
            old(self).wf(),
            counted_for(old(self)@, key@) + amount <= u32::MAX,
        ensures
            final(self).wf(),
            final(self)@ == with_added(old(self)@, key@, amount as nat),
    {
        let ghost before = self.keys.deep_view();
        let sum: u32 = match self.counts.get(key) {
            Some(count) => *count + amount,
            None => {
                self.keys.push(key.to_owned());
                proof {
                    assert(self.keys.deep_view() =~= before.push(key@));
                    before.lemma_push_to_set_commute(key@);
                    assert(!before.contains(key@)) by {
                        assert(!before.to_set().contains(key@));
                    }
                    assert(self.keys.deep_view().no_duplicates());
                }
                amount
            },
        };
        self.counts.insert(key.to_owned(), sum);
        proof {
            assert(self.keys.deep_view().to_set() =~= self.counts@.dom()) by {
                if old(self).counts@.contains_key(key@) {
                    assert(before.to_set().contains(key@));
                }
            }
            assert(self@ =~= with_added(old(self)@, key@, amount as nat));
        }
    }

    /// The texts that have a count, each of them once.
    pub fn keys(&self) -> (keys: &Vec<String>)
        requires
            self.wf(),
        ensures
            keys.deep_view().no_duplicates(),
            keys.deep_view().to_set() == self@.dom(),
    {
        assert(self@.dom() =~= self.counts@.dom());
        &self.keys
    }

    /// Each text that has a count, with its count.
    pub fn entries(&self) -> (entries: Vec<(String, u32)>)
        requires
            self.wf(),
        ensures
            entries.deep_view().len() == self@.dom().len(),
            forall|i: int|
                0 <= i < entries.len() ==> self@.contains_key(#[trigger] entries.deep_view()[i].0)
                    && self@[entries.deep_view()[i].0] == entries.deep_view()[i].1,
            forall|i: int, j: int|
                0 <= i < j < entries.len() ==> #[trigger] entries.deep_view()[i].0
                    != #[trigger] entries.deep_view()[j].0,
            forall|key: Seq<char>| #[trigger]
                self@.contains_key(key) ==> exists|i: int|
                    0 <= i < entries.len() && #[trigger] entries.deep_view()[i].0 == key,
    {
        let mut entries: Vec<(String, u32)> = Vec::new();
        let mut k: usize = 0;
        while k < self.keys.len()
            invariant
                self.wf(),
                k <= self.keys.len(),
                entries.len() == k,
                forall|i: int|
                    0 <= i < k ==> (#[trigger] entries.deep_view()[i]).0 == self.keys.deep_view()[i],
                forall|i: int|
                    0 <= i < k ==> self@.contains_key(#[trigger] entries.deep_view()[i].0)
                        && self@[entries.deep_view()[i].0] == entries.deep_view()[i].1,
            decreases self.keys.len() - k,
        {
            let key = self.keys[k].clone();
            let ghost earlier = entries.deep_view();
            assert(self.keys.deep_view().to_set().contains(self.keys.deep_view()[k as int]));
            match self.counts.get(key.as_str()) {
                Some(count) => {
                    entries.push((key, *count));
                },
                None => {
                    // Every text of the list has a count.
                    assert(false);
                },
            }
            assert(entries.deep_view() =~= earlier.push(entries.deep_view()[k as int]));
            k += 1;
        }
        proof {
            self.keys.deep_view().unique_seq_to_set();
            assert(self@.dom() =~= self.counts@.dom());
            assert forall|key: Seq<char>| #[trigger] self@.contains_key(key) implies exists|i: int|
                0 <= i < entries.len() && #[trigger] entries.deep_view()[i].0 == key by {
                assert(self.keys.deep_view().to_set().contains(key));
                let i: int = choose|i: int|
                    0 <= i < self.keys.deep_view().len() && self.keys.deep_view()[i] == key;
                assert(entries.deep_view()[i].0 == key);
            }
        }
        entries
    }
}

} // verus!
