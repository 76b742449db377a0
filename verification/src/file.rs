//! A text in which substrings are counted.

use vstd::prelude::*;
use crate::model::{with_added, CountedText};
use crate::occurrences::{count_occurrences, lemma_occurrences_bounded};
use crate::order::{lemma_ascending_no_duplicates, sorted};
use crate::tally::Tally;

verus! {

/// The characters of `text`, one by one.
fn chars_of(text: &str) -> (chars: Vec<char>)
    ensures
        chars@ == text@,
{
    let mut chars: Vec<char> = Vec::new();
    let rest = text.chars();
    for c in it: rest
        invariant
            it.seq() == text@,
            chars@ == text@.take(it.index()),
    {
        chars.push(c);
    }
    chars
}

/// A text that never changes, with the number of occurrences counted so far
/// for each substring that was asked for, and the list of those substrings
/// as it was when they were last put in order.
pub struct File {
    content: Vec<char>,
    tally: Tally,
    ordered_content: Vec<String>,
}

impl View for File {
    type V = CountedText;

    closed spec fn view(&self) -> CountedText {
        CountedText {
            content: self.content@,
            counts: self.tally@,
            ordered: self.ordered_content.deep_view(),
        }
    }
}

impl File {
    #[verifier::type_invariant]
    spec fn inv(self) -> bool {
        self.tally.wf()
    }

    /// A file that holds `content`, with nothing counted yet.
    pub fn new(content: &str) -> (file: Self)
        ensures
            file@ == CountedText::fresh(content@),
    {
        let file = File { content: chars_of(content), tally: Tally::new(), ordered_content: Vec::new() };
        assert(file.ordered_content.deep_view() =~= Seq::<Seq<char>>::empty());
        file
    }

    /// Adds `count` to what is counted for `substr`.
    fn add(&mut self, substr: &str, count: u32)
        requires
            old(self)@.total(substr@) + count <= u32::MAX,
        ensures
            final(self)@ == (CountedText {
                counts: with_added(old(self)@.counts, substr@, count as nat),
                ..old(self)@
            }),
    {
        proof {
            use_type_invariant(&*self);
        }
        // The tally is taken out while it changes and put back when it is well
        // formed again, so that the file is never seen with a broken tally.
        let mut tally = Tally::new();
        std::mem::swap(&mut self.tally, &mut tally);
        tally.add(substr, count);
        self.tally = tally;
    }

    /// Counts the occurrences of `substr` in the content that do not overlap,
    /// and adds them to what earlier counts of `substr` found. Returns what
    /// this count found.
    ///
    /// The empty substring is found once at every boundary between two
    /// characters and once at each end of the content.
    ///
    /// The total is kept in a `u32`, so the new total has to fit in one;
    /// [`File::checked_parse_and_count`] asks nothing and tests that itself.
    pub fn parse_and_count(&mut self, substr: &str) -> (count: u32)
        requires
            old(self)@.total(substr@) + old(self)@.found(substr@) <= u32::MAX,
        ensures
            count == old(self)@.found(substr@),
            final(self)@ == old(self)@.counted(substr@),
    {
        let pattern = chars_of(substr);
        let count: u32 = count_occurrences(&self.content, &pattern) as u32;
        self.add(substr, count);
        count
    }

    /// Counts as [`File::parse_and_count`] does wherever the new total of
    /// `substr` fits in a `u32`. Where it does not, nothing is counted and
    /// the file stays as it was.
    pub fn checked_parse_and_count(&mut self, substr: &str) -> (count: Option<u32>)
        ensures
            match count {
                Some(count) => {
                    &&& old(self)@.total(substr@) + old(self)@.found(substr@) <= u32::MAX
                    &&& count == old(self)@.found(substr@)
                    &&& final(self)@ == old(self)@.counted(substr@)
                },
                None => {
                    &&& old(self)@.total(substr@) + old(self)@.found(substr@) > u32::MAX
                    &&& final(self)@ == old(self)@
                },
            },
    {
        let pattern = chars_of(substr);
        let length: usize = self.content.len();
        if pattern.len() == 0 && length == usize::MAX {
            return None;
        }
        proof {
            lemma_occurrences_bounded(self.content@, pattern@);
        }
        let found: usize = count_occurrences(&self.content, &pattern);
        let held: u32 = match self.tally.get(substr) {
            Some(total) => *total,
            None => 0,
        };
        if found > (u32::MAX - held) as usize {
            return None;
        }
        let count: u32 = found as u32;
        self.add(substr, count);
        Some(count)
    }

    /// Puts the substrings counted so far in lexicographic order by code
    /// points, keeps the list and returns it. A substring counted later does
    /// not enter the list that is kept until the substrings are put in order
    /// again.
    pub fn order_content_alphabetically(&mut self) -> (keys: Vec<String>)
        ensures
            old(self)@.in_order(keys.deep_view()),
            final(self)@ == old(self)@.ordered_as(keys.deep_view()),
    {
        proof {
            use_type_invariant(&*self);
        }
        let keys = sorted(self.tally.keys());
        proof {
            lemma_ascending_no_duplicates(keys.deep_view());
        }
        let kept = keys.clone();
        assert(kept.deep_view() =~= keys.deep_view());
        self.ordered_content = kept;
        keys
    }

    /// What the counts of `substr` found so far, all together; nothing where
    /// `substr` was never counted.
    pub fn get_count(&self, substr: &str) -> (total: Option<&u32>)
        ensures
            match total {
                Some(total) => self@.counts.contains_key(substr@) && self@.counts[substr@]
                    == *total,
                None => !self@.counts.contains_key(substr@),
            },
    {
        self.tally.get(substr)
    }

    /// The list of counted substrings as it was when they were last put in
    /// order.
    pub fn ordered_content(&self) -> (keys: &Vec<String>)
        ensures
            keys.deep_view() == self@.ordered,
    {
        &self.ordered_content
    }

    /// Each substring counted so far with its total, in no order that a
    /// caller can rely on.
    pub fn counts(&self) -> (entries: Vec<(String, u32)>)
        ensures
            self@.listed_by(entries.deep_view()),
    {
        proof {
            use_type_invariant(&*self);
        }
        self.tally.entries()
    }
}

} // verus!
