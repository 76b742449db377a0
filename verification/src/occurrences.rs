//! Occurrences of a pattern in a text that do not overlap.

use vstd::prelude::*;

verus! {

/// Whether `pattern` stands in `text` at index `at`.
pub open spec fn occurs_at(text: Seq<char>, pattern: Seq<char>, at: int) -> bool {
    &&& 0 <= at
    &&& at + pattern.len() <= text.len()
    &&& text.subrange(at, at + pattern.len()) == pattern
}

/// The number of occurrences of `pattern` that a reader of `text` meets who
/// goes from left to right and, behind each occurrence found, goes on at the
/// first character after it: no two of the occurrences counted overlap.
///
/// The empty pattern occurs once at every boundary between two characters
/// and once at each end of the text.
pub open spec fn occurrences(text: Seq<char>, pattern: Seq<char>) -> nat
    decreases text.len(),
{
    if pattern.len() == 0 {
        text.len() + 1
    } else if text.len() < pattern.len() {
        0
    } else if occurs_at(text, pattern, 0) {
        1 + occurrences(text.skip(pattern.len() as int), pattern)
    } else {
        occurrences(text.skip(1), pattern)
    }
}

/// A text holds no more occurrences of a pattern than it has boundaries, and
/// no more than it has characters where the pattern is not empty.
pub proof fn lemma_occurrences_bounded(text: Seq<char>, pattern: Seq<char>)
    ensures
        occurrences(text, pattern) <= text.len() + 1,
        pattern.len() > 0 ==> occurrences(text, pattern) <= text.len(),
    decreases text.len(),
{
    if pattern.len() == 0 || text.len() < pattern.len() {
    } else if occurs_at(text, pattern, 0) {
        lemma_occurrences_bounded(text.skip(pattern.len() as int), pattern);
    } else {
        lemma_occurrences_bounded(text.skip(1), pattern);
    }
}

/// Whether `places` are indices at which `pattern` stands in `text`, in
/// ascending order, such that no two of these occurrences begin at the same
/// index or overlap.
pub open spec fn apart(text: Seq<char>, pattern: Seq<char>, places: Seq<int>) -> bool {
    &&& forall|i: int| 0 <= i < places.len() ==> occurs_at(text, pattern, #[trigger] places[i])
    &&& forall|i: int, j: int|
        0 <= i < j < places.len() ==> #[trigger] places[i] < #[trigger] places[j] && places[i]
            + pattern.len() <= places[j]
}

/// An occurrence in what is left of a text after its first `skipped`
/// characters is an occurrence in the text, `skipped` indices further on.
proof fn lemma_occurs_later(text: Seq<char>, pattern: Seq<char>, skipped: int, at: int)
    requires
        0 <= skipped <= text.len(),
        0 <= at,
    ensures
        occurs_at(text.skip(skipped), pattern, at) == occurs_at(text, pattern, at + skipped),
{
    if at + pattern.len() + skipped <= text.len() {
        assert(text.skip(skipped).subrange(at, at + pattern.len()) =~= text.subrange(
            at + skipped,
            at + skipped + pattern.len(),
        ));
    }
}

/// No choice of occurrences of `pattern` in `text` that begin at different
/// indices and do not overlap holds more of them than `occurrences` counts.
pub proof fn lemma_occurrences_greatest(text: Seq<char>, pattern: Seq<char>, places: Seq<int>)
    requires
        apart(text, pattern, places),
    ensures
        places.len() <= occurrences(text, pattern),
    decreases text.len(),
{
    if places.len() == 0 {
    } else if text.len() < pattern.len() {
        assert(occurs_at(text, pattern, places[0]));
    } else {
        let width: int = if pattern.len() == 0 {
            1
        } else if occurs_at(text, pattern, 0) {
            pattern.len() as int
        } else {
            1
        };
        assert(occurs_at(text, pattern, places[0]));
        if text.len() == 0 {
            assert(places.len() == 1) by {
                if places.len() > 1 {
                    assert(occurs_at(text, pattern, places[1]));
                }
            }
        } else {
            let early: int = if places[0] < width {
                1
            } else {
                0
            };
            let later = Seq::new((places.len() - early) as nat, |i: int| places[i + early] - width);
            assert(apart(text.skip(width), pattern, later)) by {
                assert forall|i: int| 0 <= i < later.len() implies occurs_at(
                    text.skip(width),
                    pattern,
                    #[trigger] later[i],
                ) by {
                    assert(occurs_at(text, pattern, places[i + early]));
                    if early == 1 {
                        assert(places[0] < places[i + early]);
                    }
                    lemma_occurs_later(text, pattern, width, later[i]);
                }
            }
            lemma_occurrences_greatest(text.skip(width), pattern, later);
            if pattern.len() == 0 {
                assert(occurrences(text.skip(1), pattern) == text.len());
            } else if !occurs_at(text, pattern, 0) {
                assert(early == 0);
            }
        }
    }
}

/// Some choice of occurrences of `pattern` in `text` that begin at different
/// indices and do not overlap holds as many of them as `occurrences` counts:
/// the places at which a reader from left to right finds them.
pub proof fn lemma_occurrences_reached(text: Seq<char>, pattern: Seq<char>) -> (places: Seq<int>)
    ensures
        apart(text, pattern, places),
        places.len() == occurrences(text, pattern),
    decreases text.len(),
{
    if pattern.len() == 0 {
        let places = Seq::new(text.len() + 1, |i: int| i);
        assert forall|i: int| 0 <= i < places.len() implies occurs_at(
            text,
            pattern,
            #[trigger] places[i],
        ) by {
            assert(text.subrange(i, i) =~= pattern);
        }
        places
    } else if text.len() < pattern.len() {
        Seq::empty()
    } else {
        let found = occurs_at(text, pattern, 0);
        let width: int = if found {
            pattern.len() as int
        } else {
            1
        };
        let later = lemma_occurrences_reached(text.skip(width), pattern);
        let moved = Seq::new(later.len(), |i: int| later[i] + width);
        assert(apart(text, pattern, moved)) by {
            assert forall|i: int| 0 <= i < moved.len() implies occurs_at(
                text,
                pattern,
                #[trigger] moved[i],
            ) by {
                assert(occurs_at(text.skip(width), pattern, later[i]));
                lemma_occurs_later(text, pattern, width, later[i]);
            }
            assert forall|i: int, j: int| 0 <= i < j < moved.len() implies #[trigger] moved[i]
                < #[trigger] moved[j] && moved[i] + pattern.len() <= moved[j] by {
                assert(later[i] < later[j] && later[i] + pattern.len() <= later[j]);
            }
        }
        if found {
            let places = seq![0int] + moved;
            assert forall|i: int| 0 <= i < places.len() implies occurs_at(
                text,
                pattern,
                #[trigger] places[i],
            ) by {
                if i > 0 {
                    assert(places[i] == moved[i - 1]);
                }
            }
            assert forall|i: int, j: int| 0 <= i < j < places.len() implies #[trigger] places[i]
                < #[trigger] places[j] && places[i] + pattern.len() <= places[j] by {
                assert(places[j] == moved[j - 1]);
                assert(occurs_at(text.skip(width), pattern, later[j - 1]));
                if i > 0 {
                    assert(places[i] == moved[i - 1]);
                }
            }
            places
        } else {
            moved
        }
    }
}

/// Whether `pattern` stands in `text` at index `at`.
fn found_at(text: &Vec<char>, pattern: &Vec<char>, at: usize) -> (found: bool)
    requires
        at + pattern@.len() <= text@.len(),
    ensures
        found == occurs_at(text@, pattern@, at as int),
{
    let ghost window = text@.subrange(at as int, at + pattern@.len());
    let mut k: usize = 0;
    while k < pattern.len()
        invariant
            k <= pattern@.len(),
            at + pattern@.len() <= text.len(),
            window == text@.subrange(at as int, at + pattern@.len()),
            forall|j: int| 0 <= j < k ==> pattern@[j] == window[j],
        decreases pattern@.len() - k,
    {
        if pattern[k] != text[at + k] {
            assert(window[k as int] != pattern@[k as int]);
            return false;
        }
        assert(window[k as int] == pattern@[k as int]);
        k += 1;
    }
    assert(window =~= pattern@);
    true
}

/// Counts the occurrences of `pattern` in `text` in one pass from left to
/// right.
pub(crate) fn count_occurrences(text: &Vec<char>, pattern: &Vec<char>) -> (count: usize)
    requires
        occurrences(text@, pattern@) <= usize::MAX,
    ensures
        count == occurrences(text@, pattern@),
{
    let width: usize = pattern.len();
    if width == 0 {
        return text.len() + 1;
    }
    let mut count: usize = 0;
    let mut at: usize = 0;
    assert(text@.skip(0) =~= text@);
    while width <= text.len() - at
        invariant
            width == pattern@.len(),
            width > 0,
            at <= text@.len(),
            count + occurrences(text@.skip(at as int), pattern@) == occurrences(text@, pattern@),
            occurrences(text@, pattern@) <= usize::MAX,
        decreases text@.len() - at,
    {
        proof {
            lemma_occurs_later(text@, pattern@, at as int, 0);
        }
        if found_at(text, pattern, at) {
            assert(text@.skip(at as int).skip(width as int) =~= text@.skip(at + width));
            count += 1;
            at += width;
        } else {
            assert(text@.skip(at as int).skip(1) =~= text@.skip(at + 1));
            at += 1;
        }
    }
    count
}

} // verus!
