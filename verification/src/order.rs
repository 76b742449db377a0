//! The lexicographic order of texts.

use vstd::prelude::*;
use vstd::std_specs::iter::IteratorSpec;

verus! {

/// Whether `a` stands before `b` in the lexicographic order by code points:
/// at the first index at which the two differ `a` holds the smaller code
/// point, or `a` ends there and `b` goes on.
pub open spec fn precedes(a: Seq<char>, b: Seq<char>) -> bool
    decreases a.len(),
{
    if b.len() == 0 {
        false
    } else if a.len() == 0 {
        true
    } else if a[0] == b[0] {
        precedes(a.drop_first(), b.drop_first())
    } else {
        a[0] < b[0]
    }
}

/// Whether each text of `texts` stands before all that follow it.
pub open spec fn ascending(texts: Seq<Seq<char>>) -> bool {
    forall|i: int, j: int| 0 <= i < j < texts.len() ==> precedes(texts[i], texts[j])
}

/// No text stands before itself.
pub proof fn lemma_precedes_irreflexive(a: Seq<char>)
    ensures
        !precedes(a, a),
    decreases a.len(),
{
    if a.len() > 0 {
        lemma_precedes_irreflexive(a.drop_first());
    }
}

/// What stands before a text stands before all that the text stands before.
pub proof fn lemma_precedes_transitive(a: Seq<char>, b: Seq<char>, c: Seq<char>)
    requires
        precedes(a, b),
        precedes(b, c),
    ensures
        precedes(a, c),
    decreases a.len(),
{
    if a.len() > 0 && a[0] == b[0] && b[0] == c[0] {
        lemma_precedes_transitive(a.drop_first(), b.drop_first(), c.drop_first());
    }
}

/// Of two different texts one stands before the other.
pub proof fn lemma_precedes_connected(a: Seq<char>, b: Seq<char>)
    ensures
        a == b || precedes(a, b) || precedes(b, a),
    decreases a.len(),
{
    if a.len() == 0 || b.len() == 0 {
        assert(a.len() == 0 && b.len() == 0 ==> a =~= b);
    } else if a[0] == b[0] {
        lemma_precedes_connected(a.drop_first(), b.drop_first());
        if a.drop_first() == b.drop_first() {
            assert(a =~= seq![a[0]] + a.drop_first());
            assert(b =~= seq![b[0]] + b.drop_first());
        }
    }
}

/// An ascending sequence holds no text twice.
pub proof fn lemma_ascending_no_duplicates(texts: Seq<Seq<char>>)
    requires
        ascending(texts),
    ensures
        texts.no_duplicates(),
{
    assert forall|i: int, j: int| 0 <= i < texts.len() && 0 <= j < texts.len() && i != j implies texts[i]
        != texts[j] by {
        lemma_precedes_irreflexive(texts[i]);
        if i < j {
            assert(precedes(texts[i], texts[j]));
        } else {
            assert(precedes(texts[j], texts[i]));
        }
    }
}

/// A set of texts has at most one ascending sequence: two ascending
/// sequences that hold the same texts are equal.
pub proof fn lemma_ascending_unique(x: Seq<Seq<char>>, y: Seq<Seq<char>>)
    requires
        ascending(x),
        ascending(y),
        x.to_set() == y.to_set(),
    ensures
        x == y,
    decreases x.len(),
{
    lemma_ascending_no_duplicates(x);
    lemma_ascending_no_duplicates(y);
    x.unique_seq_to_set();
    y.unique_seq_to_set();
    if x.len() == 0 {
        assert(x =~= y);
    } else {
        assert(x.contains(x[0]) && y.contains(y[0]));
        assert(y.to_set().contains(x[0]) && x.to_set().contains(y[0]));
        let m: int = choose|m: int| 0 <= m < y.len() && y[m] == x[0];
        let k: int = choose|k: int| 0 <= k < x.len() && x[k] == y[0];
        if m > 0 && k > 0 {
            assert(precedes(y[0], y[m]) && precedes(x[0], x[k]));
            lemma_precedes_transitive(x[0], y[0], x[0]);
            lemma_precedes_irreflexive(x[0]);
        }
        assert(x[0] == y[0]);
        let xs = x.drop_first();
        let ys = y.drop_first();
        assert(ascending(xs)) by {
            assert forall|i: int, j: int| 0 <= i < j < xs.len() implies precedes(xs[i], xs[j]) by {
                assert(precedes(x[i + 1], x[j + 1]));
            }
        }
        assert(ascending(ys)) by {
            assert forall|i: int, j: int| 0 <= i < j < ys.len() implies precedes(ys[i], ys[j]) by {
                assert(precedes(y[i + 1], y[j + 1]));
            }
        }
        assert forall|t: Seq<char>| xs.contains(t) implies ys.contains(t) by {
            let i: int = choose|i: int| 0 <= i < xs.len() && xs[i] == t;
            assert(x[i + 1] == t);
            assert(x.contains(t) && y.to_set().contains(t));
            let j: int = choose|j: int| 0 <= j < y.len() && y[j] == t;
            assert(ys[j - 1] == t);
        }
        assert forall|t: Seq<char>| ys.contains(t) implies xs.contains(t) by {
            let i: int = choose|i: int| 0 <= i < ys.len() && ys[i] == t;
            assert(y[i + 1] == t);
            assert(y.contains(t) && x.to_set().contains(t));
            let j: int = choose|j: int| 0 <= j < x.len() && x[j] == t;
            assert(xs[j - 1] == t);
        }
        assert(xs.to_set() =~= ys.to_set());
        lemma_ascending_unique(xs, ys);
        assert(x =~= seq![x[0]] + xs);
        assert(y =~= seq![y[0]] + ys);
    }
}

/// A text put between those that stand before it and those that it stands
/// before leaves an ascending sequence ascending, and adds itself to the
/// texts that the sequence holds.
proof fn lemma_insert_ascending(texts: Seq<Seq<char>>, at: int, text: Seq<char>)
    requires
        ascending(texts),
        0 <= at <= texts.len(),
        forall|i: int| 0 <= i < at ==> precedes(#[trigger] texts[i], text),
        forall|i: int| at <= i < texts.len() ==> precedes(text, #[trigger] texts[i]),
    ensures
        ascending(texts.insert(at, text)),
        texts.insert(at, text).to_set() == texts.to_set().insert(text),
{
    let longer = texts.insert(at, text);
    texts.insert_ensures(at, text);
    assert forall|i: int, j: int| 0 <= i < j < longer.len() implies precedes(
        longer[i],
        longer[j],
    ) by {
        if j < at {
            assert(precedes(texts[i], texts[j]));
        } else if j == at {
            assert(precedes(texts[i], text));
        } else if i < at {
            assert(precedes(texts[i], texts[j - 1]));
        } else if i == at {
            assert(precedes(text, texts[j - 1]));
        } else {
            assert(precedes(texts[i - 1], texts[j - 1]));
        }
    }
    assert forall|t: Seq<char>| longer.contains(t) <==> (texts.contains(t) || t == text) by {
        if longer.contains(t) {
            let i: int = choose|i: int| 0 <= i < longer.len() && longer[i] == t;
            if i < at {
                assert(texts[i] == t);
            } else if i > at {
                assert(texts[i - 1] == t);
            }
        }
        if texts.contains(t) {
            let i: int = choose|i: int| 0 <= i < texts.len() && texts[i] == t;
            if i < at {
                assert(longer[i] == t);
            } else {
                assert(longer[i + 1] == t);
            }
        }
        if t == text {
            assert(longer[at] == t);
        }
    }
    assert(longer.to_set() =~= texts.to_set().insert(text));
}

/// Whether `a` stands before `b`.
pub(crate) fn str_precedes(a: &str, b: &str) -> (before: bool)
    ensures
        before == precedes(a@, b@),
{
    let mut left = a.chars();
    let mut right = b.chars();
    loop
        invariant
            left.obeys_prophetic_iter_laws(),
            right.obeys_prophetic_iter_laws(),
            left.decrease() is Some,
            precedes(a@, b@) == precedes(left.remaining(), right.remaining()),
        decreases left.decrease()->0,
    {
        let y = match right.next() {
            Some(y) => y,
            None => { return false; },
        };
        let x = match left.next() {
            Some(x) => x,
            None => { return true; },
        };
        if x != y {
            return x < y;
        }
    }
}

/// The index at which `text` belongs among the ascending `texts`: behind
/// all that stand before it and in front of all that it stands before.
fn place_of(texts: &Vec<String>, text: &str) -> (at: usize)
    requires
        ascending(texts.deep_view()),
        !texts.deep_view().contains(text@),
    ensures
        at <= texts.len(),
        forall|i: int| 0 <= i < at ==> precedes(#[trigger] texts.deep_view()[i], text@),
        forall|i: int| at <= i < texts.len() ==> precedes(text@, #[trigger] texts.deep_view()[i]),
{
    let ghost held = texts.deep_view();
    let mut low: usize = 0;
    let mut high: usize = texts.len();
    while low < high
        invariant
            low <= high <= texts.len(),
            held == texts.deep_view(),
            ascending(held),
            !held.contains(text@),
            forall|i: int| 0 <= i < low ==> precedes(#[trigger] held[i], text@),
            forall|i: int| high <= i < held.len() ==> precedes(text@, #[trigger] held[i]),
        decreases high - low,
    {
        let middle: usize = low + (high - low) / 2;
        if str_precedes(texts[middle].as_str(), text) {
            assert forall|i: int| 0 <= i < middle + 1 implies precedes(#[trigger] held[i], text@) by {
                if i < middle {
                    assert(precedes(held[i], held[middle as int]));
                    lemma_precedes_transitive(held[i], held[middle as int], text@);
                }
            }
            low = middle + 1;
        } else {
            assert forall|i: int| middle <= i < held.len() implies precedes(
                text@,
                #[trigger] held[i],
            ) by {
                assert(held.contains(held[middle as int]));
                lemma_precedes_connected(held[middle as int], text@);
                if middle < i {
                    assert(precedes(held[middle as int], held[i]));
                    lemma_precedes_transitive(text@, held[middle as int], held[i]);
                }
            }
            high = middle;
        }
    }
    low
}

/// The texts of `texts` in ascending order.
pub(crate) fn sorted(texts: &Vec<String>) -> (out: Vec<String>)
    requires
        texts.deep_view().no_duplicates(),
    ensures
        ascending(out.deep_view()),
        out.deep_view().to_set() == texts.deep_view().to_set(),
{
    let ghost given = texts.deep_view();
    let mut out: Vec<String> = Vec::new();
    let mut k: usize = 0;
    assert(given.take(0).to_set() =~= out.deep_view().to_set());
    while k < texts.len()
        invariant
            k <= texts.len(),
            given == texts.deep_view(),
            given.no_duplicates(),
            ascending(out.deep_view()),
            out.deep_view().to_set() == given.take(k as int).to_set(),
        decreases texts.len() - k,
    {
        let text = texts[k].clone();
        let ghost before = out.deep_view();
        let ghost seen = given.take(k as int);
        assert(text@ == given[k as int]);
        assert(!before.contains(text@)) by {
            if before.contains(text@) {
                assert(seen.to_set().contains(text@));
                let j: int = choose|j: int| 0 <= j < seen.len() && seen[j] == text@;
                assert(given[j] == given[k as int]);
            }
        }
        let at: usize = place_of(&out, text.as_str());
        proof {
            lemma_insert_ascending(before, at as int, text@);
            assert(given.take(k + 1) =~= seen.push(text@));
            seen.lemma_push_to_set_commute(text@);
        }
        out.insert(at, text);
        assert(out.deep_view() =~= before.insert(at as int, text@));
        k += 1;
    }
    assert(given.take(k as int) =~= given);
    out
}

} // verus!
