//! Three-way comparison: its outcomes, the comparators that are handed in to
//! order versions, and the order of package names.

use vstd::prelude::*;
use vstd::std_specs::iter::IteratorSpec;

verus! {

/// Outcome of a three-way comparison.
#[derive(Clone, Copy, Debug, PartialEq, Eq, Structural)]
pub enum Comparison {
    Less,
    Equal,
    Greater,
}

impl Comparison {
    /// The outcome that a comparison primitive reports with the code `code`.
    pub open spec fn of_code(code: int) -> Option<Comparison> {
        if code == -1 {
            Some(Comparison::Less)
        } else if code == 0 {
            Some(Comparison::Equal)
        } else if code == 1 {
            Some(Comparison::Greater)
        } else {
            None
        }
    }

    /// Decodes the result of a native comparison primitive: `-1`, `0` and `1` stand
    /// for less, equal and greater; no other code is a comparison.
    pub fn from_code(code: i32) -> (decoded: Option<Comparison>)
        ensures
            decoded == Comparison::of_code(code as int),
    {
        if code == -1 {
            Some(Comparison::Less)
        } else if code == 0 {
            Some(Comparison::Equal)
        } else if code == 1 {
            Some(Comparison::Greater)
        } else {
            None
        }
    }
}

/// An order on texts, as a function from a pair of them to an outcome.
pub type TextOrder = spec_fn(Seq<char>, Seq<char>) -> Comparison;

/// Whether `order` is reflexive, gives opposite outcomes for swapped arguments and
/// is transitive, so that it ranks texts in a line in which ties are allowed.
pub open spec fn is_total_preorder(order: TextOrder) -> bool {
    &&& forall|a: Seq<char>| #[trigger] order(a, a) == Comparison::Equal
    &&& forall|a: Seq<char>, b: Seq<char>|
        (#[trigger] order(a, b) == Comparison::Less) == (order(b, a) == Comparison::Greater)
    &&& forall|a: Seq<char>, b: Seq<char>, c: Seq<char>|
        #[trigger] order(a, b) != Comparison::Greater && #[trigger] order(b, c)
            != Comparison::Greater ==> order(a, c) != Comparison::Greater
}

/// Whether the comparator `compare` may be asked about every pair of texts.
pub open spec fn accepts_all<F: Fn(&str, &str) -> Comparison>(compare: F) -> bool {
    forall|a: &str, b: &str| #[trigger] call_requires(compare, (a, b))
}

/// Whether the comparator `compare` follows `order`: every answer it gives for
/// two texts is the outcome that `order` assigns to them.
///
/// A comparator is handed in as a function or closure, and nothing is known of
/// it but its answers. What is promised of sorted files is promised for every
/// order that the comparator follows.
pub open spec fn follows<F: Fn(&str, &str) -> Comparison>(compare: F, order: TextOrder) -> bool {
    forall|a: &str, b: &str, outcome: Comparison| #[trigger]
        call_ensures(compare, (a, b), outcome) ==> outcome == order(a@, b@)
}

/// The order of two characters by code point.
pub open spec fn char_order(a: char, b: char) -> Comparison {
    if a < b {
        Comparison::Less
    } else if a == b {
        Comparison::Equal
    } else {
        Comparison::Greater
    }
}

/// Lexicographic order by code point: the order of the first characters that
/// differ, and a proper prefix before the longer text.
pub open spec fn lexical_order(a: Seq<char>, b: Seq<char>) -> Comparison
    decreases a.len(),
{
    if a.len() == 0 {
        if b.len() == 0 {
            Comparison::Equal
        } else {
            Comparison::Less
        }
    } else if b.len() == 0 {
        Comparison::Greater
    } else if a[0] != b[0] {
        char_order(a[0], b[0])
    } else {
        lexical_order(a.drop_first(), b.drop_first())
    }
}

/// Compares two texts lexicographically by code point.
pub fn lexical_compare(a: &str, b: &str) -> (outcome: Comparison)
    ensures
        outcome == lexical_order(a@, b@),
{
    let mut left = a.chars();
    let mut right = b.chars();
    loop
        invariant
            left.obeys_prophetic_iter_laws(),
            right.obeys_prophetic_iter_laws(),
            left.decrease() is Some,
            lexical_order(a@, b@) == lexical_order(left.remaining(), right.remaining()),
        decreases left.decrease()->0,
    {
        let x = left.next();
        let y = right.next();
        match (x, y) {
            (None, None) => {
                return Comparison::Equal;
            },
            (None, Some(_)) => {
                return Comparison::Less;
            },
            (Some(_), None) => {
                return Comparison::Greater;
            },
            (Some(c), Some(d)) => {
                if c < d {
                    return Comparison::Less;
                } else if c > d {
                    return Comparison::Greater;
                }
            },
        }
    }
}

/// A text is tied with itself.
pub proof fn lemma_lexical_order_reflexive(a: Seq<char>)
    ensures
        lexical_order(a, a) == Comparison::Equal,
    decreases a.len(),
{
    if a.len() > 0 {
        lemma_lexical_order_reflexive(a.drop_first());
    }
}

/// Only a text itself is tied with it.
pub proof fn lemma_lexical_order_equal(a: Seq<char>, b: Seq<char>)
    ensures
        lexical_order(a, b) == Comparison::Equal <==> a == b,
    decreases a.len(),
{
    if a == b {
        lemma_lexical_order_reflexive(a);
    }
    if a.len() == 0 && b.len() == 0 {
        assert(a =~= b);
    }
    if a.len() > 0 && b.len() > 0 && a[0] == b[0] {
        lemma_lexical_order_equal(a.drop_first(), b.drop_first());
        if a.drop_first() == b.drop_first() {
            assert(a =~= seq![a[0]] + a.drop_first());
            assert(b =~= seq![b[0]] + b.drop_first());
        }
    }
}

/// Swapping the two texts swaps less and greater.
pub proof fn lemma_lexical_order_swapped(a: Seq<char>, b: Seq<char>)
    ensures
        (lexical_order(a, b) == Comparison::Less) == (lexical_order(b, a) == Comparison::Greater),
        (lexical_order(a, b) == Comparison::Equal) == (lexical_order(b, a) == Comparison::Equal),
    decreases a.len(),
{
    if a.len() > 0 && b.len() > 0 && a[0] == b[0] {
        lemma_lexical_order_swapped(a.drop_first(), b.drop_first());
    }
}

/// What is not after a text that is not after a third is not after the third.
pub proof fn lemma_lexical_order_transitive(a: Seq<char>, b: Seq<char>, c: Seq<char>)
    requires
        lexical_order(a, b) != Comparison::Greater,
        lexical_order(b, c) != Comparison::Greater,
    ensures
        lexical_order(a, c) != Comparison::Greater,
    decreases a.len(),
{
    if a.len() > 0 && b.len() > 0 && c.len() > 0 && a[0] == b[0] && b[0] == c[0] {
        lemma_lexical_order_transitive(a.drop_first(), b.drop_first(), c.drop_first());
    }
}

/// What is before a text that is not after a third is before the third.
pub proof fn lemma_lexical_order_strict(a: Seq<char>, b: Seq<char>, c: Seq<char>)
    requires
        lexical_order(a, b) == Comparison::Less,
        lexical_order(b, c) != Comparison::Greater,
    ensures
        lexical_order(a, c) == Comparison::Less,
{
    lemma_lexical_order_transitive(a, b, c);
    if lexical_order(a, c) == Comparison::Equal {
        lemma_lexical_order_equal(a, c);
        lemma_lexical_order_swapped(a, b);
    }
}

/// The lexicographic order ranks all texts in a line.
pub proof fn lemma_lexical_order_is_total_preorder()
    ensures
        is_total_preorder(|a: Seq<char>, b: Seq<char>| lexical_order(a, b)),
{
    let order = |a: Seq<char>, b: Seq<char>| lexical_order(a, b);
    assert forall|a: Seq<char>| #[trigger] order(a, a) == Comparison::Equal by {
        lemma_lexical_order_reflexive(a);
    }
    assert forall|a: Seq<char>, b: Seq<char>|
        (#[trigger] order(a, b) == Comparison::Less) == (order(b, a)
            == Comparison::Greater) by {
        lemma_lexical_order_swapped(a, b);
    }
    assert forall|a: Seq<char>, b: Seq<char>, c: Seq<char>|
        #[trigger] order(a, b) != Comparison::Greater && #[trigger] order(b, c)
            != Comparison::Greater implies order(a, c) != Comparison::Greater by {
        lemma_lexical_order_transitive(a, b, c);
    }
}

} // verus!
