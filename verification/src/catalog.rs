//! The package files of a cache, in the order in which retention reads them:
//! by package name, and under one name from the oldest version to the newest.

use crate::filename::{file_name_of, is_sidecar_name, package_file_of, parse_package_file};
use crate::package::{PackageFile, PackageFileView};
use crate::version::{
    accepts_all, follows, is_total_preorder, lemma_lexical_order_equal,
    lemma_lexical_order_reflexive, lemma_lexical_order_swapped, lemma_lexical_order_transitive,
    lexical_compare, lexical_order, Comparison, TextOrder,
};
use vstd::prelude::*;
use vstd::seq_lib::lemma_multiset_commutative;

verus! {

/// The order of two package files where `order` orders versions: by name, and
/// under one name by version. The path plays no part.
pub open spec fn file_order(order: TextOrder, a: PackageFileView, b: PackageFileView) -> Comparison {
    match lexical_order(a.identity.name, b.identity.name) {
        Comparison::Equal => order(a.identity.version, b.identity.version),
        outcome => outcome,
    }
}

/// Whether no file of `files` comes after a later one.
pub open spec fn is_sorted(order: TextOrder, files: Seq<PackageFileView>) -> bool {
    forall|i: int, j: int|
        0 <= i < j < files.len() ==> file_order(order, #[trigger] files[i], #[trigger] files[j])
            != Comparison::Greater
}

/// The files that are tied with `key`: of its name, and of a version that
/// compares equal to its version.
pub open spec fn tied_with(order: TextOrder, key: PackageFileView) -> spec_fn(
    PackageFileView,
) -> bool {
    |file: PackageFileView| file_order(order, key, file) == Comparison::Equal
}

/// Whether `after` holds the files that are tied with one another in the order
/// in which `before` holds them.
pub open spec fn keeps_ties_in_order(
    order: TextOrder,
    before: Seq<PackageFileView>,
    after: Seq<PackageFileView>,
) -> bool {
    forall|key: PackageFileView| #[trigger]
        after.filter(tied_with(order, key)) == before.filter(tied_with(order, key))
}

/// Whether `after` is `before` sorted, with ties left in their order.
pub open spec fn is_stable_sort_of(
    order: TextOrder,
    after: Seq<PackageFileView>,
    before: Seq<PackageFileView>,
) -> bool {
    &&& is_sorted(order, after)
    &&& keeps_ties_in_order(order, before, after)
}

/// `package_file_of` as a function value.
pub open spec fn reads_package_file() -> spec_fn(Seq<char>) -> Option<PackageFileView> {
    |path: Seq<char>| package_file_of(path)
}

/// The package files among `paths`, in the order of the paths.
pub open spec fn package_files_of(paths: Seq<Seq<char>>) -> Seq<PackageFileView> {
    paths.filter_map(reads_package_file())
}

/// A file is tied with itself.
pub proof fn lemma_file_order_reflexive(order: TextOrder, a: PackageFileView)
    requires
        is_total_preorder(order),
    ensures
        file_order(order, a, a) == Comparison::Equal,
{
    lemma_lexical_order_reflexive(a.identity.name);
}

/// Swapping two files swaps less and greater.
pub proof fn lemma_file_order_swapped(order: TextOrder, a: PackageFileView, b: PackageFileView)
    requires
        is_total_preorder(order),
    ensures
        (file_order(order, a, b) == Comparison::Less) == (file_order(order, b, a)
            == Comparison::Greater),
        (file_order(order, a, b) == Comparison::Equal) == (file_order(order, b, a)
            == Comparison::Equal),
{
    lemma_lexical_order_swapped(a.identity.name, b.identity.name);
    let forth = order(a.identity.version, b.identity.version);
    let back = order(b.identity.version, a.identity.version);
    assert((forth == Comparison::Less) == (back == Comparison::Greater));
    assert((back == Comparison::Less) == (forth == Comparison::Greater));
}

/// A file that is not after a second, which is not after a third, is not after
/// the third. It is tied with the third only where all three are tied, and
/// before it where one of the two steps goes up.
pub proof fn lemma_file_order_transitive(
    order: TextOrder,
    a: PackageFileView,
    b: PackageFileView,
    c: PackageFileView,
)
    requires
        is_total_preorder(order),
        file_order(order, a, b) != Comparison::Greater,
        file_order(order, b, c) != Comparison::Greater,
    ensures
        file_order(order, a, c) != Comparison::Greater,
        file_order(order, a, c) == Comparison::Equal ==> file_order(order, a, b)
            == Comparison::Equal && file_order(order, b, c) == Comparison::Equal,
        file_order(order, a, b) == Comparison::Less || file_order(order, b, c) == Comparison::Less
            ==> file_order(order, a, c) == Comparison::Less,
{
    let (x, y, z) = (a.identity.name, b.identity.name, c.identity.name);
    lemma_lexical_order_transitive(x, y, z);
    if lexical_order(x, z) == Comparison::Equal {
        // the name in the middle lies between two equal names: it is that name
        lemma_lexical_order_equal(x, z);
        lemma_lexical_order_swapped(x, y);
        lemma_lexical_order_equal(x, y);
        let (u, v, w) = (a.identity.version, b.identity.version, c.identity.version);
        assert(order(u, v) != Comparison::Greater);
        assert(order(v, w) != Comparison::Greater);
        assert(order(u, w) != Comparison::Greater);
        if order(u, w) == Comparison::Equal {
            assert((order(w, u) == Comparison::Less) == (order(u, w) == Comparison::Greater));
            assert((order(u, w) == Comparison::Less) == (order(w, u) == Comparison::Greater));
            assert((order(u, v) == Comparison::Less) == (order(v, u) == Comparison::Greater));
            assert((order(v, w) == Comparison::Less) == (order(w, v) == Comparison::Greater));
            if order(u, v) == Comparison::Less {
                // then v <= w <= u, though u < v
                assert(order(v, w) != Comparison::Greater && order(w, u) != Comparison::Greater);
                assert(order(v, u) != Comparison::Greater);
            }
            if order(v, w) == Comparison::Less {
                // then w <= u <= v, though v < w
                assert(order(w, u) != Comparison::Greater && order(u, v) != Comparison::Greater);
                assert(order(w, v) != Comparison::Greater);
            }
        }
    }
}

/// A file that goes in before the files that are after it, and behind all
/// others, leaves sorted files sorted and ties in their order.
pub proof fn lemma_insert_is_stable(
    order: TextOrder,
    sorted: Seq<PackageFileView>,
    file: PackageFileView,
    at: int,
)
    requires
        is_total_preorder(order),
        is_sorted(order, sorted),
        0 <= at <= sorted.len(),
        forall|j: int|
            at <= j < sorted.len() ==> file_order(order, file, #[trigger] sorted[j])
                == Comparison::Less,
        at > 0 ==> file_order(order, file, sorted[at - 1]) != Comparison::Less,
    ensures
        is_stable_sort_of(order, sorted.insert(at, file), sorted.push(file)),
{
    let after = sorted.insert(at, file);
    assert forall|i: int, j: int| 0 <= i < j < after.len() implies file_order(
        order,
        #[trigger] after[i],
        #[trigger] after[j],
    ) != Comparison::Greater by {
        if j < at {
            assert(after[i] == sorted[i] && after[j] == sorted[j]);
        } else if j == at {
            let last = sorted[at - 1];
            lemma_file_order_swapped(order, file, last);
            if i < at - 1 {
                assert(file_order(order, sorted[i], last) != Comparison::Greater);
            } else {
                lemma_file_order_reflexive(order, last);
            }
            lemma_file_order_transitive(order, sorted[i], last, file);
        } else if i < at {
            assert(after[i] == sorted[i] && after[j] == sorted[j - 1]);
        } else if i == at {
            assert(after[j] == sorted[j - 1]);
        } else {
            assert(after[i] == sorted[i - 1] && after[j] == sorted[j - 1]);
        }
    }
    let head = sorted.take(at);
    let tail = sorted.skip(at);
    let one = seq![file];
    assert(after =~= (head + one) + tail);
    assert(sorted.push(file) =~= (head + tail) + one);
    assert forall|key: PackageFileView| #[trigger]
        after.filter(tied_with(order, key)) == sorted.push(file).filter(
            tied_with(order, key),
        ) by {
        let tied = tied_with(order, key);
        Seq::filter_distributes_over_add(head + one, tail, tied);
        Seq::filter_distributes_over_add(head, one, tied);
        Seq::filter_distributes_over_add(head + tail, one, tied);
        Seq::filter_distributes_over_add(head, tail, tied);
        if tied(file) {
            let kept = tail.filter(tied);
            if kept.len() > 0 {
                // a file behind the new one cannot be tied with what the new one is tied with
                let later = kept[0];
                tail.lemma_filter_pred(tied, 0);
                assert(kept.contains(later));
                tail.lemma_filter_contains_rev(tied, later);
                let j = tail.index_of(later);
                assert(tail[j] == sorted[at + j]);
                assert(file_order(order, file, later) == Comparison::Less);
                lemma_file_order_swapped(order, key, later);
                lemma_file_order_transitive(order, later, key, file);
                lemma_file_order_swapped(order, file, later);
            }
            assert(kept =~= Seq::<PackageFileView>::empty());
            assert(after.filter(tied) =~= sorted.push(file).filter(tied));
        } else {
            assert(one.filter(tied) =~= Seq::<PackageFileView>::empty()) by {
                reveal_with_fuel(Seq::filter, 2);
            }
            assert(after.filter(tied) =~= sorted.push(file).filter(tied));
        }
    }
}

/// The files that are tied with `key`, in a sequence that starts with one of
/// them, start with that file.
proof fn lemma_ties_of_first(order: TextOrder, files: Seq<PackageFileView>, key: PackageFileView)
    requires
        files.len() > 0,
    ensures
        files.filter(tied_with(order, key)) == (if file_order(order, key, files[0])
            == Comparison::Equal {
            seq![files[0]]
        } else {
            Seq::empty()
        }) + files.drop_first().filter(tied_with(order, key)),
{
    assert(files =~= seq![files[0]] + files.drop_first());
    files.drop_first().lemma_filter_prepend(files[0], tied_with(order, key));
}

/// Sorting with ties left in their order has one result: two sequences that
/// hold the same files, are both sorted and both keep the ties of a third in
/// its order are the same sequence.
pub proof fn lemma_stable_sort_is_unique(
    order: TextOrder,
    before: Seq<PackageFileView>,
    one: Seq<PackageFileView>,
    other: Seq<PackageFileView>,
)
    requires
        is_total_preorder(order),
        is_stable_sort_of(order, one, before),
        is_stable_sort_of(order, other, before),
        one.to_multiset() == other.to_multiset(),
    ensures
        one == other,
    decreases one.len(),
{
    one.to_multiset_ensures();
    other.to_multiset_ensures();
    if one.len() == 0 {
        assert(one =~= other);
    } else {
        let a = one[0];
        let b = other[0];
        // each sequence starts with a file that none of the other comes before
        assert(other.len() == one.len());
        assert(one.contains(a) && other.contains(b));
        assert(one.to_multiset().count(a) > 0 && other.to_multiset().count(b) > 0);
        assert(other.to_multiset().count(a) > 0 && one.to_multiset().count(b) > 0);
        assert(other.contains(a) && one.contains(b));
        let i = other.index_of(a);
        let j = one.index_of(b);
        lemma_file_order_reflexive(order, a);
        lemma_file_order_reflexive(order, b);
        assert(file_order(order, b, a) != Comparison::Greater) by {
            if i > 0 {
                assert(file_order(order, other[0], other[i]) != Comparison::Greater);
            }
        }
        assert(file_order(order, a, b) != Comparison::Greater) by {
            if j > 0 {
                assert(file_order(order, one[0], one[j]) != Comparison::Greater);
            }
        }
        lemma_file_order_swapped(order, a, b);
        assert(file_order(order, a, b) == Comparison::Equal);
        // so both are the first of the files tied with them
        lemma_ties_of_first(order, one, a);
        lemma_ties_of_first(order, other, a);
        assert(one.filter(tied_with(order, a)) == before.filter(tied_with(order, a)));
        assert(other.filter(tied_with(order, a)) == before.filter(tied_with(order, a)));
        assert(one.filter(tied_with(order, a))[0] == a);
        assert(other.filter(tied_with(order, a))[0] == b);
        assert(a == b);
        let one_rest = one.drop_first();
        let other_rest = other.drop_first();
        assert(one_rest =~= one.remove(0));
        assert(other_rest =~= other.remove(0));
        assert(one_rest.to_multiset() =~= other_rest.to_multiset());
        assert(is_sorted(order, one_rest)) by {
            assert forall|x: int, y: int| 0 <= x < y < one_rest.len() implies file_order(
                order,
                #[trigger] one_rest[x],
                #[trigger] one_rest[y],
            ) != Comparison::Greater by {
                assert(one_rest[x] == one[x + 1] && one_rest[y] == one[y + 1]);
            }
        }
        assert(is_sorted(order, other_rest)) by {
            assert forall|x: int, y: int| 0 <= x < y < other_rest.len() implies file_order(
                order,
                #[trigger] other_rest[x],
                #[trigger] other_rest[y],
            ) != Comparison::Greater by {
                assert(other_rest[x] == other[x + 1] && other_rest[y] == other[y + 1]);
            }
        }
        assert forall|key: PackageFileView| #[trigger]
            other_rest.filter(tied_with(order, key)) == one_rest.filter(
                tied_with(order, key),
            ) by {
            let tied = tied_with(order, key);
            lemma_ties_of_first(order, one, key);
            lemma_ties_of_first(order, other, key);
            assert(one.filter(tied) == before.filter(tied));
            assert(other.filter(tied) == before.filter(tied));
            if file_order(order, key, a) == Comparison::Equal {
                assert((seq![a] + one_rest.filter(tied)).drop_first() =~= one_rest.filter(tied));
                assert((seq![a] + other_rest.filter(tied)).drop_first() =~= other_rest.filter(
                    tied,
                ));
            } else {
                assert(Seq::<PackageFileView>::empty() + one_rest.filter(tied)
                    =~= one_rest.filter(tied));
                assert(Seq::<PackageFileView>::empty() + other_rest.filter(tied)
                    =~= other_rest.filter(tied));
            }
        }
        lemma_stable_sort_is_unique(order, one_rest, one_rest, other_rest);
        assert(one =~= seq![a] + one_rest);
        assert(other =~= seq![b] + other_rest);
    }
}

/// Compares two package files: by name, and under one name by version, which
/// `compare` orders.
pub fn compare_files<F: Fn(&str, &str) -> Comparison>(
    a: &PackageFile,
    b: &PackageFile,
    compare: &F,
) -> (outcome: Comparison)
    requires
        accepts_all(*compare),
    ensures
        lexical_order(a@.identity.name, b@.identity.name) != Comparison::Equal ==> outcome
            == lexical_order(a@.identity.name, b@.identity.name),
        lexical_order(a@.identity.name, b@.identity.name) == Comparison::Equal ==> exists|
            left: &str,
            right: &str,
        |
            left@ == a@.identity.version && right@ == b@.identity.version && #[trigger] call_ensures(
                *compare,
                (left, right),
                outcome,
            ),
        forall|order: TextOrder| #[trigger]
            follows(*compare, order) ==> outcome == file_order(order, a@, b@),
{
    match lexical_compare(a.identity.name.as_str(), b.identity.name.as_str()) {
        Comparison::Equal => {
            let left = a.identity.version.as_str();
            let right = b.identity.version.as_str();
            let outcome = compare(left, right);
            proof {
                assert(left@ == a@.identity.version && right@ == b@.identity.version
                    && call_ensures(*compare, (left, right), outcome));
            }
            outcome
        },
        outcome => outcome,
    }
}

/// Whether `file` comes before each of `files` from the index `from` on.
spec fn is_before_all_from(
    order: TextOrder,
    file: PackageFileView,
    files: Seq<PackageFileView>,
    from: int,
) -> bool {
    forall|j: int|
        from <= j < files.len() ==> file_order(order, file, #[trigger] files[j])
            == Comparison::Less
}

/// Whether `file` comes before none of `files` below the index `until`.
spec fn is_before_none_until(
    order: TextOrder,
    file: PackageFileView,
    files: Seq<PackageFileView>,
    until: int,
) -> bool {
    forall|j: int|
        0 <= j < until ==> file_order(order, file, #[trigger] files[j]) != Comparison::Less
}

/// A file that comes before one of sorted files comes before all behind that one.
proof fn lemma_before_all_from(
    order: TextOrder,
    file: PackageFileView,
    sorted: Seq<PackageFileView>,
    at: int,
)
    requires
        is_total_preorder(order),
        is_sorted(order, sorted),
        0 <= at < sorted.len(),
        file_order(order, file, sorted[at]) == Comparison::Less,
    ensures
        is_before_all_from(order, file, sorted, at),
{
    assert forall|j: int| at <= j < sorted.len() implies file_order(
        order,
        file,
        #[trigger] sorted[j],
    ) == Comparison::Less by {
        if j > at {
            assert(file_order(order, sorted[at], sorted[j]) != Comparison::Greater);
            lemma_file_order_transitive(order, file, sorted[at], sorted[j]);
        }
    }
}

/// A file that does not come before one of sorted files comes before none in
/// front of that one.
proof fn lemma_before_none_until(
    order: TextOrder,
    file: PackageFileView,
    sorted: Seq<PackageFileView>,
    at: int,
)
    requires
        is_total_preorder(order),
        is_sorted(order, sorted),
        0 <= at < sorted.len(),
        file_order(order, file, sorted[at]) != Comparison::Less,
    ensures
        is_before_none_until(order, file, sorted, at + 1),
{
    lemma_file_order_swapped(order, file, sorted[at]);
    assert forall|j: int| 0 <= j < at + 1 implies file_order(order, file, #[trigger] sorted[j])
        != Comparison::Less by {
        if j < at {
            assert(file_order(order, sorted[j], sorted[at]) != Comparison::Greater);
            lemma_file_order_transitive(order, sorted[j], sorted[at], file);
            lemma_file_order_swapped(order, file, sorted[j]);
        }
    }
}

fn insert_in_order<F: Fn(&str, &str) -> Comparison>(
    files: &mut Vec<PackageFile>,
    file: PackageFile,
    compare: &F,
)
    requires
        accepts_all(*compare),
    ensures
        final(files).deep_view().to_multiset() == old(files).deep_view().to_multiset().insert(
            file@,
        ),
        forall|order: TextOrder| #[trigger]
            follows(*compare, order) && is_total_preorder(order) && is_sorted(
                order,
                old(files).deep_view(),
            ) ==> is_stable_sort_of(
                order,
                final(files).deep_view(),
                old(files).deep_view().push(file@),
            ),
{
    let ghost before = files.deep_view();
    let ghost added = file@;
    let mut low: usize = 0;
    let mut high: usize = files.len();
    while low < high
        invariant
            accepts_all(*compare),
            low <= high <= files.len(),
            files.deep_view() == before,
            added == file@,
            forall|order: TextOrder| #[trigger]
                follows(*compare, order) && is_total_preorder(order) && is_sorted(order, before)
                    ==> is_before_none_until(order, added, before, low as int)
                    && is_before_all_from(order, added, before, high as int),
        decreases high - low,
    {
        let middle = low + (high - low) / 2;
        let outcome = compare_files(&file, &files[middle], compare);
        if outcome == Comparison::Less {
            proof {
                assert forall|order: TextOrder| #[trigger]
                    follows(*compare, order) && is_total_preorder(order) && is_sorted(
                        order,
                        before,
                    ) implies is_before_all_from(order, added, before, middle as int) by {
                    lemma_before_all_from(order, added, before, middle as int);
                }
            }
            high = middle;
        } else {
            proof {
                assert forall|order: TextOrder| #[trigger]
                    follows(*compare, order) && is_total_preorder(order) && is_sorted(
                        order,
                        before,
                    ) implies is_before_none_until(order, added, before, middle + 1) by {
                    lemma_before_none_until(order, added, before, middle as int);
                }
            }
            low = middle + 1;
        }
    }
    files.insert(low, file);
    proof {
        let after = files.deep_view();
        assert(after =~= before.insert(low as int, added));
        assert(after.to_multiset() =~= before.to_multiset().insert(added)) by {
            let head = before.take(low as int);
            let tail = before.skip(low as int);
            assert(after =~= head.push(added) + tail);
            assert(before =~= head + tail);
            lemma_multiset_commutative(head.push(added), tail);
            lemma_multiset_commutative(head, tail);
            head.to_multiset_ensures();
        }
        assert forall|order: TextOrder| #[trigger]
            follows(*compare, order) && is_total_preorder(order) && is_sorted(
                order,
                before,
            ) implies is_stable_sort_of(order, after, before.push(added)) by {
            assert(is_before_all_from(order, added, before, low as int));
            assert(is_before_none_until(order, added, before, low as int));
            lemma_insert_is_stable(order, before, added, low as int);
        }
    }
}

fn reversed(files: Vec<PackageFile>) -> (turned: Vec<PackageFile>)
    ensures
        turned@ == files@.reverse(),
{
    let ghost given = files@;
    let mut rest = files;
    let mut turned: Vec<PackageFile> = Vec::new();
    while rest.len() > 0
        invariant
            rest.len() <= given.len(),
            rest@ == given.take(rest.len() as int),
            turned@ == given.skip(rest.len() as int).reverse(),
        decreases rest.len(),
    {
        let file = rest.pop().unwrap();
        turned.push(file);
        proof {
            let n = rest.len() as int;
            assert(rest@ =~= given.take(n));
            assert(turned@ =~= given.skip(n).reverse());
        }
    }
    proof {
        assert(given.skip(0) =~= given);
    }
    turned
}

/// Sorts package files by name, and under one name from the oldest version to
/// the newest, where `compare` orders versions. Files that are tied stay in
/// the order in which they came.
///
/// Whatever `compare` answers, the result holds the files that came, each as
/// often as it came. Where the answers of `compare` are those of an order, the
/// result is sorted under that order, which with the ties left in place leaves
/// one result only (`lemma_stable_sort_is_unique`).
///
/// Each file is placed by binary search among those already sorted, so a run
/// asks `compare` about `n log n` pairs at most.
pub fn sort_files<F: Fn(&str, &str) -> Comparison>(files: Vec<PackageFile>, compare: &F) -> (sorted:
    Vec<PackageFile>)
    requires
        accepts_all(*compare),
    ensures
        sorted.deep_view().to_multiset() == files.deep_view().to_multiset(),
        forall|order: TextOrder| #[trigger]
            follows(*compare, order) && is_total_preorder(order) ==> is_stable_sort_of(
                order,
                sorted.deep_view(),
                files.deep_view(),
            ),
{
    let ghost given = files.deep_view();
    let mut sorted: Vec<PackageFile> = Vec::new();
    let mut rest = reversed(files);
    proof {
        assert(rest.deep_view() =~= given.skip(0).reverse());
    }
    let ghost mut taken: int = 0;
    proof {
        assert(sorted.deep_view() =~= given.take(0));
        assert forall|order: TextOrder| #[trigger]
            follows(*compare, order) && is_total_preorder(order) implies is_stable_sort_of(
            order,
            sorted.deep_view(),
            given.take(0),
        ) by {}
    }
    while rest.len() > 0
        invariant
            accepts_all(*compare),
            0 <= taken <= given.len(),
            rest.len() == given.len() - taken,
            rest.deep_view() == given.skip(taken).reverse(),
            sorted.deep_view().to_multiset() == given.take(taken).to_multiset(),
            forall|order: TextOrder| #[trigger]
                follows(*compare, order) && is_total_preorder(order) ==> is_stable_sort_of(
                    order,
                    sorted.deep_view(),
                    given.take(taken),
                ),
        decreases rest.len(),
    {
        let ghost so_far = sorted.deep_view();
        let ghost waiting = rest.deep_view();
        let file = rest.pop().unwrap();
        proof {
            let left = given.skip(taken);
            assert(file@ == waiting[waiting.len() - 1]);
            assert(waiting[waiting.len() - 1] == left[0]);
            assert(file@ == given[taken]);
            assert(given.take(taken + 1) =~= given.take(taken).push(file@));
            let turned = given.skip(taken + 1).reverse();
            assert(rest.deep_view().len() == turned.len());
            assert forall|i: int| 0 <= i < turned.len() implies rest.deep_view()[i]
                == turned[i] by {
                assert(rest.deep_view()[i] == waiting[i]);
                assert(waiting[i] == left[left.len() - 1 - i]);
            }
            assert(rest.deep_view() =~= turned);
            given.take(taken).to_multiset_ensures();
        }
        insert_in_order(&mut sorted, file, compare);
        proof {
            assert forall|order: TextOrder| #[trigger]
                follows(*compare, order) && is_total_preorder(order) implies is_stable_sort_of(
                order,
                sorted.deep_view(),
                given.take(taken + 1),
            ) by {
                let next = given[taken];
                assert(is_stable_sort_of(order, sorted.deep_view(), so_far.push(next)));
                assert forall|key: PackageFileView| #[trigger]
                    sorted.deep_view().filter(tied_with(order, key)) == given.take(
                        taken + 1,
                    ).filter(tied_with(order, key)) by {
                    let tied = tied_with(order, key);
                    assert(so_far.filter(tied) == given.take(taken).filter(tied));
                    assert(so_far.push(next) =~= so_far + seq![next]);
                    assert(given.take(taken).push(next) =~= given.take(taken) + seq![next]);
                    Seq::filter_distributes_over_add(so_far, seq![next], tied);
                    Seq::filter_distributes_over_add(given.take(taken), seq![next], tied);
                }
            }
            taken = taken + 1;
        }
    }
    proof {
        assert(given.take(taken) =~= given);
    }
    sorted
}

fn collect_package_files(paths: &Vec<String>) -> (files: Vec<PackageFile>)
    ensures
        files.deep_view() == package_files_of(paths.deep_view()),
{
    let ghost given = paths.deep_view();
    let mut files: Vec<PackageFile> = Vec::new();
    let mut i: usize = 0;
    proof {
        assert(files.deep_view() =~= given.take(0).filter_map(reads_package_file()));
    }
    while i < paths.len()
        invariant
            i <= paths.len(),
            given == paths.deep_view(),
            files.deep_view() == given.take(i as int).filter_map(reads_package_file()),
        decreases paths.len() - i,
    {
        let ghost so_far = files.deep_view();
        proof {
            given.lemma_filter_map_take_succ(reads_package_file(), i as int);
        }
        match parse_package_file(paths[i].as_str()) {
            Some(file) => {
                files.push(file);
                proof {
                    assert(files.deep_view() =~= so_far + seq![file@]);
                }
            },
            None => {},
        }
        i = i + 1;
    }
    proof {
        assert(given.take(i as int) =~= given);
    }
    files
}

/// Every file that is listed was read from its own path.
pub proof fn lemma_listed_files_are_packages(paths: Seq<Seq<char>>, file: PackageFileView)
    requires
        package_files_of(paths).contains(file),
    ensures
        paths.contains(file.path),
        package_file_of(file.path) == Some(file),
{
    paths.lemma_filter_map_contains(reads_package_file(), file);
    let path = choose|path: Seq<char>| #[trigger]
        paths.contains(path) && reads_package_file()(path) == Some(file);
    assert(package_file_of(path) == Some(file));
}

/// Lists the package files that lie at `paths`, sorted by name and under one
/// name from the oldest version to the newest, where `compare` orders versions.
///
/// A path is passed over where its last component is a sidecar or does not
/// follow the naming convention. Files that are tied stay in the order of
/// their paths.
pub fn pkg_files<F: Fn(&str, &str) -> Comparison>(paths: &Vec<String>, compare: &F) -> (files: Vec<
    PackageFile,
>)
    requires
        accepts_all(*compare),
    ensures
        files.deep_view().to_multiset() == package_files_of(paths.deep_view()).to_multiset(),
        forall|i: int|
            0 <= i < files.len() ==> package_file_of(#[trigger] files.deep_view()[i].path) == Some(
                files.deep_view()[i],
            ),
        forall|i: int|
            0 <= i < files.len() ==> !is_sidecar_name(
                file_name_of(#[trigger] files.deep_view()[i].path),
            ),
        forall|order: TextOrder| #[trigger]
            follows(*compare, order) && is_total_preorder(order) ==> is_stable_sort_of(
                order,
                files.deep_view(),
                package_files_of(paths.deep_view()),
            ),
{
    let found = collect_package_files(paths);
    let files = sort_files(found, compare);
    proof {
        let listed = package_files_of(paths.deep_view());
        assert forall|i: int| 0 <= i < files.len() implies package_file_of(
            #[trigger] files.deep_view()[i].path,
        ) == Some(files.deep_view()[i]) by {
            let file = files.deep_view()[i];
            files.deep_view().to_multiset_ensures();
            listed.to_multiset_ensures();
            assert(files.deep_view().contains(file));
            assert(files.deep_view().to_multiset().count(file) > 0);
            assert(listed.to_multiset().count(file) > 0);
            assert(listed.contains(file));
            lemma_listed_files_are_packages(paths.deep_view(), file);
        }
    }
    files
}

} // verus!
