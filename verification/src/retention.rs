//! Retention: which files of each package are superseded once the newest
//! versions are kept.

use crate::catalog::{file_order, is_sorted};
use crate::package::{PackageFile, PackageFileView};
use crate::version::{
    lemma_lexical_order_equal, lemma_lexical_order_strict, lexical_order, Comparison, TextOrder,
};
use vstd::math::{max, min};
use vstd::prelude::*;
use vstd::seq_lib::lemma_multiset_commutative;

verus! {

/// How many files at the start of `files` bear the name `name`.
pub open spec fn run_length(files: Seq<PackageFileView>, name: Seq<char>) -> nat
    decreases files.len(),
{
    if files.len() == 0 || files[0].identity.name != name {
        0
    } else {
        1 + run_length(files.drop_first(), name)
    }
}

/// The groups of `files`: the runs of neighbouring files that bear one name, in
/// the order of the files.
pub open spec fn groups_of(files: Seq<PackageFileView>) -> Seq<Seq<PackageFileView>>
    decreases files.len(),
    via groups_of_terminates
{
    if files.len() == 0 {
        Seq::empty()
    } else {
        let run = run_length(files, files[0].identity.name);
        seq![files.take(run as int)] + groups_of(files.skip(run as int))
    }
}

#[via_fn]
proof fn groups_of_terminates(files: Seq<PackageFileView>) {
    if files.len() > 0 {
        lemma_run_length(files, files[0].identity.name);
    }
}

/// The files of a group that stay, the newest first: the last `keep` of the
/// group, and all of a group that has no more.
pub open spec fn retained_of_group(group: Seq<PackageFileView>, keep: nat) -> Seq<
    PackageFileView,
> {
    group.reverse().take(min(keep as int, group.len() as int))
}

/// The deletion candidates of a group, the newest first: what is left of the
/// group, from the newest version to the oldest, behind its first `keep` files.
pub open spec fn candidates_of_group(group: Seq<PackageFileView>, keep: nat) -> Seq<
    PackageFileView,
> {
    group.reverse().skip(min(keep as int, group.len() as int))
}

/// `candidates_of_group` for a fixed `keep`, as a function value.
pub open spec fn selects_candidates(keep: nat) -> spec_fn(Seq<PackageFileView>) -> Seq<
    PackageFileView,
> {
    |group: Seq<PackageFileView>| candidates_of_group(group, keep)
}

/// The deletion candidates among `files`: those of each group, group after
/// group.
pub open spec fn candidates_of(files: Seq<PackageFileView>, keep: nat) -> Seq<PackageFileView> {
    groups_of(files).map_values(selects_candidates(keep)).flatten()
}

/// A run ends at the first file of another name.
pub proof fn lemma_run_length(files: Seq<PackageFileView>, name: Seq<char>)
    ensures
        run_length(files, name) <= files.len(),
        forall|i: int|
            0 <= i < run_length(files, name) ==> (#[trigger] files[i]).identity.name == name,
        run_length(files, name) < files.len() ==> files[run_length(files, name) as int].identity.name
            != name,
    decreases files.len(),
{
    if files.len() > 0 && files[0].identity.name == name {
        let rest = files.drop_first();
        lemma_run_length(rest, name);
        assert forall|i: int| 0 <= i < run_length(files, name) implies (
        #[trigger] files[i]).identity.name == name by {
            if i > 0 {
                assert(files[i] == rest[i - 1]);
            }
        }
        if run_length(files, name) < files.len() {
            assert(files[run_length(files, name) as int] == rest[run_length(rest, name) as int]);
        }
    }
}

/// Files that bear a name up to an index, where a file of another name or the
/// end follows, are a run of that length.
pub proof fn lemma_run_length_is(files: Seq<PackageFileView>, name: Seq<char>, n: int)
    requires
        0 <= n <= files.len(),
        forall|i: int| 0 <= i < n ==> (#[trigger] files[i]).identity.name == name,
        n < files.len() ==> files[n].identity.name != name,
    ensures
        run_length(files, name) == n,
{
    lemma_run_length(files, name);
    let run = run_length(files, name) as int;
    if run < n {
        assert(files[run].identity.name == name);
    }
    if run > n {
        assert(files[n].identity.name == name);
    }
}

/// Parts `files` into its groups: the runs of neighbouring files of one name.
///
/// Where the files are sorted, each package has one group, and the group holds
/// its files from the oldest version to the newest.
pub fn group_by_name(files: &Vec<PackageFile>) -> (groups: Vec<Vec<PackageFile>>)
    ensures
        groups.deep_view() == groups_of(files.deep_view()),
{
    let ghost views = files.deep_view();
    let mut groups: Vec<Vec<PackageFile>> = Vec::new();
    let mut start: usize = 0;
    proof {
        assert(views.skip(0) =~= views);
        assert(groups.deep_view() + groups_of(views.skip(0)) =~= groups_of(views));
    }
    while start < files.len()
        invariant
            start <= files.len(),
            views == files.deep_view(),
            groups.deep_view() + groups_of(views.skip(start as int)) == groups_of(views),
        decreases files.len() - start,
    {
        let ghost rest = views.skip(start as int);
        let ghost name = views[start as int].identity.name;
        let ghost done = groups.deep_view();
        let mut group: Vec<PackageFile> = Vec::new();
        group.push(files[start].clone());
        let mut end: usize = start + 1;
        proof {
            assert(group.deep_view() =~= views.subrange(start as int, end as int));
        }
        while end < files.len() && files[end].identity.name == files[start].identity.name
            invariant
                start < end <= files.len(),
                views == files.deep_view(),
                name == views[start as int].identity.name,
                group.deep_view() == views.subrange(start as int, end as int),
                forall|k: int| start <= k < end ==> (#[trigger] views[k]).identity.name == name,
            decreases files.len() - end,
        {
            let ghost so_far = group.deep_view();
            group.push(files[end].clone());
            end = end + 1;
            proof {
                assert(group.deep_view() =~= so_far.push(views[end - 1]));
                assert(group.deep_view() =~= views.subrange(start as int, end as int));
            }
        }
        proof {
            let run = end - start;
            assert forall|i: int| 0 <= i < run implies (#[trigger] rest[i]).identity.name
                == name by {
                assert(rest[i] == views[start + i]);
            }
            lemma_run_length_is(rest, name, run);
            assert(rest.take(run) =~= views.subrange(start as int, end as int));
            assert(rest.skip(run) =~= views.skip(end as int));
            assert(groups_of(rest) == seq![rest.take(run)] + groups_of(rest.skip(run)));
        }
        groups.push(group);
        proof {
            assert(groups.deep_view() =~= done + seq![views.subrange(start as int, end as int)]);
            assert(groups.deep_view() + groups_of(views.skip(end as int)) =~= done + groups_of(
                rest,
            ));
        }
        start = end;
    }
    proof {
        assert(groups.deep_view() + groups_of(views.skip(start as int)) =~= groups.deep_view());
    }
    groups
}

/// Selects the deletion candidates of one group: all of its files but the last
/// `keep`, from the newest to the oldest.
///
/// The group is read as sorted from the oldest version to the newest, so the
/// files that stay are its `keep` newest.
pub fn group_candidates(group: &Vec<PackageFile>, keep: usize) -> (candidates: Vec<PackageFile>)
    ensures
        candidates.deep_view() == candidates_of_group(group.deep_view(), keep as nat),
        candidates.len() == max(0, group.len() - keep),
        keep >= group.len() ==> candidates.len() == 0,
{
    let ghost views = group.deep_view();
    let total = group.len();
    let mut candidates: Vec<PackageFile> = Vec::new();
    if keep >= total {
        proof {
            assert(candidates.deep_view() =~= candidates_of_group(views, keep as nat));
        }
        return candidates;
    }
    let mut left: usize = total - keep;
    while left > 0
        invariant
            keep < total,
            total == group.len(),
            views == group.deep_view(),
            left <= total - keep,
            candidates.len() == total - keep - left,
            forall|k: int|
                0 <= k < candidates.len() ==> #[trigger] candidates.deep_view()[k] == views[total
                    - keep - 1 - k],
        decreases left,
    {
        left = left - 1;
        let ghost so_far = candidates.deep_view();
        candidates.push(group[left].clone());
        proof {
            assert forall|k: int| 0 <= k < candidates.len() implies #[trigger]
                candidates.deep_view()[k] == views[total - keep - 1 - k] by {
                if k < so_far.len() {
                    assert(candidates.deep_view()[k] == so_far[k]);
                }
            }
        }
    }
    proof {
        assert(candidates.deep_view() =~= candidates_of_group(views, keep as nat));
    }
    candidates
}

/// Selects the deletion candidates among `files`, which are read as sorted: of
/// each package all files but its `keep` newest, package after package and
/// under one package from the newest version to the oldest.
pub fn deletion_candidates(files: &Vec<PackageFile>, keep: usize) -> (candidates: Vec<PackageFile>)
    ensures
        candidates.deep_view() == candidates_of(files.deep_view(), keep as nat),
{
    let groups = group_by_name(files);
    let ghost selected = groups.deep_view().map_values(selects_candidates(keep as nat));
    let mut candidates: Vec<PackageFile> = Vec::new();
    let mut i: usize = 0;
    proof {
        assert(selected.take(0) =~= Seq::<Seq<PackageFileView>>::empty());
        assert(candidates.deep_view() =~= selected.take(0).flatten());
    }
    while i < groups.len()
        invariant
            i <= groups.len(),
            selected == groups.deep_view().map_values(selects_candidates(keep as nat)),
            candidates.deep_view() == selected.take(i as int).flatten(),
        decreases groups.len() - i,
    {
        let ghost so_far = candidates.deep_view();
        let mut of_group = group_candidates(&groups[i], keep);
        let ghost added = of_group.deep_view();
        candidates.append(&mut of_group);
        proof {
            assert(added == selected[i as int]);
            assert(candidates.deep_view() =~= so_far + added);
            assert(selected.take(i + 1) =~= selected.take(i as int).push(added));
            selected.take(i as int).lemma_flatten_push(added);
        }
        i = i + 1;
    }
    proof {
        assert(selected.take(i as int) =~= selected);
    }
    candidates
}

/// Of a group of `n` files, `max(0, n - keep)` are deletion candidates and
/// `min(n, keep)` stay.
pub proof fn lemma_retention_counts(group: Seq<PackageFileView>, keep: nat)
    ensures
        candidates_of_group(group, keep).len() == max(0, group.len() - keep),
        retained_of_group(group, keep).len() == min(group.len() as int, keep as int),
{
}

/// A group that has no more than `keep` files has no deletion candidate.
pub proof fn lemma_small_group_is_kept(group: Seq<PackageFileView>, keep: nat)
    requires
        keep >= group.len(),
    ensures
        candidates_of_group(group, keep) == Seq::<PackageFileView>::empty(),
        retained_of_group(group, keep) == group.reverse(),
{
    assert(candidates_of_group(group, keep) =~= Seq::<PackageFileView>::empty());
    assert(retained_of_group(group, keep) =~= group.reverse());
}

/// Retention is a threshold on the position in the group: read from the newest
/// file to the oldest, a group is the files that stay, then its deletion
/// candidates. So each file of the group is one or the other, by its position.
pub proof fn lemma_retention_parts_group(group: Seq<PackageFileView>, keep: nat)
    ensures
        retained_of_group(group, keep) + candidates_of_group(group, keep) == group.reverse(),
{
    assert(retained_of_group(group, keep) + candidates_of_group(group, keep) =~= group.reverse());
}

/// In a sorted group no deletion candidate is newer than a file that stays: the
/// files that stay are the `keep` newest.
pub proof fn lemma_candidates_are_oldest(order: TextOrder, group: Seq<PackageFileView>, keep: nat)
    requires
        is_sorted(order, group),
    ensures
        forall|i: int, j: int|
            0 <= i < retained_of_group(group, keep).len() && 0 <= j < candidates_of_group(
                group,
                keep,
            ).len() ==> file_order(
                order,
                #[trigger] candidates_of_group(group, keep)[j],
                #[trigger] retained_of_group(group, keep)[i],
            ) != Comparison::Greater,
{
    let retained = retained_of_group(group, keep);
    let candidates = candidates_of_group(group, keep);
    let n = group.len() as int;
    let kept = min(keep as int, n);
    assert forall|i: int, j: int|
        0 <= i < retained.len() && 0 <= j < candidates.len() implies file_order(
        order,
        #[trigger] candidates[j],
        #[trigger] retained[i],
    ) != Comparison::Greater by {
        assert(retained[i] == group[n - 1 - i]);
        assert(candidates[j] == group[n - 1 - kept - j]);
    }
}

/// The deletion candidates among files are those of the first group, then those
/// among the files behind it.
pub proof fn lemma_candidates_by_group(files: Seq<PackageFileView>, keep: nat)
    requires
        files.len() > 0,
    ensures
        ({
            let run = run_length(files, files[0].identity.name) as int;
            &&& 0 < run <= files.len()
            &&& groups_of(files) == seq![files.take(run)] + groups_of(files.skip(run))
            &&& candidates_of(files, keep) == candidates_of_group(files.take(run), keep)
                + candidates_of(files.skip(run), keep)
        }),
{
    let run = run_length(files, files[0].identity.name) as int;
    lemma_run_length(files, files[0].identity.name);
    let first = files.take(run);
    let others = groups_of(files.skip(run));
    let select = selects_candidates(keep);
    let selected = groups_of(files).map_values(select);
    assert(selected =~= seq![select(first)] + others.map_values(select));
    assert(selected.first() == candidates_of_group(first, keep));
    assert(selected.drop_first() =~= others.map_values(select));
}

/// Grouping parts the files: the groups, one after the other, are the files.
/// No group is empty, and the files of a group bear one name.
pub proof fn lemma_groups_part_files(files: Seq<PackageFileView>)
    ensures
        groups_of(files).flatten() == files,
        forall|k: int|
            0 <= k < groups_of(files).len() ==> (#[trigger] groups_of(files)[k]).len() > 0,
        forall|k: int, i: int|
            0 <= k < groups_of(files).len() && 0 <= i < groups_of(files)[k].len() ==> (
            #[trigger] groups_of(files)[k][i]).identity.name == groups_of(
                files,
            )[k][0].identity.name,
    decreases files.len(),
{
    let groups = groups_of(files);
    if files.len() > 0 {
        let name = files[0].identity.name;
        let run = run_length(files, name) as int;
        lemma_candidates_by_group(files, 0);
        lemma_run_length(files, name);
        let first = files.take(run);
        let rest = files.skip(run);
        let others = groups_of(rest);
        lemma_groups_part_files(rest);
        assert(groups.first() == first);
        assert(groups.drop_first() =~= others);
        assert(groups.flatten() =~= files);
        assert forall|k: int| 0 <= k < groups.len() implies (#[trigger] groups[k]).len() > 0 by {
            if k > 0 {
                assert(groups[k] == others[k - 1]);
            }
        }
        assert forall|k: int, i: int|
            0 <= k < groups.len() && 0 <= i < groups[k].len() implies (
        #[trigger] groups[k][i]).identity.name == groups[k][0].identity.name by {
            if k > 0 {
                assert(groups[k] == others[k - 1]);
            } else {
                assert(groups[0][i] == files[i]);
            }
        }
    } else {
        assert(groups.flatten() =~= files);
    }
}

/// Every deletion candidate is one of the files, and no file is a candidate
/// more often than it is listed.
pub proof fn lemma_candidates_are_listed(files: Seq<PackageFileView>, keep: nat)
    ensures
        candidates_of(files, keep).to_multiset().subset_of(files.to_multiset()),
    decreases files.len(),
{
    broadcast use vstd::multiset::group_multiset_axioms;

    if files.len() > 0 {
        let run = run_length(files, files[0].identity.name) as int;
        lemma_candidates_by_group(files, keep);
        let first = files.take(run);
        let rest = files.skip(run);
        lemma_candidates_are_listed(rest, keep);
        let kept = min(keep as int, first.len() as int);
        let turned = first.reverse();
        assert(turned =~= turned.take(kept) + turned.skip(kept));
        lemma_multiset_commutative(turned.take(kept), turned.skip(kept));
        first.lemma_reverse_to_multiset();
        assert(files =~= first + rest);
        lemma_multiset_commutative(first, rest);
        lemma_multiset_commutative(
            candidates_of_group(first, keep),
            candidates_of(rest, keep),
        );
        assert forall|file: PackageFileView|
            candidates_of(files, keep).to_multiset().count(file) <= files.to_multiset().count(
                file,
            ) by {
            assert(candidates_of_group(first, keep).to_multiset().count(file)
                <= turned.to_multiset().count(file));
            assert(candidates_of(rest, keep).to_multiset().count(file)
                <= rest.to_multiset().count(file));
        }
    } else {
        assert(candidates_of(files, keep) =~= Seq::<PackageFileView>::empty());
        candidates_of(files, keep).to_multiset_ensures();
        assert forall|file: PackageFileView|
            candidates_of(files, keep).to_multiset().count(file) <= files.to_multiset().count(
                file,
            ) by {
            assert(!candidates_of(files, keep).contains(file));
        }
    }
}

/// Where the files are sorted, each package has one group: the names of the
/// groups go up from group to group. Each group is sorted, so it holds its
/// files from the oldest version to the newest.
pub proof fn lemma_groups_of_sorted_files(order: TextOrder, files: Seq<PackageFileView>)
    requires
        is_sorted(order, files),
    ensures
        forall|k: int|
            0 <= k < groups_of(files).len() ==> is_sorted(order, #[trigger] groups_of(files)[k]),
        forall|k: int|
            0 <= k < groups_of(files).len() ==> files.contains(
                (#[trigger] groups_of(files)[k])[0],
            ),
        forall|a: int, b: int|
            0 <= a < b < groups_of(files).len() ==> lexical_order(
                (#[trigger] groups_of(files)[a])[0].identity.name,
                (#[trigger] groups_of(files)[b])[0].identity.name,
            ) == Comparison::Less,
    decreases files.len(),
{
    let groups = groups_of(files);
    if files.len() > 0 {
        let name = files[0].identity.name;
        let run = run_length(files, name) as int;
        lemma_candidates_by_group(files, 0);
        lemma_run_length(files, name);
        let first = files.take(run);
        let rest = files.skip(run);
        let others = groups_of(rest);
        assert(is_sorted(order, rest)) by {
            assert forall|i: int, j: int| 0 <= i < j < rest.len() implies file_order(
                order,
                #[trigger] rest[i],
                #[trigger] rest[j],
            ) != Comparison::Greater by {
                assert(rest[i] == files[run + i] && rest[j] == files[run + j]);
            }
        }
        lemma_groups_of_sorted_files(order, rest);
        lemma_groups_part_files(rest);
        assert forall|k: int| 0 <= k < groups.len() implies is_sorted(
            order,
            #[trigger] groups[k],
        ) by {
            if k > 0 {
                assert(groups[k] == others[k - 1]);
            } else {
                assert forall|i: int, j: int| 0 <= i < j < first.len() implies file_order(
                    order,
                    #[trigger] first[i],
                    #[trigger] first[j],
                ) != Comparison::Greater by {
                    assert(first[i] == files[i] && first[j] == files[j]);
                }
            }
        }
        assert forall|k: int| 0 <= k < groups.len() implies files.contains(
            (#[trigger] groups[k])[0],
        ) by {
            if k > 0 {
                assert(groups[k] == others[k - 1]);
                let j = rest.index_of(others[k - 1][0]);
                assert(files[run + j] == rest[j]);
            } else {
                assert(files[0] == first[0]);
            }
        }
        assert forall|a: int, b: int| 0 <= a < b < groups.len() implies lexical_order(
            (#[trigger] groups[a])[0].identity.name,
            (#[trigger] groups[b])[0].identity.name,
        ) == Comparison::Less by {
            assert(groups[b] == others[b - 1]);
            if a > 0 {
                assert(groups[a] == others[a - 1]);
            } else {
                // the first file behind the run bears a later name, and so do all behind it
                let later = others[b - 1][0];
                let j = rest.index_of(later);
                let next = files[run];
                assert(rest[j] == files[run + j]);
                assert(file_order(order, files[0], next) != Comparison::Greater);
                lemma_lexical_order_equal(name, next.identity.name);
                if j > 0 {
                    assert(file_order(order, next, files[run + j]) != Comparison::Greater);
                    lemma_lexical_order_strict(name, next.identity.name, later.identity.name);
                }
                assert(first[0] == files[0]);
            }
        }
    }
}

} // verus!
