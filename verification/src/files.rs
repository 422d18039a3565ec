//! The files that a search looks at, and their order.
use vstd::prelude::*;
use vstd::relations::{sorted_by, total_ordering};
use vstd::seq_lib::{group_to_multiset_ensures, lemma_sorted_unique};

verus! {

/// What a search needs to know of an indexed file.
#[derive(Debug, Clone, Copy, PartialEq, Eq, Structural)]
pub struct FileItem {
    /// Identifies the file to whoever reads it.
    pub id: usize,
    /// Size in bytes.
    pub size: u64,
    /// Time of the last modification.
    pub modified: u64,
    /// How often and how recently the file has been used.
    pub total_frecency_score: i64,
    /// The file is gone but still listed.
    pub is_deleted: bool,
    /// The file does not hold text.
    pub is_binary: bool,
    /// The file was added after the index was built.
    pub is_overflow: bool,
    /// The file is modified or untracked in git.
    pub is_git_changed: bool,
}

/// The number of files of a list that have not been deleted.
pub open spec fn live_files(files: Seq<FileItem>) -> nat
    decreases files.len(),
{
    if files.len() == 0 {
        0
    } else if files.last().is_deleted {
        live_files(files.drop_last())
    } else {
        live_files(files.drop_last()) + 1
    }
}

/// File number `a` is searched no later than file number `b`: files with a higher frecency score
/// come first, then files modified later, then files listed earlier.
pub open spec fn ranks_first(files: Seq<FileItem>, a: usize, b: usize) -> bool {
    let (x, y) = (files[a as int], files[b as int]);
    ||| x.total_frecency_score > y.total_frecency_score
    ||| x.total_frecency_score == y.total_frecency_score && x.modified > y.modified
    ||| x.total_frecency_score == y.total_frecency_score && x.modified == y.modified && a <= b
}

/// The order of [`ranks_first`] on positions in `files`.
pub open spec fn rank_order(files: Seq<FileItem>) -> spec_fn(usize, usize) -> bool {
    |a: usize, b: usize| ranks_first(files, a, b)
}

/// The given positions in the order in which their files are searched.
pub open spec fn ranking(files: Seq<FileItem>, positions: Seq<usize>) -> Seq<usize> {
    positions.sort_by(rank_order(files))
}

/// The files behind a list of references.
pub open spec fn file_values(files: Seq<&FileItem>) -> Seq<FileItem> {
    files.map_values(|file: &FileItem| *file)
}

/// Counts the files that have not been deleted.
pub fn live_count(files: &[FileItem]) -> (count: usize)
    ensures
        count == live_files(files@),
{
    let mut count: usize = 0;
    let mut i: usize = 0;
    while i < files.len()
        invariant
            i <= files.len(),
            count <= i,
            count == live_files(files@.take(i as int)),
        decreases files.len() - i,
    {
        assert(files@.take(i + 1).drop_last() =~= files@.take(i as int));
        if !files[i].is_deleted {
            count += 1;
        }
        i += 1;
    }
    assert(files@.take(i as int) =~= files@);
    count
}

/// The search order compares any two positions, and only equal ones both ways.
pub proof fn lemma_rank_order_is_total(files: Seq<FileItem>)
    ensures
        total_ordering(rank_order(files)),
{
}

/// What a ranking is: the same positions, none lost and none added, in search order.
pub proof fn lemma_ranking(files: Seq<FileItem>, positions: Seq<usize>)
    ensures
        sorted_by(ranking(files, positions), rank_order(files)),
        ranking(files, positions).to_multiset() == positions.to_multiset(),
        ranking(files, positions).len() == positions.len(),
        forall|p: usize| #[trigger]
            ranking(files, positions).contains(p) <==> positions.contains(p),
{
    broadcast use group_to_multiset_ensures;

    lemma_rank_order_is_total(files);
    positions.lemma_sort_by_ensures(rank_order(files));
    let ranked = ranking(files, positions);
    assert(ranked.len() == ranked.to_multiset().len());
    assert(positions.len() == positions.to_multiset().len());
    assert forall|p: usize| #[trigger] ranked.contains(p) <==> positions.contains(p) by {
        assert(ranked.contains(p) <==> ranked.to_multiset().count(p) > 0);
        assert(positions.contains(p) <==> positions.to_multiset().count(p) > 0);
    }
}

/// Whether file number `a` is searched no later than file number `b`.
fn is_ranked_first(files: &[FileItem], a: usize, b: usize) -> (first: bool)
    requires
        a < files@.len(),
        b < files@.len(),
    ensures
        first == ranks_first(files@, a, b),
{
    let x: FileItem = files[a];
    let y: FileItem = files[b];
    x.total_frecency_score > y.total_frecency_score || (x.total_frecency_score
        == y.total_frecency_score && (x.modified > y.modified || (x.modified == y.modified && a
        <= b)))
}

/// All positions are those of files.
pub open spec fn positions_fit(positions: Seq<usize>, count: int) -> bool {
    forall|i: int| 0 <= i < positions.len() ==> (#[trigger] positions[i]) < count
}

/// Merges two lists of positions that are in search order.
fn merge_ranked(files: &[FileItem], left: &Vec<usize>, right: &Vec<usize>) -> (merged: Vec<usize>)
    requires
        positions_fit(left@, files@.len() as int),
        positions_fit(right@, files@.len() as int),
        sorted_by(left@, rank_order(files@)),
        sorted_by(right@, rank_order(files@)),
    ensures
        positions_fit(merged@, files@.len() as int),
        sorted_by(merged@, rank_order(files@)),
        merged@.to_multiset() == left@.to_multiset().add(right@.to_multiset()),
{
    broadcast use group_to_multiset_ensures;

    let ghost order = rank_order(files@);
    let mut merged: Vec<usize> = Vec::new();
    let mut i: usize = 0;
    let mut j: usize = 0;
    proof {
        assert(left@.take(0) =~= Seq::<usize>::empty());
        assert(right@.take(0) =~= Seq::<usize>::empty());
        assert(merged@.to_multiset() =~= left@.take(0).to_multiset().add(
            right@.take(0).to_multiset(),
        ));
    }
    while i < left.len() || j < right.len()
        invariant
            order == rank_order(files@),
            i <= left.len(),
            j <= right.len(),
            positions_fit(left@, files@.len() as int),
            positions_fit(right@, files@.len() as int),
            sorted_by(left@, order),
            sorted_by(right@, order),
            positions_fit(merged@, files@.len() as int),
            sorted_by(merged@, order),
            forall|m: int, k: int|
                0 <= m < merged.len() && i <= k < left.len() ==> ranks_first(
                    files@,
                    #[trigger] merged@[m],
                    #[trigger] left@[k],
                ),
            forall|m: int, k: int|
                0 <= m < merged.len() && j <= k < right.len() ==> ranks_first(
                    files@,
                    #[trigger] merged@[m],
                    #[trigger] right@[k],
                ),
            merged@.to_multiset() == left@.take(i as int).to_multiset().add(
                right@.take(j as int).to_multiset(),
            ),
        decreases left.len() - i + right.len() - j,
    {
        let ghost before = merged@;
        let from_left: bool = j >= right.len() || (i < left.len() && is_ranked_first(
            files,
            left[i],
            right[j],
        ));
        let next: usize = if from_left {
            left[i]
        } else {
            right[j]
        };
        merged.push(next);
        proof {
            assert forall|k: int| i <= k < left.len() implies ranks_first(
                files@,
                next,
                #[trigger] left@[k],
            ) by {
                if k > i {
                    assert(order(left@[i as int], left@[k]));
                }
            }
            assert forall|k: int| j <= k < right.len() implies ranks_first(
                files@,
                next,
                #[trigger] right@[k],
            ) by {
                if k > j {
                    assert(order(right@[j as int], right@[k]));
                }
            }
            assert forall|a: int, b: int| 0 <= a < b < merged.len() implies #[trigger] order(
                merged@[a],
                merged@[b],
            ) by {
                if b < before.len() {
                    assert(order(before[a], before[b]));
                } else if from_left {
                    assert(ranks_first(files@, before[a], left@[i as int]));
                } else {
                    assert(ranks_first(files@, before[a], right@[j as int]));
                }
            }
            broadcast use group_to_multiset_ensures;

            assert(merged@.to_multiset() =~= before.to_multiset().insert(next));
            if from_left {
                assert(left@.take(i + 1) =~= left@.take(i as int).push(next));
                assert(merged@.to_multiset() =~= left@.take(i + 1).to_multiset().add(
                    right@.take(j as int).to_multiset(),
                ));
            } else {
                assert(right@.take(j + 1) =~= right@.take(j as int).push(next));
                assert(merged@.to_multiset() =~= left@.take(i as int).to_multiset().add(
                    right@.take(j + 1).to_multiset(),
                ));
            }
        }
        if from_left {
            i += 1;
        } else {
            j += 1;
        }
    }
    assert(left@.take(i as int) =~= left@);
    assert(right@.take(j as int) =~= right@);
    merged
}

/// Sorts positions into search order, by merging.
fn sort_ranked(files: &[FileItem], positions: Vec<usize>) -> (sorted: Vec<usize>)
    requires
        positions_fit(positions@, files@.len() as int),
    ensures
        positions_fit(sorted@, files@.len() as int),
        sorted_by(sorted@, rank_order(files@)),
        sorted@.to_multiset() == positions@.to_multiset(),
    decreases positions@.len(),
{
    if positions.len() <= 1 {
        return positions;
    }
    let half: usize = positions.len() / 2;
    let mut left = positions;
    let ghost all = left@;
    let right: Vec<usize> = left.split_off(half);
    proof {
        broadcast use group_to_multiset_ensures;

        assert(all =~= left@ + right@);
        vstd::seq_lib::lemma_multiset_commutative(left@, right@);
        assert forall|i: int| 0 <= i < left@.len() implies (#[trigger] left@[i])
            < files@.len() by {
            assert(left@[i] == all[i]);
        }
        assert forall|i: int| 0 <= i < right@.len() implies (#[trigger] right@[i])
            < files@.len() by {
            assert(right@[i] == all[half + i]);
        }
    }
    let left: Vec<usize> = sort_ranked(files, left);
    let right: Vec<usize> = sort_ranked(files, right);
    merge_ranked(files, &left, &right)
}

/// Puts positions into the order in which their files are searched.
pub fn rank_files(files: &[FileItem], positions: Vec<usize>) -> (ranked: Vec<usize>)
    requires
        positions_fit(positions@, files@.len() as int),
    ensures
        ranked@ == ranking(files@, positions@),
        positions_fit(ranked@, files@.len() as int),
{
    let ghost before = positions@;
    let ranked: Vec<usize> = sort_ranked(files, positions);
    proof {
        lemma_ranking(files@, before);
        lemma_rank_order_is_total(files@);
        lemma_sorted_unique(ranked@, ranking(files@, before), rank_order(files@));
    }
    ranked
}

/// The positions before `end` of the files that have changed in git and are still there,
/// ascending.
pub open spec fn git_changed_before(files: Seq<FileItem>, end: int) -> Seq<usize>
    decreases end,
{
    if end <= 0 {
        Seq::empty()
    } else if files[end - 1].is_git_changed && !files[end - 1].is_deleted {
        git_changed_before(files, end - 1).push((end - 1) as usize)
    } else {
        git_changed_before(files, end - 1)
    }
}

/// The files that have changed in git and are still there, in search order.
pub open spec fn git_changed_files(files: Seq<FileItem>) -> Seq<FileItem> {
    ranking(files, git_changed_before(files, files.len() as int)).map_values(
        |i: usize| files[i as int],
    )
}

/// A file is among those that have changed in git if and only if it has and is still there; it is
/// listed once, and files with a higher frecency score come first.
pub proof fn law_git_changed_files_are_ranked(files: Seq<FileItem>)
    requires
        files.len() <= usize::MAX,
    ensures
        ({
            let listed = ranking(files, git_changed_before(files, files.len() as int));
            &&& forall|i: usize| #[trigger]
                listed.contains(i) <==> i < files.len() && files[i as int].is_git_changed
                    && !files[i as int].is_deleted
            &&& listed.len() == git_changed_before(files, files.len() as int).len()
            &&& forall|a: int, b: int|
                0 <= a < b < listed.len() ==> (#[trigger] git_changed_files(
                    files,
                )[a]).total_frecency_score >= (#[trigger] git_changed_files(
                    files,
                )[b]).total_frecency_score
        }),
{
    let kept = git_changed_before(files, files.len() as int);
    let listed = ranking(files, kept);
    lemma_git_changed_before(files, files.len() as int);
    lemma_ranking(files, kept);
    let order = rank_order(files);
    assert forall|a: int, b: int| 0 <= a < b < listed.len() implies (#[trigger] git_changed_files(
        files,
    )[a]).total_frecency_score >= (#[trigger] git_changed_files(
        files,
    )[b]).total_frecency_score by {
        assert(order(listed[a], listed[b]));
        assert(ranks_first(files, listed[a], listed[b]));
    }
    assert forall|i: usize| #[trigger] listed.contains(i) <==> i < files.len()
        && files[i as int].is_git_changed && !files[i as int].is_deleted by {
        assert(listed.contains(i) <==> kept.contains(i));
    }
}

proof fn lemma_git_changed_before(files: Seq<FileItem>, end: int)
    requires
        0 <= end <= files.len() <= usize::MAX,
    ensures
        positions_fit(git_changed_before(files, end), end),
        forall|i: usize| #[trigger]
            git_changed_before(files, end).contains(i) <==> i < end
                && files[i as int].is_git_changed && !files[i as int].is_deleted,
    decreases end,
{
    if end > 0 {
        lemma_git_changed_before(files, end - 1);
        let before = git_changed_before(files, end - 1);
        let all = git_changed_before(files, end);
        assert forall|k: int| 0 <= k < all.len() implies (#[trigger] all[k]) < end by {
            if k < before.len() {
                assert(before[k] < end - 1);
            }
        }
        assert forall|i: usize| #[trigger] all.contains(i) <==> i < end
            && files[i as int].is_git_changed && !files[i as int].is_deleted by {
            if all.len() > before.len() {
                assert(all[before.len() as int] == end - 1);
                if before.contains(i) {
                    let k = choose|k: int| 0 <= k < before.len() && before[k] == i;
                    assert(all[k] == i);
                }
                if all.contains(i) {
                    let k = choose|k: int| 0 <= k < all.len() && all[k] == i;
                    if k < before.len() {
                        assert(before[k] == i);
                    }
                }
            }
        }
    }
}

/// The files that have changed in git and are still there, in search order.
pub fn list_git_changed<'a>(files: &'a [FileItem]) -> (changed: Vec<&'a FileItem>)
    ensures
        file_values(changed@) == git_changed_files(files@),
{
    let mut kept: Vec<usize> = Vec::new();
    let mut i: usize = 0;
    while i < files.len()
        invariant
            i <= files.len(),
            kept@ == git_changed_before(files@, i as int),
        decreases files.len() - i,
    {
        if files[i].is_git_changed && !files[i].is_deleted {
            kept.push(i);
        }
        i += 1;
    }
    proof {
        lemma_git_changed_before(files@, files@.len() as int);
    }
    let ranked: Vec<usize> = rank_files(files, kept);
    let mut changed: Vec<&'a FileItem> = Vec::new();
    let mut k: usize = 0;
    while k < ranked.len()
        invariant
            k <= ranked.len(),
            positions_fit(ranked@, files@.len() as int),
            changed@.len() == k,
            forall|j: int|
                0 <= j < k ==> *(#[trigger] changed@[j]) == files@[ranked@[j] as int],
        decreases ranked.len() - k,
    {
        changed.push(&files[ranked[k]]);
        k += 1;
    }
    assert(file_values(changed@) =~= git_changed_files(files@));
    changed
}

/// The live files are those that have not been deleted, and no others are counted.
pub proof fn law_live_files_are_those_not_deleted(files: Seq<FileItem>)
    ensures
        live_files(files) == files.filter(|file: FileItem| !file.is_deleted).len(),
    decreases files.len(),
{
    reveal(Seq::filter);
    if files.len() > 0 {
        law_live_files_are_those_not_deleted(files.drop_last());
    }
}

/// Every file that has changed in git and is still there is listed, once, and no other file is;
/// files with a higher frecency score come first, and of equal ones those modified later.
pub proof fn law_git_changed_files_are_listed_once(files: Seq<FileItem>)
    requires
        files.len() <= usize::MAX,
    ensures
        exists|listed: Seq<usize>|
            {
                &&& #[trigger] listed.no_duplicates()
                &&& forall|i: usize| #[trigger]
                    listed.contains(i) <==> i < files.len() && files[i as int].is_git_changed
                        && !files[i as int].is_deleted
                &&& forall|a: int, b: int|
                    0 <= a < b < listed.len() ==> {
                        let (x, y) = (
                            files[#[trigger] listed[a] as int],
                            files[#[trigger] listed[b] as int],
                        );
                        ||| x.total_frecency_score > y.total_frecency_score
                        ||| x.total_frecency_score == y.total_frecency_score && x.modified
                            >= y.modified
                    }
                &&& git_changed_files(files).len() == listed.len()
                &&& forall|k: int|
                    0 <= k < listed.len() ==> #[trigger] git_changed_files(files)[k]
                        == files[listed[k] as int]
            },
{
    broadcast use group_to_multiset_ensures;

    let kept = git_changed_before(files, files.len() as int);
    let listed = ranking(files, kept);
    let order = rank_order(files);
    law_git_changed_files_are_ranked(files);
    lemma_git_changed_ascends(files, files.len() as int);
    lemma_ranking(files, kept);
    assert(kept.no_duplicates());
    kept.lemma_multiset_has_no_duplicates();
    assert forall|p: usize| listed.to_multiset().contains(p) implies listed.to_multiset().count(p)
        == 1 by {
        assert(kept.to_multiset().contains(p));
    }
    listed.lemma_multiset_has_no_duplicates_conv();
    assert forall|a: int, b: int| 0 <= a < b < listed.len() implies {
        let (x, y) = (files[#[trigger] listed[a] as int], files[#[trigger] listed[b] as int]);
        ||| x.total_frecency_score > y.total_frecency_score
        ||| x.total_frecency_score == y.total_frecency_score && x.modified >= y.modified
    } by {
        assert(order(listed[a], listed[b]));
        assert(ranks_first(files, listed[a], listed[b]));
    }
}

proof fn lemma_git_changed_ascends(files: Seq<FileItem>, end: int)
    requires
        0 <= end <= files.len() <= usize::MAX,
    ensures
        forall|a: int, b: int|
            0 <= a < b < git_changed_before(files, end).len() ==> (#[trigger] git_changed_before(
                files,
                end,
            )[a]) < (#[trigger] git_changed_before(files, end)[b]),
    decreases end,
{
    if end > 0 {
        lemma_git_changed_ascends(files, end - 1);
        lemma_git_changed_before(files, end - 1);
        let before = git_changed_before(files, end - 1);
        let all = git_changed_before(files, end);
        assert forall|a: int, b: int| 0 <= a < b < all.len() implies (#[trigger] all[a]) < (
        #[trigger] all[b]) by {
            if b < before.len() {
                assert(before[a] < before[b]);
            } else {
                assert(before[a] < end - 1);
            }
        }
    }
}

} // verus!
