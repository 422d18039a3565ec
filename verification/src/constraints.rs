//! The constraints of a query and the files they leave to be searched.
use crate::files::{file_values, FileItem};
use crate::options::GrepSearchOptions;
use crate::prefilter::{prefilter_files, FileFilter};
use vstd::prelude::*;

verus! {

/// A constraint of a query, by its position in the list that the query parser gave.
#[derive(Debug, Clone, Copy, PartialEq, Eq, Structural)]
pub enum Constraint {
    /// A constraint on the path of the file.
    FilePath(usize),
    /// A constraint of another sort.
    Other(usize),
}

/// One of the constraints is on the path of the file.
pub open spec fn has_file_path(constraints: Seq<Constraint>) -> bool {
    exists|i: int| 0 <= i < constraints.len() && (#[trigger] constraints[i]) is FilePath
}

/// The constraints that are not on the path of the file, in their order.
pub open spec fn without_file_path(constraints: Seq<Constraint>) -> Seq<Constraint> {
    constraints.filter(|c: Constraint| !(c is FilePath))
}

/// The constraints without those on the path of the file, if there are any of those.
pub fn strip_file_path_constraint_if_present(constraints: &[Constraint]) -> (stripped: Option<
    Vec<Constraint>,
>)
    ensures
        stripped is Some <==> has_file_path(constraints@),
        stripped matches Some(rest) ==> rest@ == without_file_path(constraints@),
{
    let mut found: bool = false;
    let mut rest: Vec<Constraint> = Vec::new();
    let mut i: usize = 0;
    let ghost other = |c: Constraint| !(c is FilePath);
    assert(constraints@.take(0) =~= Seq::<Constraint>::empty());
    assert(Seq::<Constraint>::empty().filter(other) =~= Seq::<Constraint>::empty()) by {
        reveal(Seq::filter);
    }
    while i < constraints.len()
        invariant
            i <= constraints.len(),
            other == (|c: Constraint| !(c is FilePath)),
            found <==> exists|k: int| 0 <= k < i && (#[trigger] constraints@[k]) is FilePath,
            rest@ == constraints@.take(i as int).filter(other),
        decreases constraints.len() - i,
    {
        let ghost before = constraints@.take(i as int);
        let constraint: Constraint = constraints[i];
        proof {
            reveal(Seq::filter);
            assert(constraints@.take(i + 1).drop_last() =~= before);
        }
        match constraint {
            Constraint::FilePath(_) => {
                assert(constraints@[i as int] is FilePath);
                found = true;
            },
            Constraint::Other(_) => {
                rest.push(constraint);
            },
        }
        i += 1;
    }
    assert(constraints@.take(i as int) =~= constraints@);
    if found {
        Some(rest)
    } else {
        None
    }
}

/// What came of choosing the files to be searched.
pub enum Selection<'a> {
    /// These files are to be searched, of a number of files over all pages.
    Files { files: Vec<&'a FileItem>, filtered_file_count: usize },
    /// The constraints left nothing on any page. The files are to be chosen anew under these
    /// constraints: a path was likely part of the text to be searched for.
    Retry { constraints: Vec<Constraint> },
}

/// Chooses the files to be searched, given which of them the constraints admit.
pub fn select_files<'a>(
    files: &'a [FileItem],
    constraints: &[Constraint],
    admitted: Option<&[bool]>,
    bigram_candidates: Option<&[u64]>,
    base_count: usize,
    options: &GrepSearchOptions,
) -> (selection: Selection<'a>)
    requires
        (FileFilter {
            files,
            admitted,
            candidates: bigram_candidates,
            base_count,
            max_file_size: options.max_file_size,
        }).complete(),
    ensures
        ({
            let filter = FileFilter {
                files,
                admitted,
                candidates: bigram_candidates,
                base_count,
                max_file_size: options.max_file_size,
            };
            match selection {
                Selection::Files { files: chosen, filtered_file_count } => {
                    &&& filter.ranked().len() > 0 || !has_file_path(constraints@)
                    &&& file_values(chosen@) == filter.page(options.file_offset as int)
                    &&& filtered_file_count == filter.ranked().len()
                },
                Selection::Retry { constraints: stripped } => {
                    &&& filter.ranked().len() == 0 && has_file_path(constraints@)
                    &&& stripped@ == without_file_path(constraints@)
                },
            }
        }),
{
    let (chosen, filtered_file_count) = prefilter_files(
        files,
        admitted,
        bigram_candidates,
        base_count,
        options,
    );
    if filtered_file_count == 0 {
        if let Some(stripped) = strip_file_path_constraint_if_present(constraints) {
            return Selection::Retry { constraints: stripped };
        }
    }
    Selection::Files { files: chosen, filtered_file_count }
}

/// Without constraints on the path of the file, a second choice is final: what a retry is made
/// under holds no such constraint any more.
pub proof fn law_retry_is_final(constraints: Seq<Constraint>)
    ensures
        !has_file_path(without_file_path(constraints)),
{
    let other = |c: Constraint| !(c is FilePath);
    assert forall|i: int| 0 <= i < without_file_path(constraints).len() implies !((
    #[trigger] without_file_path(constraints)[i]) is FilePath) by {
        constraints.lemma_filter_pred(other, i);
    }
}

/// Giving up the constraints on the path of the file gives up those alone: the others stay, each as
/// often as it was there, and in their order.
pub proof fn law_other_constraints_stay(constraints: Seq<Constraint>, c: Constraint)
    ensures
        without_file_path(constraints) == constraints.filter(
            |c: Constraint| c matches Constraint::Other(_),
        ),
        c is Other ==> without_file_path(constraints).contains(c) == constraints.contains(c),
        has_file_path(constraints) <==> exists|i: int|
            0 <= i < constraints.len() && !((#[trigger] constraints[i]) is Other),
{
    let (p, q) = (
        |c: Constraint| !(c is FilePath),
        |c: Constraint| c matches Constraint::Other(_),
    );
    assert(p =~= q);
    if c is Other && constraints.contains(c) {
        let i = choose|i: int| 0 <= i < constraints.len() && constraints[i] == c;
        constraints.lemma_filter_contains(p, i);
    }
    if without_file_path(constraints).contains(c) {
        constraints.lemma_filter_contains_rev(p, c);
    }
}

} // verus!
