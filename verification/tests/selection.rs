use fff_grep_core::{
    basic_prefilter, combined_candidates, live_count, overlaid_candidates, prefilter_files,
    select_files, strip_file_path_constraint_if_present, Constraint, FileItem, GrepSearchOptions,
    IndexAnswer, MultiIndexAnswer, OverlayChanges, Selection,
};

fn file(id: usize, score: i64, modified: u64) -> FileItem {
    FileItem {
        id,
        size: 10,
        modified,
        total_frecency_score: score,
        is_deleted: false,
        is_binary: false,
        is_overflow: false,
        is_git_changed: false,
    }
}

fn ids(files: &[&FileItem]) -> Vec<usize> {
    files.iter().map(|f| f.id).collect()
}

fn at_offset(file_offset: usize) -> GrepSearchOptions {
    GrepSearchOptions { file_offset, ..GrepSearchOptions::default() }
}

#[test]
fn deleted_files_are_not_counted() {
    let gone = FileItem { is_deleted: true, ..file(1, 0, 0) };
    assert_eq!(live_count(&[file(0, 0, 0), gone, file(2, 0, 0)]), 2);
    assert_eq!(live_count(&[]), 0);
}

#[test]
fn unsearchable_files_are_told_apart() {
    let plain = file(0, 0, 0);
    assert!(basic_prefilter(&plain, 10));
    assert!(!basic_prefilter(&plain, 9));
    assert!(!basic_prefilter(&FileItem { size: 0, ..plain }, 10));
    assert!(!basic_prefilter(&FileItem { is_deleted: true, ..plain }, 10));
    assert!(!basic_prefilter(&FileItem { is_binary: true, ..plain }, 10));
}

#[test]
fn files_are_ranked_by_frecency_then_by_time() {
    let files = [file(0, 1, 5), file(1, 9, 1), file(2, 1, 8), file(3, -4, 99), file(4, 1, 5)];
    let (chosen, count) = prefilter_files(&files, None, None, 5, &at_offset(0));
    assert_eq!(ids(&chosen), vec![1, 2, 0, 4, 3]);
    assert_eq!(count, 5);
}

#[test]
fn pages_of_files_follow_one_another() {
    let files = [file(0, 3, 0), file(1, 2, 0), file(2, 1, 0)];
    let (chosen, count) = prefilter_files(&files, None, None, 3, &at_offset(2));
    assert_eq!(ids(&chosen), vec![2]);
    assert_eq!(count, 3);
    let (none, count) = prefilter_files(&files, None, None, 3, &at_offset(3));
    assert!(none.is_empty());
    assert_eq!(count, 3);
    let (none, _) = prefilter_files(&files, None, None, 3, &at_offset(50));
    assert!(none.is_empty());
}

#[test]
fn constraints_and_candidates_both_rule_files_out() {
    let files = [file(0, 0, 0), file(1, 0, 0), file(2, 0, 0), file(3, 0, 0)];
    let admitted = [true, true, false, true];
    let candidates = [0b1110u64];
    let (chosen, count) =
        prefilter_files(&files, Some(&admitted), Some(&candidates), 4, &at_offset(0));
    assert_eq!(ids(&chosen), vec![1, 3]);
    assert_eq!(count, 2);
}

#[test]
fn bits_behind_the_boundary_do_not_count() {
    let mut files: Vec<FileItem> = Vec::new();
    let mut i: usize = 0;
    while i < 70 {
        files.push(file(i, 0, 0));
        i += 1;
    }
    // Bits 64.. of the second word would name files 64.., but the index covers 66 files only.
    let candidates = [1u64 | (1u64 << 63), u64::MAX];
    let (chosen, _) = prefilter_files(&files, None, Some(&candidates), 66, &at_offset(0));
    assert_eq!(ids(&chosen), vec![0, 63, 64, 65, 66, 67, 68, 69]);
    let (chosen, _) = prefilter_files(&files, None, Some(&[0, 0]), 66, &at_offset(0));
    assert_eq!(ids(&chosen), vec![66, 67, 68, 69]);
}

#[test]
fn an_index_may_cover_more_files_than_are_listed() {
    let files = [file(0, 0, 0), file(1, 0, 0)];
    let (chosen, _) = prefilter_files(&files, None, Some(&[0b10]), 500, &at_offset(0));
    assert_eq!(ids(&chosen), vec![1]);
}

#[test]
fn changes_correct_the_index() {
    let answer = IndexAnswer {
        raw: Some(vec![0b0111]),
        overlay: Some(OverlayChanges { tombstones: vec![0b0010], modified: vec![3, 64] }),
    };
    assert_eq!(overlaid_candidates(answer), Some(vec![0b1101]));
    let both = IndexAnswer {
        raw: Some(vec![0b0000]),
        overlay: Some(OverlayChanges { tombstones: vec![0b0010], modified: vec![1] }),
    };
    assert_eq!(overlaid_candidates(both), Some(vec![0b0010]));
    let unchanged = IndexAnswer { raw: Some(vec![5]), overlay: None };
    assert_eq!(overlaid_candidates(unchanged), Some(vec![5]));
    let silent = IndexAnswer {
        raw: None,
        overlay: Some(OverlayChanges { tombstones: vec![1], modified: vec![1] }),
    };
    assert_eq!(overlaid_candidates(silent), None);
}

#[test]
fn candidates_of_several_patterns_are_united() {
    let answer = MultiIndexAnswer {
        per_pattern: vec![Some(vec![0b0100]), Some(vec![0b0001, 0b1])],
        modified: Some(vec![vec![65], vec![3, 128]]),
    };
    assert_eq!(combined_candidates(&answer), Some(vec![0b1101, 0b11]));
    let without_changes = MultiIndexAnswer { modified: None, ..answer.clone() };
    assert_eq!(combined_candidates(&without_changes), Some(vec![0b0101, 0b1]));
}

#[test]
fn a_pattern_without_an_answer_rules_nothing_out() {
    let answer = MultiIndexAnswer {
        per_pattern: vec![None, Some(vec![0b0001])],
        modified: Some(vec![vec![1], vec![]]),
    };
    assert_eq!(combined_candidates(&answer), None);
    let silent = MultiIndexAnswer { per_pattern: vec![], modified: Some(vec![vec![1]]) };
    assert_eq!(combined_candidates(&silent), None);
}

#[test]
fn file_path_constraints_are_stripped() {
    let all = [Constraint::Other(0), Constraint::FilePath(1), Constraint::Other(2)];
    assert_eq!(
        strip_file_path_constraint_if_present(&all),
        Some(vec![Constraint::Other(0), Constraint::Other(2)])
    );
    assert_eq!(strip_file_path_constraint_if_present(&[Constraint::Other(0)]), None);
    assert_eq!(strip_file_path_constraint_if_present(&[]), None);
    assert_eq!(strip_file_path_constraint_if_present(&[Constraint::FilePath(4)]), Some(vec![]));
}

#[test]
fn a_path_that_leaves_nothing_is_retried_without() {
    let files = [file(0, 0, 0)];
    let constraints = [Constraint::FilePath(0), Constraint::Other(1)];
    match select_files(&files, &constraints, Some(&[false]), None, 1, &at_offset(0)) {
        Selection::Retry { constraints } => assert_eq!(constraints, vec![Constraint::Other(1)]),
        Selection::Files { .. } => panic!("expected a retry"),
    }
    match select_files(&files, &constraints, Some(&[true]), None, 1, &at_offset(0)) {
        Selection::Files { files, filtered_file_count } => {
            assert_eq!(ids(&files), vec![0]);
            assert_eq!(filtered_file_count, 1);
        }
        Selection::Retry { .. } => panic!("expected files"),
    }
    // A page behind the last one is empty, but the constraints left a file.
    match select_files(&files, &constraints, Some(&[true]), None, 1, &at_offset(1)) {
        Selection::Files { files, filtered_file_count } => {
            assert!(files.is_empty());
            assert_eq!(filtered_file_count, 1);
        }
        Selection::Retry { .. } => panic!("expected no files"),
    }
    match select_files(&files, &constraints[1..], Some(&[false]), None, 1, &at_offset(0)) {
        Selection::Files { files, filtered_file_count } => {
            assert!(files.is_empty());
            assert_eq!(filtered_file_count, 0);
        }
        Selection::Retry { .. } => panic!("expected no files"),
    }
}
