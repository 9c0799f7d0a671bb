use dupefinder::aggregate::{aggregate_groups, report_summary};
use dupefinder::candidate::FileCandidate;
use dupefinder::size::Size;

fn cand(path: &str, size: u64) -> FileCandidate {
    FileCandidate {
        path: path.to_string(),
        name: path.rsplit('/').next().unwrap().to_string(),
        size: Some(size),
        content: None,
    }
}

#[test]
fn group_of_two_large_files_totals_three_megabytes() {
    let groups = vec![vec![cand("a/f1", 1_500_000), cand("b/f2", 1_500_000)]];
    let entries = aggregate_groups(&groups);
    assert_eq!(entries.len(), 1);
    assert_eq!(entries[0].total, 3_000_000);
    assert_eq!(Size::new(entries[0].total).render(), "3.00Mb");
}

#[test]
fn entries_come_out_in_descending_total_order() {
    let groups = vec![
        vec![cand("a/1", 5), cand("b/2", 5)],
        vec![cand("c/3", 100), cand("d/4", 100)],
        vec![cand("e/5", 30), cand("f/6", 30)],
    ];
    let entries = aggregate_groups(&groups);
    let totals: Vec<u64> = entries.iter().map(|e| e.total).collect();
    assert_eq!(totals, vec![200, 60, 10]);
}

#[test]
fn equal_totals_keep_only_the_first_group() {
    let groups = vec![
        vec![cand("a/first1", 6), cand("b/first2", 6)],
        vec![cand("c/second1", 4), cand("d/second2", 8)],
    ];
    let entries = aggregate_groups(&groups);
    assert_eq!(entries.len(), 1);
    assert_eq!(entries[0].total, 12);
    let paths: Vec<String> = entries[0].files.iter().map(|c| c.path.clone()).collect();
    assert_eq!(paths, vec!["a/first1".to_string(), "b/first2".to_string()]);
}

#[test]
fn members_without_a_size_add_nothing() {
    let mut broken = cand("b/broken", 0);
    broken.size = None;
    let groups = vec![vec![cand("a/ok", 7), broken, cand("c/ok2", 3)]];
    let entries = aggregate_groups(&groups);
    assert_eq!(entries.len(), 1);
    assert_eq!(entries[0].total, 10);
}

#[test]
fn summary_counts_groups_and_sums_their_totals() {
    let groups = vec![
        vec![cand("a/1", 5), cand("b/2", 5)],
        vec![cand("c/3", 100), cand("d/4", 100)],
    ];
    let entries = aggregate_groups(&groups);
    let (count, total) = report_summary(&entries);
    assert_eq!(count, 2);
    assert_eq!(total, 210);
}

#[test]
fn empty_report_summarises_to_zero() {
    let entries = aggregate_groups(&Vec::new());
    let (count, total) = report_summary(&entries);
    assert_eq!(count, 0);
    assert_eq!(total, 0);
}
