use dupefinder::candidate::FileCandidate;
use dupefinder::pipeline::{find_duplicate_files, Algorithm};
use dupefinder::candidate::filter_by_min_size;

fn cand(path: &str, name: &str, size: u64, content: &[u8]) -> FileCandidate {
    FileCandidate {
        path: path.to_string(),
        name: name.to_string(),
        size: Some(size),
        content: Some(content.to_vec()),
    }
}

fn paths(group: &[FileCandidate]) -> Vec<String> {
    group.iter().map(|c| c.path.clone()).collect()
}

#[test]
fn name_mode_groups_equal_names_only() {
    let files = vec![
        cand("a/x.txt", "x.txt", 5, b"hello"),
        cand("b/x.txt", "x.txt", 5, b"hello"),
        cand("c/y.txt", "y.txt", 5, b"hello"),
    ];
    let (groups, reports) = find_duplicate_files(files, Algorithm::Name);
    assert_eq!(groups.len(), 1);
    assert_eq!(paths(&groups[0]), vec!["a/x.txt".to_string(), "b/x.txt".to_string()]);
    assert_eq!(reports.len(), 1);
    assert_eq!(reports[0].groups, 1);
}

#[test]
fn full_content_mode_groups_equal_content_across_names() {
    let files = vec![
        cand("a/x.txt", "x.txt", 5, b"hello"),
        cand("b/x.txt", "x.txt", 5, b"hello"),
        cand("c/y.txt", "y.txt", 5, b"hello"),
    ];
    let (groups, reports) = find_duplicate_files(files, Algorithm::FullContent);
    assert_eq!(groups.len(), 1);
    assert_eq!(
        paths(&groups[0]),
        vec!["a/x.txt".to_string(), "b/x.txt".to_string(), "c/y.txt".to_string()]
    );
    assert_eq!(reports.len(), 4);
    for r in &reports {
        assert_eq!(r.groups, 1);
    }
}

#[test]
fn same_size_different_content_ends_with_no_groups() {
    let files = vec![
        cand("a/p.bin", "p.bin", 4, b"abcd"),
        cand("b/q.bin", "q.bin", 4, b"wxyz"),
    ];
    let (groups, reports) = find_duplicate_files(files, Algorithm::FullContent);
    assert!(groups.is_empty());
    // the size stage still pairs them; the first content hash splits them
    assert_eq!(reports[0].groups, 1);
    assert_eq!(reports[1].groups, 0);
}

#[test]
fn no_group_is_ever_a_singleton() {
    let files = vec![
        cand("a/x", "x", 5, b"hello"),
        cand("b/x", "x", 5, b"hella"),
        cand("c/z", "z", 9, b"something"),
        cand("d/w", "w", 5, b"hello"),
    ];
    for alg in [
        Algorithm::Name,
        Algorithm::Size,
        Algorithm::NameAndSize,
        Algorithm::FuzzyContent,
        Algorithm::FullContent,
    ] {
        let files2: Vec<FileCandidate> = files.iter().map(|c| c.clone()).collect();
        let (groups, _) = find_duplicate_files(files2, alg);
        for g in &groups {
            assert!(g.len() >= 2);
        }
    }
}

#[test]
fn size_mode_groups_equal_sizes_only() {
    let files = vec![
        cand("a/one", "one", 7, b"1111111"),
        cand("b/two", "two", 7, b"2222222"),
        cand("c/three", "three", 9, b"333333333"),
    ];
    let (groups, _) = find_duplicate_files(files, Algorithm::Size);
    assert_eq!(groups.len(), 1);
    assert_eq!(paths(&groups[0]), vec!["a/one".to_string(), "b/two".to_string()]);
}

#[test]
fn name_and_size_requires_both_to_match() {
    let files = vec![
        cand("a/x", "x", 5, b"aaaaa"),
        cand("b/x", "x", 6, b"bbbbbb"),
        cand("c/x", "x", 5, b"ccccc"),
    ];
    let (groups, reports) = find_duplicate_files(files, Algorithm::NameAndSize);
    assert_eq!(groups.len(), 1);
    assert_eq!(paths(&groups[0]), vec!["a/x".to_string(), "c/x".to_string()]);
    assert_eq!(reports[0].groups, 1);
    assert_eq!(reports[1].groups, 1);
}

#[test]
fn prefix_equal_but_tail_differs_splits_in_full_mode() {
    let mut one = vec![0u8; 5000];
    let mut two = vec![0u8; 5000];
    one[4999] = 1;
    two[4999] = 2;
    let files = vec![
        cand("a/big1", "big1", 5000, &one),
        cand("b/big2", "big2", 5000, &two),
    ];
    let (groups, reports) = find_duplicate_files(files, Algorithm::FullContent);
    assert!(groups.is_empty());
    // size, 1024-byte and 4096-byte prefixes all agree; the full hash splits
    assert_eq!(reports[0].groups, 1);
    assert_eq!(reports[1].groups, 1);
    assert_eq!(reports[2].groups, 1);
    assert_eq!(reports[3].groups, 0);
}

#[test]
fn prefix_equal_tail_differs_stays_grouped_in_fuzzy_mode() {
    let mut one = vec![0u8; 5000];
    let mut two = vec![0u8; 5000];
    one[4999] = 1;
    two[4999] = 2;
    let files = vec![
        cand("a/big1", "big1", 5000, &one),
        cand("b/big2", "big2", 5000, &two),
    ];
    let (groups, _) = find_duplicate_files(files, Algorithm::FuzzyContent);
    assert_eq!(groups.len(), 1);
    assert_eq!(groups[0].len(), 2);
}

#[test]
fn below_threshold_is_excluded_entirely() {
    let files = vec![
        cand("a/small", "same", 2, b"hello"),
        cand("b/large", "same", 5, b"hello"),
    ];
    let kept = filter_by_min_size(&files, 3);
    assert_eq!(kept.len(), 1);
    assert_eq!(kept[0].path, "b/large");
    let (groups, _) = find_duplicate_files(kept, Algorithm::Name);
    assert!(groups.is_empty());
}

#[test]
fn threshold_is_strict_and_unknown_sizes_are_dropped() {
    let files = vec![
        cand("a/x", "x", 5, b"hello"),
        FileCandidate {
            path: "b/y".to_string(),
            name: "y".to_string(),
            size: None,
            content: Some(b"hello".to_vec()),
        },
        cand("c/z", "z", 6, b"hello!"),
    ];
    let kept = filter_by_min_size(&files, 5);
    assert_eq!(kept.len(), 1);
    assert_eq!(kept[0].path, "c/z");
}

#[test]
fn pipeline_is_deterministic_on_same_input() {
    let files = vec![
        cand("a/x", "x", 5, b"hello"),
        cand("b/x", "x", 5, b"hello"),
        cand("c/y", "y", 5, b"world"),
        cand("d/y", "y", 5, b"world"),
    ];
    let files2: Vec<FileCandidate> = files.iter().map(|c| c.clone()).collect();
    let (g1, _) = find_duplicate_files(files, Algorithm::FullContent);
    let (g2, _) = find_duplicate_files(files2, Algorithm::FullContent);
    let p1: Vec<Vec<String>> = g1.iter().map(|g| paths(g)).collect();
    let p2: Vec<Vec<String>> = g2.iter().map(|g| paths(g)).collect();
    assert_eq!(p1, p2);
}

#[test]
fn later_stages_refine_earlier_groups() {
    let files = vec![
        cand("a/1", "1", 4, b"aaaa"),
        cand("b/2", "2", 4, b"aaaa"),
        cand("c/3", "3", 4, b"bbbb"),
        cand("d/4", "4", 4, b"bbbb"),
        cand("e/5", "5", 9, b"ccccccccc"),
    ];
    let files2: Vec<FileCandidate> = files.iter().map(|c| c.clone()).collect();
    let (by_size, _) = find_duplicate_files(files2, Algorithm::Size);
    let (fuzzy, _) = find_duplicate_files(files, Algorithm::FuzzyContent);
    // every fuzzy group sits wholly inside one of the size groups
    for g in &fuzzy {
        let gp = paths(g);
        assert!(by_size.iter().any(|h| {
            let hp = paths(h);
            gp.iter().all(|p| hp.contains(p))
        }));
    }
}

#[test]
fn unreadable_content_is_dropped_at_hash_stages() {
    let files = vec![
        cand("a/x", "x", 5, b"hello"),
        cand("b/y", "y", 5, b"hello"),
        FileCandidate {
            path: "c/z".to_string(),
            name: "z".to_string(),
            size: Some(5),
            content: None,
        },
    ];
    let (groups, _) = find_duplicate_files(files, Algorithm::FullContent);
    assert_eq!(groups.len(), 1);
    assert_eq!(paths(&groups[0]), vec!["a/x".to_string(), "b/y".to_string()]);
}
