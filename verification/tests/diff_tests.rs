use gitviz::analyzer::diff::{compute_diff_stat, count_line_diff, longest_common_subsequence_len, TreeFiles};
use gitviz::analyzer::paths::path_key_of;

#[test]
fn test_lcs_len() {
    assert_eq!(longest_common_subsequence_len(&[1, 2, 3], &[1, 2, 3]), 3);
    assert_eq!(longest_common_subsequence_len(&[1, 2, 3], &[4, 5, 6]), 0);
    assert_eq!(longest_common_subsequence_len(&[1, 2, 3], &[2, 3, 4]), 2);
    assert_eq!(longest_common_subsequence_len::<i32>(&[], &[]), 0);
}

#[test]
fn test_count_line_diff_identical() {
    let (add, del) = count_line_diff("hello\nworld", "hello\nworld");
    assert_eq!(add, 0);
    assert_eq!(del, 0);
}

#[test]
fn test_count_line_diff_additions() {
    let (add, del) = count_line_diff("hello", "hello\nworld");
    assert!(add > 0);
    assert_eq!(del, 0);
}

#[test]
fn test_compute_diff_stat_new_file() {
    let mut current = TreeFiles::new();
    current.insert("new.txt".to_string(), "content".to_string());
    let parent = TreeFiles::new();

    let result = compute_diff_stat(&current, &parent);
    assert_eq!(result.changes.len(), 1);
    assert!(result.total_additions > 0);
}

#[test]
fn tree_files_read_back_what_was_stored() {
    let mut t = TreeFiles::new();
    assert!(t.is_empty());
    t.insert("a".to_string(), "one".to_string());
    t.insert("b".to_string(), "two".to_string());
    t.insert("a".to_string(), "three".to_string());
    assert_eq!(t.len(), 2);
    assert_eq!(t.get("a"), Some(&"three".to_string()));
    assert_eq!(t.get("b"), Some(&"two".to_string()));
    assert_eq!(t.get("c"), None);
    assert!(t.contains_key("b"));
    assert!(!t.contains_key("c"));
}

#[test]
fn diff_stat_lists_changed_added_and_removed_files() {
    let mut current = TreeFiles::new();
    current.insert("same.txt".to_string(), "x\ny".to_string());
    current.insert("changed.txt".to_string(), "a\nb\nc".to_string());
    current.insert("new.txt".to_string(), "1\n2".to_string());
    let mut parent = TreeFiles::new();
    parent.insert("same.txt".to_string(), "x\ny".to_string());
    parent.insert("changed.txt".to_string(), "a\nc\nd".to_string());
    parent.insert("gone.txt".to_string(), "p\nq\nr".to_string());
    let r = compute_diff_stat(&current, &parent);
    let got: Vec<(&str, u64, u64)> = r.changes.iter().map(|c| (c.path.as_str(), c.additions, c.deletions)).collect();
    assert_eq!(got, vec![("changed.txt", 1, 1), ("new.txt", 2, 0), ("gone.txt", 0, 3)]);
    assert_eq!(r.total_additions, 3);
    assert_eq!(r.total_deletions, 4);
    let same = compute_diff_stat(&current, &current);
    assert!(same.changes.is_empty());
    assert_eq!((same.total_additions, same.total_deletions), (0, 0));
}

#[test]
fn diff_stat_reversed_exchanges_additions_and_deletions() {
    let mut current = TreeFiles::new();
    current.insert("same.txt".to_string(), "x\ny".to_string());
    current.insert("changed.txt".to_string(), "a\nb\nc".to_string());
    current.insert("new.txt".to_string(), "1\n2".to_string());
    let mut parent = TreeFiles::new();
    parent.insert("gone.txt".to_string(), "p\nq\nr".to_string());
    parent.insert("changed.txt".to_string(), "a\nc\nd\ne".to_string());
    parent.insert("same.txt".to_string(), "x\ny".to_string());
    let forward = compute_diff_stat(&current, &parent);
    let backward = compute_diff_stat(&parent, &current);
    let mut f: Vec<(String, u64, u64)> =
        forward.changes.iter().map(|c| (c.path.clone(), c.deletions, c.additions)).collect();
    let mut b: Vec<(String, u64, u64)> =
        backward.changes.iter().map(|c| (c.path.clone(), c.additions, c.deletions)).collect();
    f.sort();
    b.sort();
    assert_eq!(f, b);
    assert_eq!(backward.total_additions, forward.total_deletions);
    assert_eq!(backward.total_deletions, forward.total_additions);
    assert_eq!((forward.total_additions, forward.total_deletions), (3, 5));
}

#[test]
fn paths_are_compared_as_paths() {
    assert_eq!(path_key_of("a//b"), "a/b");
    assert_eq!(path_key_of("a/./b/"), "a/b");
    assert_eq!(path_key_of("./a"), "./a");
    assert_eq!(path_key_of("."), ".");
    assert_eq!(path_key_of("./"), ".");
    assert_eq!(path_key_of("/x//y"), "/x/y");
    assert_eq!(path_key_of(""), "");
    assert_eq!(path_key_of("a/../b"), "a/../b");
    assert_eq!(path_key_of(".a/b"), ".a/b");

    let mut t = TreeFiles::new();
    t.insert("src/a.rs".to_string(), "one".to_string());
    t.insert("src//a.rs".to_string(), "two".to_string());
    assert_eq!(t.len(), 1);
    assert_eq!(t.get("src/./a.rs"), Some(&"two".to_string()));
    assert!(t.contains_key("src/a.rs/"));
    assert!(!t.contains_key("./src/a.rs"));

    let mut current = TreeFiles::new();
    current.insert("dir//f.txt".to_string(), "x\ny".to_string());
    let mut parent = TreeFiles::new();
    parent.insert("dir/f.txt".to_string(), "x\ny".to_string());
    let r = compute_diff_stat(&current, &parent);
    assert!(r.changes.is_empty());
    parent.insert("dir/./f.txt".to_string(), "x".to_string());
    let r = compute_diff_stat(&current, &parent);
    assert_eq!(r.changes.len(), 1);
    assert_eq!(r.changes[0].path, "dir//f.txt");
    assert_eq!((r.changes[0].additions, r.changes[0].deletions), (1, 0));
}

#[test]
fn path_keys_agree_with_std_paths() {
    let samples = [
        "", ".", "./", "./a", "a", "a/", "a//", "a/.", "a/./", "/", "//", "/.", "/a", "/a/", "a/b", "a//b", "a/./b",
        "./a/b", ".//a/b", "a/../b", "a/b/..", ".a", "..", "../a", "a/.b", "./.", "x/./.", "/./a",
    ];
    for a in samples.iter() {
        for b in samples.iter() {
            let same_path = std::path::Path::new(a) == std::path::Path::new(b);
            assert_eq!(same_path, path_key_of(a) == path_key_of(b), "{:?} {:?}", a, b);
        }
    }
}
