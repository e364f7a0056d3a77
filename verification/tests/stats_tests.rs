use gitviz::analyzer::stats::{build_daily_commit_counts, format_duration};
use gitviz::models::git_object::{AuthorInfo, Commit};

#[test]
fn test_format_duration_days() {
    let from: i64 = 0;
    let to: i64 = 86400 * 5;
    assert_eq!(format_duration(from, to), "5 days");
}

#[test]
fn test_format_duration_months() {
    let from: i64 = 0;
    let to: i64 = 86400 * 60;
    assert_eq!(format_duration(from, to), "2 months");
}

#[test]
fn test_format_duration_years() {
    let from: i64 = 0;
    let to: i64 = 86400 * 400;
    assert_eq!(format_duration(from, to), "1 years 1 months");
}

#[test]
fn test_build_daily_commit_counts() {
    let dt: i64 = 1609459200;
    let commit = Commit {
        hash: "abc".to_string(),
        tree_hash: "tree".to_string(),
        parent_hashes: vec![],
        author: AuthorInfo {
            name: "Test".to_string(),
            email: "test@test.com".to_string(),
            timestamp: dt,
            timezone_offset: 0,
        },
        committer: AuthorInfo {
            name: "Test".to_string(),
            email: "test@test.com".to_string(),
            timestamp: dt,
            timezone_offset: 0,
        },
        message: "test".to_string(),
    };

    let counts = build_daily_commit_counts(&[commit]);
    assert_eq!(counts.len(), 1);
    assert_eq!(counts[0].count, 1);
}
