use gitviz::analyzer::diff::{count_line_diff, estimate_commit_changes, longest_common_subsequence_len, TreeFiles};
use gitviz::analyzer::stats::{
    build_analysis, build_branch_graph, build_contributor_stats, build_daily_commit_counts, build_file_hotspots,
    build_overview, build_timeline, format_duration, hash_cuts_cleanly, is_analysable, short_hash_of,
};
use gitviz::models::git_object::{AuthorInfo, Branch, Commit};
use gitviz::models::stats::LanguageCounts;

fn person(name: &str, email: &str, ts: i64) -> AuthorInfo {
    AuthorInfo { name: name.to_string(), email: email.to_string(), timestamp: ts, timezone_offset: 0 }
}

fn commit(hash: &str, parents: &[&str], name: &str, email: &str, ts: i64, msg: &str) -> Commit {
    Commit {
        hash: hash.to_string(),
        tree_hash: "tree".to_string(),
        parent_hashes: parents.iter().map(|p| p.to_string()).collect(),
        author: person(name, email, ts),
        committer: person(name, email, ts),
        message: msg.to_string(),
    }
}

fn branch(name: &str, hash: &str, is_head: bool) -> Branch {
    Branch { name: name.to_string(), commit_hash: hash.to_string(), is_head }
}

fn history() -> Vec<Commit> {
    vec![
        commit("cccccccccc", &["bbbbbbbbbb", "dddddddddd"], "Ann", "ann@x", 300_000, "Merge side\n\ndetails"),
        commit("bbbbbbbbbb", &["aaaaaaaaaa"], "Bob", "bob@x", 200_000, "fix src/ parser"),
        commit("dddddddddd", &["aaaaaaaaaa"], "Ann", "ann@x", 150_000, "docs/ update"),
        commit("aaaaaaaaaa", &[], "Ann", "ann@x", 100_000, "initial"),
    ]
}

#[test]
fn lcs_laws_on_values() {
    let a = [1, 2, 3, 4];
    let b = [2, 4, 1];
    assert_eq!(longest_common_subsequence_len(&a, &b), longest_common_subsequence_len(&b, &a));
    assert_eq!(longest_common_subsequence_len(&a, &a), 4);
    assert!(longest_common_subsequence_len(&a, &b) <= 3);
}

#[test]
fn line_diff_swaps_when_reversed() {
    let (add, del) = count_line_diff("a\nb\nc", "a\nx\nc\nd");
    let (add2, del2) = count_line_diff("a\nx\nc\nd", "a\nb\nc");
    assert_eq!((add, del), (2, 1));
    assert_eq!((add2, del2), (del, add));
}

#[test]
fn commit_changes_are_estimated_from_the_first_parent_tree() {
    let c = commit("h", &["p"], "A", "a@x", 0, "m");
    let mut parent = TreeFiles::new();
    parent.insert("a.txt".to_string(), "one\ntwo\n".to_string());
    assert_eq!(estimate_commit_changes(&c, &[parent]), (1, 0));
    let root = commit("h", &[], "A", "a@x", 0, "m");
    assert_eq!(estimate_commit_changes(&root, &[]), (1, 0));
}

#[test]
fn contributors_are_ranked_by_commits() {
    let stats = build_contributor_stats(&history());
    assert_eq!(stats.len(), 2);
    assert_eq!(stats[0].email, "ann@x");
    assert_eq!(stats[0].commit_count, 3);
    // Three lines of message give 3 * 3 + 5, one line gives 3 + 5 each.
    assert_eq!(stats[0].additions, 14 + 8 + 8);
    assert_eq!(stats[1].name, "Bob");
    assert_eq!(stats[1].commit_count, 1);
    assert_eq!(stats[1].deletions, 0);
}

#[test]
fn overview_counts_and_dates() {
    let mut langs = LanguageCounts::new();
    langs.add_one("Rust");
    langs.add_one("Rust");
    let branches = vec![branch("main", "cccccccccc", true)];
    let o = build_overview(&history(), &branches, &langs);
    assert_eq!(o.total_commits, 4);
    assert_eq!(o.total_contributors, 2);
    assert_eq!(o.first_commit_date, 100_000);
    assert_eq!(o.latest_commit_date, 300_000);
    assert_eq!(o.total_branches, 1);
    assert_eq!(o.language_distribution.get("Rust"), Some(2));
    let empty = build_overview(&[], &[], &LanguageCounts::new());
    assert_eq!(empty.first_commit_date, 0);
    assert_eq!(empty.total_contributors, 0);
}

#[test]
fn hotspots_come_from_messages() {
    let hs = build_file_hotspots(&history());
    assert_eq!(hs.len(), 2);
    assert_eq!(hs[0].path, "src");
    // `docs/ update` names docs and speaks of an update; `fix src/ parser`
    // names src and speaks of a fix.
    assert_eq!(hs[0].change_count, 3);
    assert_eq!(hs[0].total_additions, 3 + 5 + 3);
    assert_eq!(hs[0].total_deletions, 2);
    assert_eq!(hs[1].path, "docs");
    assert_eq!(hs[1].change_count, 1);
}

#[test]
fn timeline_is_newest_first() {
    let branches = vec![branch("main", "cccccccccc", true), branch("side", "dddddddddd", false)];
    let t = build_timeline(&history(), &branches);
    let dates: Vec<i64> = t.iter().map(|e| e.date).collect();
    assert_eq!(dates, vec![300_000, 200_000, 150_000, 100_000]);
    assert_eq!(t[0].short_hash, "ccccccc");
    assert_eq!(t[0].message, "Merge side");
    assert_eq!(t[0].branch_names, vec!["main".to_string()]);
    assert_eq!(t[2].branch_names, vec!["side".to_string()]);
    assert!(t[3].branch_names.is_empty());
}

#[test]
fn branch_graph_follows_first_parents() {
    let branches = vec![branch("main", "cccccccccc", true), branch("side", "dddddddddd", false)];
    let g = build_branch_graph(&history(), &branches);
    assert_eq!(g.branches[0].commit_hashes, vec!["cccccccccc", "bbbbbbbbbb", "aaaaaaaaaa"]);
    assert_eq!(g.branches[1].commit_hashes, vec!["dddddddddd", "aaaaaaaaaa"]);
    assert!(g.branches[0].is_head);
    assert_eq!(g.merge_points.len(), 1);
    assert_eq!(g.merge_points[0].merge_commit_hash, "cccccccccc");
    assert_eq!(g.merge_points[0].target_branch, "bbbbbbb");
    assert_eq!(g.merge_points[0].source_branch, "ddddddd");
}

#[test]
fn branch_graph_walk_stops_on_a_cycle() {
    let cyclic = vec![commit("x", &["y"], "A", "a@x", 0, "m"), commit("y", &["x"], "A", "a@x", 0, "m")];
    let g = build_branch_graph(&cyclic, &[branch("b", "x", false)]);
    assert_eq!(g.branches[0].commit_hashes, vec!["x", "y"]);
    let missing = build_branch_graph(&cyclic, &[branch("b", "zzz", false)]);
    assert!(missing.branches[0].commit_hashes.is_empty());
}

#[test]
fn daily_counts_are_grouped_and_ordered() {
    let cs = vec![
        commit("a", &[], "A", "a@x", 86400 * 3 + 5, "m"),
        commit("b", &[], "A", "a@x", 86400 + 10, "m"),
        commit("c", &[], "A", "a@x", 86400 * 3 + 100, "m"),
        commit("d", &[], "A", "a@x", -10, "m"),
    ];
    let counts = build_daily_commit_counts(&cs);
    let got: Vec<(i64, usize)> = counts.iter().map(|d| (d.date, d.count)).collect();
    assert_eq!(got, vec![(-86400, 1), (86400, 1), (86400 * 3, 2)]);
}

#[test]
fn durations_in_words() {
    assert_eq!(format_duration(100, 50), "less than a day");
    assert_eq!(format_duration(0, 86399), "less than a day");
    assert_eq!(format_duration(0, 86400 * 365 * 2 + 86400 * 10), "2 years");
    assert_eq!(format_duration(0, 86400), "1 days");
}

#[test]
fn short_hashes() {
    assert_eq!(short_hash_of("0123456789"), "0123456");
    assert_eq!(short_hash_of("abc"), "abc");
    assert!(hash_cuts_cleanly("abcdefgh"));
    assert!(!hash_cuts_cleanly("abcdefé"));
}

#[test]
fn whole_analysis() {
    let commits = history();
    assert!(is_analysable(&commits));
    let branches = vec![branch("main", "cccccccccc", true)];
    let r = build_analysis(&commits, &branches, &LanguageCounts::new());
    assert_eq!(r.overview.unwrap().total_commits, 4);
    assert_eq!(r.contributors.len(), 2);
    assert_eq!(r.timeline.len(), 4);
    assert_eq!(r.branch_graph.unwrap().branches.len(), 1);
    assert_eq!(r.daily_counts.len(), 3);
    let mut bad = history();
    bad[0].author.timestamp = i64::MAX;
    assert!(!is_analysable(&bad));
}

#[test]
fn daily_counts_add_up_to_the_commits() {
    let commits = history();
    let counts = build_daily_commit_counts(&commits);
    let total: usize = counts.iter().map(|d| d.count).sum();
    assert_eq!(total, commits.len());
    let stats = build_contributor_stats(&commits);
    let per_author: usize = stats.iter().map(|s| s.commit_count).sum();
    assert_eq!(per_author, commits.len());
}
