use gitviz::models::stats::{
    AnalysisResult, BranchGraph, BranchInfo, CommitTimelineEntry, ContributorStats, LanguageCounts, RepoOverview,
};
use gitviz::tui_ui::app::{App, InputMode, ViewMode};
use gitviz::tui_ui::event::{handle_key, Key};
use gitviz::tui_ui::render::{
    branch_labels, count_label, count_total_fits, counted_title, email_label, header_title, help_text,
    language_chart, merge_label, mode_text, rank_label, timeline_title, try_overview_rows, try_timeline_labels,
};

fn entry(hash: &str, author: &str, message: &str, date: i64, branches: &[&str]) -> CommitTimelineEntry {
    CommitTimelineEntry {
        hash: hash.to_string(),
        short_hash: hash.chars().take(7).collect(),
        author: author.to_string(),
        date,
        message: message.to_string(),
        branch_names: branches.iter().map(|b| b.to_string()).collect(),
    }
}

fn analysis() -> AnalysisResult {
    let mut a = AnalysisResult::default();
    a.timeline = vec![
        entry("aaaaaaaaaa", "Ann", "Fix the parser", 1609459200, &["main", "dev"]),
        entry("bbbbbbbbbb", "Bob", "add docs", 1609372800, &[]),
        entry("cccccccccc", "Ann", "tidy", 1609286400, &[]),
    ];
    a.contributors = vec![ContributorStats {
        name: "Ann".to_string(),
        email: "ann@x".to_string(),
        commit_count: 2,
        additions: 16,
        deletions: 0,
    }];
    a.branch_graph = Some(BranchGraph {
        branches: vec![BranchInfo { name: "main".to_string(), commit_hashes: vec!["aaaaaaaaaa".to_string()], is_head: true }],
        merge_points: vec![],
    });
    a
}

#[test]
fn views_cycle_through_the_tabs() {
    assert_eq!(ViewMode::Overview.next(), ViewMode::Timeline);
    assert_eq!(ViewMode::Branches.next(), ViewMode::Overview);
    assert_eq!(ViewMode::Overview.prev(), ViewMode::Branches);
    for v in ViewMode::all() {
        assert_eq!(v.next().prev(), v);
        assert_eq!(v.prev().next(), v);
        assert_eq!(v.next().next().next().next().next(), v);
    }
    assert_eq!(ViewMode::Hotspots.title(), "Hotspots");
    assert_eq!(ViewMode::Branches.index(), 4);
}

#[test]
fn scrolling_stays_within_the_list() {
    let mut app = App::new(analysis(), "/r".to_string());
    assert_eq!(app.current_scroll(), 0);
    app.scroll_down();
    assert_eq!(app.current_scroll(), 0);
    app.current_view = ViewMode::Timeline;
    assert_eq!(app.scroll_max(), 2);
    app.scroll_down();
    app.scroll_down();
    app.scroll_down();
    assert_eq!(app.timeline_scroll, 2);
    app.scroll_up();
    assert_eq!(app.timeline_scroll, 1);
    app.scroll_top();
    assert_eq!(app.timeline_scroll, 0);
    app.scroll_up();
    assert_eq!(app.timeline_scroll, 0);
    app.scroll_bottom();
    assert_eq!(app.current_scroll(), 2);
    app.current_view = ViewMode::Contributors;
    app.scroll_down();
    assert_eq!(app.contributors_scroll, 0);
    app.current_view = ViewMode::Hotspots;
    app.scroll_bottom();
    assert_eq!(app.hotspots_scroll, 0);
}

#[test]
fn keys_while_browsing() {
    let mut app = App::new(analysis(), "/r".to_string());
    handle_key(&mut app, Key::Char('l'));
    assert_eq!(app.current_view, ViewMode::Timeline);
    handle_key(&mut app, Key::Char('h'));
    assert_eq!(app.current_view, ViewMode::Overview);
    handle_key(&mut app, Key::Left);
    assert_eq!(app.current_view, ViewMode::Branches);
    handle_key(&mut app, Key::Char('2'));
    assert_eq!(app.current_view, ViewMode::Timeline);
    handle_key(&mut app, Key::PageDown);
    assert_eq!(app.timeline_scroll, 2);
    handle_key(&mut app, Key::Char('k'));
    assert_eq!(app.timeline_scroll, 1);
    handle_key(&mut app, Key::PageUp);
    assert_eq!(app.timeline_scroll, 0);
    handle_key(&mut app, Key::Char('G'));
    assert_eq!(app.timeline_scroll, 2);
    handle_key(&mut app, Key::Char('g'));
    assert_eq!(app.timeline_scroll, 0);
    handle_key(&mut app, Key::Char('x'));
    assert!(!app.should_quit);
    handle_key(&mut app, Key::Char('q'));
    assert!(app.should_quit);
}

#[test]
fn keys_while_searching() {
    let mut app = App::new(analysis(), "/r".to_string());
    handle_key(&mut app, Key::Char('/'));
    assert_eq!(app.input_mode, InputMode::Search);
    handle_key(&mut app, Key::Char('f'));
    handle_key(&mut app, Key::Char('i'));
    handle_key(&mut app, Key::Char('q'));
    assert_eq!(app.search_query, "fiq");
    assert!(!app.should_quit);
    handle_key(&mut app, Key::Backspace);
    assert_eq!(app.search_query, "fi");
    handle_key(&mut app, Key::Enter);
    assert_eq!(app.input_mode, InputMode::Normal);
    assert_eq!(app.search_query, "fi");
    handle_key(&mut app, Key::Char('/'));
    assert_eq!(app.search_query, "");
    handle_key(&mut app, Key::Char('z'));
    handle_key(&mut app, Key::Esc);
    assert_eq!(app.input_mode, InputMode::Normal);
    assert_eq!(app.search_query, "");
    assert!(!app.should_quit);
}

#[test]
fn search_ignores_case() {
    let mut app = App::new(analysis(), "/r".to_string());
    assert_eq!(app.filtered_timeline().len(), 3);
    app.search_query = "FIX".to_string();
    let hits = app.filtered_timeline();
    assert_eq!(hits.len(), 1);
    assert_eq!(hits[0].hash, "aaaaaaaaaa");
    app.search_query = "ann".to_string();
    assert_eq!(app.filtered_timeline().len(), 2);
    app.search_query = "BBBB".to_string();
    assert_eq!(app.filtered_timeline().len(), 1);
    app.search_query = "nothing".to_string();
    assert!(app.filtered_timeline().is_empty());
}

#[test]
fn header_footer_and_titles() {
    let mut app = App::new(analysis(), "/repo".to_string());
    assert_eq!(header_title(&app.repo_path), " GitViz - /repo ");
    assert_eq!(mode_text(&app), " NORMAL ");
    assert_eq!(help_text(&app), " h/l:switch  j/k:scroll  /:search  q:quit  1-5:goto view ");
    app.input_mode = InputMode::Search;
    app.search_query = "ab".to_string();
    assert_eq!(mode_text(&app), " SEARCH: ab ");
    assert_eq!(help_text(&app), " Enter/Esc:confirm  type to search ");
    assert_eq!(counted_title("Branches", 3), " Branches (3) ");
    assert_eq!(timeline_title(0, 12), " Commit Timeline (1/12) ");
    assert_eq!(timeline_title(usize::MAX, 1), format!(" Commit Timeline ({}/1) ", usize::MAX));
}

#[test]
fn list_labels() {
    assert_eq!(rank_label(0), "   1. ");
    assert_eq!(rank_label(41), "  42. ");
    assert_eq!(rank_label(1233), " 1234. ");
    assert_eq!(count_label(3, "commits"), " 3 commits");
    assert_eq!(email_label("a@b"), " <a@b>");
    assert_eq!(merge_label("0123456789"), " 0123456 ");
    let b = BranchInfo { name: "main".to_string(), commit_hashes: vec!["abcdef0123".to_string(), "x".to_string()], is_head: true };
    assert_eq!(branch_labels(&b), (" * ".to_string(), "2 commits | tip: abcdef0".to_string()));
    let empty = BranchInfo { name: "e".to_string(), commit_hashes: vec![], is_head: false };
    assert_eq!(branch_labels(&empty), ("   ".to_string(), "0 commits | tip: ".to_string()));
}

#[test]
fn timeline_labels_with_dates() {
    let a = analysis();
    let (h, d, b) = try_timeline_labels(&a.timeline[0]).unwrap();
    assert_eq!(h, " aaaaaaa ");
    assert_eq!(d, "2021-01-01");
    assert_eq!(b, " [main, dev]");
    let (_, d2, b2) = try_timeline_labels(&a.timeline[1]).unwrap();
    assert_eq!(d2, "2020-12-31");
    assert_eq!(b2, "");
    let far = entry("x", "A", "m", i64::MAX, &[]);
    assert!(try_timeline_labels(&far).is_none());
}

#[test]
fn overview_rows_and_languages() {
    let mut langs = LanguageCounts::new();
    langs.add_one("Python");
    langs.add_one("Rust");
    langs.add_one("Rust");
    let o = RepoOverview {
        total_commits: 7,
        total_contributors: 2,
        first_commit_date: 0,
        latest_commit_date: 86400 * 60,
        total_branches: 3,
        language_distribution: langs,
    };
    let rows = try_overview_rows(&o).unwrap();
    let values: Vec<&str> = rows.iter().map(|(_, v)| v.as_str()).collect();
    assert_eq!(values, vec!["7", "2", "3", "2 months", "1970-01-01", "1970-03-02"]);
    assert_eq!(rows[0].0, "  Commits:      ");
    assert!(count_total_fits(&o.language_distribution));
    let (shares, total) = language_chart(&o.language_distribution);
    assert_eq!(total, 3);
    assert_eq!(shares[0].name, "Rust");
    assert_eq!(shares[0].count, 2);
    assert_eq!(shares[1].name, "Python");
    let reversed = RepoOverview { first_commit_date: 10, latest_commit_date: 5, ..o };
    assert_eq!(try_overview_rows(&reversed).unwrap()[3].1, "N/A");
}

#[test]
fn day_labels_across_the_calendar() {
    let cases: [(i64, &str); 17] = [
        (0, "1970-01-01"),
        (-1, "1969-12-31"),
        (86399, "1970-01-01"),
        (86400, "1970-01-02"),
        (951782400, "2000-02-29"),
        (1709251199, "2024-02-29"),
        (1709251200, "2024-03-01"),
        (-2208988800, "1900-01-01"),
        (-30610224000, "1000-01-01"),
        (-62135596800, "0001-01-01"),
        (-62135596801, "0000-12-31"),
        (-62167219200, "0000-01-01"),
        (-62167219201, "-0001-12-31"),
        (253402300799, "9999-12-31"),
        (253402300800, "+10000-01-01"),
        (-8334601228800, "-262143-01-01"),
        (8210266876799, "+262142-12-31"),
    ];
    for (secs, want) in cases.iter() {
        let (_, d, _) = try_timeline_labels(&entry("abc", "A", "m", *secs, &[])).unwrap();
        assert_eq!(d, *want, "{}", secs);
    }
    assert!(try_timeline_labels(&entry("abc", "A", "m", 8210266876800, &[])).is_none());
}
