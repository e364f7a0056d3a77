use gitviz::git_parser::repo::{
    can_tally, child_path, expect_commit, expect_tree, merge_branches, parse_commondir, parse_gitdir_file, parse_packed_refs,
    tally_entry, CommitWalk,
};
use gitviz::models::git_object::{AuthorInfo, Branch, Commit, GitObject, GitObjectType, GitVizError, TreeEntry, TreeEntryType};
use gitviz::models::stats::LanguageCounts;

fn branch(name: &str, hash: &str, is_head: bool) -> Branch {
    Branch { name: name.to_string(), commit_hash: hash.to_string(), is_head }
}

fn commit(hash: &str, parents: &[&str]) -> Commit {
    let who = AuthorInfo { name: "A".to_string(), email: "a@x".to_string(), timestamp: 0, timezone_offset: 0 };
    Commit {
        hash: hash.to_string(),
        tree_hash: "t".to_string(),
        parent_hashes: parents.iter().map(|p| p.to_string()).collect(),
        author: who.clone(),
        committer: who,
        message: "m".to_string(),
    }
}

#[test]
fn packed_refs_list_heads_only() {
    let content = "# pack-refs with: peeled fully-peeled sorted\n\
                   1111 refs/heads/main\n\
                   2222 refs/tags/v1\n\
                   ^3333\n\
                   \n\
                   4444   refs/heads/feature/x  \n\
                   5555\n";
    let bs = parse_packed_refs(content, Some("4444"));
    assert_eq!(bs.len(), 2);
    assert_eq!(bs[0].name, "main");
    assert_eq!(bs[0].commit_hash, "1111");
    assert!(!bs[0].is_head);
    assert_eq!(bs[1].name, "feature/x");
    assert!(bs[1].is_head);
    assert!(parse_packed_refs(content, None).iter().all(|b| !b.is_head));
}

#[test]
fn branches_are_merged_once_and_head_marked() {
    let loose = vec![branch("main", "1111", false), branch("dev", "2222", false)];
    let packed = vec![branch("main", "9999", false), branch("old", "3333", false), branch("old", "4444", false)];
    let bs = merge_branches(loose, packed, Some("2222"));
    let names: Vec<&str> = bs.iter().map(|b| b.name.as_str()).collect();
    assert_eq!(names, vec!["main", "dev", "old"]);
    assert_eq!(bs[0].commit_hash, "1111");
    assert_eq!(bs[2].commit_hash, "3333");
    let heads: Vec<bool> = bs.iter().map(|b| b.is_head).collect();
    assert_eq!(heads, vec![false, true, false]);
}

#[test]
fn detached_head_is_listed() {
    let loose = vec![branch("main", "1111", false)];
    let bs = merge_branches(loose, vec![], Some("7777"));
    assert_eq!(bs.len(), 2);
    assert_eq!(bs[1].name, "HEAD (detached)");
    assert_eq!(bs[1].commit_hash, "7777");
    assert!(bs[1].is_head);
    assert!(!bs[0].is_head);
    let none = merge_branches(vec![branch("main", "1111", true)], vec![], None);
    assert_eq!(none.len(), 1);
    assert!(none[0].is_head);
}

#[test]
fn walk_loads_each_commit_once() {
    // a <- b <- d, a <- c <- d (d merges b and c); two branches at d and c.
    let graph = vec![commit("d", &["b", "c"]), commit("b", &["a"]), commit("c", &["a"]), commit("a", &[])];
    let mut walk = CommitWalk::new(&[branch("main", "d", true), branch("side", "c", false)]);
    let mut asked = Vec::new();
    while let Some(h) = walk.next_hash() {
        asked.push(h.clone());
        let loaded = graph.iter().find(|c| c.hash == h).cloned();
        walk.deliver(loaded);
    }
    assert_eq!(asked, vec!["d", "c", "b", "a"]);
    let commits = walk.into_commits();
    let hashes: Vec<&str> = commits.iter().map(|c| c.hash.as_str()).collect();
    assert_eq!(hashes, vec!["d", "c", "b", "a"]);
}

#[test]
fn walk_passes_over_missing_commits() {
    let mut walk = CommitWalk::new(&[branch("main", "x", true)]);
    assert_eq!(walk.next_hash(), Some("x".to_string()));
    walk.deliver(None);
    assert_eq!(walk.next_hash(), None);
    assert!(walk.into_commits().is_empty());
}

#[test]
fn tree_entries_are_tallied() {
    let mut langs = LanguageCounts::new();
    let file = TreeEntry {
        mode: "100644".to_string(),
        name: "main.rs".to_string(),
        hash: "h1".to_string(),
        entry_type: TreeEntryType::Blob,
    };
    let dir = TreeEntry { mode: "40000".to_string(), name: "src".to_string(), hash: "h2".to_string(), entry_type: TreeEntryType::Tree };
    let sub = TreeEntry { mode: "160000".to_string(), name: "dep".to_string(), hash: "h3".to_string(), entry_type: TreeEntryType::Commit };
    let other = TreeEntry { mode: "100644".to_string(), name: "README".to_string(), hash: "h4".to_string(), entry_type: TreeEntryType::Blob };
    assert_eq!(tally_entry(&file, &mut langs), None);
    assert_eq!(tally_entry(&file, &mut langs), None);
    assert_eq!(tally_entry(&dir, &mut langs), Some("h2".to_string()));
    assert_eq!(tally_entry(&sub, &mut langs), None);
    assert_eq!(tally_entry(&other, &mut langs), None);
    assert_eq!(langs.get("Rust"), Some(2));
    assert_eq!(langs.len(), 1);
    assert!(langs.can_count_more("Rust"));
    assert!(can_tally(&file, &langs));
    assert_eq!(child_path("", "src"), "src");
    assert_eq!(child_path("src", "main.rs"), "src/main.rs");
}

#[test]
fn objects_of_the_wrong_type_are_refused() {
    let blob = GitObject { obj_type: GitObjectType::Blob, hash: "h".to_string(), size: 0, content: vec![] };
    match expect_commit(&blob, "h") {
        Err(GitVizError::InvalidFormat(m)) => assert_eq!(m, "expected commit, got blob"),
        r => panic!("unexpected {:?}", r),
    }
    match expect_tree(&blob, "h") {
        Err(GitVizError::InvalidFormat(m)) => assert_eq!(m, "expected tree, got blob"),
        r => panic!("unexpected {:?}", r),
    }
    let mut content = b"100644 a.py\0".to_vec();
    content.extend_from_slice(&[1u8; 20]);
    let tree = GitObject { obj_type: GitObjectType::Tree, hash: "t".to_string(), size: content.len(), content };
    let t = expect_tree(&tree, "t").unwrap();
    assert_eq!(t.entries[0].name, "a.py");
    assert_eq!(t.entries[0].hash, "0101010101010101010101010101010101010101");
    let text = b"tree t\nparent p\nauthor A <a@b.c> 5 +0100\ncommitter B <b@b.c> 6 -0100\n\nhi\n".to_vec();
    let obj = GitObject { obj_type: GitObjectType::Commit, hash: "c".to_string(), size: text.len(), content: text };
    let c = expect_commit(&obj, "c").unwrap();
    assert_eq!(c.parent_hashes, vec!["p".to_string()]);
    assert_eq!(c.committer.timezone_offset, -60);
    assert_eq!(c.message, "hi");
}

#[test]
fn gitdir_and_commondir_files() {
    assert_eq!(parse_gitdir_file("gitdir: ../.git/worktrees/x\nmore"), Some("../.git/worktrees/x".to_string()));
    assert_eq!(parse_gitdir_file("  gitdir:/abs  "), Some("/abs".to_string()));
    assert_eq!(parse_gitdir_file("something else"), None);
    assert_eq!(parse_gitdir_file(""), None);
    assert_eq!(parse_commondir("../..\n"), Some("../..".to_string()));
    assert_eq!(parse_commondir("  \n"), None);
}

#[test]
fn language_counts_go_up_by_one() {
    let mut langs = LanguageCounts::new();
    langs.add_one("Go");
    langs.add_one("C");
    langs.add_one("Go");
    assert_eq!(langs.get("Go"), Some(2));
    assert_eq!(langs.get("C"), Some(1));
    assert_eq!(langs.get("Java"), None);
    let names: Vec<&str> = langs.entries().iter().map(|(n, _)| n.as_str()).collect();
    assert_eq!(names, vec!["Go", "C"]);
    let copy = langs.duplicate();
    assert_eq!(copy.get("Go"), Some(2));
}
