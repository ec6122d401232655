use git_extend::commands::list::{
    assemble_branches, count_changes, current_branch_name, execute, get_repo_status,
    parse_output_format, parse_tracking_line, BranchStatus, ListError, OutputFormat, RepoStatus,
};
use git_extend::commands::render::{render_dump, render_flat, status_piece, Piece, Tint};
use git_extend::commands::tree::{build_tree_structure, relative_of, render_tree, sort_by_path};

fn strings(v: &[&str]) -> Vec<String> {
    v.iter().map(|s| s.to_string()).collect()
}

fn text(p: &[Piece]) -> String {
    p.iter().map(|x| x.text.as_str()).collect()
}

#[test]
fn head_names() {
    assert_eq!(current_branch_name(&Some("refs/heads/main".to_string())), "main");
    assert_eq!(current_branch_name(&Some("refs/heads/feat/x".to_string())), "feat/x");
    assert_eq!(current_branch_name(&Some("refs/tags/v1".to_string())), "HEAD");
    assert_eq!(current_branch_name(&None), "HEAD");
}

#[test]
fn porcelain_counts() {
    assert_eq!(count_changes(&b"".to_vec()), (0, 0));
    assert_eq!(count_changes(&b" M a\nA  b\n?? c\n?? d\n?? e\n\n".to_vec()), (2, 3));
    assert_eq!(count_changes(&b"   x\nM\n?".to_vec()), (3, 0));
    assert_eq!(count_changes(&b"   \n\t\r\n\n".to_vec()), (0, 0));
    assert_eq!(count_changes(&b"MM file".to_vec()), (1, 0));
}

#[test]
fn tracking_lines() {
    assert_eq!(parse_tracking_line("main"), Some(("main".to_string(), BranchStatus::NoUpstream)));
    assert_eq!(
        parse_tracking_line("main refs/remotes/origin/main"),
        Some(("main".to_string(), BranchStatus::UpToDate))
    );
    assert_eq!(
        parse_tracking_line("dev refs/remotes/origin/dev [ahead 3]"),
        Some(("dev".to_string(), BranchStatus::Ahead(3)))
    );
    assert_eq!(
        parse_tracking_line("dev refs/remotes/origin/dev [behind 12]"),
        Some(("dev".to_string(), BranchStatus::Behind(12)))
    );
    assert_eq!(
        parse_tracking_line("x refs/remotes/o/x [ahead 2, behind 5]"),
        Some(("x".to_string(), BranchStatus::Diverged { ahead: 2, behind: 5 }))
    );
    assert_eq!(parse_tracking_line("x refs/remotes/o/x [gone]"), Some(("x".to_string(), BranchStatus::NoUpstream)));
    assert_eq!(parse_tracking_line("x refs/remotes/o/x [ahead zz]"), Some(("x".to_string(), BranchStatus::Ahead(0))));
    assert_eq!(parse_tracking_line("x u/x [behind +7]"), Some(("x".to_string(), BranchStatus::Behind(7))));
    assert_eq!(
        parse_tracking_line("x u/x [ahead 99999999999999999999999]"),
        Some(("x".to_string(), BranchStatus::Ahead(0)))
    );
    assert_eq!(parse_tracking_line("   "), None);
}

#[test]
fn current_branch_then_changes_then_others() {
    let b = assemble_branches(
        &"dev".to_string(),
        &strings(&["main", "dev", "topic", "main"]),
        &strings(&["main u/main [behind 1]", "dev u/dev [ahead 4]", "stray u/stray [ahead 9]"]),
        2,
        1,
    );
    let got: Vec<(String, BranchStatus)> = b.iter().map(|x| (x.name.clone(), x.status)).collect();
    assert_eq!(
        got,
        vec![
            ("dev".to_string(), BranchStatus::Ahead(4)),
            (String::new(), BranchStatus::Uncommitted { count: 2 }),
            (String::new(), BranchStatus::Untracked { count: 1 }),
            ("main".to_string(), BranchStatus::Behind(1)),
            ("topic".to_string(), BranchStatus::NoUpstream),
        ]
    );
}

#[test]
fn no_change_entries_when_clean() {
    let b = assemble_branches(&"HEAD".to_string(), &Vec::new(), &Vec::new(), 0, 0);
    assert_eq!(b.len(), 1);
    assert_eq!(b[0].name, "HEAD");
    assert_eq!(b[0].status, BranchStatus::NoUpstream);
}

fn repo(path: &str, head: &str, porcelain: &str, local: &[&str], tracking: &[&str], origin: Option<&str>) -> RepoStatus {
    get_repo_status(
        path.to_string(),
        &Some(format!("refs/heads/{}", head)),
        &porcelain.as_bytes().to_vec(),
        &strings(local),
        &strings(tracking),
        origin.map(|s| s.to_string()),
    )
}

fn two_repos() -> Vec<RepoStatus> {
    vec![
        repo("/root/a/b/repo2", "dev", "?? x\n?? y\n", &["dev"], &["dev origin/dev [ahead 1]"], None),
        repo("/root/a/repo1", "main", "", &["main"], &["main origin/main"], Some("git@h:o/repo1.git")),
    ]
}

#[test]
fn status_texts() {
    let p = status_piece(BranchStatus::Diverged { ahead: 10, behind: 205 });
    assert_eq!(p.text, " 10 ahead 205 behind");
    assert_eq!(p.tint, Tint::Yellow);
    assert_eq!(status_piece(BranchStatus::UpToDate).tint, Tint::Green);
    assert_eq!(status_piece(BranchStatus::Untracked { count: 7 }).text, "  [ 7 untracked ]");
    assert_eq!(status_piece(BranchStatus::Untracked { count: 7 }).tint, Tint::Red);
    assert_eq!(status_piece(BranchStatus::Uncommitted { count: 0 }).text, "  [ 0 uncommitted ]");
    assert_eq!(status_piece(BranchStatus::NoUpstream).text, " no upstream");
}

#[test]
fn flat_shows_current_branch_only() {
    let out = render_flat(&two_repos());
    assert_eq!(text(&out), "/root/a/b/repo2 (dev) 1 ahead\n/root/a/repo1 (main) ok\n");
}

#[test]
fn dump_skips_repositories_without_origin() {
    let out = render_dump(&two_repos());
    assert_eq!(text(&out), "git@h:o/repo1.git main\n");
}

#[test]
fn empty_tree_has_two_lines() {
    let tree = build_tree_structure(&Vec::new(), "/root");
    let out = render_tree(&tree, &Vec::new(), "/root");
    assert_eq!(text(&out), "/root\n  No git repositories found\n");
    assert_eq!(text(&out).lines().count(), 2);
}

#[test]
fn tree_layout() {
    let mut repos = two_repos();
    repos[1] = repo("/root/a/repo1", "main", "", &["main", "feature"], &["main origin/main", "feature"], None);
    let tree = build_tree_structure(&repos, "/root");
    let out = render_tree(&tree, &repos, "/root");
    let expected = format!(
        "/root\n└── a\n    ├── b\n    │   └── repo2 dev 1 ahead\n    │       {}  [ 2 untracked ]\n    └── repo1 main ok\n        {}feature no upstream\n",
        " ".repeat(15),
        " ".repeat(15)
    );
    assert_eq!(text(&out), expected);
}

#[test]
fn paths_outside_the_root_are_left_out() {
    let repos = vec![repo("/elsewhere/x", "main", "", &["main"], &[], None)];
    let tree = build_tree_structure(&repos, "/root");
    assert!(tree.children.is_empty());
    assert_eq!(relative_of("/root//a/./b/", "/root"), Some(vec!["a".chars().collect::<Vec<char>>(), "b".chars().collect()]));
    assert_eq!(relative_of("/rootx/a", "/root"), None);
}

#[test]
fn output_formats() {
    assert_eq!(parse_output_format("tree"), Ok(OutputFormat::Tree));
    assert_eq!(parse_output_format("flat"), Ok(OutputFormat::Flat));
    assert_eq!(parse_output_format("dump"), Ok(OutputFormat::Dump));
    assert_eq!(parse_output_format("json"), Err(ListError::InvalidFormat));
    assert!(execute("json", "/root", &two_repos()).is_err());
}

#[test]
fn same_order_in_every_format() {
    let repos = two_repos();
    let flat = text(&execute("flat", "/root", &repos).unwrap());
    let tree = text(&execute("tree", "/root", &repos).unwrap());
    let flat_first = flat.find("repo2").unwrap() < flat.find("repo1").unwrap();
    let tree_first = tree.find("repo2").unwrap() < tree.find("repo1").unwrap();
    assert!(flat_first && tree_first);
    assert_eq!(flat, text(&execute("flat", "/root", &repos).unwrap()));
}

#[test]
fn sorted_by_components() {
    let make = |p: &str| repo(p, "main", "", &["main"], &[], None);
    let repos = vec![make("/r/a-b"), make("/r/a/z"), make("/r/B"), make("/r/a/b/c")];
    let sorted = sort_by_path(repos);
    let paths: Vec<&str> = sorted.iter().map(|r| r.path.as_str()).collect();
    assert_eq!(paths, vec!["/r/B", "/r/a/b/c", "/r/a/z", "/r/a-b"]);
    let again = sort_by_path(vec![make("/r/a/z"), make("/r/a-b"), make("/r/a/b/c"), make("/r/B")]);
    let paths2: Vec<&str> = again.iter().map(|r| r.path.as_str()).collect();
    assert_eq!(paths, paths2);
}
