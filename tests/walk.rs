use git_extend::commands::walk::{classify_dir, is_skipped_name, DirAction, Outcome, Walker};

fn names(v: &[&str]) -> Vec<String> {
    v.iter().map(|s| s.to_string()).collect()
}

#[test]
fn skipped_names() {
    for n in ["node_modules", "target", "build", "dist", "out", "__pycache__", ".cache", "vendor", "bin", "obj", ".git", ".hidden"] {
        assert!(is_skipped_name(n), "{}", n);
    }
    for n in ["src", "vendors", "Target", "a.b"] {
        assert!(!is_skipped_name(n), "{}", n);
    }
}

#[test]
fn directory_actions() {
    assert_eq!(classify_dir(false, false, false), DirAction::Skip);
    assert_eq!(classify_dir(true, true, true), DirAction::Resolve);
    assert_eq!(classify_dir(true, true, false), DirAction::Descend);
    assert_eq!(classify_dir(true, false, false), DirAction::Descend);
}

/// Drives a walker over a small imagined tree:
/// root/{a/repo1/.git, a/repo1/nested/.git, vendor/somerepo/.git, b (file .git)}.
#[test]
fn walk_reports_outermost_repositories_only() {
    let mut w = Walker::new();
    let mut visited: Vec<Vec<String>> = Vec::new();
    while let Some(dir) = w.next_dir() {
        visited.push(dir.clone());
        let d: Vec<&str> = dir.iter().map(|s| s.as_str()).collect();
        let outcome = match d.as_slice() {
            [] => Outcome::Entries(names(&["a", "vendor", "b", "a"])),
            ["a"] => Outcome::Entries(names(&["repo1"])),
            ["a", "repo1"] => Outcome::Found,
            ["b"] => Outcome::Skipped,
            _ => panic!("unexpected visit {:?}", d),
        };
        w.record(outcome);
    }
    assert_eq!(w.found().clone(), vec![names(&["a", "repo1"])]);
    assert!(!visited.iter().any(|p| p.iter().any(|s| s == "vendor" || s == "nested")));
    assert_eq!(visited.len(), 4);
}
