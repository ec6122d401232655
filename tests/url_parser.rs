use git_extend::commands::get::{build_url, get_clone_path, parse_dump_line, prepare_clone, Config};
use git_extend::get_base_dir;
use git_extend::url_parser::{parse_repo_url, RepoInfo, UrlError};

#[test]
fn test_parse_https_url() {
    let info = parse_repo_url("https://github.com/rust-lang/rust").unwrap();
    assert_eq!(info.host, "github.com");
    assert_eq!(info.owner, "rust-lang");
    assert_eq!(info.name, "rust");
}

#[test]
fn test_parse_ssh_url() {
    let info = parse_repo_url("git@github.com:rust-lang/rust.git").unwrap();
    assert_eq!(info.host, "github.com");
    assert_eq!(info.owner, "rust-lang");
    assert_eq!(info.name, "rust");
}

#[test]
fn test_parse_short_url() {
    let info = parse_repo_url("rust-lang/rust").unwrap();
    assert_eq!(info.host, "");
    assert_eq!(info.owner, "rust-lang");
    assert_eq!(info.name, "rust");
}

#[test]
fn test_parse_host_url() {
    let info = parse_repo_url("gitlab.com/owner/repo").unwrap();
    assert_eq!(info.host, "gitlab.com");
    assert_eq!(info.owner, "owner");
    assert_eq!(info.name, "repo");
}

#[test]
fn full_urls_are_rebuilt() {
    let info = parse_repo_url("  http://example.org/a/b.git/tree/main \n").unwrap();
    assert_eq!(info.host, "example.org");
    assert_eq!(info.owner, "a");
    assert_eq!(info.name, "b");
    assert_eq!(info.full_url, "https://example.org/a/b.git");
    let ssh = parse_repo_url("git@host.io:me/tool").unwrap();
    assert_eq!(ssh.full_url, "git@host.io:me/tool.git");
    let short = parse_repo_url("me/tool.git.git").unwrap();
    assert_eq!(short.name, "tool");
    assert_eq!(short.full_url, "");
}

#[test]
fn url_errors() {
    assert_eq!(parse_repo_url("nothing-here").unwrap_err(), UrlError::InvalidFormat);
    assert_eq!(parse_repo_url("https://github.com/only-owner").unwrap_err(), UrlError::InvalidHttpsUrl);
    assert_eq!(parse_repo_url("git@github.com/x/y").unwrap_err(), UrlError::InvalidSshUrl);
    assert_eq!(parse_repo_url("git@github.com:noslash").unwrap_err(), UrlError::InvalidSshPath);
}

fn info(host: &str, owner: &str, name: &str) -> RepoInfo {
    RepoInfo {
        host: host.to_string(),
        owner: owner.to_string(),
        name: name.to_string(),
        full_url: String::new(),
    }
}

#[test]
fn clone_paths() {
    let i = info("github.com", "rust-lang", "rust");
    assert_eq!(i.get_clone_path("/base"), "/base/github.com/rust-lang/rust");
    assert_eq!(i.get_clone_path("/base/"), "/base/github.com/rust-lang/rust");
    assert_eq!(get_clone_path(&i, "/base", true), "/base/rust-lang/rust");
    assert_eq!(get_clone_path(&i, "/base", false), "/base/github.com/rust-lang/rust");
}

#[test]
fn urls_by_scheme() {
    let i = info("github.com", "o", "r");
    assert_eq!(build_url(&i, "ssh"), "git@github.com:o/r.git");
    assert_eq!(build_url(&i, "https"), "https://github.com/o/r.git");
    assert_eq!(build_url(&i, "sshx"), "https://github.com/o/r.git");
}

fn config(skip_host: bool) -> Config {
    Config {
        base_dir: "/repos".to_string(),
        branch: None,
        default_host: "gitlab.com".to_string(),
        default_scheme: "ssh".to_string(),
        skip_host,
    }
}

#[test]
fn clone_plans() {
    let plan = prepare_clone("grdl/git-get", &config(false)).unwrap();
    assert_eq!(plan.info.host, "gitlab.com");
    assert_eq!(plan.info.full_url, "git@gitlab.com:grdl/git-get.git");
    assert_eq!(plan.path, "/repos/gitlab.com/grdl/git-get");
    let plan = prepare_clone("https://github.com/grdl/git-get.git", &config(true)).unwrap();
    assert_eq!(plan.info.full_url, "https://github.com/grdl/git-get.git");
    assert_eq!(plan.path, "/repos/grdl/git-get");
    assert_eq!(prepare_clone("bad", &config(false)).unwrap_err(), UrlError::InvalidFormat);
}

#[test]
fn dump_lines() {
    let default = Some("main".to_string());
    assert!(parse_dump_line("   ", &default).is_none());
    assert!(parse_dump_line("# comment", &default).is_none());
    let e = parse_dump_line("  git@github.com:a/b.git  dev extra", &default).unwrap();
    assert_eq!(e.url, "git@github.com:a/b.git");
    assert_eq!(e.branch, Some("dev".to_string()));
    let e = parse_dump_line("a/b", &default).unwrap();
    assert_eq!(e.url, "a/b");
    assert_eq!(e.branch, Some("main".to_string()));
}

#[test]
fn base_dir_choice() {
    assert_eq!(get_base_dir(Some("/a".to_string()), Some("/b".to_string())), Ok("/a".to_string()));
    assert_eq!(get_base_dir(None, Some("/b".to_string())), Ok("/b".to_string()));
    assert!(get_base_dir(None, None).is_err());
}
