use vstd::prelude::*;

use crate::text::{
    chars_of, occurs_at, push_all, push_str, split_words, starts_with, string_of, trim, trim_ws,
    words,
};
use crate::url_parser::{
    https_address, join_path, parse_repo_url, parse_spec, push_segment, ssh_address, RepoInfo,
    RepoInfoModel, UrlError,
};

verus! {

/// Settings for cloning.
#[derive(Debug)]
pub struct Config {
    pub base_dir: String,
    pub branch: Option<String>,
    pub default_host: String,
    pub default_scheme: String,
    pub skip_host: bool,
}

/// Where and from what address a repository is to be cloned.
#[derive(Debug)]
pub struct ClonePlan {
    pub info: RepoInfo,
    pub path: String,
}

/// One line of a dump file: an address, and the branch to check out.
#[derive(Debug)]
pub struct DumpEntry {
    pub url: String,
    pub branch: Option<String>,
}

pub open spec fn contains_seq(s: Seq<char>, p: Seq<char>) -> bool {
    exists|i: int| 0 <= i && i + p.len() <= s.len() && #[trigger] s.subrange(i, i + p.len()) == p
}

fn contains_str(s: &Vec<char>, p: &str) -> (r: bool)
    ensures
        r == contains_seq(s@, p@),
{
    let pc = chars_of(p);
    let mut i: usize = 0;
    loop
        invariant
            pc@ == p@,
            i <= s.len(),
            forall|j: int| 0 <= j < i && j + p@.len() <= s@.len() ==> #[trigger] s@.subrange(j, j + p@.len()) != p@,
        decreases s.len() - i,
    {
        if occurs_at(s, i, &pc) {
            return true;
        }
        if i == s.len() {
            assert(forall|j: int| 0 <= j && j + p@.len() <= s@.len() ==> #[trigger] s@.subrange(j, j + p@.len()) != p@);
            return false;
        }
        i = i + 1;
    }
}

pub open spec fn clone_path_spec(info: RepoInfoModel, base_dir: Seq<char>, skip_host: bool) -> Seq<char> {
    let b = if skip_host {
        base_dir
    } else {
        join_path(base_dir, info.host)
    };
    join_path(join_path(b, info.owner), info.name)
}

/// `base_dir/host/owner/name`, or `base_dir/owner/name` when `skip_host`.
pub fn get_clone_path(repo_info: &RepoInfo, base_dir: &str, skip_host: bool) -> (r: String)
    ensures
        r@ == clone_path_spec(repo_info@, base_dir@, skip_host),
{
    let mut p = chars_of(base_dir);
    if !skip_host {
        push_segment(&mut p, repo_info.host.as_str());
    }
    push_segment(&mut p, repo_info.owner.as_str());
    push_segment(&mut p, repo_info.name.as_str());
    string_of(&p)
}

pub open spec fn build_url_spec(info: RepoInfoModel, scheme: Seq<char>) -> Seq<char> {
    if scheme == "ssh"@ {
        ssh_address(info.host, info.owner, info.name)
    } else {
        https_address(info.host, info.owner, info.name)
    }
}

/// The address to clone from: the SSH form for the scheme `ssh`, the HTTPS
/// form for any other.
pub fn build_url(repo_info: &RepoInfo, scheme: &str) -> (r: String)
    ensures
        r@ == build_url_spec(repo_info@, scheme@),
{
    let sc = chars_of(scheme);
    proof {
        reveal_strlit("ssh");
    }
    let is_ssh = sc.len() == 3 && starts_with(&sc, "ssh");
    assert(is_ssh ==> sc@ =~= "ssh"@);
    assert(sc@.len() == 3 ==> sc@.subrange(0, 3) =~= sc@);
    assert(is_ssh == (scheme@ == "ssh"@));
    let host = chars_of(repo_info.host.as_str());
    let owner = chars_of(repo_info.owner.as_str());
    let name = chars_of(repo_info.name.as_str());
    let mut r: Vec<char> = Vec::new();
    if is_ssh {
        push_str(&mut r, "git@");
        push_all(&mut r, &host);
        push_str(&mut r, ":");
    } else {
        push_str(&mut r, "https://");
        push_all(&mut r, &host);
        push_str(&mut r, "/");
    }
    push_all(&mut r, &owner);
    push_str(&mut r, "/");
    push_all(&mut r, &name);
    push_str(&mut r, ".git");
    assert(r@ =~= build_url_spec(repo_info@, scheme@));
    string_of(&r)
}

/// The parsed address with the defaults of `config` applied: an empty host
/// becomes the default host, and an address given without a scheme and not
/// in `git@` form is rebuilt in the configured scheme.
pub open spec fn plan_info_spec(url: Seq<char>, parsed: RepoInfoModel, config_host: Seq<char>, scheme: Seq<char>) -> RepoInfoModel {
    let host = if parsed.host.len() == 0 {
        config_host
    } else {
        parsed.host
    };
    let i1 = RepoInfoModel { host, ..parsed };
    if !contains_seq(url, "://"@) && !(url.len() >= 4 && url.subrange(0, 4) == "git@"@) {
        RepoInfoModel { full_url: build_url_spec(i1, scheme), ..i1 }
    } else {
        i1
    }
}

/// Works out what to clone and where: the address is parsed, completed from
/// `config`, and mapped to a directory under the base directory.
pub fn prepare_clone(url: &str, config: &Config) -> (r: Result<ClonePlan, UrlError>)
    ensures
        parse_spec(url@) is Err ==> r == Err::<ClonePlan, UrlError>(parse_spec(url@)->Err_0),
        parse_spec(url@) is Ok ==> r is Ok,
        r is Ok ==> ({
            let i = plan_info_spec(url@, parse_spec(url@)->Ok_0, config.default_host@, config.default_scheme@);
            &&& r->Ok_0.info@ == i
            &&& r->Ok_0.path@ == clone_path_spec(i, config.base_dir@, config.skip_host)
        }),
{
    let mut info = match parse_repo_url(url) {
        Ok(i) => i,
        Err(e) => return Err(e),
    };
    if info.host.as_str().is_empty() {
        info.host = config.default_host.clone();
    }
    let u = chars_of(url);
    proof {
        reveal_strlit("git@");
    }
    if !contains_str(&u, "://") && !starts_with(&u, "git@") {
        info.full_url = build_url(&info, config.default_scheme.as_str());
    }
    let path = get_clone_path(&info, config.base_dir.as_str(), config.skip_host);
    Ok(ClonePlan { info, path })
}

pub open spec fn dump_entry_spec(line: Seq<char>) -> Option<(Seq<char>, Option<Seq<char>>)> {
    let t = trim_ws(line);
    let w = words(t);
    if t.len() == 0 || t[0] == '#' || w.len() == 0 {
        None
    } else {
        Some((w[0], if w.len() > 1 { Some(w[1]) } else { None }))
    }
}

/// Reads one line of a dump file. Blank lines and lines starting with `#`
/// give `None`; otherwise the first word is the address and the second, if
/// present, the branch, which else falls back to `default_branch`.
pub fn parse_dump_line(line: &str, default_branch: &Option<String>) -> (r: Option<DumpEntry>)
    ensures
        r is None <==> dump_entry_spec(line@) is None,
        r is Some ==> ({
            let (u, b) = dump_entry_spec(line@)->0;
            &&& r->0.url@ == u
            &&& match b {
                Some(bb) => r->0.branch is Some && r->0.branch->0@ == bb,
                None => r->0.branch == *default_branch,
            }
        }),
{
    let t = trim(&chars_of(line));
    if t.len() == 0 || t[0] == '#' {
        return None;
    }
    let w = split_words(&t);
    if w.len() == 0 {
        return None;
    }
    let branch = if w.len() > 1 {
        Some(string_of(&w[1]))
    } else {
        match default_branch {
            Some(b) => Some(b.clone()),
            None => None,
        }
    };
    Some(DumpEntry { url: string_of(&w[0]), branch })
}

} // verus!
