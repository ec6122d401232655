use vstd::prelude::*;

use crate::text::{
    chars_of, count_char, count_of, index_of, push_all, push_str, split_once, split_once_char,
    starts_with, string_of, strip_all_prefix, strip_all_suffix, trim, trim_prefix_all,
    trim_suffix_all, trim_ws, up_to, up_to_char,
};

verus! {

/// Where a repository lives and how to reach it.
#[derive(Debug, Clone)]
pub struct RepoInfo {
    pub host: String,
    pub owner: String,
    pub name: String,
    pub full_url: String,
}

pub ghost struct RepoInfoModel {
    pub host: Seq<char>,
    pub owner: Seq<char>,
    pub name: Seq<char>,
    pub full_url: Seq<char>,
}

impl View for RepoInfo {
    type V = RepoInfoModel;

    open spec fn view(&self) -> RepoInfoModel {
        RepoInfoModel {
            host: self.host@,
            owner: self.owner@,
            name: self.name@,
            full_url: self.full_url@,
        }
    }
}

/// Why a repository address was not understood.
#[derive(Debug, Clone, Copy, PartialEq, Eq, Structural)]
pub enum UrlError {
    /// Neither a scheme, `git@`, nor a `/` in the address.
    InvalidFormat,
    InvalidHttpsUrl,
    InvalidSshUrl,
    InvalidSshPath,
    InvalidShortUrl,
    InvalidHostUrl,
}

/// Appends `seg` to the path `base` the way `PathBuf::push` does on Unix: an
/// absolute `seg` replaces `base`, otherwise one `/` separates the two.
pub open spec fn join_path(base: Seq<char>, seg: Seq<char>) -> Seq<char> {
    if seg.len() > 0 && seg[0] == '/' {
        seg
    } else if base.len() > 0 && base.last() != '/' {
        base + seq!['/'] + seg
    } else {
        base + seg
    }
}

pub fn push_segment(base: &mut Vec<char>, seg: &str)
    ensures
        final(base)@ == join_path(old(base)@, seg@),
{
    let s = chars_of(seg);
    if s.len() > 0 && s[0] == '/' {
        *base = s;
    } else {
        if base.len() > 0 && base[base.len() - 1] != '/' {
            base.push('/');
        }
        push_all(base, &s);
    }
}

pub open spec fn model(host: Seq<char>, owner: Seq<char>, name: Seq<char>, full_url: Seq<char>) -> RepoInfoModel {
    RepoInfoModel { host, owner, name, full_url }
}

/// `https://host/owner/name.git`
pub open spec fn https_address(host: Seq<char>, owner: Seq<char>, name: Seq<char>) -> Seq<char> {
    "https://"@ + host + "/"@ + owner + "/"@ + name + ".git"@
}

/// `git@host:owner/name.git`
pub open spec fn ssh_address(host: Seq<char>, owner: Seq<char>, name: Seq<char>) -> Seq<char> {
    "git@"@ + host + ":"@ + owner + "/"@ + name + ".git"@
}

/// Host, owner and name from the first three `/`-separated parts of `rest`;
/// the name stops at a further `/` and loses any `.git` ending.
pub open spec fn three_parts(rest: Seq<char>, err: UrlError) -> Result<RepoInfoModel, UrlError> {
    match split_once(rest, '/') {
        None => Err(err),
        Some((host, r1)) => match split_once(r1, '/') {
            None => Err(err),
            Some((owner, r2)) => {
                let name = strip_all_suffix(up_to(r2, '/'), ".git"@);
                Ok(model(host, owner, name, https_address(host, owner, name)))
            },
        },
    }
}

pub open spec fn https_spec(u: Seq<char>) -> Result<RepoInfoModel, UrlError> {
    three_parts(
        strip_all_prefix(strip_all_prefix(u, "https://"@), "http://"@),
        UrlError::InvalidHttpsUrl,
    )
}

pub open spec fn ssh_spec(u: Seq<char>) -> Result<RepoInfoModel, UrlError> {
    match split_once(strip_all_prefix(u, "git@"@), ':') {
        None => Err(UrlError::InvalidSshUrl),
        Some((host, path)) => match split_once(path, '/') {
            None => Err(UrlError::InvalidSshPath),
            Some((owner, name0)) => {
                let name = strip_all_suffix(name0, ".git"@);
                Ok(model(host, owner, name, ssh_address(host, owner, name)))
            },
        },
    }
}

pub open spec fn short_spec(u: Seq<char>) -> Result<RepoInfoModel, UrlError> {
    match split_once(u, '/') {
        None => Err(UrlError::InvalidShortUrl),
        Some((owner, name0)) => Ok(
            model(Seq::empty(), owner, strip_all_suffix(name0, ".git"@), Seq::empty()),
        ),
    }
}

pub open spec fn host_spec(u: Seq<char>) -> Result<RepoInfoModel, UrlError> {
    three_parts(u, UrlError::InvalidHostUrl)
}

pub open spec fn is_prefix(p: Seq<char>, s: Seq<char>) -> bool {
    p.len() <= s.len() && s.subrange(0, p.len() as int) == p
}

/// What a repository address means, after surrounding whitespace is dropped.
pub open spec fn parse_spec(url: Seq<char>) -> Result<RepoInfoModel, UrlError> {
    let u = trim_ws(url);
    if is_prefix("https://"@, u) || is_prefix("http://"@, u) {
        https_spec(u)
    } else if is_prefix("git@"@, u) {
        ssh_spec(u)
    } else if index_of(u, '/') >= 0 {
        if count_char(u, '/') == 1 {
            short_spec(u)
        } else {
            host_spec(u)
        }
    } else {
        Err(UrlError::InvalidFormat)
    }
}

pub open spec fn result_view(r: Result<RepoInfo, UrlError>) -> Result<RepoInfoModel, UrlError> {
    match r {
        Ok(info) => Ok(info@),
        Err(e) => Err(e),
    }
}

impl RepoInfo {
    /// `base_dir/host/owner/name`.
    pub fn get_clone_path(&self, base_dir: &str) -> (r: String)
        ensures
            r@ == join_path(join_path(join_path(base_dir@, self.host@), self.owner@), self.name@),
    {
        let mut p = chars_of(base_dir);
        push_segment(&mut p, self.host.as_str());
        push_segment(&mut p, self.owner.as_str());
        push_segment(&mut p, self.name.as_str());
        string_of(&p)
    }
}

/// Reads an address in one of the forms `https://host/owner/repo[.git]`,
/// `http://...`, `git@host:owner/repo[.git]`, `host/owner/repo` and
/// `owner/repo` (which leaves the host empty).
pub fn parse_repo_url(url: &str) -> (r: Result<RepoInfo, UrlError>)
    ensures
        result_view(r) == parse_spec(url@),
{
    let u = trim(&chars_of(url));
    if starts_with(&u, "https://") || starts_with(&u, "http://") {
        parse_https_url(&u)
    } else if starts_with(&u, "git@") {
        parse_ssh_url(&u)
    } else if crate::text::contains_char(&u, '/') {
        if count_of(&u, '/') == 1 {
            parse_short_url(&u)
        } else {
            parse_host_url(&u)
        }
    } else {
        Err(UrlError::InvalidFormat)
    }
}

fn info(host: &Vec<char>, owner: &Vec<char>, name: &Vec<char>, full_url: &Vec<char>) -> (r: RepoInfo)
    ensures
        r@ == model(host@, owner@, name@, full_url@),
{
    RepoInfo {
        host: string_of(host),
        owner: string_of(owner),
        name: string_of(name),
        full_url: string_of(full_url),
    }
}

fn https_text(host: &Vec<char>, owner: &Vec<char>, name: &Vec<char>) -> (r: Vec<char>)
    ensures
        r@ == https_address(host@, owner@, name@),
{
    let mut r: Vec<char> = Vec::new();
    push_str(&mut r, "https://");
    push_all(&mut r, host);
    push_str(&mut r, "/");
    push_all(&mut r, owner);
    push_str(&mut r, "/");
    push_all(&mut r, name);
    push_str(&mut r, ".git");
    assert(r@ =~= https_address(host@, owner@, name@));
    r
}

fn ssh_text(host: &Vec<char>, owner: &Vec<char>, name: &Vec<char>) -> (r: Vec<char>)
    ensures
        r@ == ssh_address(host@, owner@, name@),
{
    let mut r: Vec<char> = Vec::new();
    push_str(&mut r, "git@");
    push_all(&mut r, host);
    push_str(&mut r, ":");
    push_all(&mut r, owner);
    push_str(&mut r, "/");
    push_all(&mut r, name);
    push_str(&mut r, ".git");
    assert(r@ =~= ssh_address(host@, owner@, name@));
    r
}

fn split_three(rest: &Vec<char>, err: UrlError) -> (r: Result<RepoInfo, UrlError>)
    ensures
        result_view(r) == three_parts(rest@, err),
{
    match split_once_char(rest, '/') {
        None => Err(err),
        Some((host, r1)) => match split_once_char(&r1, '/') {
            None => Err(err),
            Some((owner, r2)) => {
                proof {
                    reveal_strlit(".git");
                }
                let name = trim_suffix_all(&up_to_char(&r2, '/'), ".git");
                let full = https_text(&host, &owner, &name);
                Ok(info(&host, &owner, &name, &full))
            },
        },
    }
}

fn parse_https_url(url: &Vec<char>) -> (r: Result<RepoInfo, UrlError>)
    ensures
        result_view(r) == https_spec(url@),
{
    proof {
        reveal_strlit("https://");
        reveal_strlit("http://");
    }
    let rest = trim_prefix_all(&trim_prefix_all(url, "https://"), "http://");
    split_three(&rest, UrlError::InvalidHttpsUrl)
}

fn parse_ssh_url(url: &Vec<char>) -> (r: Result<RepoInfo, UrlError>)
    ensures
        result_view(r) == ssh_spec(url@),
{
    proof {
        reveal_strlit("git@");
        reveal_strlit(".git");
    }
    let rest = trim_prefix_all(url, "git@");
    match split_once_char(&rest, ':') {
        None => Err(UrlError::InvalidSshUrl),
        Some((host, path)) => match split_once_char(&path, '/') {
            None => Err(UrlError::InvalidSshPath),
            Some((owner, name0)) => {
                let name = trim_suffix_all(&name0, ".git");
                let full = ssh_text(&host, &owner, &name);
                Ok(info(&host, &owner, &name, &full))
            },
        },
    }
}

fn parse_short_url(url: &Vec<char>) -> (r: Result<RepoInfo, UrlError>)
    ensures
        result_view(r) == short_spec(url@),
{
    proof {
        reveal_strlit(".git");
    }
    match split_once_char(url, '/') {
        None => Err(UrlError::InvalidShortUrl),
        Some((owner, name0)) => {
            let name = trim_suffix_all(&name0, ".git");
            let empty: Vec<char> = Vec::new();
            Ok(info(&empty, &owner, &name, &empty))
        },
    }
}

fn parse_host_url(url: &Vec<char>) -> (r: Result<RepoInfo, UrlError>)
    ensures
        result_view(r) == host_spec(url@),
{
    split_three(url, UrlError::InvalidHostUrl)
}

} // verus!
