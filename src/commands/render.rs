use vstd::prelude::*;

use crate::commands::list::{BranchInfo, BranchStatus, RepoStatus};
use crate::text::{chars_of, push_all, push_str, string_of};

verus! {

/// The colour a piece of output is shown in.
#[derive(Debug, Clone, Copy, PartialEq, Eq, Structural)]
pub enum Tint {
    Plain,
    Green,
    Yellow,
    Red,
}

/// A run of output text in one colour.
#[derive(Debug)]
pub struct Piece {
    pub text: String,
    pub tint: Tint,
}

impl View for Piece {
    type V = (Seq<char>, Tint);

    open spec fn view(&self) -> (Seq<char>, Tint) {
        (self.text@, self.tint)
    }
}

pub open spec fn pieces_view(v: Seq<Piece>) -> Seq<(Seq<char>, Tint)> {
    v.map_values(|p: Piece| p@)
}

pub open spec fn digit(d: nat) -> char {
    if d == 0 { '0' } else if d == 1 { '1' } else if d == 2 { '2' } else if d == 3 { '3' }
    else if d == 4 { '4' } else if d == 5 { '5' } else if d == 6 { '6' } else if d == 7 { '7' }
    else if d == 8 { '8' } else { '9' }
}

/// The decimal digits of `n`, without sign or leading zeros.
pub open spec fn decimal(n: nat) -> Seq<char>
    decreases n,
{
    if n < 10 {
        seq![digit(n)]
    } else {
        decimal(n / 10).push(digit(n % 10))
    }
}

fn digit_char(d: usize) -> (r: char)
    requires
        d < 10,
    ensures
        r == digit(d as nat),
{
    if d == 0 { '0' } else if d == 1 { '1' } else if d == 2 { '2' } else if d == 3 { '3' }
    else if d == 4 { '4' } else if d == 5 { '5' } else if d == 6 { '6' } else if d == 7 { '7' }
    else if d == 8 { '8' } else { '9' }
}

/// Appends the decimal digits of `n`.
fn push_decimal(out: &mut Vec<char>, n: usize)
    ensures
        final(out)@ == old(out)@ + decimal(n as nat),
    decreases n,
{
    if n >= 10 {
        push_decimal(out, n / 10);
    }
    out.push(digit_char(n % 10));
    assert(out@ =~= old(out)@ + decimal(n as nat));
}

/// How a status is written after a branch name, and in what colour.
pub open spec fn status_spec(st: BranchStatus) -> (Seq<char>, Tint) {
    match st {
        BranchStatus::UpToDate => (" ok"@, Tint::Green),
        BranchStatus::Ahead(n) => (" "@ + decimal(n as nat) + " ahead"@, Tint::Yellow),
        BranchStatus::Behind(n) => (" "@ + decimal(n as nat) + " behind"@, Tint::Yellow),
        BranchStatus::Diverged { ahead, behind } => (
            " "@ + decimal(ahead as nat) + " ahead "@ + decimal(behind as nat) + " behind"@,
            Tint::Yellow,
        ),
        BranchStatus::NoUpstream => (" no upstream"@, Tint::Yellow),
        BranchStatus::Uncommitted { count } => (
            "  [ "@ + decimal(count as nat) + " uncommitted ]"@,
            Tint::Yellow,
        ),
        BranchStatus::Untracked { count } => ("  [ "@ + decimal(count as nat) + " untracked ]"@, Tint::Red),
    }
}

pub fn status_piece(st: BranchStatus) -> (r: Piece)
    ensures
        r@ == status_spec(st),
{
    let mut t: Vec<char> = Vec::new();
    let tint = match st {
        BranchStatus::UpToDate => {
            push_str(&mut t, " ok");
            Tint::Green
        },
        BranchStatus::Ahead(n) => {
            push_str(&mut t, " ");
            push_decimal(&mut t, n);
            push_str(&mut t, " ahead");
            Tint::Yellow
        },
        BranchStatus::Behind(n) => {
            push_str(&mut t, " ");
            push_decimal(&mut t, n);
            push_str(&mut t, " behind");
            Tint::Yellow
        },
        BranchStatus::Diverged { ahead, behind } => {
            push_str(&mut t, " ");
            push_decimal(&mut t, ahead);
            push_str(&mut t, " ahead ");
            push_decimal(&mut t, behind);
            push_str(&mut t, " behind");
            Tint::Yellow
        },
        BranchStatus::NoUpstream => {
            push_str(&mut t, " no upstream");
            Tint::Yellow
        },
        BranchStatus::Uncommitted { count } => {
            push_str(&mut t, "  [ ");
            push_decimal(&mut t, count);
            push_str(&mut t, " uncommitted ]");
            Tint::Yellow
        },
        BranchStatus::Untracked { count } => {
            push_str(&mut t, "  [ ");
            push_decimal(&mut t, count);
            push_str(&mut t, " untracked ]");
            Tint::Red
        },
    };
    assert(t@ =~= status_spec(st).0);
    Piece { text: string_of(&t), tint }
}

pub fn plain(t: &Vec<char>) -> (r: Piece)
    ensures
        r@ == (t@, Tint::Plain),
{
    Piece { text: string_of(t), tint: Tint::Plain }
}

/// The first entry named `name`, if any.
pub open spec fn find_named(b: Seq<(Seq<char>, BranchStatus)>, name: Seq<char>) -> Option<BranchStatus>
    decreases b.len(),
{
    if b.len() == 0 {
        None
    } else if b[0].0 == name {
        Some(b[0].1)
    } else {
        find_named(b.drop_first(), name)
    }
}

fn find_branch(b: &Vec<BranchInfo>, name: &String) -> (r: Option<BranchStatus>)
    ensures
        r == find_named(crate::commands::list::branches_view(b@), name@),
{
    let ghost bv = crate::commands::list::branches_view(b@);
    let mut i: usize = 0;
    assert(bv.subrange(0, bv.len() as int) =~= bv);
    while i < b.len()
        invariant
            i <= b.len(),
            bv == crate::commands::list::branches_view(b@),
            find_named(bv, name@) == find_named(bv.subrange(i as int, bv.len() as int), name@),
        decreases b.len() - i,
    {
        let ghost rest = bv.subrange(i as int, bv.len() as int);
        assert(rest.drop_first() == bv.subrange(i + 1, bv.len() as int));
        assert(rest[0] == b@[i as int]@);
        if b[i].name == *name {
            return Some(b[i].status);
        }
        i = i + 1;
    }
    None
}

/// One repository in the flat listing: its path, then the current branch in
/// parentheses with its status where the branch list holds an entry of that
/// name, then a line end.
pub open spec fn flat_line(path: Seq<char>, current: Seq<char>, b: Seq<(Seq<char>, BranchStatus)>) -> Seq<(Seq<char>, Tint)> {
    match find_named(b, current) {
        Some(st) => seq![
            (path, Tint::Plain),
            (" ("@ + current + ")"@, Tint::Plain),
            status_spec(st),
            ("\n"@, Tint::Plain),
        ],
        None => seq![(path, Tint::Plain), ("\n"@, Tint::Plain)],
    }
}

pub open spec fn flat_spec(repos: Seq<RepoStatus>) -> Seq<(Seq<char>, Tint)>
    decreases repos.len(),
{
    if repos.len() == 0 {
        Seq::empty()
    } else {
        let r = repos.last();
        flat_spec(repos.drop_last()) + flat_line(
            r.path@,
            r.current_branch@,
            crate::commands::list::branches_view(r.all_branches@),
        )
    }
}

/// The flat listing: one line per repository, in the order given.
pub fn render_flat(repos: &Vec<RepoStatus>) -> (r: Vec<Piece>)
    ensures
        pieces_view(r@) == flat_spec(repos@),
{
    let mut out: Vec<Piece> = Vec::new();
    let mut i: usize = 0;
    while i < repos.len()
        invariant
            i <= repos.len(),
            pieces_view(out@) == flat_spec(repos@.subrange(0, i as int)),
        decreases repos.len() - i,
    {
        let ghost before = pieces_view(out@);
        let repo = &repos[i];
        let ghost pre = repos@.subrange(0, i + 1);
        assert(pre.drop_last() == repos@.subrange(0, i as int));
        out.push(plain(&chars_of(repo.path.as_str())));
        match find_branch(&repo.all_branches, &repo.current_branch) {
            Some(st) => {
                let mut t: Vec<char> = Vec::new();
                push_str(&mut t, " (");
                push_all(&mut t, &chars_of(repo.current_branch.as_str()));
                push_str(&mut t, ")");
                out.push(plain(&t));
                out.push(status_piece(st));
            },
            None => {},
        }
        out.push(plain(&chars_of("\n")));
        assert(pieces_view(out@) =~= before + flat_line(
            repo.path@,
            repo.current_branch@,
            crate::commands::list::branches_view(repo.all_branches@),
        ));
        i = i + 1;
    }
    assert(repos@.subrange(0, repos.len() as int) == repos@);
    out
}

/// The dump line of a repository: its `origin` address and current branch,
/// or nothing where the address is unknown.
pub open spec fn dump_line(origin: Option<String>, current: Seq<char>) -> Seq<(Seq<char>, Tint)> {
    match origin {
        Some(u) => seq![(u@ + " "@ + current + "\n"@, Tint::Plain)],
        None => Seq::empty(),
    }
}

pub open spec fn dump_spec(repos: Seq<RepoStatus>) -> Seq<(Seq<char>, Tint)>
    decreases repos.len(),
{
    if repos.len() == 0 {
        Seq::empty()
    } else {
        dump_spec(repos.drop_last()) + dump_line(repos.last().origin_url, repos.last().current_branch@)
    }
}

/// The dump listing, which `git get --dump` reads back: one line per
/// repository with an `origin` address, in the order given.
pub fn render_dump(repos: &Vec<RepoStatus>) -> (r: Vec<Piece>)
    ensures
        pieces_view(r@) == dump_spec(repos@),
{
    let mut out: Vec<Piece> = Vec::new();
    let mut i: usize = 0;
    while i < repos.len()
        invariant
            i <= repos.len(),
            pieces_view(out@) == dump_spec(repos@.subrange(0, i as int)),
        decreases repos.len() - i,
    {
        let ghost before = pieces_view(out@);
        let repo = &repos[i];
        let ghost pre = repos@.subrange(0, i + 1);
        assert(pre.drop_last() == repos@.subrange(0, i as int));
        match &repo.origin_url {
            Some(u) => {
                let mut t = chars_of(u.as_str());
                push_str(&mut t, " ");
                push_all(&mut t, &chars_of(repo.current_branch.as_str()));
                push_str(&mut t, "\n");
                out.push(plain(&t));
            },
            None => {},
        }
        assert(pieces_view(out@) =~= before + dump_line(repo.origin_url, repo.current_branch@));
        i = i + 1;
    }
    assert(repos@.subrange(0, repos.len() as int) == repos@);
    out
}

} // verus!
