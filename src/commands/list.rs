use vstd::prelude::*;

use crate::commands::render::{flat_spec, dump_spec, pieces_view, render_dump, render_flat, Piece};
use crate::commands::tree::{build_tree_structure, lookup, placed, pruned, render_tree, tree_spec, wf, TreeNode};
use crate::text::{
    is_str,
    chars_of, slice, split_words, starts_with, string_of, trim_suffix_all, strip_all_suffix, words,
};

verus! {

/// How a branch, or the working tree, stands.
#[derive(Debug, Clone, Copy, PartialEq, Eq, Structural)]
pub enum BranchStatus {
    /// Has an upstream and is level with it.
    UpToDate,
    Ahead(usize),
    Behind(usize),
    Diverged { ahead: usize, behind: usize },
    NoUpstream,
    /// Working-tree paths that are modified or staged.
    Uncommitted { count: usize },
    /// Working-tree paths that git does not track.
    Untracked { count: usize },
}

/// A branch and its status, or (with an empty name) a count of
/// working-tree changes.
#[derive(Debug)]
pub struct BranchInfo {
    pub name: String,
    pub status: BranchStatus,
}

impl View for BranchInfo {
    type V = (Seq<char>, BranchStatus);

    open spec fn view(&self) -> (Seq<char>, BranchStatus) {
        (self.name@, self.status)
    }
}

/// Everything reported about one repository.
#[derive(Debug)]
pub struct RepoStatus {
    pub path: String,
    pub current_branch: String,
    pub all_branches: Vec<BranchInfo>,
    /// The fetch address of the `origin` remote, where it could be read.
    pub origin_url: Option<String>,
}

pub open spec fn branches_view(v: Seq<BranchInfo>) -> Seq<(Seq<char>, BranchStatus)> {
    v.map_values(|b: BranchInfo| b@)
}

/// The status a tracking query can give a branch.
pub open spec fn is_tracking_status(s: BranchStatus) -> bool {
    s is UpToDate || s is Ahead || s is Behind || s is Diverged || s is NoUpstream
}

pub open spec fn heads_prefix() -> Seq<char> {
    "refs/heads/"@
}

/// The checked-out branch: the full name of HEAD's target without
/// `refs/heads/`, or `HEAD` when there is no such target.
pub open spec fn current_branch_spec(head_ref: Option<Seq<char>>) -> Seq<char> {
    match head_ref {
        Some(h) => if h.len() >= heads_prefix().len() && h.subrange(0, heads_prefix().len() as int)
            == heads_prefix() {
            h.subrange(heads_prefix().len() as int, h.len() as int)
        } else {
            "HEAD"@
        },
        None => "HEAD"@,
    }
}

pub fn current_branch_name(head_ref: &Option<String>) -> (r: String)
    ensures
        r@ == current_branch_spec(
            match head_ref {
                Some(h) => Some(h@),
                None => None,
            },
        ),
{
    proof {
        reveal_strlit("refs/heads/");
    }
    match head_ref {
        Some(h) => {
            let c = chars_of(h.as_str());
            if starts_with(&c, "refs/heads/") {
                string_of(&slice(&c, 11, c.len()))
            } else {
                String::from_str("HEAD")
            }
        },
        None => String::from_str("HEAD"),
    }
}

// ---- working-tree changes -------------------------------------------------

/// Bytes before the first newline.
pub open spec fn line_len(s: Seq<u8>) -> nat
    decreases s.len(),
{
    if s.len() == 0 || s[0] == 10u8 {
        0
    } else {
        1 + line_len(s.drop_first())
    }
}

/// ASCII whitespace other than the line end.
pub open spec fn is_blank_byte(b: u8) -> bool {
    b == 32u8 || b == 9u8 || b == 11u8 || b == 12u8 || b == 13u8
}

/// What the porcelain status line at the front of `s` adds to the
/// (uncommitted, untracked) counts: a line that starts with `??` is
/// untracked, any other line that is not blank is uncommitted.
pub open spec fn line_counts(s: Seq<u8>) -> (nat, nat) {
    if line_len(s) >= 2 && s[0] == 63u8 && s[1] == 63u8 {
        (0, 1)
    } else if exists|k: int| 0 <= k < line_len(s) && !is_blank_byte(#[trigger] s[k]) {
        (1, 0)
    } else {
        (0, 0)
    }
}

/// The (uncommitted, untracked) counts over all lines of porcelain output.
pub open spec fn change_counts(s: Seq<u8>) -> (nat, nat)
    decreases s.len(),
{
    let k = line_len(s);
    let (a, b) = line_counts(s);
    if k < s.len() {
        let (c, d) = change_counts(s.subrange(k + 1int, s.len() as int));
        (a + c, b + d)
    } else {
        (a, b)
    }
}

proof fn lemma_line_len(s: Seq<u8>, k: int)
    requires
        0 <= k <= s.len(),
        forall|j: int| 0 <= j < k ==> s[j] != 10u8,
        k == s.len() || s[k] == 10u8,
    ensures
        line_len(s) == k,
    decreases k,
{
    if k > 0 {
        lemma_line_len(s.drop_first(), k - 1);
    }
}

proof fn lemma_line_len_bound(s: Seq<u8>)
    ensures
        line_len(s) <= s.len(),
        line_len(s) < s.len() ==> s[line_len(s) as int] == 10u8,
        forall|j: int| 0 <= j < line_len(s) ==> s[j] != 10u8,
    decreases s.len(),
{
    if s.len() > 0 && s[0] != 10u8 {
        lemma_line_len_bound(s.drop_first());
        assert forall|j: int| 0 <= j < line_len(s) implies s[j] != 10u8 by {
            if j > 0 {
                assert(s[j] == s.drop_first()[j - 1]);
            }
        }
    }
}

/// Counts the uncommitted and untracked paths in the output of
/// `git status --porcelain`.
pub fn count_changes(s: &Vec<u8>) -> (r: (usize, usize))
    ensures
        r.0 == change_counts(s@).0,
        r.1 == change_counts(s@).1,
{
    let mut unc: usize = 0;
    let mut unt: usize = 0;
    let mut i: usize = 0;
    assert(s@.subrange(0, s.len() as int) == s@);
    loop
        invariant
            i <= s.len(),
            unc + unt <= i,
            change_counts(s@).0 == unc + change_counts(s@.subrange(i as int, s.len() as int)).0,
            change_counts(s@).1 == unt + change_counts(s@.subrange(i as int, s.len() as int)).1,
        decreases s.len() - i,
    {
        let ghost rest = s@.subrange(i as int, s.len() as int);
        let mut j: usize = i;
        let mut filled = false;
        while j < s.len() && s[j] != 10u8
            invariant
                i <= j <= s.len(),
                forall|k: int| i <= k < j ==> s@[k] != 10u8,
                filled == exists|k: int| i <= k < j && !is_blank_byte(#[trigger] s@[k]),
            decreases s.len() - j,
        {
            let b = s[j];
            if !(b == 32u8 || b == 9u8 || b == 11u8 || b == 12u8 || b == 13u8) {
                filled = true;
            }
            j = j + 1;
        }
        proof {
            assert forall|k: int| 0 <= k < j - i implies rest[k] != 10u8 by {
                assert(rest[k] == s@[i + k]);
            }
            lemma_line_len(rest, j - i);
            if j - i >= 2 {
                assert(rest[0] == s@[i as int]);
                assert(rest[1] == s@[i + 1]);
            }
            if filled {
                let k = choose|k: int| i <= k < j && !is_blank_byte(#[trigger] s@[k]);
                assert(rest[k - i] == s@[k]);
            } else {
                assert forall|k: int| 0 <= k < line_len(rest) implies is_blank_byte(#[trigger] rest[k]) by {
                    assert(rest[k] == s@[i + k]);
                }
            }
        }
        let ghost u0 = unc;
        let ghost t0 = unt;
        if j - i >= 2 && s[i] == 63u8 && s[i + 1] == 63u8 {
            unt = unt + 1;
        } else if filled {
            unc = unc + 1;
        }
        assert(unc == u0 + line_counts(rest).0 && unt == t0 + line_counts(rest).1);
        if j == s.len() {
            assert(rest.len() == j - i);
            assert(change_counts(rest).0 == line_counts(rest).0);
            assert(change_counts(rest).1 == line_counts(rest).1);
            return (unc, unt);
        }
        proof {
            assert(rest.subrange(j - i + 1, rest.len() as int) =~= s@.subrange(j + 1, s.len() as int));
        }
        i = j + 1;
    }
}

// ---- tracking information ---------------------------------------------------

pub open spec fn all_digits(d: Seq<char>) -> bool {
    forall|i: int| 0 <= i < d.len() ==> '0' <= #[trigger] d[i] && d[i] <= '9'
}

pub open spec fn digits_value(d: Seq<char>) -> nat
    decreases d.len(),
{
    if d.len() == 0 {
        0
    } else {
        digits_value(d.drop_last()) * 10 + (d.last() as nat - '0' as nat) as nat
    }
}

/// What `str::parse::<usize>` gives: an optional `+`, then one or more
/// decimal digits whose value fits in `usize`.
pub open spec fn parse_usize_spec(s: Seq<char>) -> Option<usize> {
    let d = if s.len() > 0 && s[0] == '+' {
        s.drop_first()
    } else {
        s
    };
    if d.len() > 0 && all_digits(d) && digits_value(d) <= usize::MAX {
        Some(digits_value(d) as usize)
    } else {
        None
    }
}

proof fn lemma_digits_grow(d: Seq<char>, k: int)
    requires
        0 <= k <= d.len(),
        all_digits(d),
    ensures
        digits_value(d.subrange(0, k)) <= digits_value(d),
    decreases d.len() - k,
{
    if k < d.len() {
        let e = d.subrange(0, k + 1);
        assert(e.drop_last() =~= d.subrange(0, k));
        assert('0' <= e.last() && e.last() <= '9');
        lemma_digits_grow(d, k + 1);
    } else {
        assert(d.subrange(0, k) =~= d);
    }
}

/// Reads an optional `+` and decimal digits, as `str::parse::<usize>` does;
/// `None` for anything else or a value beyond `usize::MAX`.
fn parse_usize(s: &str) -> (r: Option<usize>)
    ensures
        r == parse_usize_spec(s@),
{
    let c = chars_of(s);
    let start: usize = if c.len() > 0 && c[0] == '+' { 1 } else { 0 };
    let ghost d = if s@.len() > 0 && s@[0] == '+' { s@.drop_first() } else { s@ };
    assert(d =~= c@.subrange(start as int, c@.len() as int));
    if start == c.len() {
        return None;
    }
    let mut v: usize = 0;
    let mut i: usize = start;
    assert(c@.subrange(start as int, start as int) =~= Seq::<char>::empty());
    while i < c.len()
        invariant
            start <= i <= c.len(),
            start < c.len(),
            c@ == s@,
            d == (if s@.len() > 0 && s@[0] == '+' { s@.drop_first() } else { s@ }),
            d == c@.subrange(start as int, c@.len() as int),
            all_digits(c@.subrange(start as int, i as int)),
            v == digits_value(c@.subrange(start as int, i as int)),
        decreases c.len() - i,
    {
        let ch = c[i];
        let ghost pre = c@.subrange(start as int, i + 1);
        assert(pre.drop_last() =~= c@.subrange(start as int, i as int));
        assert(pre.last() == ch);
        assert(d[i - start] == ch);
        if !('0' <= ch && ch <= '9') {
            assert(!all_digits(d));
            return None;
        }
        let dig = (ch as u32 - '0' as u32) as usize;
        assert(dig == (ch as nat - '0' as nat));
        assert(digits_value(pre) == v * 10 + dig);
        proof {
            if all_digits(d) {
                lemma_digits_grow(d, i + 1 - start);
                assert(d.subrange(0, i + 1 - start) =~= pre);
            }
        }
        let m = match v.checked_mul(10) {
            Some(m) => m,
            None => {
                return None;
            },
        };
        v = match m.checked_add(dig) {
            Some(x) => x,
            None => {
                return None;
            },
        };
        assert(all_digits(pre));
        i = i + 1;
    }
    assert(c@.subrange(start as int, i as int) =~= d);
    Some(v)
}

/// A count token with any copies of `end` at its back removed; 0 where it
/// does not read as a number.
pub open spec fn count_of_token(t: Seq<char>, end: Seq<char>) -> usize {
    match parse_usize_spec(strip_all_suffix(t, end)) {
        Some(n) => n,
        None => 0,
    }
}

fn read_count(t: &Vec<char>, end: &str) -> (r: usize)
    requires
        end@.len() > 0,
    ensures
        r == count_of_token(t@, end@),
{
    let d = string_of(&trim_suffix_all(t, end));
    match parse_usize(d.as_str()) {
        Some(n) => n,
        None => 0,
    }
}

/// The status that a line of
/// `git for-each-ref --format='%(refname:short) %(upstream) %(upstream:track)'`
/// gives, split into words: the branch name alone means no upstream is
/// configured; name and upstream alone mean it is level with its upstream;
/// then come the ahead and behind counts, or `[gone]` for an upstream that
/// no longer exists.
pub open spec fn track_status_spec(w: Seq<Seq<char>>) -> BranchStatus {
    if w.len() == 1 {
        BranchStatus::NoUpstream
    } else if w.len() == 2 {
        BranchStatus::UpToDate
    } else if w.len() >= 6 && w[2] == "[ahead"@ && w[4] == "behind"@ {
        BranchStatus::Diverged { ahead: count_of_token(w[3], ","@), behind: count_of_token(w[5], "]"@) }
    } else if w.len() >= 4 && w[2] == "[ahead"@ {
        BranchStatus::Ahead(count_of_token(w[3], "]"@))
    } else if w.len() >= 4 && w[2] == "[behind"@ {
        BranchStatus::Behind(count_of_token(w[3], "]"@))
    } else {
        BranchStatus::NoUpstream
    }
}

/// A line of tracking output: the branch it names and its status, or `None`
/// for a blank line.
pub open spec fn tracking_line_spec(line: Seq<char>) -> Option<(Seq<char>, BranchStatus)> {
    let w = words(line);
    if w.len() == 0 {
        None
    } else {
        Some((w[0], track_status_spec(w)))
    }
}

/// Reads one line of tracking output.
pub fn parse_tracking_line(line: &str) -> (r: Option<(String, BranchStatus)>)
    ensures
        r is None <==> tracking_line_spec(line@) is None,
        r is Some ==> tracking_line_spec(line@) == Some(((r->0).0@, (r->0).1)),
        r is Some ==> is_tracking_status((r->0).1),
{
    let w = split_words(&chars_of(line));
    if w.len() == 0 {
        return None;
    }
    proof {
        reveal_strlit(",");
        reveal_strlit("]");
    }
    let status = if w.len() == 1 {
        BranchStatus::NoUpstream
    } else if w.len() == 2 {
        BranchStatus::UpToDate
    } else if w.len() >= 6 && is_str(&w[2], "[ahead") && is_str(&w[4], "behind") {
        BranchStatus::Diverged { ahead: read_count(&w[3], ","), behind: read_count(&w[5], "]") }
    } else if w.len() >= 4 && is_str(&w[2], "[ahead") {
        BranchStatus::Ahead(read_count(&w[3], "]"))
    } else if w.len() >= 4 && is_str(&w[2], "[behind") {
        BranchStatus::Behind(read_count(&w[3], "]"))
    } else {
        BranchStatus::NoUpstream
    };
    Some((string_of(&w[0]), status))
}


// ---- branch list -------------------------------------------------------------

pub open spec fn names_view(v: Seq<String>) -> Seq<Seq<char>> {
    v.map_values(|s: String| s@)
}

/// The names in order of first appearance, each once.
pub open spec fn dedup(s: Seq<Seq<char>>) -> Seq<Seq<char>>
    decreases s.len(),
{
    if s.len() == 0 {
        s
    } else {
        let d = dedup(s.drop_last());
        if d.contains(s.last()) {
            d
        } else {
            d.push(s.last())
        }
    }
}

/// The status that the last tracking line naming `name` gives it, or
/// `NoUpstream` where no line names it.
pub open spec fn tracked_status(lines: Seq<Seq<char>>, name: Seq<char>) -> BranchStatus
    decreases lines.len(),
{
    if lines.len() == 0 {
        BranchStatus::NoUpstream
    } else {
        match tracking_line_spec(lines.last()) {
            Some(entry) => if entry.0 == name {
                entry.1
            } else {
                tracked_status(lines.drop_last(), name)
            },
            None => tracked_status(lines.drop_last(), name),
        }
    }
}

/// The names other than `current`, in order.
pub open spec fn others(names: Seq<Seq<char>>, current: Seq<char>) -> Seq<Seq<char>>
    decreases names.len(),
{
    if names.len() == 0 {
        names
    } else {
        let o = others(names.drop_last(), current);
        if names.last() != current {
            o.push(names.last())
        } else {
            o
        }
    }
}

/// The entries that carry working-tree counts: uncommitted, then untracked,
/// each only where its count is positive.
pub open spec fn synthetic(unc: usize, unt: usize) -> Seq<(Seq<char>, BranchStatus)> {
    (if unc > 0 {
        seq![(Seq::<char>::empty(), BranchStatus::Uncommitted { count: unc })]
    } else {
        Seq::empty()
    }) + (if unt > 0 {
        seq![(Seq::<char>::empty(), BranchStatus::Untracked { count: unt })]
    } else {
        Seq::empty()
    })
}

pub open spec fn with_status(names: Seq<Seq<char>>, lines: Seq<Seq<char>>) -> Seq<(Seq<char>, BranchStatus)> {
    names.map_values(|n: Seq<char>| (n, tracked_status(lines, n)))
}

/// The branch list of a repository: the current branch first, then the
/// working-tree counts, then every other local branch in the order the
/// enumeration gave them. The enumeration decides which branches exist; the
/// tracking lines only give their status.
pub open spec fn assemble_spec(
    current: Seq<char>,
    local: Seq<Seq<char>>,
    lines: Seq<Seq<char>>,
    unc: usize,
    unt: usize,
) -> Seq<(Seq<char>, BranchStatus)> {
    let names = dedup(local);
    let cur = if names.contains(current) {
        tracked_status(lines, current)
    } else {
        BranchStatus::NoUpstream
    };
    seq![(current, cur)] + synthetic(unc, unt) + with_status(others(names, current), lines)
}

fn parse_lines(lines: &Vec<String>) -> (r: Vec<Option<(String, BranchStatus)>>)
    ensures
        r@.len() == lines@.len(),
        forall|k: int|
            0 <= k < r@.len() ==> match #[trigger] r@[k] {
                Some(e) => tracking_line_spec(lines@[k]@) == Some((e.0@, e.1)),
                None => tracking_line_spec(lines@[k]@) is None,
            },
{
    let mut r: Vec<Option<(String, BranchStatus)>> = Vec::new();
    let mut i: usize = 0;
    while i < lines.len()
        invariant
            i <= lines.len(),
            r@.len() == i,
            forall|k: int|
                0 <= k < r@.len() ==> match #[trigger] r@[k] {
                    Some(e) => tracking_line_spec(lines@[k]@) == Some((e.0@, e.1)),
                    None => tracking_line_spec(lines@[k]@) is None,
                },
        decreases lines.len() - i,
    {
        r.push(parse_tracking_line(lines[i].as_str()));
        i = i + 1;
    }
    r
}

fn lookup_status(parsed: &Vec<Option<(String, BranchStatus)>>, lines: Ghost<Seq<Seq<char>>>, name: &String) -> (r: BranchStatus)
    requires
        parsed@.len() == lines@.len(),
        forall|k: int|
            0 <= k < parsed@.len() ==> match #[trigger] parsed@[k] {
                Some(e) => tracking_line_spec(lines@[k]) == Some((e.0@, e.1)),
                None => tracking_line_spec(lines@[k]) is None,
            },
    ensures
        r == tracked_status(lines@, name@),
{
    let mut i: usize = parsed.len();
    assert(lines@.subrange(0, i as int) =~= lines@);
    while i > 0
        invariant
            i <= parsed@.len(),
            parsed@.len() == lines@.len(),
            forall|k: int|
                0 <= k < parsed@.len() ==> match #[trigger] parsed@[k] {
                    Some(e) => tracking_line_spec(lines@[k]) == Some((e.0@, e.1)),
                    None => tracking_line_spec(lines@[k]) is None,
                },
            tracked_status(lines@, name@) == tracked_status(lines@.subrange(0, i as int), name@),
        decreases i,
    {
        let ghost sub = lines@.subrange(0, i as int);
        assert(sub.last() == lines@[i - 1]);
        assert(sub.drop_last() == lines@.subrange(0, i - 1));
        match &parsed[i - 1] {
            Some(e) => {
                if e.0 == *name {
                    return e.1;
                }
            },
            None => {},
        }
        i = i - 1;
    }
    BranchStatus::NoUpstream
}

fn contains_string(v: &Vec<String>, n: &String) -> (r: bool)
    ensures
        r == names_view(v@).contains(n@),
{
    let mut i: usize = 0;
    while i < v.len()
        invariant
            i <= v.len(),
            forall|k: int| 0 <= k < i ==> v@[k]@ != n@,
        decreases v.len() - i,
    {
        if v[i] == *n {
            assert(names_view(v@)[i as int] == n@);
            return true;
        }
        i = i + 1;
    }
    assert(!names_view(v@).contains(n@)) by {
        assert forall|k: int| 0 <= k < names_view(v@).len() implies names_view(v@)[k] != n@ by {
            assert(names_view(v@)[k] == v@[k]@);
        }
    }
    false
}

fn dedup_names(local: &Vec<String>) -> (r: Vec<String>)
    ensures
        names_view(r@) == dedup(names_view(local@)),
{
    let mut r: Vec<String> = Vec::new();
    let mut i: usize = 0;
    while i < local.len()
        invariant
            i <= local.len(),
            names_view(r@) == dedup(names_view(local@).subrange(0, i as int)),
        decreases local.len() - i,
    {
        let ghost pre = names_view(local@).subrange(0, i + 1);
        assert(pre.drop_last() == names_view(local@).subrange(0, i as int));
        assert(pre.last() == local@[i as int]@);
        if !contains_string(&r, &local[i]) {
            let n = local[i].clone();
            r.push(n);
            assert(names_view(r@) =~= names_view(r@).drop_last().push(n@));
        }
        i = i + 1;
    }
    assert(names_view(local@).subrange(0, local.len() as int) == names_view(local@));
    r
}

/// Builds the branch list of a repository from the current branch, the
/// enumerated local branches, the lines of the tracking query and the
/// working-tree counts.
pub fn assemble_branches(
    current: &String,
    local: &Vec<String>,
    tracking_lines: &Vec<String>,
    uncommitted: usize,
    untracked: usize,
) -> (r: Vec<BranchInfo>)
    ensures
        branches_view(r@) == assemble_spec(
            current@,
            names_view(local@),
            names_view(tracking_lines@),
            uncommitted,
            untracked,
        ),
{
    let ghost lines = names_view(tracking_lines@);
    let parsed = parse_lines(tracking_lines);
    let names = dedup_names(local);
    let cur = if contains_string(&names, current) {
        lookup_status(&parsed, Ghost(lines), current)
    } else {
        BranchStatus::NoUpstream
    };
    let mut r: Vec<BranchInfo> = Vec::new();
    r.push(BranchInfo { name: current.clone(), status: cur });
    if uncommitted > 0 {
        r.push(BranchInfo { name: String::new(), status: BranchStatus::Uncommitted { count: uncommitted } });
    }
    if untracked > 0 {
        r.push(BranchInfo { name: String::new(), status: BranchStatus::Untracked { count: untracked } });
    }
    let ghost head = branches_view(r@);
    assert(head =~= seq![(current@, cur)] + synthetic(uncommitted, untracked));
    let mut i: usize = 0;
    while i < names.len()
        invariant
            i <= names.len(),
            parsed@.len() == lines.len(),
            lines == names_view(tracking_lines@),
            forall|k: int|
                0 <= k < parsed@.len() ==> match #[trigger] parsed@[k] {
                    Some(e) => tracking_line_spec(lines[k]) == Some((e.0@, e.1)),
                    None => tracking_line_spec(lines[k]) is None,
                },
            branches_view(r@) == head + with_status(others(names_view(names@).subrange(0, i as int), current@), lines),
        decreases names.len() - i,
    {
        let ghost pre = names_view(names@).subrange(0, i + 1);
        assert(pre.drop_last() == names_view(names@).subrange(0, i as int));
        assert(pre.last() == names@[i as int]@);
        if names[i] != *current {
            let st = lookup_status(&parsed, Ghost(lines), &names[i]);
            let n = names[i].clone();
            let ghost old_r = branches_view(r@);
            let ghost o = others(pre.drop_last(), current@);
            assert(others(pre, current@) == o.push(pre.last()));
            assert(with_status(o.push(pre.last()), lines) =~= with_status(o, lines).push((pre.last(), tracked_status(lines, pre.last()))));
            r.push(BranchInfo { name: n, status: st });
            assert(branches_view(r@) =~= old_r.push((n@, st)));
            assert(branches_view(r@) =~= head + with_status(others(pre, current@), lines));
        } else {
            assert(others(pre, current@) == others(pre.drop_last(), current@));
        }
        i = i + 1;
    }
    assert(names_view(names@).subrange(0, names.len() as int) == names_view(names@));
    r
}


pub open spec fn option_view(o: Option<String>) -> Option<Seq<char>> {
    match o {
        Some(s) => Some(s@),
        None => None,
    }
}

/// Builds the status record of one repository from what git reported of it:
/// the full name HEAD points to (if any), the output of
/// `git status --porcelain` (empty where that failed), the local branch
/// names, the lines of the tracking query (none where that failed), and the
/// `origin` fetch address.
pub fn get_repo_status(
    path: String,
    head_ref: &Option<String>,
    porcelain: &Vec<u8>,
    local: &Vec<String>,
    tracking_lines: &Vec<String>,
    origin_url: Option<String>,
) -> (r: RepoStatus)
    ensures
        r.path@ == path@,
        r.current_branch@ == current_branch_spec(option_view(*head_ref)),
        branches_view(r.all_branches@) == assemble_spec(
            current_branch_spec(option_view(*head_ref)),
            names_view(local@),
            names_view(tracking_lines@),
            change_counts(porcelain@).0 as usize,
            change_counts(porcelain@).1 as usize,
        ),
        r.origin_url == origin_url,
{
    let current_branch = current_branch_name(head_ref);
    let (unc, unt) = count_changes(porcelain);
    let all_branches = assemble_branches(&current_branch, local, tracking_lines, unc, unt);
    RepoStatus { path, current_branch, all_branches, origin_url }
}

/// The current branch always heads the branch list.
pub proof fn lemma_current_branch_first(
    current: Seq<char>,
    local: Seq<Seq<char>>,
    lines: Seq<Seq<char>>,
    unc: usize,
    unt: usize,
)
    ensures
        assemble_spec(current, local, lines, unc, unt).len() >= 1,
        assemble_spec(current, local, lines, unc, unt)[0].0 == current,
{
}

pub proof fn lemma_tracking_status(lines: Seq<Seq<char>>, name: Seq<char>)
    ensures
        is_tracking_status(tracked_status(lines, name)),
    decreases lines.len(),
{
    if lines.len() > 0 {
        lemma_tracking_status(lines.drop_last(), name);
    }
}

/// A tracking line gives exactly one of the five tracking statuses.
pub proof fn lemma_tracking_line_status(line: Seq<char>)
    ensures
        tracking_line_spec(line) is Some ==> is_tracking_status((tracking_line_spec(line)->0).1),
{
}

pub open spec fn is_change_entry(e: (Seq<char>, BranchStatus)) -> bool {
    e.1 is Uncommitted || e.1 is Untracked
}

/// The working-tree entries stand right after the current branch and
/// before every other branch: uncommitted first, then untracked, each only
/// where its count is positive, so none when both counts are zero.
pub proof fn lemma_change_entries_placement(
    current: Seq<char>,
    local: Seq<Seq<char>>,
    lines: Seq<Seq<char>>,
    unc: usize,
    unt: usize,
)
    ensures
        ({
            let b = assemble_spec(current, local, lines, unc, unt);
            let k = synthetic(unc, unt).len() as int;
            &&& k == (if unc > 0 { 1int } else { 0int }) + (if unt > 0 { 1int } else { 0int })
            &&& !is_change_entry(b[0])
            &&& unc > 0 ==> b[1] == (Seq::<char>::empty(), BranchStatus::Uncommitted { count: unc })
            &&& unt > 0 ==> b[k] == (Seq::<char>::empty(), BranchStatus::Untracked { count: unt })
            &&& forall|i: int| 1 <= i <= k ==> is_change_entry(#[trigger] b[i])
            &&& forall|i: int| k < i < b.len() ==> !is_change_entry(#[trigger] b[i])
            &&& (unc == 0 && unt == 0) ==> forall|i: int| 0 <= i < b.len() ==> !is_change_entry(#[trigger] b[i])
        }),
{
    let b = assemble_spec(current, local, lines, unc, unt);
    let names = dedup(local);
    let cur = if names.contains(current) {
        tracked_status(lines, current)
    } else {
        BranchStatus::NoUpstream
    };
    lemma_tracking_status(lines, current);
    let k = synthetic(unc, unt).len() as int;
    let rest = with_status(others(names, current), lines);
    assert(b == seq![(current, cur)] + synthetic(unc, unt) + rest);
    assert forall|i: int| k < i < b.len() implies !is_change_entry(#[trigger] b[i]) by {
        assert(b[i] == rest[i - 1 - k]);
        lemma_tracking_status(lines, others(names, current)[i - 1 - k]);
    }
    assert forall|i: int| 1 <= i <= k implies is_change_entry(#[trigger] b[i]) by {
        assert(b[i] == synthetic(unc, unt)[i - 1]);
    }
}

proof fn lemma_dedup_from(s: Seq<Seq<char>>)
    ensures
        forall|i: int| 0 <= i < dedup(s).len() ==> s.contains(#[trigger] dedup(s)[i]),
    decreases s.len(),
{
    if s.len() > 0 {
        let d = dedup(s.drop_last());
        lemma_dedup_from(s.drop_last());
        assert forall|i: int| 0 <= i < dedup(s).len() implies s.contains(#[trigger] dedup(s)[i]) by {
            if i < d.len() {
                let j = choose|j: int| 0 <= j < s.drop_last().len() && s.drop_last()[j] == d[i];
                assert(s[j] == d[i]);
            } else {
                assert(s[s.len() - 1] == dedup(s)[i]);
            }
        }
    }
}

proof fn lemma_others_from(names: Seq<Seq<char>>, current: Seq<char>)
    ensures
        forall|i: int| 0 <= i < others(names, current).len() ==> names.contains(#[trigger] others(names, current)[i]),
    decreases names.len(),
{
    if names.len() > 0 {
        let o = others(names.drop_last(), current);
        lemma_others_from(names.drop_last(), current);
        assert forall|i: int| 0 <= i < others(names, current).len() implies names.contains(#[trigger] others(names, current)[i]) by {
            if i < o.len() {
                let j = choose|j: int| 0 <= j < names.drop_last().len() && names.drop_last()[j] == o[i];
                assert(names[j] == o[i]);
            } else {
                assert(names[names.len() - 1] == others(names, current)[i]);
            }
        }
    }
}

/// Where the current branch and every local branch have a name, an entry of
/// the branch list has an empty name exactly when it carries working-tree
/// counts; the named entries carry one of the five tracking statuses.
pub proof fn lemma_empty_name_marks_change_entry(
    current: Seq<char>,
    local: Seq<Seq<char>>,
    lines: Seq<Seq<char>>,
    unc: usize,
    unt: usize,
)
    requires
        current.len() > 0,
        forall|k: int| 0 <= k < local.len() ==> (#[trigger] local[k]).len() > 0,
    ensures
        forall|i: int|
            0 <= i < assemble_spec(current, local, lines, unc, unt).len() ==> ((#[trigger] assemble_spec(
                current,
                local,
                lines,
                unc,
                unt,
            )[i]).0.len() == 0 <==> is_change_entry(assemble_spec(current, local, lines, unc, unt)[i])),
        forall|i: int|
            0 <= i < assemble_spec(current, local, lines, unc, unt).len() && !is_change_entry(
                #[trigger] assemble_spec(current, local, lines, unc, unt)[i],
            ) ==> is_tracking_status(assemble_spec(current, local, lines, unc, unt)[i].1),
{
    let b = assemble_spec(current, local, lines, unc, unt);
    let names = dedup(local);
    let os = others(names, current);
    let k = synthetic(unc, unt).len() as int;
    lemma_change_entries_placement(current, local, lines, unc, unt);
    lemma_dedup_from(local);
    lemma_others_from(names, current);
    lemma_tracking_status(lines, current);
    assert forall|i: int| 0 <= i < b.len() implies ((#[trigger] b[i]).0.len() == 0 <==> is_change_entry(b[i]))
        && (!is_change_entry(b[i]) ==> is_tracking_status(b[i].1)) by {
        if i > k {
            let n = os[i - 1 - k];
            assert(b[i] == (n, tracked_status(lines, n)));
            assert(names.contains(n));
            assert(local.contains(n));
            lemma_tracking_status(lines, n);
        } else if i >= 1 {
            assert(b[i] == synthetic(unc, unt)[i - 1]);
        }
    }
}


// ---- listing --------------------------------------------------------------------

/// The ways the listing can be shown.
#[derive(Debug, Clone, Copy, PartialEq, Eq, Structural)]
pub enum OutputFormat {
    Tree,
    Flat,
    Dump,
}

/// Why a listing could not be made.
#[derive(Debug, Clone, Copy, PartialEq, Eq, Structural)]
pub enum ListError {
    /// The output format is none of `tree`, `flat` and `dump`.
    InvalidFormat,
}

pub open spec fn format_spec(s: Seq<char>) -> Option<OutputFormat> {
    if s == "tree"@ {
        Some(OutputFormat::Tree)
    } else if s == "flat"@ {
        Some(OutputFormat::Flat)
    } else if s == "dump"@ {
        Some(OutputFormat::Dump)
    } else {
        None
    }
}

/// Reads the name of an output format.
pub fn parse_output_format(s: &str) -> (r: Result<OutputFormat, ListError>)
    ensures
        format_spec(s@) is Some ==> r == Ok::<OutputFormat, ListError>(format_spec(s@)->0),
        format_spec(s@) is None ==> r == Err::<OutputFormat, ListError>(ListError::InvalidFormat),
{
    let c = chars_of(s);
    if is_str(&c, "tree") {
        Ok(OutputFormat::Tree)
    } else if is_str(&c, "flat") {
        Ok(OutputFormat::Flat)
    } else if is_str(&c, "dump") {
        Ok(OutputFormat::Dump)
    } else {
        Err(ListError::InvalidFormat)
    }
}

/// The listing of `repos`, found below `base_dir` and sorted by path, in
/// the format named `output_format`.
pub fn execute(output_format: &str, base_dir: &str, repos: &Vec<RepoStatus>) -> (r: Result<Vec<Piece>, ListError>)
    ensures
        format_spec(output_format@) is None ==> r == Err::<Vec<Piece>, ListError>(ListError::InvalidFormat),
        format_spec(output_format@) is Some ==> r is Ok,
        format_spec(output_format@) == Some(OutputFormat::Flat) ==> pieces_view(r->Ok_0@) == flat_spec(repos@),
        format_spec(output_format@) == Some(OutputFormat::Dump) ==> pieces_view(r->Ok_0@) == dump_spec(repos@),
        format_spec(output_format@) == Some(OutputFormat::Tree) ==> exists|t: TreeNode|
            #[trigger] wf(t) && pruned(t) && t.name@.len() == 0 && (forall|p: Seq<Seq<char>>|
                #[trigger] lookup(t, p) == placed(repos@, base_dir@, p)) && pieces_view(r->Ok_0@) == tree_spec(
                t,
                repos@,
                base_dir@,
            ),
{
    match parse_output_format(output_format) {
        Ok(OutputFormat::Tree) => {
            let tree = build_tree_structure(repos, base_dir);
            let out = render_tree(&tree, repos, base_dir);
            assert(wf(tree));
            Ok(out)
        },
        Ok(OutputFormat::Flat) => Ok(render_flat(repos)),
        Ok(OutputFormat::Dump) => Ok(render_dump(repos)),
        Err(e) => Err(e),
    }
}

} // verus!
