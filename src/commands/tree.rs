use vstd::prelude::*;

use crate::commands::list::{branches_view, BranchStatus, RepoStatus};
use crate::commands::render::{pieces_view, plain, status_piece, status_spec, Piece, Tint};
use crate::text::{chars_of, index_of, push_all, push_str, same_chars, slice, split_once_char};

verus! {

// ---- paths --------------------------------------------------------------------

/// A `/`-separated piece, unless it is empty or `.`.
pub open spec fn keep_segment(x: Seq<char>) -> Seq<Seq<char>> {
    if x.len() == 0 || x == "."@ {
        Seq::empty()
    } else {
        seq![x]
    }
}

pub open spec fn segments(s: Seq<char>) -> Seq<Seq<char>>
    decreases s.len(),
{
    let i = index_of(s, '/');
    if 0 <= i < s.len() {
        keep_segment(s.subrange(0, i)) + segments(s.subrange(i + 1, s.len() as int))
    } else {
        keep_segment(s)
    }
}

/// The components of a path: `/` for a leading root, then every piece
/// between separators that is neither empty nor `.`.
pub open spec fn components(s: Seq<char>) -> Seq<Seq<char>> {
    (if s.len() > 0 && s[0] == '/' {
        seq!["/"@]
    } else {
        Seq::empty()
    }) + segments(s)
}

/// The components of `path` below `base`, where `base`'s components begin it.
pub open spec fn relative(path: Seq<char>, base: Seq<char>) -> Option<Seq<Seq<char>>> {
    let pc = components(path);
    let bc = components(base);
    if bc.len() <= pc.len() && pc.subrange(0, bc.len() as int) == bc {
        Some(pc.subrange(bc.len() as int, pc.len() as int))
    } else {
        None
    }
}

proof fn lemma_segments_nonempty(s: Seq<char>)
    ensures
        forall|k: int| 0 <= k < segments(s).len() ==> (#[trigger] segments(s)[k]).len() > 0,
    decreases s.len(),
{
    let i = index_of(s, '/');
    if 0 <= i < s.len() {
        let tail = s.subrange(i + 1, s.len() as int);
        lemma_segments_nonempty(tail);
        let h = keep_segment(s.subrange(0, i));
        assert forall|k: int| 0 <= k < segments(s).len() implies (#[trigger] segments(s)[k]).len() > 0 by {
            if k >= h.len() {
                assert(segments(s)[k] == segments(tail)[k - h.len()]);
            }
        }
    }
}

/// Every component of a relative path has a name.
proof fn lemma_relative_nonempty(path: Seq<char>, base: Seq<char>)
    requires
        relative(path, base) is Some,
    ensures
        forall|k: int| 0 <= k < (relative(path, base)->0).len() ==> (#[trigger] (relative(path, base)->0)[k]).len() > 0,
{
    reveal_strlit("/");
    lemma_segments_nonempty(path);
    let pc = components(path);
    let h: Seq<Seq<char>> = if path.len() > 0 && path[0] == '/' { seq!["/"@] } else { Seq::empty() };
    assert forall|k: int| 0 <= k < pc.len() implies (#[trigger] pc[k]).len() > 0 by {
        if k >= h.len() {
            assert(pc[k] == segments(path)[k - h.len()]);
        }
    }
    let bl = components(base).len() as int;
    assert forall|k: int| 0 <= k < (relative(path, base)->0).len() implies (#[trigger] (relative(path, base)->0)[k]).len() > 0 by {
        assert((relative(path, base)->0)[k] == pc[k + bl]);
    }
}

fn is_dot(x: &Vec<char>) -> (r: bool)
    ensures
        r == (x@ == "."@),
{
    proof {
        reveal_strlit(".");
    }
    let r = x.len() == 1 && x[0] == '.';
    assert(r ==> x@ =~= "."@);
    r
}

fn segments_of(s: &Vec<char>) -> (r: Vec<Vec<char>>)
    ensures
        r@.len() == segments(s@).len(),
        forall|k: int| 0 <= k < r@.len() ==> #[trigger] r@[k]@ == segments(s@)[k],
{
    let mut r: Vec<Vec<char>> = Vec::new();
    let ghost acc: Seq<Seq<char>> = Seq::empty();
    let mut rest = slice(s, 0, s.len());
    assert(rest@ =~= s@);
    assert(acc + segments(rest@) =~= segments(s@));
    loop
        invariant
            r@.len() == acc.len(),
            forall|k: int| 0 <= k < r@.len() ==> #[trigger] r@[k]@ == acc[k],
            acc + segments(rest@) == segments(s@),
        decreases rest@.len(),
    {
        proof {
            crate::text::lemma_index_of_bounds(rest@, '/');
        }
        match split_once_char(&rest, '/') {
            None => {
                if !(rest.len() == 0 || is_dot(&rest)) {
                    proof {
                        acc = acc.push(rest@);
                    }
                    r.push(rest);
                } else {
                    assert(acc + segments(rest@) =~= acc);
                }
                return r;
            },
            Some((a, b)) => {
                if !(a.len() == 0 || is_dot(&a)) {
                    proof {
                        assert(acc + segments(rest@) =~= acc.push(a@) + segments(b@));
                        acc = acc.push(a@);
                    }
                    r.push(a);
                } else {
                    assert(acc + segments(rest@) =~= acc + segments(b@));
                }
                rest = b;
            },
        }
    }
}

pub fn components_of(s: &Vec<char>) -> (r: Vec<Vec<char>>)
    ensures
        r@.len() == components(s@).len(),
        forall|k: int| 0 <= k < r@.len() ==> #[trigger] r@[k]@ == components(s@)[k],
{
    let mut r: Vec<Vec<char>> = Vec::new();
    if s.len() > 0 && s[0] == '/' {
        r.push(chars_of("/"));
    }
    let ghost head = r@.map_values(|v: Vec<char>| v@);
    let segs = segments_of(s);
    let mut i: usize = 0;
    while i < segs.len()
        invariant
            i <= segs.len(),
            head.len() == (if s@.len() > 0 && s@[0] == '/' { 1int } else { 0int }),
            head.len() == 1 ==> head[0] == "/"@,
            r@.len() == head.len() + i,
            forall|k: int| 0 <= k < head.len() ==> #[trigger] r@[k]@ == head[k],
            forall|k: int| head.len() <= k < r@.len() ==> #[trigger] r@[k]@ == segments(s@)[k - head.len()],
            segs@.len() == segments(s@).len(),
            forall|k: int| 0 <= k < segs@.len() ==> #[trigger] segs@[k]@ == segments(s@)[k],
        decreases segs.len() - i,
    {
        let c = slice(&segs[i], 0, segs[i].len());
        assert(c@ =~= segs@[i as int]@);
        r.push(c);
        i = i + 1;
    }
    assert forall|k: int| 0 <= k < r@.len() implies #[trigger] r@[k]@ == components(s@)[k] by {
        if k < head.len() {
            assert(components(s@)[k] == "/"@);
        }
    }
    r
}

/// The components of `path` below `base`, as `relative` gives them.
pub fn relative_of(path: &str, base: &str) -> (r: Option<Vec<Vec<char>>>)
    ensures
        r is None <==> relative(path@, base@) is None,
        r is Some ==> (r->0)@.len() == (relative(path@, base@)->0).len() && forall|k: int|
            0 <= k < (r->0)@.len() ==> #[trigger] (r->0)@[k]@ == (relative(path@, base@)->0)[k],
{
    let pchars = chars_of(path);
    let bchars = chars_of(base);
    let pc = components_of(&pchars);
    let bc = components_of(&bchars);
    let ghost pv = components(path@);
    let ghost bv = components(base@);
    if bc.len() > pc.len() {
        return None;
    }
    let mut i: usize = 0;
    while i < bc.len()
        invariant
            i <= bc.len() <= pc.len(),
            pv == components(path@),
            bv == components(base@),
            pc@.len() == pv.len(),
            bc@.len() == bv.len(),
            forall|k: int| 0 <= k < pc@.len() ==> #[trigger] pc@[k]@ == pv[k],
            forall|k: int| 0 <= k < bc@.len() ==> #[trigger] bc@[k]@ == bv[k],
            forall|k: int| 0 <= k < i ==> pv[k] == bv[k],
        decreases bc.len() - i,
    {
        if !same_chars(&pc[i], &bc[i]) {
            assert(pv.subrange(0, bv.len() as int)[i as int] != bv[i as int]);
            assert(pv.subrange(0, bv.len() as int) != bv);
            return None;
        }
        i = i + 1;
    }
    assert(pv.subrange(0, bv.len() as int) =~= bv);
    let mut r: Vec<Vec<char>> = Vec::new();
    let mut j: usize = bc.len();
    while j < pc.len()
        invariant
            bc.len() <= j <= pc.len(),
            pv == components(path@),
            bv == components(base@),
            pc@.len() == pv.len(),
            bc@.len() == bv.len(),
            forall|k: int| 0 <= k < pc@.len() ==> #[trigger] pc@[k]@ == pv[k],
            r@.len() == j - bc.len(),
            forall|k: int| 0 <= k < r@.len() ==> #[trigger] r@[k]@ == pv[k + bv.len()],
        decreases pc.len() - j,
    {
        let c = slice(&pc[j], 0, pc[j].len());
        assert(c@ =~= pc@[j as int]@);
        r.push(c);
        j = j + 1;
    }
    Some(r)
}

// ---- ordering of names ----------------------------------------------------------

/// Lexicographic order on characters, which is the order of `str`.
pub open spec fn lex_lt(a: Seq<char>, b: Seq<char>) -> bool
    decreases a.len(),
{
    if a.len() == 0 {
        b.len() > 0
    } else if b.len() == 0 {
        false
    } else if a[0] != b[0] {
        a[0] < b[0]
    } else {
        lex_lt(a.drop_first(), b.drop_first())
    }
}

pub proof fn lemma_lex_irreflexive(a: Seq<char>)
    ensures
        !lex_lt(a, a),
    decreases a.len(),
{
    if a.len() > 0 {
        lemma_lex_irreflexive(a.drop_first());
    }
}

pub proof fn lemma_lex_total(a: Seq<char>, b: Seq<char>)
    ensures
        a == b || lex_lt(a, b) || lex_lt(b, a),
    decreases a.len(),
{
    if a.len() > 0 && b.len() > 0 && a[0] == b[0] {
        lemma_lex_total(a.drop_first(), b.drop_first());
        if a.drop_first() == b.drop_first() {
            assert(a =~= seq![a[0]] + a.drop_first());
            assert(b =~= seq![b[0]] + b.drop_first());
        }
    } else if a.len() == 0 && b.len() == 0 {
        assert(a =~= b);
    }
}

pub proof fn lemma_lex_transitive(a: Seq<char>, b: Seq<char>, c: Seq<char>)
    requires
        lex_lt(a, b),
        lex_lt(b, c),
    ensures
        lex_lt(a, c),
    decreases a.len(),
{
    if a.len() > 0 && b.len() > 0 && c.len() > 0 && a[0] == b[0] && b[0] == c[0] {
        lemma_lex_transitive(a.drop_first(), b.drop_first(), c.drop_first());
    }
}

fn lex_less(a: &Vec<char>, b: &Vec<char>) -> (r: bool)
    ensures
        r == lex_lt(a@, b@),
{
    let mut i: usize = 0;
    assert(a@.subrange(0, a.len() as int) =~= a@);
    assert(b@.subrange(0, b.len() as int) =~= b@);
    loop
        invariant
            i <= a.len(),
            i <= b.len(),
            lex_lt(a@, b@) == lex_lt(a@.subrange(i as int, a.len() as int), b@.subrange(i as int, b.len() as int)),
        decreases a.len() - i,
    {
        let ghost sa = a@.subrange(i as int, a.len() as int);
        let ghost sb = b@.subrange(i as int, b.len() as int);
        if i == a.len() {
            return i < b.len();
        }
        if i == b.len() {
            return false;
        }
        assert(sa[0] == a@[i as int] && sb[0] == b@[i as int]);
        if a[i] != b[i] {
            return a[i] < b[i];
        }
        assert(sa.drop_first() =~= a@.subrange(i + 1, a.len() as int));
        assert(sb.drop_first() =~= b@.subrange(i + 1, b.len() as int));
        i = i + 1;
    }
}

// ---- the tree -------------------------------------------------------------------

/// A directory on the way to one or more repositories. The root has an
/// empty name; `repo` is the position, in the list the tree was built from,
/// of the repository that lives exactly here.
#[derive(Debug)]
pub struct TreeNode {
    pub name: String,
    pub children: Vec<TreeNode>,
    pub repo: Option<usize>,
}

/// The children's names are strictly increasing, at every level.
pub open spec fn wf(t: TreeNode) -> bool
    decreases t,
{
    &&& sorted_names(t.children@)
    &&& forall|i: int| 0 <= i < t.children@.len() ==> wf(#[trigger] t.children@[i])
}

/// A node below the root: it has a name, and it holds a repository or
/// leads further down.
pub open spec fn fits_below(c: TreeNode) -> bool {
    c.name@.len() > 0 && (c.repo is Some || c.children@.len() > 0)
}

/// Every node below `t` has a name and holds a repository or has children,
/// so no directory is drawn that leads to no repository.
pub open spec fn pruned(t: TreeNode) -> bool
    decreases t,
{
    forall|i: int| 0 <= i < t.children@.len() ==> fits_below(#[trigger] t.children@[i]) && pruned(t.children@[i])
}

pub open spec fn sorted_names(cs: Seq<TreeNode>) -> bool {
    forall|i: int, j: int| 0 <= i < j < cs.len() ==> lex_lt(#[trigger] cs[i].name@, #[trigger] cs[j].name@)
}

/// Position of the first child named `n`, or -1.
pub open spec fn child_index(cs: Seq<TreeNode>, n: Seq<char>) -> int
    decreases cs.len(),
{
    if cs.len() == 0 {
        -1
    } else if cs[0].name@ == n {
        0
    } else if child_index(cs.drop_first(), n) < 0 {
        -1
    } else {
        child_index(cs.drop_first(), n) + 1
    }
}

/// The repository recorded at the node that the names `p` lead to.
pub open spec fn lookup(t: TreeNode, p: Seq<Seq<char>>) -> Option<usize>
    decreases p.len(),
{
    if p.len() == 0 {
        t.repo
    } else {
        let k = child_index(t.children@, p[0]);
        if 0 <= k < t.children@.len() {
            lookup(t.children@[k], p.drop_first())
        } else {
            None
        }
    }
}

proof fn lemma_child_index(cs: Seq<TreeNode>, n: Seq<char>, i: int)
    requires
        0 <= i <= cs.len(),
        forall|j: int| 0 <= j < i ==> cs[j].name@ != n,
        i == cs.len() || cs[i].name@ == n,
    ensures
        child_index(cs, n) == if i == cs.len() {
            -1
        } else {
            i
        },
    decreases cs.len(),
{
    if cs.len() > 0 && i > 0 {
        lemma_child_index(cs.drop_first(), n, i - 1);
    }
}

proof fn lemma_child_index_bounds(cs: Seq<TreeNode>, n: Seq<char>)
    ensures
        -1 <= child_index(cs, n) < cs.len(),
        child_index(cs, n) >= 0 ==> cs[child_index(cs, n)].name@ == n,
        forall|j: int| 0 <= j < child_index(cs, n) ==> cs[j].name@ != n,
        child_index(cs, n) < 0 ==> forall|j: int| 0 <= j < cs.len() ==> cs[j].name@ != n,
    decreases cs.len(),
{
    if cs.len() > 0 {
        lemma_child_index_bounds(cs.drop_first(), n);
        assert forall|j: int| 1 <= j < cs.len() implies cs[j] == cs.drop_first()[j - 1] by {}
    }
}

/// Two child lists with the same names, in the same places, find the same
/// child for every name.
proof fn lemma_child_index_same_names(a: Seq<TreeNode>, b: Seq<TreeNode>, n: Seq<char>)
    requires
        a.len() == b.len(),
        forall|j: int| 0 <= j < a.len() ==> a[j].name@ == b[j].name@,
    ensures
        child_index(a, n) == child_index(b, n),
{
    lemma_child_index_bounds(a, n);
    let i = child_index(a, n);
    if i < 0 {
        lemma_child_index(b, n, b.len() as int);
    } else {
        lemma_child_index(b, n, i);
    }
}

impl TreeNode {
    pub fn new(name: String) -> (r: TreeNode)
        ensures
            r.name == name,
            r.children@.len() == 0,
            r.repo is None,
            wf(r),
    {
        TreeNode { name, children: Vec::new(), repo: None }
    }
}

proof fn lemma_lookup_fresh(t: TreeNode, p: Seq<Seq<char>>)
    requires
        t.children@.len() == 0,
        t.repo is None,
    ensures
        lookup(t, p) is None,
{
}

pub open spec fn seg_view(segs: Seq<Vec<char>>) -> Seq<Seq<char>> {
    segs.map_values(|v: Vec<char>| v@)
}

/// Putting a new, empty child named `seg` at its place `k` in a sorted
/// child list keeps the list sorted, makes `seg` lead to it, and leaves the
/// child that every other name leads to as it was.
proof fn lemma_insert_fresh(old_cs: Seq<TreeNode>, cs: Seq<TreeNode>, k: int, fresh: TreeNode)
    requires
        0 <= k <= old_cs.len(),
        cs == old_cs.insert(k, fresh),
        fresh.children@.len() == 0,
        fresh.repo is None,
        sorted_names(old_cs),
        forall|j: int| 0 <= j < old_cs.len() ==> wf(#[trigger] old_cs[j]),
        forall|j: int| 0 <= j < k ==> lex_lt(#[trigger] old_cs[j].name@, fresh.name@),
        k < old_cs.len() ==> lex_lt(fresh.name@, old_cs[k].name@),
    ensures
        sorted_names(cs),
        forall|j: int| 0 <= j < cs.len() ==> wf(#[trigger] cs[j]),
        child_index(cs, fresh.name@) == k,
        child_index(old_cs, fresh.name@) == -1,
        forall|n: Seq<char>|
            n != fresh.name@ && child_index(old_cs, n) >= 0 ==> #[trigger] child_index(cs, n) == if child_index(
                old_cs,
                n,
            ) < k {
                child_index(old_cs, n)
            } else {
                child_index(old_cs, n) + 1
            },
        forall|n: Seq<char>| n != fresh.name@ && child_index(old_cs, n) < 0 ==> #[trigger] child_index(cs, n) < 0,
{
    let seg = fresh.name@;
    assert forall|a: int, b: int| 0 <= a < b < cs.len() implies lex_lt(#[trigger] cs[a].name@, #[trigger] cs[b].name@) by {
        if b == k {
            assert(cs[a] == old_cs[a]);
        } else if a == k {
            assert(cs[b] == old_cs[b - 1]);
            if b - 1 > k {
                lemma_lex_transitive(seg, old_cs[k].name@, old_cs[b - 1].name@);
            }
        } else {
            let a0 = if a < k { a } else { a - 1 };
            let b0 = if b < k { b } else { b - 1 };
            assert(cs[a] == old_cs[a0] && cs[b] == old_cs[b0]);
        }
    }
    assert forall|a: int| 0 <= a < cs.len() implies wf(#[trigger] cs[a]) by {
        if a < k {
            assert(cs[a] == old_cs[a]);
        } else if a > k {
            assert(cs[a] == old_cs[a - 1]);
        }
    }
    lemma_lex_irreflexive(seg);
    assert forall|j: int| 0 <= j < k implies cs[j].name@ != seg by {
        assert(cs[j] == old_cs[j]);
    }
    lemma_child_index(cs, seg, k);
    assert forall|j: int| 0 <= j < old_cs.len() implies old_cs[j].name@ != seg by {
        if j > k {
            lemma_lex_transitive(seg, old_cs[k].name@, old_cs[j].name@);
        }
    }
    lemma_child_index(old_cs, seg, old_cs.len() as int);
    assert forall|n: Seq<char>| n != seg && child_index(old_cs, n) >= 0 implies #[trigger] child_index(cs, n) == if child_index(old_cs, n) < k {
        child_index(old_cs, n)
    } else {
        child_index(old_cs, n) + 1
    } by {
        lemma_child_index_bounds(old_cs, n);
        let o = child_index(old_cs, n);
        if o < k {
            assert forall|j: int| 0 <= j < o implies cs[j].name@ != n by {
                assert(cs[j] == old_cs[j]);
            }
            assert(cs[o] == old_cs[o]);
            lemma_child_index(cs, n, o);
        } else {
            assert forall|j: int| 0 <= j < o + 1 implies cs[j].name@ != n by {
                if j < k {
                    assert(cs[j] == old_cs[j]);
                } else if j > k {
                    assert(cs[j] == old_cs[j - 1]);
                }
            }
            assert(cs[o + 1] == old_cs[o]);
            lemma_child_index(cs, n, o + 1);
        }
    }
    assert forall|n: Seq<char>| n != seg && child_index(old_cs, n) < 0 implies #[trigger] child_index(cs, n) < 0 by {
        lemma_child_index_bounds(old_cs, n);
        assert forall|j: int| 0 <= j < cs.len() implies cs[j].name@ != n by {
            if j < k {
                assert(cs[j] == old_cs[j]);
            } else if j > k {
                assert(cs[j] == old_cs[j - 1]);
            }
        }
        lemma_child_index(cs, n, cs.len() as int);
    }
}

/// After a fresh child is added, every path that does not start with its
/// name leads where it led before, and none that does start with it led
/// anywhere.
proof fn lemma_lookup_after_fresh(old_t: TreeNode, t: TreeNode, k: int, fresh: TreeNode)
    requires
        0 <= k <= old_t.children@.len(),
        t.repo == old_t.repo,
        t.children@ == old_t.children@.insert(k, fresh),
        fresh.children@.len() == 0,
        fresh.repo is None,
        sorted_names(old_t.children@),
        forall|j: int| 0 <= j < old_t.children@.len() ==> wf(#[trigger] old_t.children@[j]),
        forall|j: int| 0 <= j < k ==> lex_lt(#[trigger] old_t.children@[j].name@, fresh.name@),
        k < old_t.children@.len() ==> lex_lt(fresh.name@, old_t.children@[k].name@),
    ensures
        wf(t),
        child_index(t.children@, fresh.name@) == k,
        forall|p: Seq<Seq<char>>| p.len() > 0 && p[0] != fresh.name@ ==> #[trigger] lookup(t, p) == lookup(old_t, p),
        forall|p: Seq<Seq<char>>| p.len() > 0 && p[0] == fresh.name@ ==> #[trigger] lookup(old_t, p) is None,
{
    let old_cs = old_t.children@;
    let cs = t.children@;
    lemma_insert_fresh(old_cs, cs, k, fresh);
    assert forall|p: Seq<Seq<char>>| p.len() > 0 && p[0] != fresh.name@ implies #[trigger] lookup(t, p) == lookup(old_t, p) by {
        lemma_child_index_bounds(old_cs, p[0]);
        let o = child_index(old_cs, p[0]);
        if o >= 0 {
            if o < k {
                assert(cs[o] == old_cs[o]);
            } else {
                assert(cs[o + 1] == old_cs[o]);
            }
        }
        lemma_child_index_bounds(cs, p[0]);
    }
}

/// Records `idx` at the node that `segs[i..]` leads to from `t`, making the
/// nodes on the way where they are missing.
fn insert_path(t: &mut TreeNode, segs: &Vec<Vec<char>>, i: usize, idx: usize)
    requires
        i <= segs.len(),
        wf(*old(t)),
        pruned(*old(t)),
        forall|k: int| 0 <= k < segs@.len() ==> (#[trigger] segs@[k])@.len() > 0,
    ensures
        wf(*final(t)),
        pruned(*final(t)),
        final(t).name == old(t).name,
        i == segs.len() ==> final(t).repo is Some,
        i < segs.len() ==> final(t).children@.len() > 0,
        forall|p: Seq<Seq<char>>|
            #[trigger] lookup(*final(t), p) == if p == seg_view(segs@).subrange(i as int, segs@.len() as int) {
                Some(idx)
            } else {
                lookup(*old(t), p)
            },
    decreases segs.len() - i,
{
    let ghost target = seg_view(segs@).subrange(i as int, segs@.len() as int);
    if i == segs.len() {
        t.repo = Some(idx);
        assert(target.len() == 0);
        assert forall|p: Seq<Seq<char>>|
            #[trigger] lookup(*t, p) == if p == target { Some(idx) } else { lookup(*old(t), p) } by {
            if p.len() == 0 {
                assert(p =~= target);
            }
        }
        return;
    }
    let seg = &segs[i];
    assert(target[0] == seg@);
    let ghost old_t = *t;
    let ghost old_cs = t.children@;
    let mut k: usize = 0;
    while k < t.children.len() && lex_less(&chars_of(t.children[k].name.as_str()), seg)
        invariant
            k <= t.children@.len(),
            t.children@ == old_cs,
            forall|j: int| 0 <= j < k ==> lex_lt(#[trigger] t.children@[j].name@, seg@),
        decreases t.children@.len() - k,
    {
        k = k + 1;
    }
    let exists = k < t.children.len() && same_chars(&chars_of(t.children[k].name.as_str()), seg);
    proof {
        lemma_lex_irreflexive(seg@);
        assert forall|j: int| 0 <= j < k implies t.children@[j].name@ != seg@ by {}
        if exists {
            lemma_child_index(old_cs, seg@, k as int);
        } else if k < old_cs.len() {
            lemma_lex_total(old_cs[k as int].name@, seg@);
        }
    }
    if !exists {
        let fresh = TreeNode::new(crate::text::string_of(seg));
        t.children.insert(k, fresh);
        proof {
            lemma_lookup_after_fresh(old_t, *t, k as int, fresh);
        }
    }
    let ghost mid = *t;
    let ghost mid_cs = t.children@;
    proof {
        assert forall|a: int| 0 <= a < mid_cs.len() && a != k implies fits_below(#[trigger] mid_cs[a]) && pruned(mid_cs[a]) by {
            if !exists {
                if a < k {
                    assert(mid_cs[a] == old_cs[a]);
                } else {
                    assert(mid_cs[a] == old_cs[a - 1]);
                }
            }
        }
    }
    assert(child_index(mid_cs, seg@) == k);
    let mut c = t.children.remove(k);
    let ghost c_old = c;
    insert_path(&mut c, segs, i + 1, idx);
    t.children.insert(k, c);
    proof {
        assert(t.children@ =~= mid_cs.update(k as int, c));
        assert(target.drop_first() =~= seg_view(segs@).subrange(i + 1, segs@.len() as int));
        lemma_after_descent(old_t, mid, *t, k as int, c_old, exists, target, idx);
        let cs = t.children@;
        assert(cs[k as int].name@ == seg@);
        assert(segs@[i as int]@.len() > 0);
        assert forall|a: int| 0 <= a < cs.len() implies fits_below(#[trigger] cs[a]) && pruned(cs[a]) by {
            if a != k {
                assert(cs[a] == mid_cs[a]);
            }
        }
    }
}

proof fn lemma_after_descent(
    old_t: TreeNode,
    mid: TreeNode,
    t: TreeNode,
    k: int,
    c_old: TreeNode,
    existed: bool,
    target: Seq<Seq<char>>,
    idx: usize,
)
    requires
        0 <= k < mid.children@.len(),
        target.len() > 0,
        wf(mid),
        mid.repo == old_t.repo,
        t.repo == old_t.repo,
        c_old == mid.children@[k],
        child_index(mid.children@, target[0]) == k,
        t.children@ == mid.children@.update(k, t.children@[k]),
        t.children@[k].name == c_old.name,
        wf(t.children@[k]),
        forall|p: Seq<Seq<char>>|
            #[trigger] lookup(t.children@[k], p) == if p == target.drop_first() {
                Some(idx)
            } else {
                lookup(c_old, p)
            },
        existed ==> mid == old_t,
        !existed ==> c_old.children@.len() == 0 && c_old.repo is None,
        !existed ==> forall|p: Seq<Seq<char>>| p.len() > 0 && p[0] != target[0] ==> #[trigger] lookup(mid, p) == lookup(old_t, p),
        !existed ==> forall|p: Seq<Seq<char>>| p.len() > 0 && p[0] == target[0] ==> #[trigger] lookup(old_t, p) is None,
    ensures
        wf(t),
        forall|p: Seq<Seq<char>>| #[trigger] lookup(t, p) == if p == target { Some(idx) } else { lookup(old_t, p) },
{
    let cs = t.children@;
    let mid_cs = mid.children@;
    lemma_child_index_bounds(mid_cs, target[0]);
    assert forall|a: int, b: int| 0 <= a < b < cs.len() implies lex_lt(#[trigger] cs[a].name@, #[trigger] cs[b].name@) by {
        assert(cs[a].name@ == mid_cs[a].name@ && cs[b].name@ == mid_cs[b].name@);
    }
    assert forall|a: int| 0 <= a < cs.len() implies wf(#[trigger] cs[a]) by {
        if a != k {
            assert(cs[a] == mid_cs[a]);
        }
    }
    assert forall|n: Seq<char>| child_index(cs, n) == child_index(mid_cs, n) by {
        lemma_child_index_same_names(cs, mid_cs, n);
    }
    assert forall|p: Seq<Seq<char>>| #[trigger] lookup(t, p) == if p == target { Some(idx) } else { lookup(old_t, p) } by {
        if p.len() > 0 {
            lemma_child_index_bounds(mid_cs, p[0]);
            assert(child_index(cs, p[0]) == child_index(mid_cs, p[0]));
            if p[0] == target[0] {
                assert(lookup(t, p) == lookup(cs[k], p.drop_first()));
                if p != target {
                    assert(p.drop_first() != target.drop_first()) by {
                        if p.drop_first() == target.drop_first() {
                            assert(p =~= seq![p[0]] + p.drop_first());
                            assert(target =~= seq![target[0]] + target.drop_first());
                        }
                    }
                    assert(lookup(t, p) == lookup(c_old, p.drop_first()));
                    if !existed {
                        lemma_lookup_fresh(c_old, p.drop_first());
                    } else {
                        assert(lookup(old_t, p) == lookup(mid_cs[k], p.drop_first()));
                    }
                } else {
                    assert(lookup(t, p) == Some(idx));
                }
            } else {
                assert(p != target);
                let m = child_index(mid_cs, p[0]);
                if 0 <= m {
                    assert(m != k);
                    assert(cs[m] == mid_cs[m]);
                    assert(lookup(t, p) == lookup(mid, p));
                } else {
                    assert(lookup(t, p) is None);
                    assert(lookup(mid, p) is None);
                }
            }
        } else {
            assert(p != target);
            assert(lookup(t, p) == t.repo);
        }
    }
}

/// Where a list of repositories places a repository at the names `p` below
/// `base`: the last one whose path leads there. The root itself holds none.
pub open spec fn placed(repos: Seq<RepoStatus>, base: Seq<char>, p: Seq<Seq<char>>) -> Option<usize>
    decreases repos.len(),
{
    if repos.len() == 0 {
        None
    } else if p.len() > 0 && relative(repos.last().path@, base) == Some(p) {
        Some((repos.len() - 1) as usize)
    } else {
        placed(repos.drop_last(), base, p)
    }
}

/// Arranges the repositories by the directories below `base_dir` that lead
/// to them. A repository whose path is not below `base_dir` is left out.
pub fn build_tree_structure(repos: &Vec<RepoStatus>, base_dir: &str) -> (r: TreeNode)
    ensures
        wf(r),
        pruned(r),
        r.name@.len() == 0,
        forall|p: Seq<Seq<char>>| #[trigger] lookup(r, p) == placed(repos@, base_dir@, p),
{
    let mut root = TreeNode::new(String::new());
    let mut i: usize = 0;
    while i < repos.len()
        invariant
            i <= repos.len(),
            wf(root),
            pruned(root),
            root.name@.len() == 0,
            forall|p: Seq<Seq<char>>| #[trigger] lookup(root, p) == placed(repos@.subrange(0, i as int), base_dir@, p),
        decreases repos.len() - i,
    {
        let ghost pre = repos@.subrange(0, i + 1);
        assert(pre.drop_last() =~= repos@.subrange(0, i as int));
        assert(pre.last() == repos@[i as int]);
        match relative_of(repos[i].path.as_str(), base_dir) {
            Some(segs) => {
                if segs.len() > 0 {
                    let ghost rel = relative(repos@[i as int].path@, base_dir@)->0;
                    assert(seg_view(segs@).subrange(0, segs@.len() as int) =~= rel);
                    proof {
                        lemma_relative_nonempty(repos@[i as int].path@, base_dir@);
                        assert forall|k: int| 0 <= k < segs@.len() implies (#[trigger] segs@[k])@.len() > 0 by {
                            assert(segs@[k]@ == rel[k]);
                        }
                    }
                    insert_path(&mut root, &segs, 0, i);
                } else {
                    assert forall|p: Seq<Seq<char>>| p.len() > 0 implies relative(repos@[i as int].path@, base_dir@) != Some(p) by {}
                }
            },
            None => {},
        }
        i = i + 1;
    }
    assert(repos@.subrange(0, repos.len() as int) =~= repos@);
    root
}


/// The node that the names `p` lead to from `t`.
pub open spec fn node_at(t: TreeNode, p: Seq<Seq<char>>) -> Option<TreeNode>
    decreases p.len(),
{
    if p.len() == 0 {
        Some(t)
    } else {
        let k = child_index(t.children@, p[0]);
        if 0 <= k < t.children@.len() {
            node_at(t.children@[k], p.drop_first())
        } else {
            None
        }
    }
}

proof fn lemma_lookup_through(t: TreeNode, p: Seq<Seq<char>>, q: Seq<Seq<char>>)
    requires
        node_at(t, p) is Some,
    ensures
        lookup(t, p + q) == lookup(node_at(t, p)->0, q),
        p.len() > 0 ==> fits_below(node_at(t, p)->0) || !pruned(t),
        pruned(t) ==> pruned(node_at(t, p)->0),
    decreases p.len(),
{
    if p.len() > 0 {
        let k = child_index(t.children@, p[0]);
        assert((p + q)[0] == p[0]);
        assert((p + q).drop_first() =~= p.drop_first() + q);
        lemma_lookup_through(t.children@[k], p.drop_first(), q);
        if p.len() > 1 && pruned(t) {
            assert(pruned(t.children@[k]));
        }
    } else {
        assert(p + q =~= q);
    }
}

/// A path from `n` down to a repository, always through the first child.
pub open spec fn first_repo_path(n: TreeNode) -> Seq<Seq<char>>
    decreases n,
{
    if n.repo is Some || n.children@.len() == 0 {
        Seq::empty()
    } else {
        seq![n.children@[0].name@] + first_repo_path(n.children@[0])
    }
}

proof fn lemma_first_repo_path(n: TreeNode)
    requires
        pruned(n),
        n.repo is Some || n.children@.len() > 0,
    ensures
        lookup(n, first_repo_path(n)) is Some,
    decreases n,
{
    if n.repo is None {
        let c = n.children@[0];
        assert(fits_below(c) && pruned(c));
        lemma_first_repo_path(c);
        let p = first_repo_path(n);
        assert(p[0] == c.name@);
        assert(child_index(n.children@, c.name@) == 0);
        assert(p.drop_first() =~= first_repo_path(c));
    }
}

/// The tree of a list of repositories draws no directory that leads to no
/// repository: below every node lies a repository placed in the list, and
/// every node below the root has a name.
pub proof fn lemma_nodes_lead_to_repositories(repos: Seq<RepoStatus>, base: Seq<char>, t: TreeNode)
    requires
        pruned(t),
        forall|p: Seq<Seq<char>>| #[trigger] lookup(t, p) == placed(repos, base, p),
    ensures
        forall|p: Seq<Seq<char>>|
            p.len() > 0 && #[trigger] node_at(t, p) is Some ==> (node_at(t, p)->0).name@.len() > 0 && placed(
                repos,
                base,
                p + first_repo_path(node_at(t, p)->0),
            ) is Some,
{
    assert forall|p: Seq<Seq<char>>| p.len() > 0 && #[trigger] node_at(t, p) is Some implies (node_at(t, p)->0).name@.len()
        > 0 && placed(repos, base, p + first_repo_path(node_at(t, p)->0)) is Some by {
        let n = node_at(t, p)->0;
        lemma_lookup_through(t, p, first_repo_path(n));
        lemma_first_repo_path(n);
        assert(lookup(t, p + first_repo_path(n)) == placed(repos, base, p + first_repo_path(n)));
    }
}

// ---- rendering ------------------------------------------------------------------

pub open spec fn connector(is_last: bool) -> Seq<char> {
    if is_last {
        "└── "@
    } else {
        "├── "@
    }
}

pub open spec fn guide(is_last: bool) -> Seq<char> {
    if is_last {
        "    "@
    } else {
        "│   "@
    }
}

pub open spec fn spaces(n: int) -> Seq<char> {
    Seq::new(if n > 0 { n as nat } else { 0nat }, |i: int| ' ')
}

/// Column that further branch names of a repository line up at: 20, less
/// the length of the repository's name in bytes (as `str::len` gives it),
/// and at least 0.
pub open spec fn pad_width(name: Seq<char>) -> int {
    20 - (vstd::utf8::encode_utf8(name).len() as usize) as int
}

/// The branch entries of a repository in the tree: the first named branch
/// stays on the repository's line, each later named branch starts a new
/// line at `indent`, and each unnamed entry starts a line of its own at
/// `indent` with its count and no branch name.
pub open spec fn branch_pieces(b: Seq<(Seq<char>, BranchStatus)>, first: bool, indent: Seq<char>) -> Seq<(Seq<char>, Tint)>
    decreases b.len(),
{
    if b.len() == 0 {
        Seq::empty()
    } else {
        let e = b[0];
        let here = if e.0.len() > 0 && first {
            seq![(" "@ + e.0, Tint::Plain), status_spec(e.1)]
        } else if e.0.len() > 0 {
            seq![("\n"@ + indent + e.0, Tint::Plain), status_spec(e.1)]
        } else {
            seq![("\n"@ + indent, Tint::Plain), status_spec(e.1)]
        };
        here + branch_pieces(b.drop_first(), first && e.0.len() == 0, indent)
    }
}

pub open spec fn repo_pieces(t: TreeNode, prefix: Seq<char>, is_last: bool, repos: Seq<RepoStatus>) -> Seq<(Seq<char>, Tint)> {
    match t.repo {
        Some(j) => if j < repos.len() {
            branch_pieces(
                branches_view(repos[j as int].all_branches@),
                true,
                prefix + guide(is_last) + spaces(pad_width(t.name@)),
            )
        } else {
            Seq::empty()
        },
        None => Seq::empty(),
    }
}

/// A node and everything below it: unless it is the root, a line with the
/// connector, its name and the branches of the repository there; then its
/// children in order, the last of them drawn as the last.
pub open spec fn node_spec(t: TreeNode, prefix: Seq<char>, is_last: bool, repos: Seq<RepoStatus>) -> Seq<(Seq<char>, Tint)>
    decreases t, 1int, 0int,
{
    let head = if t.name@.len() > 0 {
        seq![(prefix + connector(is_last) + t.name@, Tint::Plain)] + repo_pieces(t, prefix, is_last, repos)
            + seq![("\n"@, Tint::Plain)]
    } else {
        Seq::empty()
    };
    let cp = if t.name@.len() > 0 {
        prefix + guide(is_last)
    } else {
        prefix
    };
    head + children_spec(t, t.children@.len() as int, cp, repos)
}

/// The first `k` children of `t`, drawn below `t`.
pub open spec fn children_spec(t: TreeNode, k: int, cp: Seq<char>, repos: Seq<RepoStatus>) -> Seq<(Seq<char>, Tint)>
    decreases t, 0int, k,
{
    if k <= 0 || k > t.children@.len() {
        Seq::empty()
    } else {
        children_spec(t, k - 1, cp, repos) + node_spec(t.children@[k - 1], cp, k == t.children@.len(), repos)
    }
}

/// The tree listing: the base directory on a line of its own, then either
/// a line saying that no repository was found or the tree.
pub open spec fn tree_spec(t: TreeNode, repos: Seq<RepoStatus>, base: Seq<char>) -> Seq<(Seq<char>, Tint)> {
    seq![(base + "\n"@, Tint::Plain)] + if repos.len() == 0 {
        seq![("  No git repositories found\n"@, Tint::Plain)]
    } else {
        node_spec(t, Seq::empty(), true, repos)
    }
}

fn render_branches(b: &Vec<crate::commands::list::BranchInfo>, indent: &Vec<char>, out: &mut Vec<Piece>)
    ensures
        pieces_view(final(out)@) == pieces_view(old(out)@) + branch_pieces(branches_view(b@), true, indent@),
{
    let ghost bv = branches_view(b@);
    let ghost start = pieces_view(out@);
    let mut first = true;
    let mut i: usize = 0;
    assert(bv.subrange(0, bv.len() as int) =~= bv);
    while i < b.len()
        invariant
            i <= b.len(),
            bv == branches_view(b@),
            start + branch_pieces(bv, true, indent@) == pieces_view(out@) + branch_pieces(
                bv.subrange(i as int, bv.len() as int),
                first,
                indent@,
            ),
        decreases b.len() - i,
    {
        let ghost rest = bv.subrange(i as int, bv.len() as int);
        let ghost before = pieces_view(out@);
        assert(rest.drop_first() =~= bv.subrange(i + 1, bv.len() as int));
        assert(rest[0] == b@[i as int]@);
        let e = &b[i];
        let named = !e.name.as_str().is_empty();
        if named && first {
            let mut t: Vec<char> = Vec::new();
            push_str(&mut t, " ");
            push_all(&mut t, &chars_of(e.name.as_str()));
            out.push(plain(&t));
            out.push(status_piece(e.status));
        } else if named {
            let mut t: Vec<char> = Vec::new();
            push_str(&mut t, "\n");
            push_all(&mut t, indent);
            push_all(&mut t, &chars_of(e.name.as_str()));
            out.push(plain(&t));
            out.push(status_piece(e.status));
        } else {
            let mut t: Vec<char> = Vec::new();
            push_str(&mut t, "\n");
            push_all(&mut t, indent);
            out.push(plain(&t));
            out.push(status_piece(e.status));
        }
        let ghost here = if e.name@.len() > 0 && first {
            seq![(" "@ + e.name@, Tint::Plain), status_spec(e.status)]
        } else if e.name@.len() > 0 {
            seq![("\n"@ + indent@ + e.name@, Tint::Plain), status_spec(e.status)]
        } else {
            seq![("\n"@ + indent@, Tint::Plain), status_spec(e.status)]
        };
        assert(pieces_view(out@) =~= before + here);
        first = first && !named;
        i = i + 1;
    }
}

fn space_run(n: usize) -> (r: Vec<char>)
    ensures
        r@ == spaces(n as int),
{
    let mut r: Vec<char> = Vec::new();
    let mut i: usize = 0;
    while i < n
        invariant
            i <= n,
            r@ == Seq::new(i as nat, |k: int| ' '),
        decreases n - i,
    {
        r.push(' ');
        i = i + 1;
        assert(r@ =~= Seq::new(i as nat, |k: int| ' '));
    }
    r
}

fn render_node(t: &TreeNode, prefix: &Vec<char>, is_last: bool, repos: &Vec<RepoStatus>, out: &mut Vec<Piece>)
    ensures
        pieces_view(final(out)@) == pieces_view(old(out)@) + node_spec(*t, prefix@, is_last, repos@),
    decreases t,
{
    let ghost start = pieces_view(out@);
    let named = !t.name.as_str().is_empty();
    assert(named == (t.name@.len() > 0));
    proof {
        reveal_strlit("└── ");
        reveal_strlit("├── ");
        reveal_strlit("    ");
        reveal_strlit("│   ");
    }
    let ghost head = if t.name@.len() > 0 {
        seq![(prefix@ + connector(is_last) + t.name@, Tint::Plain)] + repo_pieces(*t, prefix@, is_last, repos@)
            + seq![("\n"@, Tint::Plain)]
    } else {
        Seq::<(Seq<char>, Tint)>::empty()
    };
    if named {
        let mut line = slice(prefix, 0, prefix.len());
        push_str(&mut line, if is_last { "└── " } else { "├── " });
        push_all(&mut line, &chars_of(t.name.as_str()));
        assert(line@ =~= prefix@ + connector(is_last) + t.name@);
        out.push(plain(&line));
        let ghost s1 = pieces_view(out@);
        assert(s1 =~= start + seq![(prefix@ + connector(is_last) + t.name@, Tint::Plain)]);
        match t.repo {
            Some(j) => {
                if j < repos.len() {
                    let mut indent = slice(prefix, 0, prefix.len());
                    push_str(&mut indent, if is_last { "    " } else { "│   " });
                    let n = t.name.as_str().len();
                    assert(n == (vstd::utf8::encode_utf8(t.name@).len() as usize));
                    let pad: usize = if n < 20 { 20 - n } else { 0 };
                    push_all(&mut indent, &space_run(pad));
                    assert(indent@ =~= prefix@ + guide(is_last) + spaces(pad_width(t.name@)));
                    render_branches(&repos[j].all_branches, &indent, out);
                }
            },
            None => {},
        }
        assert(pieces_view(out@) =~= s1 + repo_pieces(*t, prefix@, is_last, repos@));
        let ghost s2 = pieces_view(out@);
        out.push(plain(&chars_of("\n")));
        assert(pieces_view(out@) =~= s2 + seq![("\n"@, Tint::Plain)]);
        assert(head =~= seq![(prefix@ + connector(is_last) + t.name@, Tint::Plain)] + repo_pieces(*t, prefix@, is_last, repos@) + seq![("\n"@, Tint::Plain)]);
    } else {
        assert(head =~= Seq::<(Seq<char>, Tint)>::empty());
    }
    assert(pieces_view(out@) =~= start + head);
    let mut cp = slice(prefix, 0, prefix.len());
    if named {
        push_str(&mut cp, if is_last { "    " } else { "│   " });
    }
    assert(cp@ =~= if t.name@.len() > 0 { prefix@ + guide(is_last) } else { prefix@ });
    let mut k: usize = 0;
    while k < t.children.len()
        invariant
            k <= t.children@.len(),
            pieces_view(out@) == start + head + children_spec(*t, k as int, cp@, repos@),
            cp@ == if t.name@.len() > 0 { prefix@ + guide(is_last) } else { prefix@ },
            start == pieces_view(old(out)@),
        decreases t.children@.len() - k,
    {
        let ghost before = pieces_view(out@);
        render_node(&t.children[k], &cp, k + 1 == t.children.len(), repos, out);
        k = k + 1;
        assert(pieces_view(out@) =~= start + head + children_spec(*t, k as int, cp@, repos@));
    }
}

/// Draws the tree of repositories below `base_dir`.
pub fn render_tree(tree: &TreeNode, repos: &Vec<RepoStatus>, base_dir: &str) -> (r: Vec<Piece>)
    ensures
        pieces_view(r@) == tree_spec(*tree, repos@, base_dir@),
{
    let mut out: Vec<Piece> = Vec::new();
    let mut first = chars_of(base_dir);
    push_str(&mut first, "\n");
    out.push(plain(&first));
    if repos.len() == 0 {
        out.push(plain(&chars_of("  No git repositories found\n")));
        assert(pieces_view(out@) =~= tree_spec(*tree, repos@, base_dir@));
        return out;
    }
    let empty: Vec<char> = Vec::new();
    render_node(tree, &empty, true, repos, &mut out);
    assert(pieces_view(out@) =~= tree_spec(*tree, repos@, base_dir@));
    out
}


// ---- order of repositories --------------------------------------------------------

/// Component-wise order of paths, which is the order of `Path`.
pub open spec fn path_lt(a: Seq<Seq<char>>, b: Seq<Seq<char>>) -> bool
    decreases a.len(),
{
    if a.len() == 0 {
        b.len() > 0
    } else if b.len() == 0 {
        false
    } else if a[0] != b[0] {
        lex_lt(a[0], b[0])
    } else {
        path_lt(a.drop_first(), b.drop_first())
    }
}

pub proof fn lemma_path_irreflexive(a: Seq<Seq<char>>)
    ensures
        !path_lt(a, a),
    decreases a.len(),
{
    if a.len() > 0 {
        lemma_path_irreflexive(a.drop_first());
    }
}

pub proof fn lemma_path_transitive(a: Seq<Seq<char>>, b: Seq<Seq<char>>, c: Seq<Seq<char>>)
    requires
        path_lt(a, b),
        path_lt(b, c),
    ensures
        path_lt(a, c),
    decreases a.len(),
{
    if a.len() > 0 && b.len() > 0 && c.len() > 0 {
        if a[0] == b[0] && b[0] == c[0] {
            lemma_path_transitive(a.drop_first(), b.drop_first(), c.drop_first());
        } else if a[0] != b[0] && b[0] != c[0] {
            lemma_lex_transitive(a[0], b[0], c[0]);
            lemma_lex_irreflexive(a[0]);
        }
    }
}

pub proof fn lemma_path_total(a: Seq<Seq<char>>, b: Seq<Seq<char>>)
    ensures
        a == b || path_lt(a, b) || path_lt(b, a),
    decreases a.len(),
{
    if a.len() > 0 && b.len() > 0 {
        if a[0] == b[0] {
            lemma_path_total(a.drop_first(), b.drop_first());
            if a.drop_first() == b.drop_first() {
                assert(a =~= seq![a[0]] + a.drop_first());
                assert(b =~= seq![b[0]] + b.drop_first());
            }
        } else {
            lemma_lex_total(a[0], b[0]);
        }
    } else if a.len() == 0 && b.len() == 0 {
        assert(a =~= b);
    }
}

fn path_less(a: &Vec<Vec<char>>, b: &Vec<Vec<char>>) -> (r: bool)
    ensures
        r == path_lt(a@.map_values(|v: Vec<char>| v@), b@.map_values(|v: Vec<char>| v@)),
{
    let ghost av = a@.map_values(|v: Vec<char>| v@);
    let ghost bv = b@.map_values(|v: Vec<char>| v@);
    let mut i: usize = 0;
    assert(av.subrange(0, av.len() as int) =~= av);
    assert(bv.subrange(0, bv.len() as int) =~= bv);
    loop
        invariant
            i <= a.len(),
            i <= b.len(),
            av == a@.map_values(|v: Vec<char>| v@),
            bv == b@.map_values(|v: Vec<char>| v@),
            path_lt(av, bv) == path_lt(av.subrange(i as int, av.len() as int), bv.subrange(i as int, bv.len() as int)),
        decreases a.len() - i,
    {
        let ghost sa = av.subrange(i as int, av.len() as int);
        let ghost sb = bv.subrange(i as int, bv.len() as int);
        if i == a.len() {
            return i < b.len();
        }
        if i == b.len() {
            return false;
        }
        assert(sa[0] == a@[i as int]@ && sb[0] == b@[i as int]@);
        if !same_chars(&a[i], &b[i]) {
            return lex_less(&a[i], &b[i]);
        }
        assert(sa.drop_first() =~= av.subrange(i + 1, av.len() as int));
        assert(sb.drop_first() =~= bv.subrange(i + 1, bv.len() as int));
        i = i + 1;
    }
}

fn path_key(path: &String) -> (r: Vec<Vec<char>>)
    ensures
        r@.map_values(|v: Vec<char>| v@) == components(path@),
{
    let r = components_of(&chars_of(path.as_str()));
    assert(r@.map_values(|v: Vec<char>| v@) =~= components(path@));
    r
}

pub open spec fn key(r: RepoStatus) -> Seq<Seq<char>> {
    components(r.path@)
}

/// No repository comes after one whose path is greater.
pub open spec fn sorted_by_path(s: Seq<RepoStatus>) -> bool {
    forall|i: int, j: int| 0 <= i < j < s.len() ==> !path_lt(key(#[trigger] s[j]), key(#[trigger] s[i]))
}

/// Puts the repositories in the order of their paths.
pub fn sort_by_path(repos: Vec<RepoStatus>) -> (r: Vec<RepoStatus>)
    ensures
        sorted_by_path(r@),
        r@.to_multiset() == repos@.to_multiset(),
{
    broadcast use vstd::seq_lib::group_to_multiset_ensures;

    let mut rest = repos;
    let mut out: Vec<RepoStatus> = Vec::new();
    while rest.len() > 0
        invariant
            sorted_by_path(out@),
            out@.to_multiset().add(rest@.to_multiset()) == repos@.to_multiset(),
        decreases rest.len(),
    {
        let ghost rest0 = rest@;
        let x = rest.pop().unwrap();
        proof {
            vstd::seq_lib::to_multiset_remove(rest0, rest0.len() - 1);
            assert(rest0.remove(rest0.len() - 1) =~= rest@);
        }
        let kx = path_key(&x.path);
        let mut k: usize = 0;
        while k < out.len() && !path_less(&kx, &path_key(&out[k].path))
            invariant
                k <= out@.len(),
                kx@.map_values(|v: Vec<char>| v@) == key(x),
                forall|j: int| 0 <= j < k ==> !path_lt(key(x), key(#[trigger] out@[j])),
            decreases out@.len() - k,
        {
            k = k + 1;
        }
        let ghost out0 = out@;
        proof {
            vstd::seq_lib::to_multiset_insert(out0, k as int, x);
        }
        out.insert(k, x);
        proof {
            let o = out@;
            assert forall|i: int, j: int| 0 <= i < j < o.len() implies !path_lt(key(#[trigger] o[j]), key(#[trigger] o[i])) by {
                if j == k {
                    assert(o[i] == out0[i]);
                } else if i == k {
                    assert(o[j] == out0[j - 1]);
                    if path_lt(key(out0[j - 1]), key(x)) {
                        assert(k < out0.len());
                        assert(path_lt(key(x), key(out0[k as int])));
                        if j - 1 == k {
                            lemma_path_transitive(key(out0[j - 1]), key(x), key(out0[j - 1]));
                            lemma_path_irreflexive(key(out0[j - 1]));
                        } else {
                            lemma_path_transitive(key(out0[j - 1]), key(x), key(out0[k as int]));
                        }
                    }
                } else {
                    let i0 = if i < k { i } else { i - 1 };
                    let j0 = if j < k { j } else { j - 1 };
                    assert(o[i] == out0[i0] && o[j] == out0[j0]);
                }
            }
            assert(out@.to_multiset() == out0.to_multiset().insert(x));
            assert(x == rest0[rest0.len() - 1]);
            vstd::seq_lib::to_multiset_contains(rest0, x);
            assert(rest0.contains(x));
            assert(rest0.to_multiset().contains(x));
            assert(rest0.to_multiset() =~= rest@.to_multiset().insert(x));
            assert(out@.to_multiset().add(rest@.to_multiset()) =~= out0.to_multiset().add(rest0.to_multiset()));
        }
    }
    proof {
        assert(rest@.to_multiset() =~= vstd::multiset::Multiset::empty());
        assert(out@.to_multiset().add(vstd::multiset::Multiset::empty()) =~= out@.to_multiset());
    }
    out
}


/// There is one order of a set of repositories with distinct paths: two
/// lists of the same repositories that are both in path order are equal.
/// So the repositories come out in one order however the walk met them, and
/// the tree, flat and dump listings, which keep the list's order, agree.
pub proof fn lemma_one_path_order(a: Seq<RepoStatus>, b: Seq<RepoStatus>)
    requires
        sorted_by_path(a),
        sorted_by_path(b),
        a.to_multiset() == b.to_multiset(),
        forall|i: int, j: int| 0 <= i < j < a.len() ==> key(#[trigger] a[i]) != key(#[trigger] a[j]),
    ensures
        a == b,
    decreases a.len(),
{
    broadcast use vstd::seq_lib::group_to_multiset_ensures;

    vstd::seq_lib::to_multiset_len(a);
    vstd::seq_lib::to_multiset_len(b);
    if a.len() == 0 {
        assert(b =~= a);
        return;
    }
    assert(b.len() == a.len());
    vstd::seq_lib::to_multiset_contains(a, b[0]);
    vstd::seq_lib::to_multiset_contains(b, a[0]);
    assert(b.to_multiset().contains(b[0]));
    assert(a.contains(b[0]));
    assert(b.contains(a[0]));
    let i = choose|i: int| 0 <= i < a.len() && a[i] == b[0];
    let j = choose|j: int| 0 <= j < b.len() && b[j] == a[0];
    if i != 0 {
        assert(!path_lt(key(a[i]), key(a[0])));
    }
    if j != 0 {
        assert(!path_lt(key(b[j]), key(b[0])));
    }
    lemma_path_irreflexive(key(a[0]));
    lemma_path_total(key(a[0]), key(b[0]));
    assert(key(a[0]) == key(b[0]));
    assert(i == 0);
    assert(a[0] == b[0]);
    let a1 = a.drop_first();
    let b1 = b.drop_first();
    vstd::seq_lib::to_multiset_remove(a, 0);
    vstd::seq_lib::to_multiset_remove(b, 0);
    assert(a.remove(0) =~= a1);
    assert(b.remove(0) =~= b1);
    assert forall|x: int, y: int| 0 <= x < y < a1.len() implies !path_lt(key(#[trigger] a1[y]), key(#[trigger] a1[x])) by {
        assert(a1[x] == a[x + 1] && a1[y] == a[y + 1]);
    }
    assert forall|x: int, y: int| 0 <= x < y < b1.len() implies !path_lt(key(#[trigger] b1[y]), key(#[trigger] b1[x])) by {
        assert(b1[x] == b[x + 1] && b1[y] == b[y + 1]);
    }
    assert forall|x: int, y: int| 0 <= x < y < a1.len() implies key(#[trigger] a1[x]) != key(#[trigger] a1[y]) by {
        assert(a1[x] == a[x + 1] && a1[y] == a[y + 1]);
    }
    lemma_one_path_order(a1, b1);
    assert(a =~= b) by {
        assert forall|x: int| 0 <= x < a.len() implies a[x] == b[x] by {
            if x > 0 {
                assert(a[x] == a1[x - 1] && b[x] == b1[x - 1]);
            }
        }
    }
}

} // verus!
