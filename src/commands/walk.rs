use vstd::prelude::*;

use crate::commands::list::names_view;
use crate::text::{chars_of, is_str};

verus! {

/// Names of directories that are never searched: build output and
/// dependency trees.
pub open spec fn excluded_name(n: Seq<char>) -> bool {
    n == "node_modules"@ || n == "target"@ || n == "build"@ || n == "dist"@ || n == "out"@ || n
        == "__pycache__"@ || n == ".cache"@ || n == "vendor"@ || n == "bin"@ || n == "obj"@
}

/// Whether the walk passes over an entry by its name alone: hidden entries
/// and the excluded names.
pub open spec fn skipped_name(n: Seq<char>) -> bool {
    (n.len() > 0 && n[0] == '.') || excluded_name(n)
}

/// Decides, before any look at the file system, whether an entry of a
/// directory is passed over.
pub fn is_skipped_name(name: &str) -> (r: bool)
    ensures
        r == skipped_name(name@),
{
    let c = chars_of(name);
    (c.len() > 0 && c[0] == '.') || is_str(&c, "node_modules") || is_str(&c, "target") || is_str(
        &c,
        "build",
    ) || is_str(&c, "dist") || is_str(&c, "out") || is_str(&c, "__pycache__") || is_str(
        &c,
        ".cache",
    ) || is_str(&c, "vendor") || is_str(&c, "bin") || is_str(&c, "obj")
}

/// What to do with a directory of the walk.
#[derive(Debug, Clone, Copy, PartialEq, Eq, Structural)]
pub enum DirAction {
    /// Not a directory: nothing to report and nothing to search.
    Skip,
    /// A working copy: read its status, and search no further inside it.
    Resolve,
    /// Search its entries. A `.git` that is a file (a submodule's marker) is
    /// ignored, so such a directory is searched too.
    Descend,
}

/// Decides from what the file system says of a directory: whether it is a
/// directory, and whether it holds a `.git` entry and that is a directory.
pub fn classify_dir(is_dir: bool, git_exists: bool, git_is_dir: bool) -> (r: DirAction)
    ensures
        !is_dir ==> r == DirAction::Skip,
        is_dir && git_exists && git_is_dir ==> r == DirAction::Resolve,
        is_dir && git_exists && !git_is_dir ==> r == DirAction::Descend,
        is_dir && !git_exists ==> r == DirAction::Descend,
{
    if !is_dir {
        DirAction::Skip
    } else if git_exists {
        if git_is_dir {
            DirAction::Resolve
        } else {
            DirAction::Descend
        }
    } else {
        DirAction::Descend
    }
}

/// What became of the directory the walker asked about.
pub enum Outcome {
    /// Nothing to report there and nothing to search.
    Skipped,
    /// A working copy whose status was read.
    Found,
    /// A plain directory, with the names of its subdirectories.
    Entries(Vec<String>),
}

pub open spec fn paths_view(v: Seq<Vec<String>>) -> Seq<Seq<Seq<char>>> {
    v.map_values(|p: Vec<String>| names_view(p@))
}

pub open spec fn strict_prefix(a: Seq<Seq<char>>, b: Seq<Seq<char>>) -> bool {
    a.len() < b.len() && b.subrange(0, a.len() as int) == a
}

pub open spec fn ancestors_in(p: Seq<Seq<char>>, ex: Set<Seq<Seq<char>>>) -> bool {
    forall|k: int| 0 <= k < p.len() ==> #[trigger] ex.contains(p.subrange(0, k))
}

pub open spec fn no_skipped(p: Seq<Seq<char>>) -> bool {
    forall|k: int| 0 <= k < p.len() ==> !skipped_name(#[trigger] p[k])
}

/// The names not passed over, each once, in order.
pub open spec fn kept_names(ns: Seq<Seq<char>>) -> Seq<Seq<char>>
    decreases ns.len(),
{
    if ns.len() == 0 {
        ns
    } else {
        let k = kept_names(ns.drop_last());
        if skipped_name(ns.last()) || k.contains(ns.last()) {
            k
        } else {
            k.push(ns.last())
        }
    }
}

pub open spec fn children_of(q: Seq<Seq<char>>, ns: Seq<Seq<char>>) -> Seq<Seq<Seq<char>>> {
    kept_names(ns).map_values(|n: Seq<char>| q.push(n))
}

/// A depth-first search for working copies below a root. The walker holds
/// the directories still to visit, relative to the root as lists of names,
/// and the working copies found so far; the caller looks at the file system
/// and reports back.
pub struct Walker {
    pub pending: Vec<Vec<String>>,
    pub found: Vec<Vec<String>>,
    /// The directories that were searched.
    pub searched: Ghost<Set<Seq<Seq<char>>>>,
}

impl Walker {
    pub open spec fn pending_view(&self) -> Seq<Seq<Seq<char>>> {
        paths_view(self.pending@)
    }

    pub open spec fn found_view(&self) -> Seq<Seq<Seq<char>>> {
        paths_view(self.found@)
    }

    /// Every directory to visit and every working copy found lies below
    /// searched directories only, is itself not searched, and holds no
    /// passed-over name; none of them is listed twice.
    pub open spec fn wf(&self) -> bool {
        let pv = self.pending_view();
        let fv = self.found_view();
        let ex = self.searched@;
        &&& forall|i: int|
            0 <= i < pv.len() ==> ancestors_in(#[trigger] pv[i], ex) && !ex.contains(pv[i]) && no_skipped(pv[i])
        &&& forall|i: int|
            0 <= i < fv.len() ==> ancestors_in(#[trigger] fv[i], ex) && !ex.contains(fv[i]) && no_skipped(fv[i])
        &&& forall|e: Seq<Seq<char>>| #[trigger] ex.contains(e) ==> ancestors_in(e, ex)
        &&& forall|i: int, j: int| 0 <= i < j < pv.len() ==> #[trigger] pv[i] != #[trigger] pv[j]
        &&& forall|i: int, j: int| 0 <= i < j < fv.len() ==> #[trigger] fv[i] != #[trigger] fv[j]
        &&& forall|i: int, j: int| 0 <= i < pv.len() && 0 <= j < fv.len() ==> #[trigger] pv[i] != #[trigger] fv[j]
    }

    /// A walk that starts at the root.
    pub fn new() -> (r: Walker)
        ensures
            r.wf(),
            r.pending_view() == seq![Seq::<Seq<char>>::empty()],
            r.found_view().len() == 0,
    {
        let mut pending: Vec<Vec<String>> = Vec::new();
        pending.push(Vec::new());
        let r = Walker { pending, found: Vec::new(), searched: Ghost(Set::empty()) };
        assert(names_view(r.pending@[0]@) =~= Seq::<Seq<char>>::empty());
        assert(r.pending_view() =~= seq![Seq::<Seq<char>>::empty()]);
        r
    }

    /// The directory to look at next, or `None` when the walk is over.
    pub fn next_dir(&self) -> (r: Option<Vec<String>>)
        ensures
            self.pending@.len() == 0 <==> r is None,
            r is Some ==> names_view((r->0)@) == self.pending_view().last(),
    {
        if self.pending.len() == 0 {
            None
        } else {
            Some(clone_names(&self.pending[self.pending.len() - 1]))
        }
    }

    /// The working copies found, relative to the root.
    pub fn found(&self) -> (r: &Vec<Vec<String>>)
        ensures
            paths_view(r@) == self.found_view(),
    {
        &self.found
    }

    /// Takes in what became of the directory `next_dir` gave: a working copy
    /// is recorded, a plain directory's subdirectories are queued unless
    /// their names are passed over, and nothing inside a working copy or a
    /// skipped directory is ever visited.
    pub fn record(&mut self, outcome: Outcome)
        requires
            old(self).wf(),
            old(self).pending@.len() > 0,
        ensures
            final(self).wf(),
            ({
                let q = old(self).pending_view().last();
                let rest = old(self).pending_view().drop_last();
                match outcome {
                    Outcome::Skipped => final(self).pending_view() == rest && final(self).found_view()
                        == old(self).found_view(),
                    Outcome::Found => final(self).pending_view() == rest && final(self).found_view()
                        == old(self).found_view().push(q),
                    Outcome::Entries(ns) => final(self).pending_view() == rest + children_of(q, names_view(ns@))
                        && final(self).found_view() == old(self).found_view(),
                }
            }),
    {
        let ghost pv0 = self.pending_view();
        let ghost fv0 = self.found_view();
        let ghost ex0 = self.searched@;
        let q = self.pending.pop().unwrap();
        assert(self.pending_view() =~= pv0.drop_last());
        let ghost qv = names_view(q@);
        assert(qv == pv0[pv0.len() - 1]);
        match outcome {
            Outcome::Skipped => {},
            Outcome::Found => {
                self.found.push(q);
                assert(self.found_view() =~= fv0.push(qv));
                proof {
                    let fv = self.found_view();
                    assert forall|i: int, j: int| 0 <= i < j < fv.len() implies #[trigger] fv[i] != #[trigger] fv[j] by {
                        if j == fv.len() - 1 {
                            assert(fv[i] == fv0[i]);
                        }
                    }
                }
            },
            Outcome::Entries(ns) => {
                proof {
                    lemma_nothing_below(pv0, fv0, ex0, qv);
                    self.searched = Ghost(ex0.insert(qv));
                }
                let ghost base = self.pending_view();
                let mut batch: Vec<String> = Vec::new();
                let mut i: usize = 0;
                assert(names_view(ns@).subrange(0, 0) =~= Seq::<Seq<char>>::empty());
                while i < ns.len()
                    invariant
                        i <= ns.len(),
                        names_view(batch@) == kept_names(names_view(ns@).subrange(0, i as int)),
                        self.pending_view() == base + names_view(batch@).map_values(|n: Seq<char>| qv.push(n)),
                        self.found_view() == fv0,
                        self.searched@ == ex0.insert(qv),
                        base == pv0.drop_last(),
                        qv == pv0[pv0.len() - 1],
                        qv == names_view(q@),
                        pv0.len() > 0,
                        ancestors_in(qv, ex0),
                        no_skipped(qv),
                        !ex0.contains(qv),
                        self.wf(),
                        forall|i: int| 0 <= i < base.len() ==> !strict_prefix(qv, #[trigger] base[i]),
                        forall|e: Seq<Seq<char>>| #[trigger] ex0.contains(e) ==> !strict_prefix(qv, e),
                        forall|i: int| 0 <= i < fv0.len() ==> !strict_prefix(qv, #[trigger] fv0[i]),
                    decreases ns.len() - i,
                {
                    let ghost pre = names_view(ns@).subrange(0, i + 1);
                    assert(pre.drop_last() =~= names_view(ns@).subrange(0, i as int));
                    assert(pre.last() == ns@[i as int]@);
                    let n = &ns[i];
                    if !is_skipped_name(n.as_str()) && !contains_name(&batch, n) {
                        let mut child = clone_names(&q);
                        let ghost before_child = names_view(child@);
                        child.push(n.clone());
                        assert(names_view(child@) =~= before_child.push(n@));
                        let ghost cv = names_view(child@);
                        assert(cv =~= qv.push(n@));
                        proof {
                            lemma_fresh_child(self.pending_view(), fv0, ex0, qv, base, names_view(batch@), n@);
                        }
                        let ghost old_pv = self.pending_view();
                        self.pending.push(child);
                        batch.push(n.clone());
                        assert(self.pending_view() =~= old_pv.push(cv));
                        assert(names_view(batch@).map_values(|m: Seq<char>| qv.push(m)) =~= names_view(batch@).drop_last().map_values(|m: Seq<char>| qv.push(m)).push(qv.push(n@)));
                        assert(names_view(batch@).drop_last() =~= kept_names(names_view(ns@).subrange(0, i as int)));
                        assert(names_view(batch@) =~= kept_names(pre));
                    }
                    i = i + 1;
                }
                assert(names_view(ns@).subrange(0, ns.len() as int) =~= names_view(ns@));
            },
        }
    }
}

/// Before `q` is searched, nothing known lies strictly below it.
proof fn lemma_nothing_below(
    pv: Seq<Seq<Seq<char>>>,
    fv: Seq<Seq<Seq<char>>>,
    ex: Set<Seq<Seq<char>>>,
    q: Seq<Seq<char>>,
)
    requires
        pv.len() > 0,
        q == pv[pv.len() - 1],
        !ex.contains(q),
        forall|i: int| 0 <= i < pv.len() ==> ancestors_in(#[trigger] pv[i], ex),
        forall|i: int| 0 <= i < fv.len() ==> ancestors_in(#[trigger] fv[i], ex),
        forall|e: Seq<Seq<char>>| #[trigger] ex.contains(e) ==> ancestors_in(e, ex),
    ensures
        forall|i: int| 0 <= i < pv.len() - 1 ==> !strict_prefix(q, #[trigger] pv.drop_last()[i]),
        forall|e: Seq<Seq<char>>| #[trigger] ex.contains(e) ==> !strict_prefix(q, e),
        forall|i: int| 0 <= i < fv.len() ==> !strict_prefix(q, #[trigger] fv[i]),
{
    assert forall|i: int| 0 <= i < pv.len() - 1 implies !strict_prefix(q, #[trigger] pv.drop_last()[i]) by {
        let x = pv[i];
        assert(pv.drop_last()[i] == x);
        if strict_prefix(q, x) {
            assert(ex.contains(x.subrange(0, q.len() as int)));
        }
    }
    assert forall|e: Seq<Seq<char>>| #[trigger] ex.contains(e) implies !strict_prefix(q, e) by {
        if strict_prefix(q, e) {
            assert(ex.contains(e.subrange(0, q.len() as int)));
        }
    }
    assert forall|i: int| 0 <= i < fv.len() implies !strict_prefix(q, #[trigger] fv[i]) by {
        if strict_prefix(q, fv[i]) {
            assert(ex.contains(fv[i].subrange(0, q.len() as int)));
        }
    }
}

/// The child `q/n` of a directory being searched is new: it is no queued
/// directory, found working copy or searched directory, and keeps the
/// walker's invariant when queued.
proof fn lemma_fresh_child(
    pv: Seq<Seq<Seq<char>>>,
    fv: Seq<Seq<Seq<char>>>,
    ex0: Set<Seq<Seq<char>>>,
    q: Seq<Seq<char>>,
    base: Seq<Seq<Seq<char>>>,
    batch: Seq<Seq<char>>,
    n: Seq<char>,
)
    requires
        pv == base + batch.map_values(|m: Seq<char>| q.push(m)),
        !batch.contains(n),
        !skipped_name(n),
        ancestors_in(q, ex0),
        no_skipped(q),
        !ex0.contains(q),
        forall|i: int| 0 <= i < base.len() ==> !strict_prefix(q, #[trigger] base[i]),
        forall|e: Seq<Seq<char>>| #[trigger] ex0.contains(e) ==> !strict_prefix(q, e),
        forall|i: int| 0 <= i < fv.len() ==> !strict_prefix(q, #[trigger] fv[i]),
    ensures
        ({
            let c = q.push(n);
            &&& ancestors_in(c, ex0.insert(q))
            &&& !ex0.insert(q).contains(c)
            &&& no_skipped(c)
            &&& forall|i: int| 0 <= i < pv.len() ==> #[trigger] pv[i] != c
            &&& forall|i: int| 0 <= i < fv.len() ==> #[trigger] fv[i] != c
        }),
{
    let c = q.push(n);
    assert(c.subrange(0, q.len() as int) =~= q);
    assert forall|k: int| 0 <= k < c.len() implies #[trigger] ex0.insert(q).contains(c.subrange(0, k)) by {
        if k < q.len() {
            assert(c.subrange(0, k) =~= q.subrange(0, k));
        } else {
            assert(c.subrange(0, k) =~= q);
        }
    }
    assert(strict_prefix(q, c));
    assert forall|k: int| 0 <= k < c.len() implies !skipped_name(#[trigger] c[k]) by {
        if k < q.len() {
            assert(c[k] == q[k]);
        }
    }
    assert forall|i: int| 0 <= i < pv.len() implies #[trigger] pv[i] != c by {
        if i >= base.len() {
            let m = batch[i - base.len()];
            assert(pv[i] == q.push(m));
            if pv[i] == c {
                assert(pv[i][q.len() as int] == m);
                assert(c[q.len() as int] == n);
            }
        } else {
            assert(pv[i] == base[i]);
        }
    }
}

fn clone_names(p: &Vec<String>) -> (r: Vec<String>)
    ensures
        names_view(r@) == names_view(p@),
{
    let mut r: Vec<String> = Vec::new();
    let mut i: usize = 0;
    while i < p.len()
        invariant
            i <= p.len(),
            names_view(r@) == names_view(p@).subrange(0, i as int),
        decreases p.len() - i,
    {
        let ghost old_r = names_view(r@);
        let s = p[i].clone();
        r.push(s);
        assert(names_view(r@) =~= old_r.push(p@[i as int]@));
        i = i + 1;
        assert(names_view(r@) =~= names_view(p@).subrange(0, i as int));
    }
    assert(names_view(p@).subrange(0, p.len() as int) =~= names_view(p@));
    r
}

fn contains_name(v: &Vec<String>, n: &String) -> (r: bool)
    ensures
        r == names_view(v@).contains(n@),
{
    let mut i: usize = 0;
    while i < v.len()
        invariant
            i <= v.len(),
            forall|k: int| 0 <= k < i ==> v@[k]@ != n@,
        decreases v.len() - i,
    {
        if v[i] == *n {
            assert(names_view(v@)[i as int] == n@);
            return true;
        }
        i = i + 1;
    }
    assert(!names_view(v@).contains(n@)) by {
        assert forall|k: int| 0 <= k < names_view(v@).len() implies names_view(v@)[k] != n@ by {
            assert(names_view(v@)[k] == v@[k]@);
        }
    }
    false
}

/// No working copy that a walk reports lies inside another one it reports.
pub proof fn lemma_no_nested_repositories(w: Walker)
    requires
        w.wf(),
    ensures
        forall|i: int, j: int|
            0 <= i < w.found_view().len() && 0 <= j < w.found_view().len() ==> !strict_prefix(
                #[trigger] w.found_view()[i],
                #[trigger] w.found_view()[j],
            ),
{
    let fv = w.found_view();
    assert forall|i: int, j: int| 0 <= i < fv.len() && 0 <= j < fv.len() implies !strict_prefix(
        #[trigger] fv[i],
        #[trigger] fv[j],
    ) by {
        if strict_prefix(fv[i], fv[j]) {
            assert(w.searched@.contains(fv[j].subrange(0, fv[i].len() as int)));
        }
    }
}

/// No working copy that a walk reports lies below a hidden directory or an
/// excluded one such as `vendor`.
pub proof fn lemma_no_excluded_component(w: Walker)
    requires
        w.wf(),
    ensures
        forall|i: int, k: int|
            0 <= i < w.found_view().len() && 0 <= k < w.found_view()[i].len() ==> !skipped_name(
                #[trigger] w.found_view()[i][k],
            ),
{
    let fv = w.found_view();
    assert forall|i: int, k: int| 0 <= i < fv.len() && 0 <= k < fv[i].len() implies !skipped_name(
        #[trigger] fv[i][k],
    ) by {
        assert(no_skipped(fv[i]));
    }
}

} // verus!
