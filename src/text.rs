use vstd::prelude::*;

verus! {

/// Unicode White_Space, the set `char::is_whitespace` tests.
pub open spec fn is_ws(c: char) -> bool {
    ('\u{9}' <= c && c <= '\u{d}') || c == ' ' || c == '\u{85}' || c == '\u{a0}' || c == '\u{1680}'
        || ('\u{2000}' <= c && c <= '\u{200a}') || c == '\u{2028}' || c == '\u{2029}' || c
        == '\u{202f}' || c == '\u{205f}' || c == '\u{3000}'
}

pub fn is_whitespace(c: char) -> (r: bool)
    ensures
        r == is_ws(c),
{
    ('\u{9}' <= c && c <= '\u{d}') || c == ' ' || c == '\u{85}' || c == '\u{a0}' || c == '\u{1680}'
        || ('\u{2000}' <= c && c <= '\u{200a}') || c == '\u{2028}' || c == '\u{2029}' || c
        == '\u{202f}' || c == '\u{205f}' || c == '\u{3000}'
}

/// Drops whitespace at the front.
pub open spec fn trim_start_ws(s: Seq<char>) -> Seq<char>
    decreases s.len(),
{
    if s.len() > 0 && is_ws(s[0]) {
        trim_start_ws(s.drop_first())
    } else {
        s
    }
}

/// Drops whitespace at the back.
pub open spec fn trim_end_ws(s: Seq<char>) -> Seq<char>
    decreases s.len(),
{
    if s.len() > 0 && is_ws(s.last()) {
        trim_end_ws(s.drop_last())
    } else {
        s
    }
}

pub open spec fn trim_ws(s: Seq<char>) -> Seq<char> {
    trim_end_ws(trim_start_ws(s))
}

/// Removes `p` from the front of `s` as many times as it stands there.
pub open spec fn strip_all_prefix(s: Seq<char>, p: Seq<char>) -> Seq<char>
    decreases s.len(),
{
    if p.len() > 0 && p.len() <= s.len() && s.subrange(0, p.len() as int) == p {
        strip_all_prefix(s.subrange(p.len() as int, s.len() as int), p)
    } else {
        s
    }
}

/// Removes `p` from the back of `s` as many times as it stands there.
pub open spec fn strip_all_suffix(s: Seq<char>, p: Seq<char>) -> Seq<char>
    decreases s.len(),
{
    if p.len() > 0 && p.len() <= s.len() && s.subrange(s.len() - p.len(), s.len() as int) == p {
        strip_all_suffix(s.subrange(0, s.len() - p.len()), p)
    } else {
        s
    }
}

/// Position of the first `c` in `s`, or -1.
pub open spec fn index_of(s: Seq<char>, c: char) -> int
    decreases s.len(),
{
    if s.len() == 0 {
        -1
    } else if s[0] == c {
        0
    } else if index_of(s.drop_first(), c) < 0 {
        -1
    } else {
        index_of(s.drop_first(), c) + 1
    }
}

/// What stands before and after the first `c`, if there is one.
pub open spec fn split_once(s: Seq<char>, c: char) -> Option<(Seq<char>, Seq<char>)> {
    let i = index_of(s, c);
    if i < 0 {
        None
    } else {
        Some((s.subrange(0, i), s.subrange(i + 1, s.len() as int)))
    }
}

/// The text up to the first `c`, or all of it.
pub open spec fn up_to(s: Seq<char>, c: char) -> Seq<char> {
    match split_once(s, c) {
        Some(parts) => parts.0,
        None => s,
    }
}

pub open spec fn count_char(s: Seq<char>, c: char) -> nat
    decreases s.len(),
{
    if s.len() == 0 {
        0
    } else {
        count_char(s.drop_last(), c) + if s.last() == c {
            1nat
        } else {
            0nat
        }
    }
}

pub proof fn lemma_index_of(s: Seq<char>, c: char, i: int)
    requires
        0 <= i <= s.len(),
        forall|j: int| 0 <= j < i ==> s[j] != c,
        i == s.len() || s[i] == c,
    ensures
        index_of(s, c) == if i == s.len() {
            -1
        } else {
            i
        },
    decreases s.len(),
{
    if s.len() > 0 && i > 0 {
        lemma_index_of(s.drop_first(), c, i - 1);
    }
}

pub proof fn lemma_index_of_bounds(s: Seq<char>, c: char)
    ensures
        -1 <= index_of(s, c) < s.len(),
        index_of(s, c) >= 0 ==> s[index_of(s, c)] == c,
        index_of(s, c) < 0 ==> forall|j: int| 0 <= j < s.len() ==> s[j] != c,
    decreases s.len(),
{
    if s.len() > 0 {
        lemma_index_of_bounds(s.drop_first(), c);
        if s[0] != c && index_of(s.drop_first(), c) < 0 {
            assert forall|j: int| 0 <= j < s.len() implies s[j] != c by {
                if j > 0 {
                    assert(s[j] == s.drop_first()[j - 1]);
                }
            }
        }
    }
}

/// Relies on `str::chars` collected into a `Vec`: the characters in order.
#[verifier::external_body]
pub fn chars_of(s: &str) -> (r: Vec<char>)
    ensures
        r@ == s@,
{
    s.chars().collect()
}

/// Relies on collecting characters into a `String`: the same characters.
#[verifier::external_body]
pub fn string_of(v: &Vec<char>) -> (r: String)
    ensures
        r@ == v@,
{
    v.iter().collect()
}

pub fn slice(s: &Vec<char>, a: usize, b: usize) -> (r: Vec<char>)
    requires
        a <= b <= s.len(),
    ensures
        r@ == s@.subrange(a as int, b as int),
{
    let mut r: Vec<char> = Vec::new();
    let mut i: usize = a;
    while i < b
        invariant
            a <= i <= b <= s.len(),
            r@ == s@.subrange(a as int, i as int),
        decreases b - i,
    {
        r.push(s[i]);
        i = i + 1;
    }
    r
}

pub fn push_all(v: &mut Vec<char>, s: &Vec<char>)
    ensures
        final(v)@ == old(v)@ + s@,
{
    let mut i: usize = 0;
    while i < s.len()
        invariant
            i <= s.len(),
            v@ == old(v)@ + s@.subrange(0, i as int),
        decreases s.len() - i,
    {
        v.push(s[i]);
        i = i + 1;
        assert(s@.subrange(0, i as int) == s@.subrange(0, i - 1) + seq![s@[i - 1]]);
    }
    assert(s@.subrange(0, s.len() as int) == s@);
}

pub fn push_str(v: &mut Vec<char>, s: &str)
    ensures
        final(v)@ == old(v)@ + s@,
{
    let c = chars_of(s);
    push_all(v, &c);
}

/// Whether `p` stands in `s` from position `i` on.
pub fn occurs_at(s: &Vec<char>, i: usize, p: &Vec<char>) -> (r: bool)
    requires
        i <= s.len(),
    ensures
        r == (i + p.len() <= s.len() && s@.subrange(i as int, i + p.len()) == p@),
{
    if p.len() > s.len() - i {
        return false;
    }
    let mut k: usize = 0;
    while k < p.len()
        invariant
            k <= p.len(),
            i + p.len() <= s.len(),
            forall|j: int| 0 <= j < k ==> s@[i + j] == p@[j],
        decreases p.len() - k,
    {
        if s[i + k] != p[k] {
            assert(s@.subrange(i as int, i + p.len())[k as int] != p@[k as int]);
            return false;
        }
        k = k + 1;
    }
    assert(s@.subrange(i as int, i + p.len()) =~= p@);
    true
}

pub fn starts_with(s: &Vec<char>, p: &str) -> (r: bool)
    ensures
        r == (p@.len() <= s@.len() && s@.subrange(0, p@.len() as int) == p@),
{
    let pc = chars_of(p);
    occurs_at(s, 0, &pc)
}

pub fn contains_char(s: &Vec<char>, c: char) -> (r: bool)
    ensures
        r == (index_of(s@, c) >= 0),
{
    proof {
        lemma_index_of_bounds(s@, c);
    }
    match find_char(s, c) {
        Some(_) => true,
        None => false,
    }
}

pub fn find_char(s: &Vec<char>, c: char) -> (r: Option<usize>)
    ensures
        r is Some <==> index_of(s@, c) >= 0,
        r is Some ==> r->0 == index_of(s@, c),
{
    let mut i: usize = 0;
    while i < s.len()
        invariant
            i <= s.len(),
            forall|j: int| 0 <= j < i ==> s@[j] != c,
        decreases s.len() - i,
    {
        if s[i] == c {
            proof {
                lemma_index_of(s@, c, i as int);
            }
            return Some(i);
        }
        i = i + 1;
    }
    proof {
        lemma_index_of(s@, c, i as int);
    }
    None
}

pub fn split_once_char(s: &Vec<char>, c: char) -> (r: Option<(Vec<char>, Vec<char>)>)
    ensures
        r is Some <==> split_once(s@, c) is Some,
        r is Some ==> split_once(s@, c) == Some(((r->0).0@, (r->0).1@)),
{
    proof {
        lemma_index_of_bounds(s@, c);
    }
    match find_char(s, c) {
        Some(i) => {
            assert(i < s.len());
            Some((slice(s, 0, i), slice(s, i + 1, s.len())))
        },
        None => None,
    }
}

pub fn up_to_char(s: &Vec<char>, c: char) -> (r: Vec<char>)
    ensures
        r@ == up_to(s@, c),
{
    match split_once_char(s, c) {
        Some(parts) => parts.0,
        None => slice(s, 0, s.len()),
    }
}

pub fn count_of(s: &Vec<char>, c: char) -> (r: usize)
    ensures
        r == count_char(s@, c),
{
    let mut n: usize = 0;
    let mut i: usize = 0;
    while i < s.len()
        invariant
            i <= s.len(),
            n == count_char(s@.subrange(0, i as int), c),
            n <= i,
        decreases s.len() - i,
    {
        assert(s@.subrange(0, i + 1).drop_last() == s@.subrange(0, i as int));
        if s[i] == c {
            n = n + 1;
        }
        i = i + 1;
    }
    assert(s@.subrange(0, s.len() as int) == s@);
    n
}

pub fn trim_prefix_all(s: &Vec<char>, p: &str) -> (r: Vec<char>)
    requires
        p@.len() > 0,
    ensures
        r@ == strip_all_prefix(s@, p@),
{
    let pc = chars_of(p);
    let mut i: usize = 0;
    assert(s@.subrange(0, s.len() as int) == s@);
    while occurs_at(s, i, &pc)
        invariant
            i <= s.len(),
            pc@ == p@,
            p@.len() > 0,
            strip_all_prefix(s@, p@) == strip_all_prefix(s@.subrange(i as int, s.len() as int), p@),
        decreases s.len() - i,
    {
        let ghost t = s@.subrange(i as int, s.len() as int);
        assert(t.subrange(0, p@.len() as int) == s@.subrange(i as int, i + p@.len()));
        assert(t.subrange(p@.len() as int, t.len() as int) == s@.subrange(i + p@.len(), s.len() as int));
        i = i + pc.len();
    }
    let ghost t = s@.subrange(i as int, s.len() as int);
    assert(p@.len() <= t.len() ==> t.subrange(0, p@.len() as int) == s@.subrange(i as int, i + p@.len()));
    slice(s, i, s.len())
}

pub fn trim_suffix_all(s: &Vec<char>, p: &str) -> (r: Vec<char>)
    requires
        p@.len() > 0,
    ensures
        r@ == strip_all_suffix(s@, p@),
{
    let pc = chars_of(p);
    let mut e: usize = s.len();
    assert(s@.subrange(0, s.len() as int) == s@);
    while e >= pc.len() && occurs_at(s, e - pc.len(), &pc)
        invariant
            e <= s.len(),
            pc@ == p@,
            p@.len() > 0,
            strip_all_suffix(s@, p@) == strip_all_suffix(s@.subrange(0, e as int), p@),
        decreases e,
    {
        let ghost t = s@.subrange(0, e as int);
        assert(t.subrange(t.len() - p@.len(), t.len() as int) == s@.subrange(e - p@.len(), e as int));
        assert(t.subrange(0, t.len() - p@.len()) == s@.subrange(0, e - p@.len()));
        e = e - pc.len();
    }
    let ghost t = s@.subrange(0, e as int);
    assert(p@.len() <= t.len() ==> t.subrange(t.len() - p@.len(), t.len() as int) == s@.subrange(e - p@.len(), e as int));
    slice(s, 0, e)
}

proof fn lemma_trim_start(s: Seq<char>, i: int)
    requires
        0 <= i <= s.len(),
        forall|j: int| 0 <= j < i ==> is_ws(s[j]),
        i == s.len() || !is_ws(s[i]),
    ensures
        trim_start_ws(s) == s.subrange(i, s.len() as int),
    decreases i,
{
    if i > 0 {
        lemma_trim_start(s.drop_first(), i - 1);
        assert(s.drop_first().subrange(i - 1, s.len() - 1) == s.subrange(i, s.len() as int));
    } else {
        assert(s.subrange(0, s.len() as int) == s);
    }
}

proof fn lemma_trim_end(s: Seq<char>, e: int)
    requires
        0 <= e <= s.len(),
        forall|j: int| e <= j < s.len() ==> is_ws(s[j]),
        e == 0 || !is_ws(s[e - 1]),
    ensures
        trim_end_ws(s) == s.subrange(0, e),
    decreases s.len() - e,
{
    if e < s.len() {
        lemma_trim_end(s.drop_last(), e);
        assert(s.drop_last().subrange(0, e) == s.subrange(0, e));
    } else {
        assert(s.subrange(0, s.len() as int) == s);
    }
}

pub fn trim(s: &Vec<char>) -> (r: Vec<char>)
    ensures
        r@ == trim_ws(s@),
{
    let mut i: usize = 0;
    while i < s.len() && is_whitespace(s[i])
        invariant
            i <= s.len(),
            forall|j: int| 0 <= j < i ==> is_ws(s@[j]),
        decreases s.len() - i,
    {
        i = i + 1;
    }
    proof {
        lemma_trim_start(s@, i as int);
    }
    let mut e: usize = s.len();
    while e > i && is_whitespace(s[e - 1])
        invariant
            i <= e <= s.len(),
            forall|j: int| e <= j < s.len() ==> is_ws(s@[j]),
        decreases e,
    {
        e = e - 1;
    }
    let ghost t = s@.subrange(i as int, s.len() as int);
    proof {
        assert forall|j: int| e - i <= j < t.len() implies is_ws(t[j]) by {
            assert(t[j] == s@[i + j]);
        }
        lemma_trim_end(t, e - i);
        assert(t.subrange(0, e - i) == s@.subrange(i as int, e as int));
    }
    slice(s, i, e)
}


/// The leading run of non-whitespace characters.
pub open spec fn take_word(t: Seq<char>) -> Seq<char>
    decreases t.len(),
{
    if t.len() > 0 && !is_ws(t[0]) {
        seq![t[0]] + take_word(t.drop_first())
    } else {
        Seq::empty()
    }
}

/// The whitespace-separated words of `s`, in order, none of them empty.
pub open spec fn words(s: Seq<char>) -> Seq<Seq<char>>
    decreases s.len(),
{
    let t = trim_start_ws(s);
    if t.len() == 0 {
        Seq::empty()
    } else {
        let w = take_word(t);
        if 0 < w.len() <= t.len() && t.len() <= s.len() {
            seq![w] + words(t.subrange(w.len() as int, t.len() as int))
        } else {
            Seq::empty()
        }
    }
}

proof fn lemma_take_word(t: Seq<char>, k: int)
    requires
        0 <= k <= t.len(),
        forall|j: int| 0 <= j < k ==> !is_ws(t[j]),
        k == t.len() || is_ws(t[k]),
    ensures
        take_word(t) == t.subrange(0, k),
    decreases k,
{
    if k > 0 {
        lemma_take_word(t.drop_first(), k - 1);
        assert(seq![t[0]] + t.drop_first().subrange(0, k - 1) =~= t.subrange(0, k));
    } else {
        assert(t.subrange(0, 0) =~= Seq::<char>::empty());
    }
}

proof fn lemma_trim_start_len(s: Seq<char>)
    ensures
        trim_start_ws(s).len() <= s.len(),
    decreases s.len(),
{
    if s.len() > 0 && is_ws(s[0]) {
        lemma_trim_start_len(s.drop_first());
    }
}

/// The words of `s`, each as its own character vector.
pub fn split_words(s: &Vec<char>) -> (r: Vec<Vec<char>>)
    ensures
        r@.len() == words(s@).len(),
        forall|k: int| 0 <= k < r@.len() ==> #[trigger] r@[k]@ == words(s@)[k],
{
    let mut r: Vec<Vec<char>> = Vec::new();
    let ghost acc: Seq<Seq<char>> = Seq::empty();
    let mut i: usize = 0;
    assert(s@.subrange(0, s.len() as int) == s@);
    loop
        invariant
            i <= s.len(),
            r@.len() == acc.len(),
            forall|k: int| 0 <= k < r@.len() ==> #[trigger] r@[k]@ == acc[k],
            acc + words(s@.subrange(i as int, s.len() as int)) == words(s@),
        decreases s.len() - i,
    {
        let ghost rest = s@.subrange(i as int, s.len() as int);
        let start = i;
        while i < s.len() && crate::text::is_whitespace(s[i])
            invariant
                start <= i <= s.len(),
                forall|j: int| start <= j < i ==> is_ws(s@[j]),
            decreases s.len() - i,
        {
            i = i + 1;
        }
        proof {
            assert forall|j: int| 0 <= j < i - start implies is_ws(rest[j]) by {
                assert(rest[j] == s@[start + j]);
            }
            lemma_trim_start(rest, i - start);
            assert(rest.subrange(i - start, rest.len() as int) =~= s@.subrange(i as int, s.len() as int));
        }
        if i == s.len() {
            assert(words(rest) =~= Seq::<Seq<char>>::empty());
            assert(acc + words(rest) =~= acc);
            return r;
        }
        let ws = i;
        while i < s.len() && !crate::text::is_whitespace(s[i])
            invariant
                ws <= i <= s.len(),
                forall|j: int| ws <= j < i ==> !is_ws(s@[j]),
            decreases s.len() - i,
        {
            i = i + 1;
        }
        let w = slice(s, ws, i);
        proof {
            let t = s@.subrange(ws as int, s.len() as int);
            assert forall|j: int| 0 <= j < i - ws implies !is_ws(t[j]) by {
                assert(t[j] == s@[ws + j]);
            }
            lemma_take_word(t, i - ws);
            assert(t.subrange(0, i - ws) =~= w@);
            lemma_trim_start_len(rest);
            assert(t.subrange(i - ws, t.len() as int) =~= s@.subrange(i as int, s.len() as int));
            assert(words(rest) == seq![w@] + words(s@.subrange(i as int, s.len() as int)));
            assert(acc + words(rest) =~= acc.push(w@) + words(s@.subrange(i as int, s.len() as int)));
            acc = acc.push(w@);
        }
        r.push(w);
    }
}


pub fn same_chars(a: &Vec<char>, b: &Vec<char>) -> (r: bool)
    ensures
        r == (a@ == b@),
{
    let r = a.len() == b.len() && occurs_at(a, 0, b);
    assert(a@.len() == b@.len() ==> a@.subrange(0, b@.len() as int) =~= a@);
    r
}

/// Whether the characters are exactly those of `lit`.
pub fn is_str(c: &Vec<char>, lit: &str) -> (r: bool)
    ensures
        r == (c@ == lit@),
{
    same_chars(c, &chars_of(lit))
}

} // verus!
