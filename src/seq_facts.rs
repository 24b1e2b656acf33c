//! Facts about filtered sequences that the tag bookkeeping relies on.
use vstd::prelude::*;

verus! {

/// Membership in a filtered sequence.
pub proof fn lemma_filter_contains(s: Seq<u32>, p: spec_fn(u32) -> bool, x: u32)
    ensures
        s.filter(p).contains(x) == (s.contains(x) && p(x)),
    decreases s.len(),
{
    reveal(Seq::filter);
    if s.len() > 0 {
        let d = s.drop_last();
        lemma_filter_contains(d, p, x);
        let sub = d.filter(p);
        if s.contains(x) && p(x) {
            let i = choose|i: int| 0 <= i < s.len() && s[i] == x;
            if i == s.len() - 1 {
                assert(s.filter(p)[s.filter(p).len() - 1] == x);
            } else {
                assert(d[i] == x);
                let j = choose|j: int| 0 <= j < sub.len() && sub[j] == x;
                if p(s.last()) {
                    assert(s.filter(p)[j] == x);
                }
            }
        }
        if s.filter(p).contains(x) {
            let j = choose|j: int| 0 <= j < s.filter(p).len() && s.filter(p)[j] == x;
            if p(s.last()) && j == sub.len() {
                assert(s[s.len() - 1] == x);
            } else {
                assert(sub[j] == x);
                let i = choose|i: int| 0 <= i < d.len() && d[i] == x;
                assert(s[i] == x);
            }
        }
    }
}

/// Membership after a push.
pub proof fn lemma_push_contains(s: Seq<u32>, x: u32, y: u32)
    ensures
        s.push(x).contains(y) == (s.contains(y) || x == y),
{
    if s.contains(y) {
        let i = choose|i: int| 0 <= i < s.len() && s[i] == y;
        assert(s.push(x)[i] == y);
    }
    if x == y {
        assert(s.push(x)[s.len() as int] == y);
    }
    if s.push(x).contains(y) && x != y {
        let i = choose|i: int| 0 <= i < s.len() + 1 && s.push(x)[i] == y;
        assert(s[i] == y);
    }
}

/// Pushing a new element keeps a sequence free of repeats.
pub proof fn lemma_push_no_duplicates(s: Seq<u32>, x: u32)
    requires
        s.no_duplicates(),
        !s.contains(x),
    ensures
        s.push(x).no_duplicates(),
{
    let f = s.push(x);
    assert forall|i: int, j: int| 0 <= i < f.len() && 0 <= j < f.len() && i != j implies f[i] != f[j] by {
        if i == s.len() {
            assert(f[j] == s[j]);
        } else if j == s.len() {
            assert(f[i] == s[i]);
        }
    }
}

/// Moving an element of `b` to the end of `a` keeps `a + b` free of repeats.
pub proof fn lemma_move_left(a: Seq<u32>, b: Seq<u32>, idx: int)
    requires
        (a + b).no_duplicates(),
        0 <= idx < b.len(),
    ensures
        (a.push(b[idx]) + b.remove(idx)).no_duplicates(),
{
    let s0 = a + b;
    let s1 = a.push(b[idx]) + b.remove(idx);
    let n = a.len() as int;
    assert forall|i: int| 0 <= i < s1.len() implies #[trigger] s1[i] == s0[moved_left_index(n, idx, i)]
        && 0 <= moved_left_index(n, idx, i) < s0.len() by {
        if i > n {
            let j = i - n - 1;
            if j < idx {
                assert(b.remove(idx)[j] == b[j]);
            } else {
                assert(b.remove(idx)[j] == b[j + 1]);
            }
        }
    }
    assert forall|i: int, j: int| 0 <= i < s1.len() && 0 <= j < s1.len() && i != j implies s1[i] != s1[j] by {
        assert(s1[i] == s0[moved_left_index(n, idx, i)]);
        assert(s1[j] == s0[moved_left_index(n, idx, j)]);
    }
}

/// Where element `i` of `a.push(b[idx]) + b.remove(idx)` sits in `a + b`
/// (with `n` the length of `a`).
pub open spec fn moved_left_index(n: int, idx: int, i: int) -> int {
    if i < n {
        i
    } else if i == n {
        n + idx
    } else if i - n - 1 < idx {
        i - 1
    } else {
        i
    }
}

/// Moving an element of `a` to the end of `b` keeps `a + b` free of repeats.
pub proof fn lemma_move_right(a: Seq<u32>, b: Seq<u32>, idx: int)
    requires
        (a + b).no_duplicates(),
        0 <= idx < a.len(),
    ensures
        (a.remove(idx) + b.push(a[idx])).no_duplicates(),
{
    let s0 = a + b;
    let s1 = a.remove(idx) + b.push(a[idx]);
    let n = a.len() as int;
    assert forall|i: int| 0 <= i < s1.len() implies #[trigger] s1[i] == s0[moved_right_index(n, b.len() as int, idx, i)]
        && 0 <= moved_right_index(n, b.len() as int, idx, i) < s0.len() by {
        if i < n - 1 {
            if i < idx {
                assert(a.remove(idx)[i] == a[i]);
            } else {
                assert(a.remove(idx)[i] == a[i + 1]);
            }
        }
    }
    assert forall|i: int, j: int| 0 <= i < s1.len() && 0 <= j < s1.len() && i != j implies s1[i] != s1[j] by {
        assert(s1[i] == s0[moved_right_index(n, b.len() as int, idx, i)]);
        assert(s1[j] == s0[moved_right_index(n, b.len() as int, idx, j)]);
    }
}

/// Where element `i` of `a.remove(idx) + b.push(a[idx])` sits in `a + b`
/// (with `n` and `m` the lengths of `a` and `b`).
pub open spec fn moved_right_index(n: int, m: int, idx: int, i: int) -> int {
    if i < idx {
        i
    } else if i < n - 1 + m {
        i + 1
    } else {
        idx
    }
}

/// Filtering keeps a sequence free of repeats.
pub proof fn lemma_filter_no_duplicates(s: Seq<u32>, p: spec_fn(u32) -> bool)
    requires
        s.no_duplicates(),
    ensures
        s.filter(p).no_duplicates(),
    decreases s.len(),
{
    reveal(Seq::filter);
    if s.len() > 0 {
        let d = s.drop_last();
        assert(d.no_duplicates());
        lemma_filter_no_duplicates(d, p);
        let sub = d.filter(p);
        if p(s.last()) {
            lemma_filter_contains(d, p, s.last());
            assert(!d.contains(s.last()));
            let f = sub.push(s.last());
            assert forall|i: int, j: int| 0 <= i < f.len() && 0 <= j < f.len() && i != j implies f[i] != f[j] by {
                if i == sub.len() {
                    assert(f[j] == sub[j]);
                } else if j == sub.len() {
                    assert(f[i] == sub[i]);
                }
            }
        }
    }
}

/// Filtering twice is filtering once by both conditions.
pub proof fn lemma_filter_twice(
    s: Seq<u32>,
    p: spec_fn(u32) -> bool,
    q: spec_fn(u32) -> bool,
    r: spec_fn(u32) -> bool,
)
    requires
        forall|x: u32| #[trigger] r(x) == (p(x) && q(x)),
    ensures
        s.filter(p).filter(q) == s.filter(r),
    decreases s.len(),
{
    reveal(Seq::filter);
    if s.len() > 0 {
        let d = s.drop_last();
        lemma_filter_twice(d, p, q, r);
        let sub = d.filter(p);
        if p(s.last()) {
            assert(sub.push(s.last()).drop_last() =~= sub);
        }
    }
}

/// A filter that every element passes changes nothing.
pub proof fn lemma_filter_keeps_all(s: Seq<u32>, p: spec_fn(u32) -> bool)
    requires
        forall|i: int| 0 <= i < s.len() ==> p(#[trigger] s[i]),
    ensures
        s.filter(p) == s,
    decreases s.len(),
{
    reveal(Seq::filter);
    if s.len() > 0 {
        let d = s.drop_last();
        assert forall|i: int| 0 <= i < d.len() implies p(#[trigger] d[i]) by {
            assert(d[i] == s[i]);
        }
        lemma_filter_keeps_all(d, p);
        assert(p(s[s.len() - 1]));
        assert(d.push(s.last()) =~= s);
    }
}

/// A filter that no element passes leaves nothing.
pub proof fn lemma_filter_drops_all(s: Seq<u32>, p: spec_fn(u32) -> bool)
    requires
        forall|i: int| 0 <= i < s.len() ==> !p(#[trigger] s[i]),
    ensures
        s.filter(p) == Seq::<u32>::empty(),
    decreases s.len(),
{
    reveal(Seq::filter);
    if s.len() > 0 {
        let d = s.drop_last();
        assert forall|i: int| 0 <= i < d.len() implies !p(#[trigger] d[i]) by {
            assert(d[i] == s[i]);
        }
        lemma_filter_drops_all(d, p);
        assert(!p(s[s.len() - 1]));
    }
}

} // verus!
