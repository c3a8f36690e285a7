//! Sequence helpers shared by the engine's specifications.

use vstd::prelude::*;

verus! {

/// The elements of `s` that satisfy `p`, in their original order.
pub open spec fn keep(s: Seq<u32>, p: spec_fn(u32) -> bool) -> Seq<u32>
    decreases s.len(),
{
    if s.len() == 0 {
        Seq::empty()
    } else {
        let rest = keep(s.drop_last(), p);
        if p(s.last()) {
            rest.push(s.last())
        } else {
            rest
        }
    }
}

/// Filtering a sequence extended by one element.
pub proof fn lemma_keep_push(s: Seq<u32>, p: spec_fn(u32) -> bool, x: u32)
    ensures
        keep(s.push(x), p) == (if p(x) { keep(s, p).push(x) } else { keep(s, p) }),
{
    assert(s.push(x).drop_last() =~= s);
}

/// One step of a filtering loop over `s`.
pub proof fn lemma_keep_step(s: Seq<u32>, p: spec_fn(u32) -> bool, i: int)
    requires
        0 <= i < s.len(),
    ensures
        keep(s.subrange(0, i + 1), p) == (if p(s[i]) {
            keep(s.subrange(0, i), p).push(s[i])
        } else {
            keep(s.subrange(0, i), p)
        }),
{
    assert(s.subrange(0, i + 1) =~= s.subrange(0, i).push(s[i]));
    lemma_keep_push(s.subrange(0, i), p, s[i]);
}

/// An element is kept exactly when it occurs in `s` and satisfies `p`.
pub proof fn lemma_keep_contains(s: Seq<u32>, p: spec_fn(u32) -> bool, x: u32)
    ensures
        keep(s, p).contains(x) <==> (s.contains(x) && p(x)),
    decreases s.len(),
{
    if s.len() > 0 {
        lemma_keep_contains(s.drop_last(), p, x);
        assert(s =~= s.drop_last().push(s.last()));
        if s.drop_last().contains(x) {
            let j = choose|j: int| 0 <= j < s.drop_last().len() && s.drop_last()[j] == x;
            assert(s[j] == x);
        }
        if s.contains(x) && !s.drop_last().contains(x) {
            let j = choose|j: int| 0 <= j < s.len() && s[j] == x;
            if j < s.len() - 1 {
                assert(s.drop_last()[j] == x);
            }
        }
        if p(s.last()) {
            assert(keep(s, p) == keep(s.drop_last(), p).push(s.last()));
            if keep(s, p).contains(x) && !keep(s.drop_last(), p).contains(x) {
                let j = choose|j: int| 0 <= j < keep(s, p).len() && keep(s, p)[j] == x;
                if j < keep(s, p).len() - 1 {
                    assert(keep(s.drop_last(), p)[j] == x);
                }
            }
            if keep(s.drop_last(), p).contains(x) {
                let j = choose|j: int|
                    0 <= j < keep(s.drop_last(), p).len() && keep(s.drop_last(), p)[j] == x;
                assert(keep(s, p)[j] == x);
            }
            assert(keep(s, p)[keep(s, p).len() - 1] == s.last());
        }
    }
}

/// Filtering a sequence without duplicates leaves none.
pub proof fn lemma_keep_no_dups(s: Seq<u32>, p: spec_fn(u32) -> bool)
    requires
        s.no_duplicates(),
    ensures
        keep(s, p).no_duplicates(),
    decreases s.len(),
{
    if s.len() > 0 {
        let d = s.drop_last();
        assert(d.no_duplicates());
        lemma_keep_no_dups(d, p);
        if p(s.last()) {
            lemma_keep_contains(d, p, s.last());
            if d.contains(s.last()) {
                let j = choose|j: int| 0 <= j < d.len() && d[j] == s.last();
                assert(s[j] == s[s.len() - 1]);
            }
            let k = keep(s, p);
            assert forall|a: int, b: int| 0 <= a < b < k.len() implies k[a] != k[b] by {
                if b == k.len() - 1 {
                    assert(keep(d, p)[a] == k[a]);
                    assert(keep(d, p).contains(k[a]));
                }
            }
        }
    }
}

/// Membership in a sequence extended by one element.
pub proof fn lemma_push_contains(s: Seq<u32>, x: u32, y: u32)
    ensures
        s.push(x).contains(y) <==> (s.contains(y) || y == x),
{
    if s.contains(y) {
        let j = choose|j: int| 0 <= j < s.len() && s[j] == y;
        assert(s.push(x)[j] == y);
    }
    if s.push(x).contains(y) && y != x {
        let j = choose|j: int| 0 <= j < s.push(x).len() && s.push(x)[j] == y;
        assert(s[j] == y);
    }
    assert(s.push(x)[s.len() as int] == x);
}

/// Membership in a sequence with one element inserted.
pub proof fn lemma_insert_contains(s: Seq<u32>, k: int, x: u32, y: u32)
    requires
        0 <= k <= s.len(),
    ensures
        s.insert(k, x).contains(y) <==> (s.contains(y) || y == x),
{
    s.insert_ensures(k, x);
    let t = s.insert(k, x);
    if s.contains(y) {
        let j = choose|j: int| 0 <= j < s.len() && s[j] == y;
        if j < k {
            assert(t[j] == y);
        } else {
            assert(t[j + 1] == y);
        }
    }
    if t.contains(y) && y != x {
        let j = choose|j: int| 0 <= j < t.len() && t[j] == y;
        if j < k {
            assert(s[j] == y);
        } else {
            assert(j != k);
            assert(s[j - 1] == y);
        }
    }
    assert(t[k] == x);
}

/// Membership in a concatenation.
pub proof fn lemma_concat_contains(a: Seq<u32>, b: Seq<u32>, x: u32)
    ensures
        (a + b).contains(x) <==> (a.contains(x) || b.contains(x)),
{
    let c = a + b;
    if a.contains(x) {
        let j = choose|j: int| 0 <= j < a.len() && a[j] == x;
        assert(c[j] == x);
    }
    if b.contains(x) {
        let j = choose|j: int| 0 <= j < b.len() && b[j] == x;
        assert(c[a.len() + j] == x);
    }
    if c.contains(x) {
        let j = choose|j: int| 0 <= j < c.len() && c[j] == x;
        if j < a.len() {
            assert(a[j] == x);
        } else {
            assert(b[j - a.len()] == x);
        }
    }
}

} // verus!
