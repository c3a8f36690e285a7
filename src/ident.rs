//! The identifier universe and the deterministic persistence key.

use vstd::prelude::*;
use vstd::string::*;
use crate::seqs::{lemma_insert_contains, lemma_push_contains};

verus! {

/// The parameters joined by underscores.
pub open spec fn join_underscore(ps: Seq<Seq<char>>) -> Seq<char>
    decreases ps.len(),
{
    if ps.len() == 0 {
        Seq::empty()
    } else if ps.len() == 1 {
        ps[0]
    } else {
        join_underscore(ps.drop_last()) + seq!['_'] + ps.last()
    }
}

/// The key `"{data_type}_{p1}_{p2}_..."` under which a configuration is stored.
pub open spec fn id_text(data_type: Seq<char>, ps: Seq<Seq<char>>) -> Seq<char> {
    data_type + seq!['_'] + join_underscore(ps)
}

/// The views of a slice of string slices.
pub open spec fn str_views(ps: Seq<&str>) -> Seq<Seq<char>> {
    Seq::new(ps.len(), |i: int| ps[i]@)
}

/// Builds the persistence key of a configuration from its type tag and its
/// stringified constructor parameters.
pub fn generate_id(data_type: &str, params: &[&str]) -> (r: String)
    ensures
        r@ == id_text(data_type@, str_views(params@)),
{
    proof {
        reveal_strlit("_");
    }
    let mut joined = String::from_str("");
    proof {
        reveal_strlit("");
    }
    let mut i: usize = 0;
    while i < params.len()
        invariant
            0 <= i <= params@.len(),
            joined@ == join_underscore(str_views(params@.subrange(0, i as int))),
        decreases params@.len() - i,
    {
        let ghost prev = str_views(params@.subrange(0, i as int));
        let ghost next = str_views(params@.subrange(0, i + 1));
        assert(next.drop_last() =~= prev);
        assert(next.last() == params@[i as int]@);
        if i > 0 {
            joined.append("_");
            proof {
                reveal_strlit("_");
            }
            joined.append(params[i]);
            assert(joined@ =~= join_underscore(prev) + seq!['_'] + next.last());
            assert(next.len() > 1);
        } else {
            joined.append(params[i]);
            assert(joined@ =~= next[0]);
        }
        i = i + 1;
    }
    assert(params@.subrange(0, params@.len() as int) =~= params@);
    let mut r = String::from_str(data_type);
    r.append("_");
    r.append(joined.as_str());
    assert(r@ =~= id_text(data_type@, str_views(params@)));
    r
}

/// Strictly increasing.
pub open spec fn strictly_sorted(s: Seq<u32>) -> bool {
    forall|i: int, j: int| 0 <= i < j < s.len() ==> s[i] < s[j]
}

/// The ids `start..=end` in increasing order.
pub fn range_universe(start: u32, end: u32) -> (r: Vec<u32>)
    requires
        start <= end,
    ensures
        r@.len() == end - start + 1,
        forall|i: int| 0 <= i < r@.len() ==> r@[i] == start + i,
        strictly_sorted(r@),
{
    let mut r: Vec<u32> = Vec::new();
    let mut x: u32 = start;
    loop
        invariant_except_break
            start <= x <= end,
            r@.len() == x - start,
            forall|i: int| 0 <= i < r@.len() ==> r@[i] == start + i,
        ensures
            r@.len() == end - start + 1,
            forall|i: int| 0 <= i < r@.len() ==> r@[i] == start + i,
        decreases end - x,
    {
        r.push(x);
        if x == end {
            break;
        }
        x = x + 1;
    }
    r
}

/// The distinct elements of `numbers` in increasing order.
pub fn list_universe(numbers: &[u32]) -> (r: Vec<u32>)
    ensures
        strictly_sorted(r@),
        forall|x: u32| r@.contains(x) <==> numbers@.contains(x),
        r@.len() <= numbers@.len(),
{
    let mut r: Vec<u32> = Vec::new();
    let mut i: usize = 0;
    while i < numbers.len()
        invariant
            0 <= i <= numbers@.len(),
            strictly_sorted(r@),
            r@.len() <= i,
            forall|x: u32| r@.contains(x) <==> numbers@.subrange(0, i as int).contains(x),
        decreases numbers@.len() - i,
    {
        let x = numbers[i];
        let mut k: usize = 0;
        while k < r.len() && r[k] < x
            invariant
                0 <= k <= r@.len(),
                forall|j: int| 0 <= j < k ==> r@[j] < x,
            decreases r@.len() - k,
        {
            k = k + 1;
        }
        let ghost old_r = r@;
        if k == r.len() || r[k] != x {
            r.insert(k, x);
            proof {
                old_r.insert_ensures(k as int, x);
            }
            assert forall|a: int, b: int| 0 <= a < b < r@.len() implies r@[a] < r@[b] by {
                if a < k as int && b > k as int {
                    assert(old_r[a] < x);
                    assert(r@[b] == old_r[b - 1]);
                    assert(x < old_r[k as int]);
                    if b - 1 > k as int {
                        assert(old_r[k as int] < old_r[b - 1]);
                    }
                } else if a == k as int && b > k as int {
                    assert(r@[b] == old_r[b - 1]);
                    if b - 1 > k as int {
                        assert(old_r[k as int] < old_r[b - 1]);
                    }
                }
            }
        }
        assert(numbers@.subrange(0, i + 1) =~= numbers@.subrange(0, i as int).push(x));
        assert forall|y: u32| r@.contains(y) <==> numbers@.subrange(0, i + 1).contains(y) by {
            lemma_push_contains(numbers@.subrange(0, i as int), x, y);
            if r@.len() > old_r.len() {
                lemma_insert_contains(old_r, k as int, x, y);
            } else {
                assert(r@[k as int] == x);
            }
        }
        i = i + 1;
    }
    assert(numbers@.subrange(0, numbers@.len() as int) =~= numbers@);
    r
}

} // verus!
