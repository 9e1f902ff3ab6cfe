//! Partial top-K selection.
//!
//! Both the token pre-filter and the beam selector only need membership in
//! the top K by score, not a total order, so they use a quickselect-family
//! partial selection over `(score, index)` pairs instead of a full sort.

use vstd::prelude::*;
use vstd::seq_lib::group_to_multiset_ensures;

verus! {

/// No two pairs carry the same index.
pub open spec fn distinct_snd(s: Seq<(i64, usize)>) -> bool {
    forall|i: int, j: int| 0 <= i < j < s.len() ==> s[i].1 != s[j].1
}

/// Relies on pdqselect::select_by, called with a comparator that orders
/// pairs by first field, descending: it rearranges the slice in place so
/// that every element before position `k` compares greater or equal to the
/// element at `k`, and every element after it compares less or equal.
#[verifier::external_body]
fn select_desc(v: &mut Vec<(i64, usize)>, k: usize)
    requires
        k < old(v).len(),
    ensures
        final(v)@.len() == old(v)@.len(),
        final(v)@.to_multiset() == old(v)@.to_multiset(),
        forall|i: int| 0 <= i < k ==> final(v)@[i].0 >= final(v)@[k as int].0,
        forall|j: int| k < j < final(v)@.len() ==> final(v)@[j].0 <= final(v)@[k as int].0,
{
    pdqselect::select_by(v.as_mut_slice(), k, |a: &(i64, usize), b: &(i64, usize)| b.0.cmp(&a.0));
}

/// Keep `k` of the given `(score, index)` pairs, all of them of maximal
/// score: every kept pair scores at least as high as every dropped one.
/// When no more than `k` pairs come in, they are returned unchanged, in
/// their original order.
pub fn top_k_by_score(pairs: Vec<(i64, usize)>, k: usize) -> (r: Vec<(i64, usize)>)
    requires
        k >= 1,
        distinct_snd(pairs@),
    ensures
        r@.len() == if pairs@.len() <= k { pairs@.len() as int } else { k as int },
        pairs@.len() <= k ==> r@ == pairs@,
        forall|a: int| 0 <= a < r@.len() ==> pairs@.contains(#[trigger] r@[a]),
        distinct_snd(r@),
        forall|a: int, j: int|
            0 <= a < r@.len() && 0 <= j < pairs@.len() && !r@.contains(#[trigger] pairs@[j])
                ==> #[trigger] r@[a].0 >= pairs@[j].0,
{
    broadcast use group_to_multiset_ensures;

    if pairs.len() <= k {
        assert forall|a: int| 0 <= a < pairs@.len() implies pairs@.contains(#[trigger] pairs@[a]) by {
        }
        return pairs;
    }
    let ghost init = pairs@;
    proof {
        assert(init.no_duplicates()) by {
            assert forall|i: int, j: int|
                0 <= i < init.len() && 0 <= j < init.len() && i != j implies init[i] != init[j] by {
                if i < j {
                    assert(init[i].1 != init[j].1);
                } else {
                    assert(init[j].1 != init[i].1);
                }
            }
        }
        init.lemma_multiset_has_no_duplicates();
    }
    let mut v = pairs;
    select_desc(&mut v, k);
    proof {
        assert forall|x: (i64, usize)| v@.to_multiset().contains(x) implies v@.to_multiset().count(
            x,
        ) == 1 by {
            assert(init.to_multiset().count(x) == v@.to_multiset().count(x));
        }
        v@.lemma_multiset_has_no_duplicates_conv();
        // Every rearranged pair is one of the originals.
        assert forall|j: int| 0 <= j < v@.len() implies init.contains(#[trigger] v@[j]) by {
            assert(v@.contains(v@[j]));
            assert(init.to_multiset().count(v@[j]) > 0);
        }
    }
    let mut r: Vec<(i64, usize)> = Vec::new();
    let mut a: usize = 0;
    while a < k
        invariant
            a <= k,
            k < v@.len(),
            r@ == v@.subrange(0, a as int),
        decreases k - a,
    {
        let p = v[a];
        r.push(p);
        a += 1;
    }
    proof {
        assert(r@ == v@.subrange(0, k as int));
        assert forall|x: int| 0 <= x < r@.len() implies init.contains(#[trigger] r@[x]) by {
            assert(r@[x] == v@[x]);
        }
        assert(distinct_snd(r@)) by {
            assert forall|i: int, j: int| 0 <= i < j < r@.len() implies r@[i].1 != r@[j].1 by {
                if r@[i].1 == r@[j].1 {
                    // Two positions holding pairs with one index: the pairs are
                    // equal because the original pairs carry distinct indices,
                    // which contradicts the rearrangement holding no duplicates.
                    let pi = choose|x: int| 0 <= x < init.len() && init[x] == r@[i];
                    let pj = choose|x: int| 0 <= x < init.len() && init[x] == r@[j];
                    assert(init[pi].1 == init[pj].1);
                    assert(pi == pj);
                    assert(v@[i] == v@[j]);
                }
            }
        }
        assert forall|x: int, j: int|
            0 <= x < r@.len() && 0 <= j < init.len() && !r@.contains(#[trigger] init[j])
                implies #[trigger] r@[x].0 >= init[j].0 by {
            assert(init.contains(init[j]));
            assert(v@.to_multiset().count(init[j]) > 0);
            assert(v@.contains(init[j]));
            let jf = choose|y: int| 0 <= y < v@.len() && v@[y] == init[j];
            if jf < k {
                assert(r@[jf] == init[j]);
                assert(r@.contains(init[j]));
            }
            assert(jf >= k);
            assert(v@[jf].0 <= v@[k as int].0);
            assert(r@[x].0 == v@[x].0);
            assert(v@[x].0 >= v@[k as int].0);
        }
    }
    r
}

} // verus!
