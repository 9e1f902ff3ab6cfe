//! One beam element at one time step, and the operations the merge stage
//! needs on it: the `(token, prev_blank)` equivalence, a total order that
//! makes equivalent states consecutive, and the score-combining rule for
//! merging equivalent states.

use vstd::prelude::*;
use vstd::seq_lib::group_to_multiset_ensures;
use vstd::multiset::group_multiset_axioms;
use crate::score::{SCORE_LIMIT, LOG_ADD_BONUS_MAX, spec_log_add, log_add, lemma_log_add_bounds};

verus! {

/// One hypothesis in one trellis row: the cumulative combined score, the
/// label this state emits, whether the previous emission was blank (needed
/// for the CTC repeat-collapsing rule), the acoustic / language-model score
/// decomposition, and the index of the parent state in the previous row
/// (`-1` only for the synthetic root).
#[derive(Clone, Copy, Debug)]
pub struct DecoderState {
    pub score: i64,
    pub token: i32,
    pub prev_blank: bool,
    pub am_score: i64,
    pub lm_score: i64,
    pub parent_index: isize,
}

/// Two states stand for the same decoded-sequence suffix from here on:
/// they agree on the emitted token and on whether a blank just preceded.
pub open spec fn same_pattern(a: DecoderState, b: DecoderState) -> bool {
    a.token == b.token && a.prev_blank == b.prev_blank
}

/// Total preorder on states: by token, then by `prev_blank`
/// (`false` first), then by score. States with one pattern are consecutive
/// in any sequence sorted by it, ordered by ascending score.
pub open spec fn ps_le(a: DecoderState, b: DecoderState) -> bool {
    if a.token != b.token {
        a.token < b.token
    } else if a.prev_blank != b.prev_blank {
        !a.prev_blank
    } else {
        a.score <= b.score
    }
}

pub open spec fn sorted_ps(s: Seq<DecoderState>) -> bool {
    forall|x: int, y: int| 0 <= x < y < s.len() ==> #[trigger] ps_le(s[x], s[y])
}

/// `ps_le` is total: of any two states, one compares at or below the other.
pub proof fn lemma_ps_le_total(a: DecoderState, b: DecoderState)
    ensures
        ps_le(a, b) || ps_le(b, a),
{
}

pub proof fn lemma_ps_le_trans(a: DecoderState, b: DecoderState, c: DecoderState)
    requires
        ps_le(a, b),
        ps_le(b, c),
    ensures
        ps_le(a, c),
{
}

/// In a sorted sequence, everything between two states of one pattern has
/// that pattern too: equivalent states are consecutive.
pub proof fn lemma_pattern_consecutive(s: Seq<DecoderState>, x: int, z: int, y: int)
    requires
        sorted_ps(s),
        0 <= x <= z <= y < s.len(),
        same_pattern(s[x], s[y]),
    ensures
        same_pattern(s[z], s[x]),
{
    if x < z {
        assert(ps_le(s[x], s[z]));
    }
    if z < y {
        assert(ps_le(s[z], s[y]));
    }
}

/// Merge one more state into an accumulated representative: the score is
/// the log-sum-exp of the two, and the remaining fields follow whichever of
/// the two raw scores is the running maximum (the incoming state on ties).
pub open spec fn spec_combine(prev: DecoderState, nxt: DecoderState) -> DecoderState {
    DecoderState {
        score: spec_log_add(prev.score as int, nxt.score as int) as i64,
        token: nxt.token,
        prev_blank: nxt.prev_blank,
        am_score: if nxt.score >= prev.score { nxt.am_score } else { prev.am_score },
        lm_score: if nxt.score >= prev.score { nxt.lm_score } else { prev.lm_score },
        parent_index: if nxt.score >= prev.score { nxt.parent_index } else { prev.parent_index },
    }
}

/// Collapse a group of equivalent states into one representative,
/// accumulating left to right in the group's order (ascending score when
/// the group comes out of a sorted sequence).
pub open spec fn merge_group(g: Seq<DecoderState>) -> DecoderState
    decreases g.len(),
{
    if g.len() <= 1 {
        g[0]
    } else {
        spec_combine(merge_group(g.drop_last()), g.last())
    }
}

/// What merging guarantees: the representative's score is at least every
/// member's score (combining probability mass never loses any) and at most
/// `ln 2` per merge above the group's bound; its pattern is the members'
/// pattern; its remaining fields are taken from one member, following the
/// running maximum pairwise — at each accumulation step `spec_combine`
/// takes them from the incoming member exactly when its raw score reaches
/// the accumulated score, as the unfolding clause below records.
pub proof fn lemma_merge_group_props(g: Seq<DecoderState>, lo: int, hi: int)
    requires
        g.len() >= 1,
        forall|x: int| 0 <= x < g.len() ==> lo <= (#[trigger] g[x]).score <= hi,
        -SCORE_LIMIT < lo,
        hi + g.len() * LOG_ADD_BONUS_MAX < SCORE_LIMIT,
    ensures
        forall|x: int| 0 <= x < g.len() ==> merge_group(g).score >= (#[trigger] g[x]).score,
        merge_group(g).score <= hi + (g.len() - 1) * LOG_ADD_BONUS_MAX,
        merge_group(g).token == g.last().token,
        merge_group(g).prev_blank == g.last().prev_blank,
        exists|x: int|
            0 <= x < g.len() && merge_group(g).parent_index == (#[trigger] g[x]).parent_index
                && merge_group(g).am_score == g[x].am_score && merge_group(g).lm_score
                == g[x].lm_score,
        g.len() >= 2 ==> merge_group(g) == spec_combine(merge_group(g.drop_last()), g.last()),
    decreases g.len(),
{
    if g.len() == 1 {
        assert(merge_group(g) == g[0]);
    } else {
        let d = g.drop_last();
        lemma_merge_group_props(d, lo, hi);
        let prev = merge_group(d);
        let nxt = g.last();
        lemma_log_add_bounds(prev.score as int, nxt.score as int);
        assert(spec_log_add(prev.score as int, nxt.score as int) <= hi + (g.len() - 1)
            * LOG_ADD_BONUS_MAX);
        assert forall|x: int|
            0 <= x < g.len() implies merge_group(g).score >= (#[trigger] g[x]).score by {
            if x < g.len() - 1 {
                assert(g[x] == d[x]);
                assert(prev.score >= g[x].score);
            }
        }
        assert(exists|x: int|
            0 <= x < g.len() && merge_group(g).parent_index == (#[trigger] g[x]).parent_index
                && merge_group(g).am_score == g[x].am_score && merge_group(g).lm_score
                == g[x].lm_score) by {
            if nxt.score >= prev.score {
                assert(g[g.len() - 1] == nxt);
            } else {
                let y = choose|y: int|
                    0 <= y < d.len() && prev.parent_index == (#[trigger] d[y]).parent_index
                        && prev.am_score == d[y].am_score && prev.lm_score == d[y].lm_score;
                assert(g[y] == d[y]);
            }
        }
    }
}

/// Merge one more state into the accumulated representative.
pub fn combine(prev: DecoderState, nxt: DecoderState) -> (r: DecoderState)
    requires
        -SCORE_LIMIT <= prev.score <= SCORE_LIMIT,
        -SCORE_LIMIT <= nxt.score <= SCORE_LIMIT,
    ensures
        r == spec_combine(prev, nxt),
{
    proof {
        lemma_log_add_bounds(prev.score as int, nxt.score as int);
    }
    let score = log_add(prev.score, nxt.score);
    if nxt.score >= prev.score {
        DecoderState {
            score,
            token: nxt.token,
            prev_blank: nxt.prev_blank,
            am_score: nxt.am_score,
            lm_score: nxt.lm_score,
            parent_index: nxt.parent_index,
        }
    } else {
        DecoderState {
            score,
            token: nxt.token,
            prev_blank: nxt.prev_blank,
            am_score: prev.am_score,
            lm_score: prev.lm_score,
            parent_index: prev.parent_index,
        }
    }
}

/// `ps_le` as executable code.
fn le_states(a: &DecoderState, b: &DecoderState) -> (r: bool)
    ensures
        r == ps_le(*a, *b),
{
    if a.token != b.token {
        a.token < b.token
    } else if a.prev_blank != b.prev_blank {
        !a.prev_blank
    } else {
        a.score <= b.score
    }
}

/// Insertion sort by `ps_le`: afterwards the states are sorted by token,
/// `prev_blank` and score, and form the same multiset as before.
pub fn sort_states(v: &mut Vec<DecoderState>)
    ensures
        final(v)@.len() == old(v)@.len(),
        final(v)@.to_multiset() == old(v)@.to_multiset(),
        sorted_ps(final(v)@),
{
    broadcast use group_to_multiset_ensures;
    broadcast use group_multiset_axioms;

    if v.len() <= 1 {
        return ;
    }
    let ghost orig = v@;
    let mut i: usize = 1;
    while i < v.len()
        invariant
            1 <= i <= v@.len(),
            v@.len() == orig.len(),
            v@.to_multiset() == orig.to_multiset(),
            sorted_ps(v@.subrange(0, i as int)),
        decreases v@.len() - i,
    {
        let ghost before = v@;
        let x = v.remove(i);
        let mut p: usize = 0;
        let mut scanning = true;
        while scanning && p < i
            invariant
                p <= i,
                i <= v@.len(),
                v@ == before.remove(i as int),
                x == before[i as int],
                forall|q: int| 0 <= q < p ==> ps_le(#[trigger] v@[q], x),
                !scanning ==> p < i && !ps_le(v@[p as int], x),
            decreases i - p + (if scanning { 1int } else { 0int }),
        {
            if le_states(&v[p], &x) {
                p += 1;
            } else {
                scanning = false;
            }
        }
        v.insert(p, x);
        proof {
            // The multiset is unchanged by removing and re-inserting `x`.
            assert(before.contains(x)) by {
                assert(before[i as int] == x);
            }
            assert(before.to_multiset().count(x) > 0) by {
                vstd::seq_lib::to_multiset_contains(before, x);
            }
            assert(before.remove(i as int).to_multiset() == before.to_multiset().remove(x)) by {
                vstd::seq_lib::to_multiset_remove(before, i as int);
            }
            assert(before.remove(i as int).insert(p as int, x).to_multiset() == before.remove(
                i as int,
            ).to_multiset().insert(x)) by {
                vstd::seq_lib::to_multiset_insert(before.remove(i as int), p as int, x);
            }
            assert(v@ == before.remove(i as int).insert(p as int, x));
            assert(v@.to_multiset() =~= before.to_multiset());
            // The sorted prefix grew by one.
            let now = v@;
            let pre = before.remove(i as int);
            assert forall|a: int, b: int|
                0 <= a < b < i + 1 implies #[trigger] ps_le(
                now.subrange(0, i + 1)[a],
                now.subrange(0, i + 1)[b],
            ) by {
                assert(now == pre.insert(p as int, x));
                let av = now[a];
                let bv = now[b];
                if a < p {
                    assert(now[a] == pre[a]);
                }
                if b < p {
                    assert(now[b] == pre[b]);
                }
                if a > p {
                    assert(now[a] == pre[a - 1]);
                }
                if b > p {
                    assert(now[b] == pre[b - 1]);
                }
                if a == p {
                    assert(now[a] == x);
                }
                if b == p {
                    assert(now[b] == x);
                }
                // Old prefix entries compare by the sortedness so far.
                assert(forall|q: int, r: int|
                    0 <= q < r < i ==> #[trigger] ps_le(pre[q], pre[r])) by {
                    assert(forall|q: int| 0 <= q < i ==> pre[q] == before.subrange(0, i as int)[q]);
                }
                if p < i && !(ps_le(pre[p as int], x)) {
                    lemma_ps_le_total(pre[p as int], x);
                }
                if b == p && a < p {
                    assert(ps_le(av, x));
                } else if a == p && b > p {
                    // x goes before pre[p]; later entries follow by transitivity.
                    if b - 1 > p {
                        assert(ps_le(pre[p as int], pre[b - 1]));
                    }
                    if p < i {
                        lemma_ps_le_total(pre[p as int], x);
                        if b - 1 > p {
                            lemma_ps_le_trans(x, pre[p as int], pre[b - 1]);
                        }
                    }
                }
            }
            assert(sorted_ps(now.subrange(0, i + 1)));
        }
        i += 1;
    }
    proof {
        if v@.len() > 0 {
            assert(v@ == v@.subrange(0, v@.len() as int));
        }
    }
}

} // verus!
