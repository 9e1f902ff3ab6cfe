//! The per-time-step building blocks of CTC beam-search decoding over a
//! row-major score matrix, and the hypothesis-trellis model they maintain:
//! the token pre-filter, the running-best candidate filter, and the
//! well-formedness of the trellis that parent-link backtracking relies on.

use vstd::prelude::*;
use vstd::arithmetic::mul::lemma_mul_inequality;
use crate::score::SCORE_LIMIT;
use crate::state::{same_pattern, DecoderState};
use crate::select::{top_k_by_score, distinct_snd};

verus! {

/// Largest magnitude the pruning margin may have.
pub const THRESH_LIMIT: i64 = 0x2000_0000_0000_0000;

/// How much the largest score magnitude in a row can grow in one step: one
/// acoustic score entry plus one merge correction per candidate that one
/// step can generate.
pub const STEP_LIMIT: i64 = 100_000_000_000;

/// Stands in for minus infinity as the running best score before any
/// candidate has been seen; far below every reachable score.
pub const SCORE_NEG_INF: i64 = -0x4000_0000_0000_0000;

/// Per-decode configuration: the beam width, the per-step cap on distinct
/// candidate tokens, and the margin below the step's best score beyond
/// which a candidate is discarded.
#[derive(Clone, Debug)]
pub struct DecoderOptions {
    pub beam_size: usize,
    pub beam_size_token: usize,
    pub beam_threshold: i64,
}

/// One terminal hypothesis: the final scores and the reconstructed token
/// sequence, one entry per time step.
#[derive(Clone, Debug)]
pub struct DecoderOutput {
    pub score: i64,
    pub am_score: i64,
    pub lm_score: i64,
    pub tokens: Vec<i32>,
}

/// The synthetic root state every decode starts from.
pub open spec fn spec_root(blank: i32) -> DecoderState {
    DecoderState {
        score: 0,
        token: blank,
        prev_blank: false,
        am_score: 0,
        lm_score: 0,
        parent_index: -1 as isize,
    }
}

/// The CTC successor of the live state `p` on emitting `token` with
/// acoustic score `am`. The three transition cases of the expansion —
/// blank, repeat without a separating blank (the same emission continued,
/// not a new label), and a new label — agree on every stored field while
/// the language-model hook contributes zero, so one constructor covers
/// them: the successor emits `token` and records whether it was the blank.
pub open spec fn spec_successor(
    p: DecoderState,
    pidx: int,
    token: i32,
    am: i64,
    blank: i32,
) -> DecoderState {
    DecoderState {
        score: (p.score + am) as i64,
        token: token,
        prev_blank: token == blank,
        am_score: (p.am_score + am) as i64,
        lm_score: 0,
        parent_index: pidx as isize,
    }
}

/// Every state of a row points at a state of the previous row.
pub open spec fn row_linked(row: Seq<DecoderState>, prev_len: int) -> bool {
    forall|i: int| 0 <= i < row.len() ==> 0 <= (#[trigger] row[i]).parent_index < prev_len
}

/// Scores bounded by `b`, and the language-model contribution still the
/// stubbed zero.
pub open spec fn state_ok(s: DecoderState, b: int) -> bool {
    &&& -b <= s.score <= b
    &&& -b <= s.am_score <= b
    &&& s.lm_score == 0
}

pub open spec fn row_ok(row: Seq<DecoderState>, b: int) -> bool {
    forall|i: int| 0 <= i < row.len() ==> state_ok(#[trigger] row[i], b)
}

/// No two states of the row stand for the same decoded sequence.
pub open spec fn distinct_patterns(row: Seq<DecoderState>) -> bool {
    forall|i: int, j: int| 0 <= i < j < row.len() ==> !(#[trigger] same_pattern(row[i], row[j]))
}

/// The hypothesis trellis invariant: row 0 is exactly the root; every later
/// row fits the beam, links into the row before it, keeps its scores inside
/// the per-step growth bound, and holds at most one state per pattern.
pub open spec fn trellis_wf(h: Seq<Seq<DecoderState>>, blank: i32, beam_size: int) -> bool {
    &&& h.len() >= 1
    &&& h[0] =~= seq![spec_root(blank)]
    &&& forall|t: int| 1 <= t < h.len() ==> row_linked(#[trigger] h[t], h[t - 1].len() as int)
    &&& forall|t: int| 1 <= t < h.len() ==> (#[trigger] h[t]).len() <= beam_size
    &&& forall|t: int| 0 <= t < h.len() ==> row_ok(#[trigger] h[t], (t + 1) * STEP_LIMIT)
    &&& forall|t: int| 1 <= t < h.len() ==> distinct_patterns(#[trigger] h[t])
}

/// The token sequence read off by walking parent links from state `idx` of
/// row `t` down to row 0: one token per row `1..=t`, in time order.
pub open spec fn spec_backtrack(h: Seq<Seq<DecoderState>>, t: int, idx: int) -> Seq<i32>
    decreases t,
{
    if t <= 0 {
        Seq::empty()
    } else {
        spec_backtrack(h, t - 1, h[t][idx].parent_index as int).push(h[t][idx].token)
    }
}

/// The row index reached after walking `j` parent links up from state
/// `idx` of row `t`; it lies in row `t - j`.
pub open spec fn spec_ancestor(h: Seq<Seq<DecoderState>>, t: int, idx: int, j: nat) -> int
    decreases j,
{
    if j == 0 {
        idx
    } else {
        h[t - (j - 1)][spec_ancestor(h, t, idx, (j - 1) as nat)].parent_index as int
    }
}

/// Backtracking termination: from any state of row `t` of a well-formed
/// trellis, every one of the first `t` hops lands on a live state of the
/// row above, the walk reaches the root in exactly `t` hops, the root's
/// parent link is `-1`, and the read-off token sequence has length exactly
/// `t`.
pub proof fn lemma_backtrack_reaches_root(
    h: Seq<Seq<DecoderState>>,
    blank: i32,
    beam_size: int,
    t: int,
    idx: int,
)
    requires
        trellis_wf(h, blank, beam_size),
        0 <= t < h.len(),
        0 <= idx < h[t].len(),
    ensures
        forall|j: nat| j <= t ==> 0 <= #[trigger] spec_ancestor(h, t, idx, j) < h[t - j].len(),
        spec_ancestor(h, t, idx, t as nat) == 0,
        h[0][spec_ancestor(h, t, idx, t as nat)].parent_index == -1,
        spec_backtrack(h, t, idx).len() == t,
    decreases t,
{
    assert forall|j: nat| j <= t implies 0 <= #[trigger] spec_ancestor(h, t, idx, j)
        < h[t - j].len() by {
        lemma_ancestor_in_row(h, blank, beam_size, t, idx, j);
    }
    lemma_backtrack_len(h, t, idx);
    assert(spec_ancestor(h, t, idx, t as nat) < h[0].len());
}

proof fn lemma_ancestor_in_row(
    h: Seq<Seq<DecoderState>>,
    blank: i32,
    beam_size: int,
    t: int,
    idx: int,
    j: nat,
)
    requires
        trellis_wf(h, blank, beam_size),
        0 <= t < h.len(),
        0 <= idx < h[t].len(),
        j <= t,
    ensures
        0 <= spec_ancestor(h, t, idx, j) < h[t - j].len(),
    decreases j,
{
    if j > 0 {
        lemma_ancestor_in_row(h, blank, beam_size, t, idx, (j - 1) as nat);
        let prev = spec_ancestor(h, t, idx, (j - 1) as nat);
        assert(row_linked(h[t - (j - 1)], h[t - j].len() as int));
    }
}

proof fn lemma_backtrack_len(h: Seq<Seq<DecoderState>>, t: int, idx: int)
    ensures
        spec_backtrack(h, t, idx).len() == if t >= 0 { t } else { 0 },
    decreases t,
{
    if t > 0 {
        lemma_backtrack_len(h, t - 1, h[t][idx].parent_index as int);
    }
}

/// Track the step's best score and keep the candidate unless it falls more
/// than `beam_threshold` below the best seen so far. (Every candidate this
/// opportunistic filter drops would also be dropped by the authoritative
/// pruning pass against the step's final best score, since the running best
/// only grows.)
pub fn add_candidate(
    output: &mut Vec<DecoderState>,
    current_best_score: &mut i64,
    beam_threshold: i64,
    state: DecoderState,
)
    requires
        -THRESH_LIMIT <= beam_threshold <= THRESH_LIMIT,
        SCORE_NEG_INF <= *old(current_best_score) <= SCORE_LIMIT,
        -SCORE_LIMIT <= state.score <= SCORE_LIMIT,
    ensures
        *final(current_best_score) == if state.score > *old(current_best_score) {
            state.score
        } else {
            *old(current_best_score)
        },
        final(output)@ == if state.score >= *final(current_best_score) - beam_threshold {
            old(output)@.push(state)
        } else {
            old(output)@
        },
{
    if state.score > *current_best_score {
        *current_best_score = state.score;
    }
    if state.score >= *current_best_score - beam_threshold {
        output.push(state);
    }
}

/// Some kept pair carries token index `b`.
pub open spec fn selected(r: Seq<(i64, usize)>, b: int) -> bool {
    exists|c: int| 0 <= c < r.len() && (#[trigger] r[c]).1 == b
}

/// The token pre-filter: the `(acoustic score, token)` pairs of time step
/// `t`, restricted to `min(tokens, beam_size_token)` distinct tokens that
/// score at least as high as every token left out. When the vocabulary fits
/// the cap, selection is skipped and every token comes back, in index
/// order.
pub fn select_targets(
    data: &Vec<i64>,
    t: usize,
    steps: usize,
    tokens: usize,
    beam_size_token: usize,
) -> (r: Vec<(i64, usize)>)
    requires
        1 <= tokens,
        1 <= beam_size_token,
        t < steps,
        data@.len() == steps * tokens,
    ensures
        r@.len() == if tokens <= beam_size_token {
            tokens as int
        } else {
            beam_size_token as int
        },
        distinct_snd(r@),
        forall|a: int|
            0 <= a < r@.len() ==> (#[trigger] r@[a]).1 < tokens && r@[a].0 == data@[
                t * tokens + r@[a].1
            ],
        tokens <= beam_size_token ==> forall|b: int|
            0 <= b < tokens ==> #[trigger] r@[b] == (data@[t * tokens + b], b as usize),
        forall|a: int, b: int|
            #![trigger r@[a], selected(r@, b)]
            0 <= a < r@.len() && 0 <= b < tokens && !selected(r@, b) ==> r@[a].0 >= data@[
                t * tokens + b
            ],
{
    let n = data.len();
    proof {
        lemma_mul_inequality(t as int + 1, steps as int, tokens as int);
        assert((t as int + 1) * (tokens as int) == (t as int) * (tokens as int) + tokens)
            by (nonlinear_arith);
        assert((t as int) * (tokens as int) + tokens <= n);
    }
    let offset: usize = t * tokens;
    let mut pairs: Vec<(i64, usize)> = Vec::new();
    let mut b: usize = 0;
    while b < tokens
        invariant
            b <= tokens,
            offset == t * tokens,
            n == data@.len(),
            offset + tokens <= n,
            pairs@.len() == b,
            forall|x: int| 0 <= x < b ==> #[trigger] pairs@[x] == (data@[offset + x], x as usize),
        decreases tokens - b,
    {
        pairs.push((data[offset + b], b));
        b += 1;
    }
    if tokens <= beam_size_token {
        proof {
            assert forall|bb: int| 0 <= bb < tokens implies selected(pairs@, bb) by {
                assert(pairs@[bb].1 == bb);
            }
        }
        return pairs;
    }
    let ghost pv = pairs@;
    proof {
        assert(distinct_snd(pv));
    }
    let r = top_k_by_score(pairs, beam_size_token);
    proof {
        assert forall|a: int|
            0 <= a < r@.len() implies (#[trigger] r@[a]).1 < tokens && r@[a].0 == data@[
            t * tokens + r@[a].1
        ] by {
            assert(pv.contains(r@[a]));
            let x = choose|x: int| 0 <= x < pv.len() && pv[x] == r@[a];
            assert(pv[x] == (data@[offset + x], x as usize));
            assert(r@[a].1 == x);
        }
        assert forall|a: int, b: int|
            #![trigger r@[a], selected(r@, b)]
            0 <= a < r@.len() && 0 <= b < tokens && !selected(r@, b) implies r@[a].0
            >= data@[t * tokens + b] by {
            let pb = (data@[offset + b], b as usize);
            assert(pv[b as int] == pb);
            if r@.contains(pb) {
                let c = choose|c: int| 0 <= c < r@.len() && r@[c] == pb;
                assert(r@[c].1 == b);
                assert(false);
            }
            assert(r@[a].0 >= pv[b as int].0);
        }
    }
    r
}



/// Begin a decode: the trellis' first row, holding only the synthetic root.
pub fn decode_begin(blank: i32) -> (row: Vec<DecoderState>)
    ensures
        row@ =~= seq![spec_root(blank)],
{
    let mut row: Vec<DecoderState> = Vec::new();
    row.push(DecoderState {
        score: 0,
        token: blank,
        prev_blank: false,
        am_score: 0,
        lm_score: 0,
        parent_index: -1,
    });
    row
}

} // verus!
