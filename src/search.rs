use std::sync::atomic::{AtomicU64, Ordering};

use vstd::prelude::*;

use crate::board::{lemma_set_clear_round_trip, lemma_wf_bounds, Board, BoardView};
use crate::candidates::{base_candidates, candidate_moves, legal_cell, ranked_from, SearchContext, MAX_KILLER_DEPTH};
use crate::eval::{evaluate_board, position_score, EVAL_CAP};
use crate::rules::RuleSet;
use crate::types::{Coord, Move, Player};

verus! {

/// Score of a won position.
pub const WIN_SCORE: i64 = 1_000_000;
/// Slots of each worker's transposition table.
pub const TT_SIZE: usize = 65536;
/// Half-width of the aspiration window around the previous iteration's score.
pub const ASPIRATION_WINDOW: i64 = 50;

/// Whether `v` may serve as a window bound of a search with `depth` plies left: the
/// slack grows by one per ply, so negating and shifting a bound by one stays in range.
pub open spec fn window_ok(v: i64, depth: int) -> bool {
    -(EVAL_CAP + 1000 - depth) <= v <= EVAL_CAP + 1000 - depth
}

pub open spec fn score_ok(v: i64) -> bool {
    -EVAL_CAP <= v <= EVAL_CAP
}

/// What a stored score says about the true one.
#[derive(Clone, Copy, Debug, PartialEq, Eq, Structural)]
pub enum TTFlag {
    Exact,
    LowerBound,
    UpperBound,
}

#[derive(Clone, Copy, Debug)]
pub struct TTEntry {
    pub hash: u64,
    pub depth: u8,
    pub score: i64,
    pub flag: TTFlag,
}

/// Fixed-size table of search results, one slot per `hash % size`.
pub struct TranspositionTable {
    entries: Vec<Option<TTEntry>>,
    size: usize,
}

impl TranspositionTable {
    pub closed spec fn slots(&self) -> Seq<Option<TTEntry>> {
        self.entries@
    }

    pub closed spec fn slot_count(&self) -> nat {
        self.size as nat
    }

    pub open spec fn wf(&self) -> bool {
        &&& self.slot_count() > 0
        &&& self.slots().len() == self.slot_count()
        &&& forall|i: int|
            0 <= i < self.slots().len() && (#[trigger] self.slots()[i]) is Some ==> score_ok(
                self.slots()[i]->Some_0.score,
            )
    }

    pub open spec fn slot_of(&self, hash: u64) -> int {
        (hash as usize as int) % (self.slot_count() as int)
    }

    /// What `probe` finds for `hash` at `depth`.
    pub open spec fn lookup(&self, hash: u64, depth: u8) -> Option<(i64, TTFlag)> {
        match self.slots()[self.slot_of(hash)] {
            Some(e) => if e.hash == hash && e.depth >= depth {
                Some((e.score, e.flag))
            } else {
                None
            },
            None => None,
        }
    }

    /// An empty table of `size` slots.
    pub fn new(size: usize) -> (r: TranspositionTable)
        requires
            size > 0,
        ensures
            r.wf(),
            r.slot_count() == size,
            forall|i: int| 0 <= i < r.slots().len() ==> (#[trigger] r.slots()[i]) is None,
    {
        let mut entries: Vec<Option<TTEntry>> = Vec::with_capacity(size);
        let mut i: usize = 0;
        while i < size
            invariant
                i <= size,
                entries@.len() == i,
                forall|j: int| 0 <= j < i ==> (#[trigger] entries@[j]) is None,
            decreases size - i,
        {
            entries.push(None);
            i += 1;
        }
        TranspositionTable { entries, size }
    }

    /// The stored score and flag for `hash`, if its slot holds that position searched at
    /// least `depth` plies deep.
    pub fn probe(&self, hash: u64, depth: u8) -> (r: Option<(i64, TTFlag)>)
        requires
            self.wf(),
        ensures
            r == self.lookup(hash, depth),
            r matches Some((s, f)) ==> score_ok(s),
    {
        let index = (hash as usize) % self.size;
        match self.entries[index] {
            Some(e) => if e.hash == hash && e.depth >= depth {
                Some((e.score, e.flag))
            } else {
                None
            },
            None => None,
        }
    }

    /// Records a result; the slot is overwritten when empty or when the new result is at
    /// least as deep as the stored one.
    pub fn store(&mut self, hash: u64, depth: u8, score: i64, flag: TTFlag)
        requires
            old(self).wf(),
            score_ok(score),
        ensures
            final(self).wf(),
            final(self).slot_count() == old(self).slot_count(),
            final(self).slots() == (match old(self).slots()[old(self).slot_of(hash)] {
                Some(e) => if depth >= e.depth {
                    old(self).slots().update(
                        old(self).slot_of(hash),
                        Some(TTEntry { hash, depth, score, flag }),
                    )
                } else {
                    old(self).slots()
                },
                None => old(self).slots().update(
                    old(self).slot_of(hash),
                    Some(TTEntry { hash, depth, score, flag }),
                ),
            }),
    {
        let index = (hash as usize) % self.size;
        let should_replace = match self.entries[index] {
            None => true,
            Some(existing) => depth >= existing.depth,
        };
        if should_replace {
            self.entries.set(index, Some(TTEntry { hash, depth, score, flag }));
        }
    }
}

/// Records a beta cutoff by `coord` at ply `ply` with `remaining_depth` plies left: its
/// history weight grows by `remaining_depth²`, and it becomes the primary killer of the
/// ply, the old primary moving to second place, unless it is the primary already.
pub fn record_cutoff(ctx: &mut SearchContext, ply: usize, remaining_depth: u8, coord: Coord, n: usize)
    requires
        n <= 32,
        old(ctx).wf((n * n) as nat),
        coord.x < n,
        coord.y < n,
    ensures
        final(ctx).wf((n * n) as nat),
        final(ctx).nodes == old(ctx).nodes,
        final(ctx).history@ == old(ctx).history@.update(
            coord.y * n + coord.x,
            (if old(ctx).history@[coord.y * n + coord.x] + remaining_depth * remaining_depth > u32::MAX {
                u32::MAX as int
            } else {
                old(ctx).history@[coord.y * n + coord.x] + remaining_depth * remaining_depth
            }) as u32,
        ),
        final(ctx).killers@ == (if ply >= MAX_KILLER_DEPTH || old(ctx).killers@[2 * ply] == Some(coord) {
            old(ctx).killers@
        } else {
            old(ctx).killers@.update(2 * ply + 1, old(ctx).killers@[2 * ply as int]).update(
                2 * ply,
                Some(coord),
            )
        }),
{
    proof {
        crate::board::lemma_idx_in_range(n as nat, coord.x as int, coord.y as int);
        crate::board::lemma_square_bound(n as nat);
    }
    let d = remaining_depth as u32;
    assert(d * d <= 255 * 255) by (nonlinear_arith)
        requires
            d <= 255,
    ;
    let bonus: u32 = d * d;
    let idx = coord.y * n + coord.x;
    let h = ctx.history[idx].saturating_add(bonus);
    ctx.history.set(idx, h);
    if ply >= MAX_KILLER_DEPTH {
        return;
    }
    match ctx.killers[2 * ply] {
        Some(k) if k == coord => {
            return;
        },
        _ => {},
    }
    let primary = ctx.killers[2 * ply];
    ctx.killers.set(2 * ply + 1, primary);
    ctx.killers.set(2 * ply, Some(coord));
}

/// Limits of one search that do not change along the way.
#[derive(Clone, Copy, Debug)]
pub struct SearchParams {
    pub defense_weight: i32,
    pub max_candidates: usize,
    pub max_nodes: u64,
}

/// Largest of the first `n` scores, starting from `-WIN_SCORE`.
pub open spec fn best_of(scores: Seq<i64>, n: int) -> i64
    decreases n,
{
    if n <= 0 {
        (-WIN_SCORE) as i64
    } else if scores[n - 1] > best_of(scores, n - 1) {
        scores[n - 1]
    } else {
        best_of(scores, n - 1)
    }
}

/// `alpha` raised by the first `n` scores.
pub open spec fn raised(scores: Seq<i64>, alpha: i64, n: int) -> i64
    decreases n,
{
    if n <= 0 {
        alpha
    } else if scores[n - 1] > raised(scores, alpha, n - 1) {
        scores[n - 1]
    } else {
        raised(scores, alpha, n - 1)
    }
}

/// What is known of the score of child move `c` searched with `depth` plies left: an
/// immediate win scores `WIN_SCORE - depth`; with one ply left any other move scores the
/// negated static score of the opponent after it.
pub open spec fn child_ok<R: RuleSet>(rules: R, b: BoardView, p: Player, depth: int, dw: int, c: Coord, score: i64) -> bool {
    let after = b.with_cell(c.x as int, c.y as int, Some(p));
    let wins = rules.win_spec(after, Move { x: c.x, y: c.y, player: p, t: None }) is Some;
    &&& wins ==> score == WIN_SCORE - depth
    &&& !wins && depth == 1 ==> score == -position_score(after, p.opp(), dw)
    &&& score_ok(score)
}

/// `r` is the fail-soft result of searching the moves `cs` in order: `scores` are the
/// children's scores, the scan stopping at the first that brings alpha to `beta`; the
/// result is the best of them, or 0 when there is no move.
pub open spec fn searched<R: RuleSet>(
    rules: R,
    b: BoardView,
    p: Player,
    depth: int,
    dw: int,
    alpha: i64,
    beta: i64,
    cap: int,
    cs: Seq<Coord>,
    scores: Seq<i64>,
    r: i64,
) -> bool {
    &&& ranked_from(base_candidates(b), cap, cs)
    &&& scores.len() <= cs.len()
    &&& forall|i: int| 0 <= i < scores.len() ==> child_ok(rules, b, p, depth, dw, cs[i], #[trigger] scores[i])
    &&& forall|j: int| 0 < j < scores.len() ==> #[trigger] raised(scores, alpha, j) < beta
    &&& scores.len() < cs.len() ==> scores.len() > 0 && raised(scores, alpha, scores.len() as int) >= beta
    &&& cs.len() > 0 ==> scores.len() > 0
    &&& r == (if cs.len() == 0 {
        0
    } else {
        best_of(scores, scores.len() as int)
    })
}

/// The flag a result is stored with: an upper bound at or below the entry alpha, a lower
/// bound at or above beta, exact in between.
pub open spec fn flag_for(r: i64, alpha: i64, beta: i64) -> TTFlag {
    if r <= alpha {
        TTFlag::UpperBound
    } else if r >= beta {
        TTFlag::LowerBound
    } else {
        TTFlag::Exact
    }
}

/// Every slot is as it was, or holds a result searched at most `depth` plies deep.
pub open spec fn tt_grown(t0: Seq<Option<TTEntry>>, t1: Seq<Option<TTEntry>>, depth: int) -> bool {
    &&& t1.len() == t0.len()
    &&& forall|i: int|
        0 <= i < t1.len() ==> #[trigger] t1[i] == t0[i] || (t1[i] is Some && t1[i]->Some_0.depth <= depth)
}

/// Principal-variation negamax with alpha-beta pruning, a transposition table, and
/// killer-move and history ordering. The score is from `player`'s side, `player` to move.
///
/// A leaf (no plies left, a full board, or the node budget spent, counting the nodes
/// other workers have reported) is scored statically. The board is given back as it came.
pub fn negamax<R: RuleSet>(
    board: &mut Board,
    player: Player,
    depth: u8,
    alpha_in: i64,
    beta: i64,
    rules: &R,
    params: &SearchParams,
    ctx: &mut SearchContext,
    shared: &AtomicU64,
    tt: &mut TranspositionTable,
    ply: usize,
    is_pv: bool,
) -> (r: i64)
    requires
        old(board).wf(),
        old(ctx).wf(old(board)@.cells.len()),
        old(tt).wf(),
        window_ok(alpha_in, depth as int),
        window_ok(beta, depth as int),
        ply + depth <= 300,
    ensures
        final(board)@ == old(board)@,
        final(ctx).wf(old(board)@.cells.len()),
        final(tt).wf(),
        score_ok(r),
        final(ctx).nodes >= old(ctx).nodes,
        final(tt).slot_count() == old(tt).slot_count(),
        tt_grown(old(tt).slots(), final(tt).slots(), depth as int),
        depth == 0 || old(board)@.is_full() || old(ctx).nodes + 1 >= params.max_nodes ==> {
            &&& r == position_score(old(board)@, player, params.defense_weight as int)
            &&& final(tt).slots() == old(tt).slots()
            &&& final(ctx).killers@ == old(ctx).killers@
            &&& final(ctx).history@ == old(ctx).history@
            &&& final(ctx).nodes == (if old(ctx).nodes < u64::MAX {
                old(ctx).nodes + 1
            } else {
                old(ctx).nodes as int
            })
        },
        depth >= 1 && !old(board)@.is_full() && old(tt).lookup(old(board)@.hash, depth) is None ==> {
            ||| (r == position_score(old(board)@, player, params.defense_weight as int) && final(tt).slots()
                == old(tt).slots())
            ||| exists|cs: Seq<Coord>, scores: Seq<i64>|
                #[trigger] searched(
                    *rules,
                    old(board)@,
                    player,
                    depth as int,
                    params.defense_weight as int,
                    alpha_in,
                    beta,
                    params.max_candidates as int,
                    cs,
                    scores,
                    r,
                ) && (cs.len() > 0 && (old(tt).slots()[old(tt).slot_of(old(board)@.hash)] matches Some(e)
                    ==> e.depth <= depth) ==> final(tt).slots()[old(tt).slot_of(old(board)@.hash)] == Some(
                    TTEntry { hash: old(board)@.hash, depth, score: r, flag: flag_for(r, alpha_in, beta) },
                ))
        },
    decreases depth,
{
    let ghost b0 = board@;
    let ghost nodes0 = ctx.nodes;
    let ghost tt0 = tt.slots();
    ctx.nodes = ctx.nodes.saturating_add(1);
    let total = shared.load(Ordering::Relaxed).saturating_add(ctx.nodes);
    if depth == 0 || board.is_full() || total >= params.max_nodes {
        return evaluate_board(board, player, params.defense_weight);
    }
    let hash = board.zobrist_hash();
    let mut alpha = alpha_in;
    let entry_alpha = alpha;
    match tt.probe(hash, depth) {
        Some((tt_score, tt_flag)) => {
            match tt_flag {
                TTFlag::Exact => {
                    return tt_score;
                },
                TTFlag::LowerBound => {
                    if tt_score > alpha {
                        alpha = tt_score;
                    }
                },
                TTFlag::UpperBound => {
                    if tt_score < beta {
                        return tt_score;
                    }
                },
            }
            if alpha >= beta {
                return tt_score;
            }
        },
        None => {},
    }
    let ghost alpha0 = alpha;
    let candidates = candidate_moves(board, player, params.max_candidates, ctx, ply);
    if candidates.len() == 0 {
        proof {
            assert(searched(*rules, b0, player, depth as int, params.defense_weight as int, alpha_in, beta,
                params.max_candidates as int, candidates@, Seq::<i64>::empty(), 0));
        }
        return 0;
    }
    proof {
        crate::candidates::lemma_base_candidates_legal(b0);
        lemma_wf_bounds(b0);
    }
    let n = board.size();
    let opp = player.other();
    let mut best: i64 = -WIN_SCORE;
    let mut first = true;
    let mut i: usize = 0;
    let ghost mut scores: Seq<i64> = Seq::empty();
    let ghost mut cut = false;
    let ghost slot = tt.slot_of(hash);
    while i < candidates.len()
        invariant_except_break
            scores.len() == i,
            forall|j: int| 0 < j <= scores.len() ==> #[trigger] raised(scores, alpha0, j) < beta,
            alpha == raised(scores, alpha0, i as int),
        invariant
            opp == player.opp(),
            candidates@.len() > 0,
            forall|k: int|
                0 <= k < scores.len() ==> child_ok(*rules, b0, player, depth as int, params.defense_weight as int,
                    candidates@[k], #[trigger] scores[k]),
            best == best_of(scores, scores.len() as int),
            old(tt).lookup(b0.hash, depth) is None ==> alpha0 == alpha_in,
            tt.slot_count() == old(tt).slot_count(),
            tt_grown(tt0, tt.slots(), depth - 1),
            tt0 == old(tt).slots(),
            hash == b0.hash,
            slot == tt.slot_of(hash),
            ranked_from(base_candidates(b0), params.max_candidates as int, candidates@),
            board.wf(),
            board@ == b0,
            n == b0.size,
            n <= 32,
            b0.cells.len() == n * n,
            ctx.wf(b0.cells.len()),
            ctx.nodes >= nodes0,
            tt.wf(),
            1 <= depth,
            ply + depth <= 300,
            window_ok(alpha, depth as int),
            window_ok(beta, depth as int),
            score_ok(best),
            i <= candidates@.len(),
            forall|k: int| 0 <= k < candidates@.len() ==> base_candidates(b0).contains(#[trigger] candidates@[k]),
            forall|k: int| 0 <= k < base_candidates(b0).len() ==> legal_cell(b0, #[trigger] base_candidates(b0)[k]),
        ensures
            board.wf(),
            board@ == b0,
            ctx.wf(b0.cells.len()),
            ctx.nodes >= nodes0,
            tt.wf(),
            tt.slot_count() == old(tt).slot_count(),
            tt_grown(tt0, tt.slots(), depth - 1),
            slot == tt.slot_of(hash),
            score_ok(best),
            0 < scores.len() <= candidates@.len(),
            forall|k: int|
                0 <= k < scores.len() ==> child_ok(*rules, b0, player, depth as int, params.defense_weight as int,
                    candidates@[k], #[trigger] scores[k]),
            forall|j: int| 0 < j < scores.len() ==> #[trigger] raised(scores, alpha0, j) < beta,
            scores.len() < candidates@.len() ==> raised(scores, alpha0, scores.len() as int) >= beta,
            best == best_of(scores, scores.len() as int),
            old(tt).lookup(b0.hash, depth) is None ==> alpha0 == alpha_in,
        decreases candidates@.len() - i,
    {
        let c = candidates[i];
        proof {
            assert(base_candidates(b0).contains(candidates@[i as int]));
            let k = choose|k: int| 0 <= k < base_candidates(b0).len() && base_candidates(b0)[k] == c;
            assert(legal_cell(b0, base_candidates(b0)[k]));
        }
        let mv = Move { x: c.x, y: c.y, player, t: None };
        let ghost tt_iter = tt.slots();
        board.set(c.x, c.y, player);
        let ghost after = board@;
        let won = rules.check_win(board, &mv).is_some();
        let score = if won {
            WIN_SCORE - depth as i64
        } else if first || !is_pv {
            let s = negamax(
                board,
                opp,
                depth - 1,
                -beta,
                -alpha,
                rules,
                params,
                ctx,
                shared,
                tt,
                ply + 1,
                first && is_pv,
            );
            proof {
                lemma_tt_grown_trans(tt0, tt_iter, tt.slots(), depth - 1);
                assert(depth == 1 ==> s == position_score(after, player.opp(), params.defense_weight as int));
            }
            -s
        } else {
            let s = negamax(
                board,
                opp,
                depth - 1,
                -alpha - 1,
                -alpha,
                rules,
                params,
                ctx,
                shared,
                tt,
                ply + 1,
                false,
            );
            proof {
                lemma_tt_grown_trans(tt0, tt_iter, tt.slots(), depth - 1);
                assert(depth == 1 ==> s == position_score(after, player.opp(), params.defense_weight as int));
            }
            let ghost tt_mid = tt.slots();
            let mut score = -s;
            if score > alpha && score < beta {
                let s2 = negamax(
                    board,
                    opp,
                    depth - 1,
                    -beta,
                    -alpha,
                    rules,
                    params,
                    ctx,
                    shared,
                    tt,
                    ply + 1,
                    true,
                );
                proof {
                    lemma_tt_grown_trans(tt0, tt_mid, tt.slots(), depth - 1);
                }
                score = -s2;
            }
            score
        };
        proof {
            assert(after == b0.with_cell(c.x as int, c.y as int, Some(player)));
            assert(mv == Move { x: c.x, y: c.y, player: player, t: None });
            assert(won == (rules.win_spec(after, mv) is Some));
            assert(won ==> score == WIN_SCORE - depth);
            assert(!won && depth == 1 ==> score == -position_score(after, player.opp(), params.defense_weight as int));
            assert(score_ok(score));
            assert(child_ok(*rules, b0, player, depth as int, params.defense_weight as int, c, score));
        }
        board.clear(c.x, c.y);
        proof {
            lemma_set_clear_round_trip(b0, c.x as int, c.y as int, player);
        }
        first = false;
        proof {
            let prev = scores;
            scores = scores.push(score);
            lemma_prefix_scores(prev, scores, alpha0, i as int);
        }
        if score > best {
            best = score;
        }
        if score > alpha {
            alpha = score;
        }
        if alpha >= beta {
            record_cutoff(ctx, ply, depth, c, n);
            proof {
                cut = true;
            }
            break;
        }
        i += 1;
    }
    let ghost tt_pre = tt.slots();
    let flag = if best <= entry_alpha {
        TTFlag::UpperBound
    } else if best >= beta {
        TTFlag::LowerBound
    } else {
        TTFlag::Exact
    };
    tt.store(hash, depth, best, flag);
    proof {
        assert(searched(*rules, b0, player, depth as int, params.defense_weight as int, alpha_in, beta,
            params.max_candidates as int, candidates@, scores, best) || old(tt).lookup(b0.hash, depth) is Some);
        assert forall|k: int| 0 <= k < tt.slots().len() implies #[trigger] tt.slots()[k] == tt0[k] || (tt.slots()[k] is Some
            && tt.slots()[k]->Some_0.depth <= depth) by {
            if k != slot {
                assert(tt.slots()[k] == tt_pre[k]);
            }
        }
    }
    best
}

proof fn lemma_tt_grown_trans(t0: Seq<Option<TTEntry>>, t1: Seq<Option<TTEntry>>, t2: Seq<Option<TTEntry>>, d: int)
    requires
        tt_grown(t0, t1, d),
        tt_grown(t1, t2, d),
    ensures
        tt_grown(t0, t2, d),
{
    assert forall|i: int| 0 <= i < t2.len() implies #[trigger] t2[i] == t0[i] || (t2[i] is Some && t2[i]->Some_0.depth <= d) by {
        assert(t2[i] == t1[i] || (t2[i] is Some && t2[i]->Some_0.depth <= d));
        assert(t1[i] == t0[i] || (t1[i] is Some && t1[i]->Some_0.depth <= d));
    }
}

/// Extending the scores by one keeps the values over the earlier prefix.
proof fn lemma_prefix_scores(prev: Seq<i64>, next: Seq<i64>, alpha: i64, n: int)
    requires
        0 <= n <= prev.len(),
        prev.len() <= next.len(),
        forall|k: int| 0 <= k < prev.len() ==> prev[k] == next[k],
    ensures
        raised(prev, alpha, n) == raised(next, alpha, n),
        best_of(prev, n) == best_of(next, n),
        forall|j: int| 0 <= j <= n ==> raised(prev, alpha, j) == raised(next, alpha, j),
    decreases n,
{
    if n > 0 {
        lemma_prefix_scores(prev, next, alpha, n - 1);
    }
}

} // verus!
