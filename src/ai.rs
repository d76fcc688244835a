use std::sync::atomic::{AtomicU64, Ordering};

use rand::seq::SliceRandom;
use rayon::iter::{IntoParallelRefIterator, ParallelIterator};
use vstd::prelude::*;

use crate::board::{lemma_set_clear_round_trip, lemma_wf_bounds, lemma_with_cell_wf, Board, BoardView};
use crate::candidates::{
    base_candidates, candidate_moves, coords_of, lemma_base_candidates_legal, lemma_near_cell_is_candidate,
    lemma_sorted_coords, legal_cell, near_stone, ranked_from, sort_desc, SearchContext,
};
use crate::eval::{evaluate_board, position_score, EVAL_CAP};
use crate::search::{
    searched,
    negamax, score_ok, SearchParams, TranspositionTable, ASPIRATION_WINDOW, TT_SIZE, WIN_SCORE,
};
use crate::rules::{five_through, lemma_win_has_neighbor, rules_for, RuleSet, StandardRuleSet};
use crate::types::{AiConfig, Coord, Move, Player, RuleSetKind};

verus! {

/// Whether `p`, moving at `c`, wins at once under `rules`.
pub open spec fn wins_for<R: RuleSet>(rules: R, b: BoardView, p: Player, c: Coord) -> bool {
    rules.win_spec(b.with_cell(c.x as int, c.y as int, Some(p)), Move { x: c.x, y: c.y, player: p, t: None }) is Some
}

/// Whether `p`, moving at `c`, completes five in a row.
pub open spec fn wins_std(b: BoardView, p: Player, c: Coord) -> bool {
    five_through(b.with_cell(c.x as int, c.y as int, Some(p)), c.x as int, c.y as int, p)
}

/// Whether `p` has a move that wins at once.
pub open spec fn has_win(b: BoardView, p: Player) -> bool {
    exists|c: Coord| legal_cell(b, c) && #[trigger] wins_std(b, p, c)
}

/// The winning moves for `p` among the first `n` of `cs`, in order.
pub open spec fn wins_upto<R: RuleSet>(rules: R, b: BoardView, p: Player, cs: Seq<Coord>, n: int) -> Seq<Coord>
    decreases n,
{
    if n <= 0 {
        Seq::empty()
    } else if wins_for(rules, b, p, cs[n - 1]) {
        wins_upto(rules, b, p, cs, n - 1).push(cs[n - 1])
    } else {
        wins_upto(rules, b, p, cs, n - 1)
    }
}

proof fn lemma_wins_upto<R: RuleSet>(rules: R, b: BoardView, p: Player, cs: Seq<Coord>, n: int)
    requires
        0 <= n <= cs.len(),
    ensures
        forall|i: int|
            0 <= i < wins_upto(rules, b, p, cs, n).len() ==> wins_for(rules, b, p, #[trigger] wins_upto(rules, b, p, cs, n)[i])
                && cs.contains(wins_upto(rules, b, p, cs, n)[i]),
        forall|m: int| 0 <= m < n && wins_for(rules, b, p, #[trigger] cs[m]) ==> wins_upto(rules, b, p, cs, n).contains(cs[m]),
    decreases n,
{
    if n > 0 {
        lemma_wins_upto(rules, b, p, cs, n - 1);
        let prev = wins_upto(rules, b, p, cs, n - 1);
        let cur = wins_upto(rules, b, p, cs, n);
        assert(cs.contains(cs[n - 1]));
        assert forall|i: int| 0 <= i < cur.len() implies wins_for(rules, b, p, #[trigger] cur[i]) && cs.contains(cur[i]) by {
            if i < prev.len() {
                assert(cur[i] == prev[i]);
            }
        }
        assert forall|m: int| 0 <= m < n && wins_for(rules, b, p, #[trigger] cs[m]) implies cur.contains(cs[m]) by {
            if m < n - 1 {
                let j = choose|j: int| 0 <= j < prev.len() && prev[j] == cs[m];
                assert(cur[j] == cs[m]);
            } else {
                assert(cur[cur.len() - 1] == cs[m]);
            }
        }
    }
}

/// A move that wins at once is an empty cell next to a stone, so a base candidate.
pub proof fn lemma_win_is_candidate(b: BoardView, p: Player, c: Coord)
    requires
        b.wf(),
        legal_cell(b, c),
        wins_std(b, p, c),
    ensures
        base_candidates(b).contains(c),
{
    let x = c.x as int;
    let y = c.y as int;
    let b2 = b.with_cell(x, y, Some(p));
    lemma_with_cell_wf(b, x, y, Some(p));
    let mv = Move { x: c.x, y: c.y, player: p, t: None };
    lemma_win_has_neighbor(b2, mv);
    let (dx, dy) = choose|dx: int, dy: int|
        -1 <= dx <= 1 && -1 <= dy <= 1 && (dx != 0 || dy != 0) && #[trigger] b2.get(x + dx, y + dy) == Some(p);
    assert(b.get(x + dx, y + dy) == b2.get(x + dx, y + dy));
    assert(near_stone(b, x, y));
    lemma_near_cell_is_candidate(b, c);
}

/// The moves among `candidates` with which `player` wins at once, in order.
pub fn immediate_wins<R: RuleSet>(board: &mut Board, player: Player, candidates: &Vec<Coord>, rules: &R) -> (r: Vec<
    Coord,
>)
    requires
        old(board).wf(),
        forall|k: int| 0 <= k < candidates@.len() ==> legal_cell(old(board)@, #[trigger] candidates@[k]),
    ensures
        final(board)@ == old(board)@,
        r@ == wins_upto(*rules, old(board)@, player, candidates@, candidates@.len() as int),
{
    let ghost b0 = board@;
    let mut wins: Vec<Coord> = Vec::new();
    let mut i: usize = 0;
    while i < candidates.len()
        invariant
            board.wf(),
            board@ == b0,
            forall|k: int| 0 <= k < candidates@.len() ==> legal_cell(b0, #[trigger] candidates@[k]),
            i <= candidates@.len(),
            wins@ == wins_upto(*rules, b0, player, candidates@, i as int),
        decreases candidates@.len() - i,
    {
        let c = candidates[i];
        assert(legal_cell(b0, candidates@[i as int]));
        let mv = Move { x: c.x, y: c.y, player, t: None };
        board.set(c.x, c.y, player);
        if rules.check_win(board, &mv).is_some() {
            wins.push(c);
        }
        board.clear(c.x, c.y);
        proof {
            lemma_set_clear_round_trip(b0, c.x as int, c.y as int, player);
        }
        i += 1;
    }
    wins
}

/// Relies on `SliceRandom::choose` of rand with the thread-local generator: `None` for an
/// empty slice, otherwise one of its items.
#[verifier::external_body]
fn choose_coord(items: &Vec<Coord>) -> (r: Option<Coord>)
    ensures
        (items@.len() == 0) == (r is None),
        r matches Some(c) ==> items@.contains(c),
{
    items.as_slice().choose(&mut rand::thread_rng()).copied()
}

/// The first entry's move when `randomness` is 0; otherwise a move drawn at random from
/// the first `randomness + 1` entries.
pub fn pick_with_randomness(scored: &Vec<(i64, Coord)>, randomness: u8) -> (r: Option<Coord>)
    ensures
        (scored@.len() == 0) == (r is None),
        randomness == 0 && scored@.len() > 0 ==> r == Some(scored@[0].1),
        r matches Some(c) ==> exists|i: int| 0 <= i < scored@.len() && i <= randomness && (#[trigger] scored@[i]).1 == c,
{
    if scored.len() == 0 {
        return None;
    }
    if randomness == 0 {
        return Some(scored[0].1);
    }
    let bucket: usize = if scored.len() < randomness as usize + 1 {
        scored.len()
    } else {
        randomness as usize + 1
    };
    let mut coords: Vec<Coord> = Vec::new();
    let mut i: usize = 0;
    while i < bucket
        invariant
            bucket <= scored@.len(),
            bucket <= randomness + 1,
            i <= bucket,
            coords@.len() == i,
            forall|j: int| 0 <= j < i ==> (#[trigger] coords@[j]) == scored@[j].1,
        decreases bucket - i,
    {
        coords.push(scored[i].1);
        i += 1;
    }
    let r = choose_coord(&coords);
    proof {
        if let Some(c) = r {
            let j = choose|j: int| 0 <= j < coords@.len() && coords@[j] == c;
            assert(scored@[j].1 == c);
        }
    }
    r
}

/// The moves the engine would consider for `player`, best first, at most `max_candidates`
/// of them; used to offer another move proposer a short list of plausible moves.
pub fn candidate_moves_for_llm(board: &Board, player: Player, max_candidates: usize) -> (r: Vec<Coord>)
    requires
        board.wf(),
    ensures
        ranked_from(base_candidates(board@), max_candidates as int, r@),
{
    let mut work_board = board.clone();
    proof {
        lemma_wf_bounds(board@);
    }
    let ctx = SearchContext::new(board.size() * board.size());
    candidate_moves(&mut work_board, player, max_candidates, &ctx, 0)
}

/// A move that wins at once for `player`; failing that, one that blocks an immediate
/// win of the opponent; failing that, `None`. No deeper search is made.
pub fn tactical_move(board: &Board, rule_set: RuleSetKind, player: Player) -> (r: Option<Coord>)
    requires
        board.wf(),
    ensures
        r matches Some(c) ==> legal_cell(board@, c),
        has_win(board@, player) ==> (r matches Some(c) && wins_std(board@, player, c)),
        !has_win(board@, player) && has_win(board@, player.opp()) ==> (r matches Some(c) && wins_std(
            board@,
            player.opp(),
            c,
        )),
        !has_win(board@, player) && !has_win(board@, player.opp()) ==> r is None,
{
    let ghost b = board@;
    let rules = rules_for(rule_set);
    let mut work_board = board.clone();
    proof {
        lemma_wf_bounds(b);
        lemma_base_candidates_legal(b);
        crate::candidates::lemma_base_candidates_len(b);
    }
    let ctx = SearchContext::new(board.size() * board.size());
    let candidates = candidate_moves(&mut work_board, player, usize::MAX, &ctx, 0);
    proof {
        assert forall|k: int| 0 <= k < candidates@.len() implies legal_cell(b, #[trigger] candidates@[k]) by {
            let j = choose|j: int| 0 <= j < base_candidates(b).len() && base_candidates(b)[j] == candidates@[k];
            assert(legal_cell(b, base_candidates(b)[j]));
        }
    }
    if candidates.len() == 0 {
        proof {
            lemma_no_win_without_candidates(b, player, candidates@);
            lemma_no_win_without_candidates(b, player.opp(), candidates@);
        }
        return None;
    }
    let winning = immediate_wins(&mut work_board, player, &candidates, &rules);
    proof {
        lemma_wins_upto(rules, b, player, candidates@, candidates@.len() as int);
        lemma_win_reaches_list(b, player, candidates@, winning@);
    }
    if winning.len() > 0 {
        return Some(winning[0]);
    }
    let opp = player.other();
    let blocks = immediate_wins(&mut work_board, opp, &candidates, &rules);
    proof {
        lemma_wins_upto(rules, b, opp, candidates@, candidates@.len() as int);
        lemma_win_reaches_list(b, opp, candidates@, blocks@);
    }
    if blocks.len() > 0 {
        return Some(blocks[0]);
    }
    None
}

/// When every base candidate is in `cands`, a winning move for `p` shows up in the
/// winning list built from `cands`; and every entry of that list is a legal winning move.
proof fn lemma_win_reaches_list(b: BoardView, p: Player, cands: Seq<Coord>, wins: Seq<Coord>)
    requires
        b.wf(),
        forall|k: int| 0 <= k < cands.len() ==> legal_cell(b, #[trigger] cands[k]),
        forall|m: int| 0 <= m < base_candidates(b).len() ==> cands.contains(#[trigger] base_candidates(b)[m]),
        forall|i: int| 0 <= i < wins.len() ==> wins_for(StandardRuleSet, b, p, #[trigger] wins[i]) && cands.contains(wins[i]),
        forall|m: int| 0 <= m < cands.len() && wins_for(StandardRuleSet, b, p, #[trigger] cands[m]) ==> wins.contains(cands[m]),
    ensures
        has_win(b, p) ==> wins.len() > 0,
        forall|i: int| 0 <= i < wins.len() ==> wins_std(b, p, #[trigger] wins[i]) && legal_cell(b, wins[i]),
        wins.len() > 0 ==> has_win(b, p),
{
    if has_win(b, p) {
        let c = choose|c: Coord| legal_cell(b, c) && #[trigger] wins_std(b, p, c);
        lemma_win_is_candidate(b, p, c);
        let m = choose|m: int| 0 <= m < base_candidates(b).len() && base_candidates(b)[m] == c;
        assert(cands.contains(base_candidates(b)[m]));
        let k = choose|k: int| 0 <= k < cands.len() && cands[k] == c;
        assert(wins_for(StandardRuleSet, b, p, cands[k]));
        assert(wins.contains(cands[k]));
    }
    assert forall|i: int| 0 <= i < wins.len() implies wins_std(b, p, #[trigger] wins[i]) && legal_cell(b, wins[i]) by {
        assert(cands.contains(wins[i]));
        let k = choose|k: int| 0 <= k < cands.len() && cands[k] == wins[i];
        assert(legal_cell(b, cands[k]));
    }
    if wins.len() > 0 {
        assert(legal_cell(b, wins[0]) && wins_std(b, p, wins[0]));
    }
}

proof fn lemma_no_win_without_candidates(b: BoardView, p: Player, cands: Seq<Coord>)
    requires
        b.wf(),
        cands.len() == 0,
        forall|m: int| 0 <= m < base_candidates(b).len() ==> cands.contains(#[trigger] base_candidates(b)[m]),
    ensures
        !has_win(b, p),
{
    if has_win(b, p) {
        let c = choose|c: Coord| legal_cell(b, c) && #[trigger] wins_std(b, p, c);
        lemma_win_is_candidate(b, p, c);
        let m = choose|m: int| 0 <= m < base_candidates(b).len() && base_candidates(b)[m] == c;
        assert(cands.contains(base_candidates(b)[m]));
    }
}

/// Picks among moves that all win at once: scored statically, best first, then chosen
/// with the configured randomness.
fn pick_best(board: &mut Board, player: Player, candidates: &Vec<Coord>, config: AiConfig) -> (r: Option<Coord>)
    requires
        old(board).wf(),
        forall|k: int| 0 <= k < candidates@.len() ==> legal_cell(old(board)@, #[trigger] candidates@[k]),
    ensures
        final(board)@ == old(board)@,
        (candidates@.len() == 0) == (r is None),
        r matches Some(c) ==> candidates@.contains(c),
{
    let ghost b0 = board@;
    let mut scored: Vec<(i64, Coord)> = Vec::new();
    let mut i: usize = 0;
    while i < candidates.len()
        invariant
            board.wf(),
            board@ == b0,
            forall|k: int| 0 <= k < candidates@.len() ==> legal_cell(b0, #[trigger] candidates@[k]),
            i <= candidates@.len(),
            scored@.len() == i,
            forall|m: int| 0 <= m < i ==> (#[trigger] scored@[m]).1 == candidates@[m],
        decreases candidates@.len() - i,
    {
        let c = candidates[i];
        assert(legal_cell(b0, candidates@[i as int]));
        board.set(c.x, c.y, player);
        let score = evaluate_board(board, player, config.defense_weight);
        board.clear(c.x, c.y);
        proof {
            lemma_set_clear_round_trip(b0, c.x as int, c.y as int, player);
        }
        scored.push((score, c));
        i += 1;
    }
    let ghost before = scored@;
    sort_desc(&mut scored);
    let r = pick_with_randomness(&scored, config.randomness);
    proof {
        let all = coords_of_spec(scored@);
        lemma_sorted_coords(before, scored@, candidates@, all);
        if let Some(c) = r {
            let k = choose|k: int| 0 <= k < scored@.len() && k <= config.randomness && (#[trigger] scored@[k]).1 == c;
            assert(candidates@.contains(all[k]));
        }
    }
    r
}

pub open spec fn coords_of_spec(s: Seq<(i64, Coord)>) -> Seq<Coord> {
    Seq::new(s.len(), |i: int| s[i].1)
}

/// One root search: the position, the side to move, and the window and depth of this pass.
pub struct RootJob {
    pub board: Board,
    pub rules: StandardRuleSet,
    pub player: Player,
    pub depth: u8,
    pub alpha: i64,
    pub beta: i64,
    pub params: SearchParams,
}

impl RootJob {
    pub open spec fn wf(&self) -> bool {
        &&& self.board.wf()
        &&& -(EVAL_CAP + 500) <= self.alpha <= EVAL_CAP + 500
        &&& -(EVAL_CAP + 500) <= self.beta <= EVAL_CAP + 500
    }
}

/// What is known of the score `v` of root move `c` searched `depth` plies deep in the
/// window `(alpha, beta)`: an immediate win scores `WIN_SCORE`; otherwise the score is the
/// negated static score after the move when one ply is searched, and in general that or the
/// negated fail-soft search of the reply.
pub open spec fn root_score_ok(
    b: BoardView,
    p: Player,
    depth: int,
    dw: int,
    alpha: i64,
    beta: i64,
    cap: int,
    c: Coord,
    v: i64,
) -> bool {
    let after = b.with_cell(c.x as int, c.y as int, Some(p));
    &&& score_ok(v)
    &&& wins_std(b, p, c) ==> v == WIN_SCORE
    &&& !wins_std(b, p, c) && depth <= 1 ==> v == -position_score(after, p.opp(), dw)
    &&& !wins_std(b, p, c) && depth >= 2 ==> {
        ||| v == -position_score(after, p.opp(), dw)
        ||| exists|cs: Seq<Coord>, scores: Seq<i64>|
            #[trigger] searched(StandardRuleSet, after, p.opp(), depth - 1, dw, -beta as i64, -alpha as i64, cap, cs, scores, (-v) as i64)
    }
}

impl RootJob {
    /// `root_score_ok` for this job.
    pub open spec fn scores_ok(&self, c: Coord, v: i64) -> bool {
        root_score_ok(
            self.board@,
            self.player,
            self.depth as int,
            self.params.defense_weight as int,
            self.alpha,
            self.beta,
            self.params.max_candidates as int,
            c,
            v,
        )
    }
}

/// Scores the root move `coord` with its own board copy, context and transposition table,
/// then adds its node count to the shared counter.
pub fn search_root(job: &RootJob, shared: &AtomicU64, coord: Coord) -> (r: (i64, Coord))
    requires
        job.wf(),
        legal_cell(job.board@, coord),
    ensures
        r.1 == coord,
        job.scores_ok(coord, r.0),
{
    let mut local_board = job.board.clone();
    proof {
        lemma_wf_bounds(job.board@);
    }
    let mut ctx = SearchContext::new(job.board.size() * job.board.size());
    let mut tt = TranspositionTable::new(TT_SIZE);
    local_board.set(coord.x, coord.y, job.player);
    proof {
        lemma_with_cell_wf(job.board@, coord.x as int, coord.y as int, Some(job.player));
        let h = local_board@.hash;
        assert(0 <= tt.slot_of(h) < tt.slots().len());
        assert(tt.lookup(h, (if job.depth > 0 { job.depth - 1 } else { 0 }) as u8) is None);
    }
    let ghost after = local_board@;
    let mv = Move { x: coord.x, y: coord.y, player: job.player, t: None };
    let score = if job.rules.check_win(&local_board, &mv).is_some() {
        WIN_SCORE
    } else {
        let d: u8 = if job.depth > 0 {
            job.depth - 1
        } else {
            0
        };
        let s = negamax(
            &mut local_board,
            job.player.other(),
            d,
            -job.beta,
            -job.alpha,
            &job.rules,
            &job.params,
            &mut ctx,
            shared,
            &mut tt,
            1,
            true,
        );
        proof {
            assert(job.rules == StandardRuleSet);
            assert(d == 0 ==> s == position_score(after, job.player.opp(), job.params.defense_weight as int));
            if d >= 1 && !after.is_full() {
                assert(s == position_score(after, job.player.opp(), job.params.defense_weight as int) || exists|
                    cs: Seq<Coord>,
                    scores: Seq<i64>,
                | #[trigger] searched(StandardRuleSet, after, job.player.opp(), d as int,
                    job.params.defense_weight as int, -job.beta as i64, -job.alpha as i64,
                    job.params.max_candidates as int, cs, scores, s));
            }
            assert(-(-s) == s);
            assert(((-(-s as int)) as i64) == s);
            if job.depth >= 2 {
                assert(job.scores_ok(coord, (-s) as i64));
            }
        }
        -s
    };
    shared.fetch_add(ctx.nodes, Ordering::Relaxed);
    proof {
        let b = job.board@;
        let p = job.player;
        assert(after == b.with_cell(coord.x as int, coord.y as int, Some(p)));
        assert(wins_std(b, p, coord) ==> score == WIN_SCORE);
        assert(score_ok(score));
        assert(!wins_std(b, p, coord) && job.depth <= 1 ==> score == -position_score(after, p.opp(), job.params.defense_weight as int));
    }
    (score, coord)
}

/// Relies on rayon: `par_iter().map(f).collect()` into a `Vec` over a slice yields one
/// result per item, in the order of the items. Each result is what the verified
/// `search_root` returned for that item.
#[verifier::external_body]
fn score_roots_parallel(job: &RootJob, shared: &AtomicU64, cands: &Vec<Coord>) -> (r: Vec<(i64, Coord)>)
    requires
        job.wf(),
        forall|k: int| 0 <= k < cands@.len() ==> legal_cell(job.board@, #[trigger] cands@[k]),
    ensures
        r@.len() == cands@.len(),
        forall|k: int| 0 <= k < r@.len() ==> (#[trigger] r@[k]).1 == cands@[k] && job.scores_ok(cands@[k], r@[k].0),
{
    cands.par_iter().map(|c| search_root(job, shared, *c)).collect()
}

/// The highest score of `scored` and the first index holding it.
pub fn best_scored(scored: &Vec<(i64, Coord)>) -> (r: (i64, usize))
    requires
        scored@.len() > 0,
    ensures
        is_first_best(scored@, r.1 as int),
        scored@[r.1 as int].0 == r.0,
{
    let mut best = scored[0].0;
    let mut idx: usize = 0;
    let mut i: usize = 1;
    while i < scored.len()
        invariant
            1 <= i <= scored@.len(),
            idx < i,
            scored@[idx as int].0 == best,
            forall|k: int| 0 <= k < i ==> (#[trigger] scored@[k]).0 <= best,
            forall|k: int| 0 <= k < idx ==> (#[trigger] scored@[k]).0 < best,
        decreases scored@.len() - i,
    {
        if scored[i].0 > best {
            best = scored[i].0;
            idx = i;
        }
        i += 1;
    }
    (best, idx)
}

/// `cands` with `first` moved to the front, when it is there.
fn move_to_front(cands: &Vec<Coord>, first: Coord) -> (r: Vec<Coord>)
    ensures
        r@.len() == cands@.len(),
        forall|k: int| 0 <= k < r@.len() ==> cands@.contains(#[trigger] r@[k]),
        forall|m: int| 0 <= m < cands@.len() ==> r@.contains(#[trigger] cands@[m]),
{
    let mut pos: usize = 0;
    while pos < cands.len() && cands[pos] != first
        invariant
            pos <= cands@.len(),
        decreases cands@.len() - pos,
    {
        pos += 1;
    }
    if pos == cands.len() {
        let r = coords_copy(cands);
        return r;
    }
    let mut r: Vec<Coord> = Vec::new();
    r.push(cands[pos]);
    let mut i: usize = 0;
    while i < cands.len()
        invariant
            pos < cands@.len(),
            i <= cands@.len(),
            r@.len() == 1 + i - (if i > pos { 1int } else { 0int }),
            r@[0] == cands@[pos as int],
            forall|k: int| 0 <= k < r@.len() ==> cands@.contains(#[trigger] r@[k]),
            forall|m: int| 0 <= m < i ==> r@.contains(#[trigger] cands@[m]),
        decreases cands@.len() - i,
    {
        let ghost before = r@;
        if i != pos {
            r.push(cands[i]);
            proof {
                assert(cands@.contains(cands@[i as int]));
                assert(r@[r@.len() - 1] == cands@[i as int]);
            }
        }
        proof {
            assert forall|m: int| 0 <= m < i + 1 implies r@.contains(#[trigger] cands@[m]) by {
                if m < i {
                    let k = choose|k: int| 0 <= k < before.len() && before[k] == cands@[m];
                    assert(r@[k] == cands@[m]);
                } else if m == pos {
                    assert(r@[0] == cands@[m]);
                }
            }
        }
        i += 1;
    }
    r
}

fn coords_copy(cands: &Vec<Coord>) -> (r: Vec<Coord>)
    ensures
        r@ == cands@,
{
    let mut r: Vec<Coord> = Vec::new();
    let mut i: usize = 0;
    while i < cands.len()
        invariant
            i <= cands@.len(),
            r@ == cands@.subrange(0, i as int),
        decreases cands@.len() - i,
    {
        r.push(cands[i]);
        i += 1;
        assert(r@ =~= cands@.subrange(0, i as int));
    }
    assert(r@ =~= cands@);
    r
}

/// Whether one of `cs` wins at once for `p`.
pub open spec fn has_win_in(b: BoardView, p: Player, cs: Seq<Coord>) -> bool {
    exists|i: int| 0 <= i < cs.len() && #[trigger] wins_std(b, p, cs[i])
}

/// Tactical priorities over the considered moves `cs`: a winning move is played when
/// one is among them; failing that, a blocking move when the opponent has one there.
pub open spec fn tactics_kept(b: BoardView, p: Player, cs: Seq<Coord>, r: Option<Coord>) -> bool {
    &&& has_win_in(b, p, cs) ==> (r matches Some(c) && wins_std(b, p, c))
    &&& !has_win_in(b, p, cs) && has_win_in(b, p.opp(), cs) ==> (r matches Some(c) && wins_std(b, p.opp(), c))
}

/// What a completed pass knows of root move `c`'s score `v` at depth `d`: an immediate
/// win scores `WIN_SCORE`, and with at most one ply any other move scores the negated
/// static score after it.
pub open spec fn root_value_ok(b: BoardView, p: Player, d: int, dw: int, c: Coord, v: i64) -> bool {
    &&& score_ok(v)
    &&& wins_std(b, p, c) ==> v == WIN_SCORE
    &&& !wins_std(b, p, c) && d <= 1 ==> v == -position_score(b.with_cell(c.x as int, c.y as int, Some(p)), p.opp(), dw)
}

/// Entry `i` holds the highest score of `scored`, and no earlier entry does.
pub open spec fn is_first_best(scored: Seq<(i64, Coord)>, i: int) -> bool {
    &&& 0 <= i < scored.len()
    &&& forall|k: int| 0 <= k < scored.len() ==> (#[trigger] scored[k]).0 <= scored[i].0
    &&& forall|k: int| 0 <= k < i ==> (#[trigger] scored[k]).0 < scored[i].0
}

/// The moves searched once the tactical checks are done: the blocking moves when the
/// opponent threatens to win at once, otherwise all considered moves.
pub open spec fn search_pool(b: BoardView, p: Player, cs: Seq<Coord>) -> Seq<Coord> {
    if has_win_in(b, p.opp(), cs) {
        wins_upto(StandardRuleSet, b, p.opp(), cs, cs.len() as int)
    } else {
        cs
    }
}

/// A completed root pass at depth `d` scored every move of `pool` (`scored`), and `r` is
/// the first best-scored one.
#[verifier::opaque]
pub open spec fn pass_ok(b: BoardView, p: Player, dw: int, pool: Seq<Coord>, scored: Seq<(i64, Coord)>, d: int, r: Option<Coord>) -> bool {
    &&& scored.len() > 0
    &&& forall|k: int|
        0 <= k < scored.len() ==> pool.contains((#[trigger] scored[k]).1) && root_value_ok(b, p, d, dw, scored[k].1, scored[k].0)
    &&& forall|m: int| 0 <= m < pool.len() ==> exists|k: int| 0 <= k < scored.len() && scored[k].1 == #[trigger] pool[m]
    &&& exists|i: int| #[trigger] is_first_best(scored, i) && r == Some(scored[i].1)
}

/// Without randomness, the move is the first best-scored one of the last completed pass
/// over the search pool of the considered moves `cs`, unless one of them wins at once.
pub open spec fn chosen_by_search(
    b: BoardView,
    p: Player,
    config: AiConfig,
    cs: Seq<Coord>,
    scored: Seq<(i64, Coord)>,
    d: int,
    r: Option<Coord>,
) -> bool {
    &&& ranked_from(base_candidates(b), config.max_candidates as int, cs)
    &&& cs.len() > 0 && !has_win_in(b, p, cs) ==> {
        &&& pass_ok(b, p, config.defense_weight as int, search_pool(b, p, cs), scored, d, r)
        &&& d <= config.depth
        &&& config.depth <= 2 ==> d == config.depth
    }
}

/// A pass that scored every move of `cands`, which hold exactly the moves of `pool`,
/// establishes `pass_ok` for its first best-scored move.
proof fn lemma_pass_established(
    b: BoardView,
    p: Player,
    dw: int,
    pool: Seq<Coord>,
    cands: Seq<Coord>,
    scored: Seq<(i64, Coord)>,
    d: int,
    alpha: i64,
    beta: i64,
    cap: int,
    i: int,
)
    requires
        scored.len() == cands.len(),
        forall|k: int| 0 <= k < scored.len() ==> (#[trigger] scored[k]).1 == cands[k] && root_score_ok(b, p, d, dw, alpha, beta, cap, cands[k], scored[k].0),
        drawn_from(cands, pool),
        forall|m: int| 0 <= m < pool.len() ==> cands.contains(#[trigger] pool[m]),
        is_first_best(scored, i),
    ensures
        pass_ok(b, p, dw, pool, scored, d, Some(scored[i].1)),
{
    reveal(pass_ok);
    assert forall|k: int| 0 <= k < scored.len() implies pool.contains((#[trigger] scored[k]).1) && root_value_ok(b, p, d, dw, scored[k].1, scored[k].0) by {
        assert(scored[k].1 == cands[k]);
        assert(pool.contains(cands[k]));
    }
    assert forall|m: int| 0 <= m < pool.len() implies exists|k: int| 0 <= k < scored.len() && scored[k].1 == #[trigger] pool[m] by {
        let k = choose|k: int| 0 <= k < cands.len() && cands[k] == pool[m];
        assert(scored[k].1 == pool[m]);
    }
}

/// Every entry of `s` is one of `allowed`.
pub open spec fn drawn_from(s: Seq<Coord>, allowed: Seq<Coord>) -> bool {
    forall|k: int| 0 <= k < s.len() ==> allowed.contains(#[trigger] s[k])
}

/// The move the engine plays for `player`, or `None` when it has no move to consider.
///
/// A move that wins at once is played first; failing that, when the opponent threatens
/// to win at once, only the blocking moves are searched. Otherwise every candidate is
/// searched by iterative deepening up to `config.depth` plies (from the full depth when it
/// is at most 2) with aspiration windows of ±50 around the previous pass's best score,
/// re-searching with an open window when the best score falls outside. Each root move is
/// searched in parallel under a shared node budget. With `randomness > 0` the move is drawn
/// from the best `randomness + 1` of the last ranking.
///
/// Candidates are listed in row-major order and every sort keeps that order among equal
/// scores, so ties go to the earlier cell.
#[verifier::rlimit(100)]
pub fn choose_move(board: &Board, rule_set: RuleSetKind, player: Player, config: AiConfig) -> (r: Option<Coord>)
    requires
        board.wf(),
    ensures
        (r is None) == (base_candidates(board@).len() == 0 || config.max_candidates == 0),
        r matches Some(c) ==> base_candidates(board@).contains(c) && legal_cell(board@, c),
        base_candidates(board@).len() <= config.max_candidates && has_win(board@, player) ==> (r matches Some(c)
            && wins_std(board@, player, c)),
        base_candidates(board@).len() <= config.max_candidates && !has_win(board@, player) && has_win(
            board@,
            player.opp(),
        ) ==> (r matches Some(c) && wins_std(board@, player.opp(), c)),
        !board@.has_stones() && board@.size > 0 && config.max_candidates >= 1 ==> r == Some(
            Coord { x: (board@.size / 2) as usize, y: (board@.size / 2) as usize },
        ),
        exists|cs: Seq<Coord>|
            #[trigger] ranked_from(base_candidates(board@), config.max_candidates as int, cs) && tactics_kept(
                board@,
                player,
                cs,
                r,
            ),
        config.randomness == 0 ==> exists|cs: Seq<Coord>, scored: Seq<(i64, Coord)>, d: int|
            #[trigger] chosen_by_search(board@, player, config, cs, scored, d, r),
{
    let ghost b = board@;
    let ghost base = base_candidates(b);
    let rules = rules_for(rule_set);
    let mut work_board = board.clone();
    proof {
        lemma_wf_bounds(b);
        lemma_base_candidates_legal(b);
        crate::candidates::lemma_base_candidates_len(b);
    }
    let ctx = SearchContext::new(board.size() * board.size());
    let mut candidates = candidate_moves(&mut work_board, player, config.max_candidates, &ctx, 0);
    if candidates.len() == 0 {
        proof {
            if base.len() <= config.max_candidates {
                lemma_no_win_without_candidates(b, player, candidates@);
                lemma_no_win_without_candidates(b, player.opp(), candidates@);
            }
            assert(ranked_from(base, config.max_candidates as int, candidates@) && tactics_kept(b, player, candidates@, None));
        }
        proof {
            assert(chosen_by_search(b, player, config, candidates@, Seq::empty(), 0, None));
        }
        return None;
    }
    proof {
        assert forall|k: int| 0 <= k < candidates@.len() implies legal_cell(b, #[trigger] candidates@[k]) by {
            let j = choose|j: int| 0 <= j < base.len() && base[j] == candidates@[k];
            assert(legal_cell(b, base[j]));
        }
    }
    let ghost first_cands = candidates@;
    let winning = immediate_wins(&mut work_board, player, &candidates, &rules);
    proof {
        lemma_wins_upto(rules, b, player, candidates@, candidates@.len() as int);
        if base.len() <= config.max_candidates {
            lemma_win_reaches_list(b, player, candidates@, winning@);
        }
    }
    if winning.len() > 0 {
        let r = pick_best(&mut work_board, player, &winning, config);
        proof {
            let c = r->Some_0;
            assert(winning@.contains(c));
            let k = choose|k: int| 0 <= k < winning@.len() && winning@[k] == c;
            assert(candidates@.contains(winning@[k]));
            lemma_in_base(b, candidates@, c);
            assert(wins_std(b, player, winning@[k]));
            assert(ranked_from(base, config.max_candidates as int, first_cands));
            assert(tactics_kept(b, player, first_cands, r));
            assert(has_win_in(b, player, first_cands));
            assert(chosen_by_search(b, player, config, first_cands, Seq::empty(), 0, r));
        }
        return r;
    }
    let blocks = immediate_wins(&mut work_board, player.other(), &candidates, &rules);
    proof {
        lemma_wins_upto(rules, b, player.opp(), candidates@, candidates@.len() as int);
        if base.len() <= config.max_candidates {
            lemma_win_reaches_list(b, player.opp(), candidates@, blocks@);
        }
    }
    proof {
        if has_win_in(b, player, first_cands) {
            let i = choose|i: int| 0 <= i < first_cands.len() && #[trigger] wins_std(b, player, first_cands[i]);
            assert(wins_for(rules, b, player, first_cands[i]));
            assert(winning@.contains(first_cands[i]));
        }
        if has_win_in(b, player.opp(), first_cands) {
            let i = choose|i: int| 0 <= i < first_cands.len() && #[trigger] wins_std(b, player.opp(), first_cands[i]);
            assert(wins_for(rules, b, player.opp(), first_cands[i]));
            assert(blocks@.contains(first_cands[i]));
        }
    }
    let ghost blocking = blocks.len() > 0;
    if blocks.len() > 0 {
        candidates = blocks;
    }
    let ghost allowed = candidates@;
    proof {
        assert(rules == StandardRuleSet);
        if blocking {
            assert(blocks@.contains(blocks@[0]));
            let j = choose|j: int| 0 <= j < first_cands.len() && first_cands[j] == blocks@[0];
            assert(wins_std(b, player.opp(), first_cands[j]));
        }
        assert(blocking == has_win_in(b, player.opp(), first_cands));
        assert(allowed == search_pool(b, player, first_cands));
        if has_win_in(b, player, first_cands) {
            let i = choose|i: int| 0 <= i < first_cands.len() && #[trigger] wins_std(b, player, first_cands[i]);
            assert(winning@.contains(first_cands[i]));
        }
    }
    proof {
        assert forall|k: int| 0 <= k < allowed.len() implies first_cands.contains(#[trigger] allowed[k]) by {
            if !blocking {
                assert(first_cands[k] == allowed[k]);
            }
        }
        assert forall|k: int| 0 <= k < allowed.len() implies legal_cell(b, #[trigger] allowed[k]) by {
            let j = choose|j: int| 0 <= j < first_cands.len() && first_cands[j] == allowed[k];
            assert(legal_cell(b, first_cands[j]));
        }
        assert forall|k: int| 0 <= k < candidates@.len() implies allowed.contains(#[trigger] candidates@[k]) by {}
    }
    let shared = AtomicU64::new(0);
    let max_nodes: u64 = if config.max_nodes > 1 {
        config.max_nodes as u64
    } else {
        1
    };
    let params = SearchParams {
        defense_weight: config.defense_weight,
        max_candidates: config.max_candidates,
        max_nodes,
    };
    let mut best_move: Option<Coord> = None;
    let mut best_score: i64 = -WIN_SCORE;
    let mut guess: Option<i64> = None;
    let start: u8 = if config.depth <= 2 {
        config.depth
    } else {
        1
    };
    let mut current: u16 = start as u16;
    let ghost mut last_scored: Seq<(i64, Coord)> = Seq::empty();
    let ghost mut last_d: int = 0;
    while current <= config.depth as u16
        invariant
            board.wf(),
            board@ == b,
            params.defense_weight == config.defense_weight,
            params.max_candidates == config.max_candidates,
            config.depth <= 2 ==> start == config.depth,
            allowed == search_pool(b, player, first_cands),
            !has_win_in(b, player, first_cands),
            ranked_from(base, config.max_candidates as int, first_cands),
            first_cands.len() > 0,
            forall|m: int| 0 <= m < allowed.len() ==> candidates@.contains(#[trigger] allowed[m]),
            best_move is Some ==> pass_ok(b, player, config.defense_weight as int, allowed, last_scored, last_d, best_move),
            best_move is Some ==> start <= last_d <= config.depth && (config.depth <= 2 ==> last_d == config.depth),
            start <= config.depth,
            start as u16 <= current <= config.depth as u16 + 1,
            candidates@.len() == allowed.len(),
            allowed.len() > 0,
            drawn_from(candidates@, allowed),
            forall|k: int| 0 <= k < allowed.len() ==> legal_cell(b, #[trigger] allowed[k]),
            best_move matches Some(c) ==> allowed.contains(c),
            current > start ==> best_move is Some,
            score_ok(best_score),
            guess matches Some(g) ==> score_ok(g),
        ensures
            best_move is Some,
            candidates@.len() == allowed.len(),
            drawn_from(candidates@, allowed),
            best_move matches Some(c) ==> allowed.contains(c),
            score_ok(best_score),
            pass_ok(b, player, config.defense_weight as int, allowed, last_scored, last_d, best_move),
            last_d <= config.depth && (config.depth <= 2 ==> last_d == config.depth),
            allowed == search_pool(b, player, first_cands),
            !has_win_in(b, player, first_cands),
            ranked_from(base, config.max_candidates as int, first_cands),
            first_cands.len() > 0,
        decreases config.depth as u16 + 1 - current,
    {
        if best_move.is_some() && shared.load(Ordering::Relaxed) >= max_nodes {
            break;
        }
        if let Some(prev) = best_move {
            let ghost old_cands = candidates@;
            candidates = move_to_front(&candidates, prev);
            proof {
                assert forall|k: int| 0 <= k < candidates@.len() implies allowed.contains(#[trigger] candidates@[k]) by {
                    lemma_contains_transitive(candidates@[k], candidates@, allowed);
                }
                assert forall|m: int| 0 <= m < allowed.len() implies candidates@.contains(#[trigger] allowed[m]) by {
                    let j = choose|j: int| 0 <= j < old_cands.len() && old_cands[j] == allowed[m];
                    assert(candidates@.contains(old_cands[j]));
                }
            }
        }
        let depth = current as u8;
        let mut alpha: i64 = -WIN_SCORE;
        let mut beta: i64 = WIN_SCORE;
        match guess {
            Some(g) => if current > 1 {
                alpha = g - ASPIRATION_WINDOW;
                beta = g + ASPIRATION_WINDOW;
            },
            None => {},
        }
        proof {
            assert forall|k: int| 0 <= k < candidates@.len() implies legal_cell(b, #[trigger] candidates@[k]) by {
                let j = choose|j: int| 0 <= j < allowed.len() && allowed[j] == candidates@[k];
                assert(legal_cell(b, allowed[j]));
            }
        }
        loop
            invariant
                board.wf(),
                board@ == b,
                candidates@.len() == allowed.len(),
                allowed.len() > 0,
                drawn_from(candidates@, allowed),
                forall|k: int| 0 <= k < candidates@.len() ==> legal_cell(b, #[trigger] candidates@[k]),
                forall|k: int| 0 <= k < allowed.len() ==> legal_cell(b, #[trigger] allowed[k]),
                best_move matches Some(c) ==> allowed.contains(c),
                score_ok(best_score),
                guess matches Some(g) ==> score_ok(g),
                -(EVAL_CAP + 500) <= alpha <= EVAL_CAP + 500,
                -(EVAL_CAP + 500) <= beta <= EVAL_CAP + 500,
                depth as int == current as int,
                params.defense_weight == config.defense_weight,
                params.max_candidates == config.max_candidates,
                start <= current <= config.depth,
                config.depth <= 2 ==> current == config.depth,
                forall|m: int| 0 <= m < allowed.len() ==> candidates@.contains(#[trigger] allowed[m]),
                best_move is Some ==> pass_ok(b, player, config.defense_weight as int, allowed, last_scored, last_d, best_move),
                best_move is Some ==> start <= last_d <= config.depth && (config.depth <= 2 ==> last_d == config.depth),
            ensures
                forall|m: int| 0 <= m < allowed.len() ==> candidates@.contains(#[trigger] allowed[m]),
                pass_ok(b, player, config.defense_weight as int, allowed, last_scored, last_d, best_move),
                start <= last_d <= config.depth && (config.depth <= 2 ==> last_d == config.depth),
                best_move is Some,
                candidates@.len() == allowed.len(),
                drawn_from(candidates@, allowed),
                best_move matches Some(c) ==> allowed.contains(c),
                score_ok(best_score),
                guess matches Some(g) ==> score_ok(g),
            decreases (if alpha > -WIN_SCORE {
                1int
            } else {
                0int
            }) + (if beta < WIN_SCORE {
                1int
            } else {
                0int
            }),
        {
            let job = RootJob { board: board.clone(), rules, player, depth, alpha, beta, params };
            let scored = score_roots_parallel(&job, &shared, &candidates);
            let (iter_best, best_idx) = best_scored(&scored);
            if iter_best <= alpha && alpha > -WIN_SCORE {
                alpha = -WIN_SCORE;
                continue ;
            }
            if iter_best >= beta && beta < WIN_SCORE {
                beta = WIN_SCORE;
                continue ;
            }
            best_move = Some(scored[best_idx].1);
            best_score = iter_best;
            guess = Some(iter_best);
            proof {
                assert(scored@[best_idx as int].1 == candidates@[best_idx as int]);
                assert(allowed.contains(candidates@[best_idx as int]));
                last_scored = scored@;
                last_d = depth as int;
                assert(job.board@ == b);
                assert forall|k: int| 0 <= k < scored@.len() implies (#[trigger] scored@[k]).1 == candidates@[k] && root_score_ok(b, player, depth as int, config.defense_weight as int, alpha, beta, config.max_candidates as int, candidates@[k], scored@[k].0) by {
                    assert(job.scores_ok(candidates@[k], scored@[k].0));
                }
                lemma_pass_established(b, player, config.defense_weight as int, allowed, candidates@, scored@,
                    depth as int, alpha, beta, config.max_candidates as int, best_idx as int);
            }
            if iter_best >= WIN_SCORE - 100 {
                let next = coords_of(&scored, scored.len());
                proof {
                    assert forall|k: int| 0 <= k < next@.len() implies allowed.contains(#[trigger] next@[k]) by {
                        assert(next@[k] == candidates@[k]);
                    }
                }
                proof {
                    assert forall|m: int| 0 <= m < allowed.len() implies next@.contains(#[trigger] allowed[m]) by {
                        let j = choose|j: int| 0 <= j < candidates@.len() && candidates@[j] == allowed[m];
                        assert(next@[j] == allowed[m]);
                    }
                }
                candidates = next;
                break;
            }
            let mut sorted = scored;
            let ghost before = sorted@;
            sort_desc(&mut sorted);
            let next = coords_of(&sorted, sorted.len());
            proof {
                lemma_sorted_coords(before, sorted@, candidates@, next@);
                assert forall|k: int| 0 <= k < next@.len() implies allowed.contains(#[trigger] next@[k]) by {
                    lemma_contains_transitive(next@[k], candidates@, allowed);
                }
                assert forall|m: int| 0 <= m < allowed.len() implies next@.contains(#[trigger] allowed[m]) by {
                    let j = choose|j: int| 0 <= j < candidates@.len() && candidates@[j] == allowed[m];
                    assert(next@.contains(candidates@[j]));
                }
            }
            candidates = next;
            break;
        }
        if best_score >= WIN_SCORE - 100 {
            break;
        }
        current = current + 1;
    }
    if config.randomness > 0 {
        let take: usize = if candidates.len() < config.randomness as usize + 1 {
            candidates.len()
        } else {
            config.randomness as usize + 1
        };
        let mut final_scored: Vec<(i64, Coord)> = Vec::new();
        let mut idx: usize = 0;
        while idx < take
            invariant
                take <= candidates@.len(),
                take <= 256,
                score_ok(best_score),
                idx <= take,
                final_scored@.len() == idx,
                forall|k: int| 0 <= k < idx ==> (#[trigger] final_scored@[k]).1 == candidates@[k],
            decreases take - idx,
        {
            final_scored.push((best_score - (idx as i64) * 100, candidates[idx]));
            idx += 1;
        }
        let r = pick_with_randomness(&final_scored, config.randomness);
        proof {
            let c = r->Some_0;
            let k = choose|k: int| 0 <= k < final_scored@.len() && k <= config.randomness && (#[trigger] final_scored@[k]).1 == c;
            assert(allowed.contains(candidates@[k]));
            lemma_allowed_outcome(b, player, config.max_candidates as int, first_cands, allowed, blocking, c);
            assert(ranked_from(base, config.max_candidates as int, first_cands) && tactics_kept(b, player, first_cands, r));
        }
        r
    } else {
        proof {
            lemma_allowed_outcome(b, player, config.max_candidates as int, first_cands, allowed, blocking, best_move->Some_0);
            assert(ranked_from(base, config.max_candidates as int, first_cands) && tactics_kept(b, player, first_cands, best_move));
            assert(chosen_by_search(b, player, config, first_cands, last_scored, last_d, best_move));
        }
        best_move
    }
}

proof fn lemma_contains_transitive(c: Coord, s: Seq<Coord>, t: Seq<Coord>)
    requires
        s.contains(c),
        drawn_from(s, t),
    ensures
        t.contains(c),
{
    let k = choose|k: int| 0 <= k < s.len() && s[k] == c;
    assert(t.contains(s[k]));
}

proof fn lemma_in_base(b: BoardView, cands: Seq<Coord>, c: Coord)
    requires
        b.wf(),
        cands.contains(c),
        forall|i: int| 0 <= i < cands.len() ==> base_candidates(b).contains(#[trigger] cands[i]),
        forall|k: int| 0 <= k < base_candidates(b).len() ==> legal_cell(b, #[trigger] base_candidates(b)[k]),
    ensures
        base_candidates(b).contains(c),
        legal_cell(b, c),
{
    let k = choose|k: int| 0 <= k < cands.len() && cands[k] == c;
    assert(base_candidates(b).contains(cands[k]));
    let j = choose|j: int| 0 <= j < base_candidates(b).len() && base_candidates(b)[j] == c;
    assert(legal_cell(b, base_candidates(b)[j]));
}

/// What holds of a move drawn from the searched list once no winning move was found.
proof fn lemma_allowed_outcome(
    b: BoardView,
    p: Player,
    cap: int,
    first_cands: Seq<Coord>,
    allowed: Seq<Coord>,
    blocking: bool,
    c: Coord,
)
    requires
        b.wf(),
        allowed.contains(c),
        ranked_from(base_candidates(b), cap, first_cands),
        drawn_from(allowed, first_cands),
        forall|k: int| 0 <= k < base_candidates(b).len() ==> legal_cell(b, #[trigger] base_candidates(b)[k]),
        base_candidates(b).len() <= cap ==> !has_win(b, p),
        base_candidates(b).len() <= cap && has_win(b, p.opp()) ==> blocking,
        blocking ==> forall|k: int| 0 <= k < allowed.len() ==> wins_std(b, p.opp(), #[trigger] allowed[k]),
        !has_win_in(b, p, first_cands),
        has_win_in(b, p.opp(), first_cands) ==> blocking,
    ensures
        base_candidates(b).contains(c),
        legal_cell(b, c),
        base_candidates(b).len() <= cap && !has_win(b, p) && has_win(b, p.opp()) ==> wins_std(b, p.opp(), c),
        tactics_kept(b, p, first_cands, Some(c)),
{
    lemma_contains_transitive(c, allowed, first_cands);
    lemma_in_base(b, first_cands, c);
    if blocking {
        let k = choose|k: int| 0 <= k < allowed.len() && allowed[k] == c;
        assert(wins_std(b, p.opp(), allowed[k]));
    }
}

} // verus!
