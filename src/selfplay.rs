use vstd::prelude::*;

use crate::ai::choose_move;
use crate::candidates::legal_cell;
use crate::game::GameState;
use crate::types::{AiConfig, GameMode, GameResult, Player, Players, RuleSetKind};

verus! {

/// Number of empty cells among the first `k`.
pub open spec fn empties(cells: Seq<Option<Player>>, k: int) -> int
    decreases k,
{
    if k <= 0 {
        0
    } else {
        empties(cells, k - 1) + (if cells[k - 1] is None {
            1int
        } else {
            0int
        })
    }
}

proof fn lemma_empties_bounds(cells: Seq<Option<Player>>, k: int)
    requires
        0 <= k <= cells.len(),
    ensures
        0 <= empties(cells, k) <= k,
    decreases k,
{
    if k > 0 {
        lemma_empties_bounds(cells, k - 1);
    }
}

/// Filling an empty cell leaves one empty cell fewer.
proof fn lemma_empties_fill(cells: Seq<Option<Player>>, i: int, p: Player, k: int)
    requires
        0 <= i < cells.len(),
        cells[i] is None,
        0 <= k <= cells.len(),
    ensures
        empties(cells.update(i, Some(p)), k) == empties(cells, k) - (if i < k {
            1int
        } else {
            0int
        }),
    decreases k,
{
    if k > 0 {
        lemma_empties_fill(cells, i, p, k - 1);
    }
}

/// Plays one game between two engine settings, black first on a 15×15 board, until it
/// is won, drawn, or the side to move has no move to consider (counted as a draw).
pub fn play_ai_game(black: AiConfig, white: AiConfig) -> (r: Result<GameResult, String>)
    ensures
        r is Ok,
{
    let players = Players { black: "AI".to_owned(), white: "AI".to_owned() };
    let mode = GameMode::AiVsAi { black_id: "self_play_black".to_owned(), white_id: "self_play_white".to_owned() };
    let mut game = GameState::new(15, RuleSetKind::Standard, players, mode);
    proof {
        lemma_empties_bounds(game.board@.cells, game.board@.cells.len() as int);
    }
    while game.result.is_none()
        invariant
            game.wf(),
            empties(game.board@.cells, game.board@.cells.len() as int) >= 0,
        decreases empties(game.board@.cells, game.board@.cells.len() as int),
    {
        let config = if game.to_move == Player::B {
            black
        } else {
            white
        };
        let coord = choose_move(&game.board, RuleSetKind::Standard, game.to_move, config);
        let c = match coord {
            Some(c) => c,
            None => {
                break;
            },
        };
        let ghost before = game.board@;
        let ghost mover = game.to_move;
        assert(legal_cell(before, c));
        let applied = game.apply_move(c.x, c.y);
        proof {
            let i = before.idx(c.x as int, c.y as int);
            crate::board::lemma_idx_in_range(before.size, c.x as int, c.y as int);
            lemma_empties_fill(before.cells, i, mover, before.cells.len() as int);
            lemma_empties_bounds(game.board@.cells, game.board@.cells.len() as int);
        }
        match applied {
            Ok(()) => {},
            Err(e) => {
                return Err(e);
            },
        }
    }
    Ok(
        match game.result {
            Some(res) => res,
            None => GameResult::Draw,
        },
    )
}

/// The pairs `(i, j)` with `i < j` drawn from `i` onward, below `count`, in order.
pub open spec fn pairs_from(count: int, i: int) -> Seq<(usize, usize)>
    decreases count - i,
{
    if i >= count {
        Seq::empty()
    } else {
        Seq::new((count - i - 1) as nat, |t: int| (i as usize, (i + 1 + t) as usize)) + pairs_from(count, i + 1)
    }
}

/// Every pairing of `count` entrants, each pair once, as `(i, j)` with `i < j`, in
/// lexicographic order.
pub fn build_pairs(count: usize) -> (r: Vec<(usize, usize)>)
    ensures
        r@ == pairs_from(count as int, 0),
{
    let mut pairs: Vec<(usize, usize)> = Vec::new();
    let mut i: usize = 0;
    while i < count
        invariant
            i <= count,
            pairs@ + pairs_from(count as int, i as int) == pairs_from(count as int, 0),
        decreases count - i,
    {
        let ghost row = Seq::new((count - i - 1) as nat, |t: int| (i as usize, (i + 1 + t) as usize));
        let ghost base = pairs@;
        let mut j: usize = i + 1;
        while j < count
            invariant
                i < count,
                i + 1 <= j <= count,
                row == Seq::new((count - i - 1) as nat, |t: int| (i as usize, (i + 1 + t) as usize)),
                pairs@ == base + row.subrange(0, j - i - 1),
            decreases count - j,
        {
            pairs.push((i, j));
            j += 1;
            assert(pairs@ =~= base + row.subrange(0, j - i - 1));
        }
        assert(row.subrange(0, (count - i - 1) as int) =~= row);
        assert(pairs_from(count as int, i as int) == row + pairs_from(count as int, i + 1));
        assert(base + pairs_from(count as int, i as int) =~= pairs@ + pairs_from(count as int, i + 1));
        i += 1;
    }
    assert(pairs@ + pairs_from(count as int, count as int) =~= pairs@);
    pairs
}

} // verus!
