use vstd::prelude::*;

use crate::board::{Board, BoardView};
use crate::types::{win_for, GameResult, Move, Player, RuleSetKind};

verus! {

/// How many consecutive stones of `p` lie on the ray from `(x, y)` (included) in
/// direction `(dx, dy)`, looking at no more than `k` cells.
pub open spec fn run_from(b: BoardView, x: int, y: int, dx: int, dy: int, p: Player, k: nat) -> nat
    decreases k,
{
    if k == 0 || b.get(x, y) != Some(p) {
        0
    } else {
        1 + run_from(b, x + dx, y + dy, dx, dy, p, (k - 1) as nat)
    }
}

/// Stones of `p` adjacent to `(x, y)` in direction `(dx, dy)`, the cell itself excluded.
pub open spec fn count_dir_spec(b: BoardView, x: int, y: int, dx: int, dy: int, p: Player) -> nat {
    run_from(b, x + dx, y + dy, dx, dy, p, b.size)
}

/// Length of the line of `p` through `(x, y)` along `(dx, dy)`, counting `(x, y)` itself.
pub open spec fn line_count(b: BoardView, x: int, y: int, dx: int, dy: int, p: Player) -> int {
    1 + count_dir_spec(b, x, y, dx, dy, p) as int + count_dir_spec(b, x, y, -dx, -dy, p) as int
}

/// Whether a line of five or more of `p` passes through `(x, y)` in one of the four directions.
pub open spec fn five_through(b: BoardView, x: int, y: int, p: Player) -> bool {
    ||| line_count(b, x, y, 1, 0, p) >= 5
    ||| line_count(b, x, y, 0, 1, p) >= 5
    ||| line_count(b, x, y, 1, 1, p) >= 5
    ||| line_count(b, x, y, 1, -1, p) >= 5
}

/// Standard rules: a move is legal on an empty cell of the board.
pub open spec fn standard_legal(b: BoardView, mv: Move) -> bool {
    b.in_bounds(mv.x as int, mv.y as int) && b.get(mv.x as int, mv.y as int) is None
}

/// Standard rules: the mover wins when the move, already placed, completes five in a row.
pub open spec fn standard_win(b: BoardView, mv: Move) -> Option<GameResult> {
    if five_through(b, mv.x as int, mv.y as int, mv.player) {
        Some(win_for(mv.player))
    } else {
        None
    }
}

/// The legality and win checks of a rule variant.
pub trait RuleSet {
    spec fn legal_spec(&self, b: BoardView, mv: Move) -> bool;

    spec fn win_spec(&self, b: BoardView, mv: Move) -> Option<GameResult>;

    /// Whether `mv` may be played on `board`.
    fn is_legal(&self, board: &Board, mv: &Move) -> (r: bool)
        requires
            board.wf(),
        ensures
            r == self.legal_spec(board@, *mv),
    ;

    /// The result that `mv`, already placed on `board`, brings about, if it ends the game.
    fn check_win(&self, board: &Board, mv: &Move) -> (r: Option<GameResult>)
        requires
            board.wf(),
        ensures
            r == self.win_spec(board@, *mv),
    ;
}

/// Free-style five in a row: five or more in a line wins.
#[derive(Clone, Copy, Debug)]
pub struct StandardRuleSet;

impl RuleSet for StandardRuleSet {
    open spec fn legal_spec(&self, b: BoardView, mv: Move) -> bool {
        standard_legal(b, mv)
    }

    open spec fn win_spec(&self, b: BoardView, mv: Move) -> Option<GameResult> {
        standard_win(b, mv)
    }

    fn is_legal(&self, board: &Board, mv: &Move) -> (r: bool) {
        board.in_bounds(mv.x, mv.y) && board.is_empty(mv.x, mv.y)
    }

    fn check_win(&self, board: &Board, mv: &Move) -> (r: Option<GameResult>) {
        let p = mv.player;
        let h = 1 + count_dir(board, mv.x, mv.y, 1, 0, p) + count_dir(board, mv.x, mv.y, -1, 0, p);
        let v = 1 + count_dir(board, mv.x, mv.y, 0, 1, p) + count_dir(board, mv.x, mv.y, 0, -1, p);
        let d = 1 + count_dir(board, mv.x, mv.y, 1, 1, p) + count_dir(board, mv.x, mv.y, -1, -1, p);
        let a = 1 + count_dir(board, mv.x, mv.y, 1, -1, p) + count_dir(board, mv.x, mv.y, -1, 1, p);
        if h >= 5 || v >= 5 || d >= 5 || a >= 5 {
            Some(
                match p {
                    Player::B => GameResult::BWin,
                    Player::W => GameResult::WWin,
                },
            )
        } else {
            None
        }
    }
}

/// The rules of variant `kind`.
pub fn rules_for(kind: RuleSetKind) -> (r: StandardRuleSet) {
    match kind {
        RuleSetKind::Standard => StandardRuleSet,
    }
}

proof fn lemma_run_off_board(b: BoardView, x: int, y: int, dx: int, dy: int, p: Player, k: nat)
    requires
        !b.in_bounds(x, y),
    ensures
        run_from(b, x, y, dx, dy, p, k) == 0,
{
}

/// Stones of `player` next to `(x, y)` in direction `(dx, dy)`.
fn count_dir(board: &Board, x: usize, y: usize, dx: i64, dy: i64, player: Player) -> (r: usize)
    requires
        board.wf(),
        -1 <= dx <= 1,
        -1 <= dy <= 1,
    ensures
        r == count_dir_spec(board@, x as int, y as int, dx as int, dy as int, player),
        r <= board@.size,
{
    let size = board.size();
    if x > size || y > size {
        // the first cell of the ray is already off the board
        proof {
            lemma_run_off_board(board@, x + dx, y + dy, dx as int, dy as int, player, board@.size);
        }
        return 0;
    }
    let mut count: usize = 0;
    let mut cx: i64 = x as i64 + dx;
    let mut cy: i64 = y as i64 + dy;
    while count < size
        invariant
            board.wf(),
            size == board@.size,
            size <= 32,
            x <= size,
            y <= size,
            -1 <= dx <= 1,
            -1 <= dy <= 1,
            count <= size,
            x - count - 1 <= cx <= x + count + 1,
            y - count - 1 <= cy <= y + count + 1,
            count_dir_spec(board@, x as int, y as int, dx as int, dy as int, player) == count
                + run_from(board@, cx as int, cy as int, dx as int, dy as int, player, (size - count) as nat),
        decreases size - count,
    {
        if cx < 0 || cy < 0 || !board.in_bounds(cx as usize, cy as usize) {
            return count;
        }
        match board.get(cx as usize, cy as usize) {
            Some(q) if q == player => {},
            _ => {
                return count;
            },
        }
        count += 1;
        cx += dx;
        cy += dy;
    }
    count
}

/// Runs depend on the side and the cells of the board alone.
pub proof fn lemma_run_same_cells(b1: BoardView, b2: BoardView, x: int, y: int, dx: int, dy: int, p: Player, k: nat)
    requires
        b1.size == b2.size,
        b1.cells == b2.cells,
    ensures
        run_from(b1, x, y, dx, dy, p, k) == run_from(b2, x, y, dx, dy, p, k),
    decreases k,
{
    if k > 0 {
        lemma_run_same_cells(b1, b2, x + dx, y + dy, dx, dy, p, (k - 1) as nat);
    }
}

/// Whether a move wins depends on the side and the cells of the board alone.
pub proof fn lemma_win_same_cells(b1: BoardView, b2: BoardView, mv: Move)
    requires
        b1.size == b2.size,
        b1.cells == b2.cells,
    ensures
        standard_win(b1, mv) == standard_win(b2, mv),
{
    let x = mv.x as int;
    let y = mv.y as int;
    let p = mv.player;
    let n = b1.size;
    lemma_run_same_cells(b1, b2, x + 1, y, 1, 0, p, n);
    lemma_run_same_cells(b1, b2, x - 1, y, -1, 0, p, n);
    lemma_run_same_cells(b1, b2, x, y + 1, 0, 1, p, n);
    lemma_run_same_cells(b1, b2, x, y - 1, 0, -1, p, n);
    lemma_run_same_cells(b1, b2, x + 1, y + 1, 1, 1, p, n);
    lemma_run_same_cells(b1, b2, x - 1, y - 1, -1, -1, p, n);
    lemma_run_same_cells(b1, b2, x + 1, y - 1, 1, -1, p, n);
    lemma_run_same_cells(b1, b2, x - 1, y + 1, -1, 1, p, n);
}

/// A winning line through `(x, y)` has a stone of the mover right next to `(x, y)`.
pub proof fn lemma_win_has_neighbor(b: BoardView, mv: Move)
    requires
        b.wf(),
        standard_win(b, mv) is Some,
    ensures
        exists|dx: int, dy: int|
            -1 <= dx <= 1 && -1 <= dy <= 1 && (dx != 0 || dy != 0) && #[trigger] b.get(
                mv.x + dx,
                mv.y + dy,
            ) == Some(mv.player),
{
    let x = mv.x as int;
    let y = mv.y as int;
    let p = mv.player;
    let (dx, dy) = if line_count(b, x, y, 1, 0, p) >= 5 {
        (1int, 0int)
    } else if line_count(b, x, y, 0, 1, p) >= 5 {
        (0int, 1int)
    } else if line_count(b, x, y, 1, 1, p) >= 5 {
        (1int, 1int)
    } else {
        (1int, -1int)
    };
    if count_dir_spec(b, x, y, dx, dy, p) > 0 {
        assert(b.get(x + dx, y + dy) == Some(p));
    } else {
        assert(count_dir_spec(b, x, y, -dx, -dy, p) > 0);
        assert(b.get(x + (-dx), y + (-dy)) == Some(p));
    }
}

} // verus!
