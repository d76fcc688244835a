use vstd::prelude::*;

use crate::board::{lemma_coord_of, lemma_wf_bounds, Board, BoardView, MAX_BOARD_SIZE};
use crate::types::Player;

verus! {

pub const SCORE_FIVE: i64 = 200_000;
pub const SCORE_OPEN_FOUR: i64 = 50_000;
pub const SCORE_SEMI_FOUR: i64 = 10_000;
pub const SCORE_BROKEN_FOUR: i64 = 7_000;
pub const SCORE_OPEN_THREE: i64 = 3_000;
pub const SCORE_SEMI_THREE: i64 = 1_200;
pub const SCORE_BROKEN_THREE: i64 = 1_200;
pub const SCORE_OPEN_TWO: i64 = 300;
pub const SCORE_SEMI_TWO: i64 = 80;
pub const SCORE_OPEN_ONE: i64 = 6;
/// Bonus for having at least one open four.
pub const BONUS_OPEN_FOUR: i64 = 10_000;
/// Bonus for having two or more open threes.
pub const BONUS_DOUBLE_THREE: i64 = 6_000;

/// Most one cell of a line can add to the line's score.
pub const CELL_CAP: i64 = 215_500;
/// Most one line can score.
pub const LINE_CAP: i64 = 6_896_000;
/// Bound on one side's total score.
pub const SIDE_CAP: i64 = 1_400_000_000;
/// Bound on the magnitude of any position score.
pub const EVAL_CAP: i64 = 500_000_000_000_000_000;

/// A cell as seen by `p`: 0 empty, 1 own stone, 2 opponent stone.
pub open spec fn cell_val(c: Option<Player>, p: Player) -> u8 {
    match c {
        None => 0,
        Some(q) => if q == p {
            1
        } else {
            2
        },
    }
}

/// Score of a run of `len` own stones with `open` empty ends.
pub open spec fn run_points(len: int, open: int) -> int {
    if len >= 5 {
        SCORE_FIVE as int
    } else if len == 4 && open == 2 {
        SCORE_OPEN_FOUR as int
    } else if len == 4 && open == 1 {
        SCORE_SEMI_FOUR as int
    } else if len == 3 && open == 2 {
        SCORE_OPEN_THREE as int
    } else if len == 3 && open == 1 {
        SCORE_SEMI_THREE as int
    } else if len == 2 && open == 2 {
        SCORE_OPEN_TWO as int
    } else if len == 2 && open == 1 {
        SCORE_SEMI_TWO as int
    } else if len == 1 && open == 2 {
        SCORE_OPEN_ONE as int
    } else {
        0
    }
}

/// Length of the run of own stones that ends at `i`.
pub open spec fn run_len_at(v: Seq<u8>, i: int) -> int
    decreases i + 1,
{
    if i < 0 || v[i] != 1 {
        0
    } else {
        1 + run_len_at(v, i - 1)
    }
}

/// Whether a maximal run of own stones ends at `i`.
pub open spec fn ends_run(v: Seq<u8>, i: int) -> bool {
    v[i] == 1 && (i + 1 == v.len() || v[i + 1] != 1)
}

/// How many of the two ends of the run ending at `i` are empty cells.
pub open spec fn open_ends(v: Seq<u8>, i: int) -> int {
    let s = i + 1 - run_len_at(v, i);
    (if s > 0 && v[s - 1] == 0 {
        1int
    } else {
        0int
    }) + (if i + 1 < v.len() && v[i + 1] == 0 {
        1int
    } else {
        0int
    })
}

/// The six cells ending at `i` read `a b c d e f`.
pub open spec fn matches6(v: Seq<u8>, i: int, a: u8, b: u8, c: u8, d: u8, e: u8, f: u8) -> bool {
    &&& i >= 5
    &&& v[i - 5] == a && v[i - 4] == b && v[i - 3] == c
    &&& v[i - 2] == d && v[i - 1] == e && v[i] == f
}

/// The five cells ending at `i` read `a b c d e`.
pub open spec fn matches5(v: Seq<u8>, i: int, a: u8, b: u8, c: u8, d: u8, e: u8) -> bool {
    &&& i >= 4
    &&& v[i - 4] == a && v[i - 3] == b && v[i - 2] == c
    &&& v[i - 1] == d && v[i] == e
}

pub open spec fn split_three_at(v: Seq<u8>, i: int) -> bool {
    matches6(v, i, 0, 1, 1, 0, 1, 0) || matches6(v, i, 0, 1, 0, 1, 1, 0)
}

pub open spec fn split_four6_at(v: Seq<u8>, i: int) -> bool {
    matches6(v, i, 0, 1, 1, 1, 0, 1) || matches6(v, i, 1, 0, 1, 1, 1, 0)
}

pub open spec fn split_two_at(v: Seq<u8>, i: int) -> bool {
    matches5(v, i, 0, 1, 0, 1, 0)
}

pub open spec fn split_four5_at(v: Seq<u8>, i: int) -> bool {
    matches5(v, i, 1, 1, 1, 0, 1) || matches5(v, i, 1, 0, 1, 1, 1)
}

/// What position `i` of a line adds: the run ending there, and the windows ending there.
pub open spec fn points_at(v: Seq<u8>, i: int) -> int {
    (if ends_run(v, i) {
        run_points(run_len_at(v, i), open_ends(v, i))
    } else {
        0
    }) + (if split_three_at(v, i) {
        SCORE_BROKEN_THREE as int
    } else {
        0
    }) + (if split_four6_at(v, i) {
        SCORE_BROKEN_FOUR as int
    } else {
        0
    }) + (if split_two_at(v, i) {
        SCORE_OPEN_TWO as int
    } else {
        0
    }) + (if split_four5_at(v, i) {
        SCORE_BROKEN_FOUR as int
    } else {
        0
    })
}

pub open spec fn threes_at(v: Seq<u8>, i: int) -> int {
    (if ends_run(v, i) && run_len_at(v, i) == 3 && open_ends(v, i) == 2 {
        1int
    } else {
        0int
    }) + (if split_three_at(v, i) {
        1int
    } else {
        0int
    })
}

pub open spec fn fours_at(v: Seq<u8>, i: int) -> int {
    if ends_run(v, i) && run_len_at(v, i) == 4 && open_ends(v, i) == 2 {
        1
    } else {
        0
    }
}

/// Score of the first `n` positions of a line.
pub open spec fn line_points(v: Seq<u8>, n: int) -> int
    decreases n,
{
    if n <= 0 {
        0
    } else {
        line_points(v, n - 1) + points_at(v, n - 1)
    }
}

/// Open threes among the first `n` positions of a line.
pub open spec fn line_threes(v: Seq<u8>, n: int) -> int
    decreases n,
{
    if n <= 0 {
        0
    } else {
        line_threes(v, n - 1) + threes_at(v, n - 1)
    }
}

/// Open fours among the first `n` positions of a line.
pub open spec fn line_fours(v: Seq<u8>, n: int) -> int
    decreases n,
{
    if n <= 0 {
        0
    } else {
        line_fours(v, n - 1) + fours_at(v, n - 1)
    }
}

/// One side's tally: its score and how many open threes and open fours it has.
#[derive(Clone, Copy, Debug)]
pub struct ScoreBreakdown {
    pub score: i64,
    pub open_threes: i64,
    pub open_fours: i64,
}

/// The score of a run of `len` own stones with `open_ends` empty ends.
pub fn run_score(len: i64, open_ends: i64) -> (r: i64)
    ensures
        r == run_points(len as int, open_ends as int),
{
    if len >= 5 {
        SCORE_FIVE
    } else if len == 4 && open_ends == 2 {
        SCORE_OPEN_FOUR
    } else if len == 4 && open_ends == 1 {
        SCORE_SEMI_FOUR
    } else if len == 3 && open_ends == 2 {
        SCORE_OPEN_THREE
    } else if len == 3 && open_ends == 1 {
        SCORE_SEMI_THREE
    } else if len == 2 && open_ends == 2 {
        SCORE_OPEN_TWO
    } else if len == 2 && open_ends == 1 {
        SCORE_SEMI_TWO
    } else if len == 1 && open_ends == 2 {
        SCORE_OPEN_ONE
    } else {
        0
    }
}

proof fn lemma_run_len_bound(v: Seq<u8>, i: int)
    requires
        -1 <= i < v.len(),
    ensures
        0 <= run_len_at(v, i) <= i + 1,
    decreases i + 1,
{
    if i >= 0 && v[i] == 1 {
        lemma_run_len_bound(v, i - 1);
    }
}

fn matches6_exec(v: &Vec<u8>, i: usize, w: [u8; 6]) -> (r: bool)
    requires
        5 <= i < v@.len(),
    ensures
        r == matches6(v@, i as int, w[0], w[1], w[2], w[3], w[4], w[5]),
{
    v[i - 5] == w[0] && v[i - 4] == w[1] && v[i - 3] == w[2] && v[i - 2] == w[3] && v[i - 1] == w[4]
        && v[i] == w[5]
}

fn matches5_exec(v: &Vec<u8>, i: usize, w: [u8; 5]) -> (r: bool)
    requires
        4 <= i < v@.len(),
    ensures
        r == matches5(v@, i as int, w[0], w[1], w[2], w[3], w[4]),
{
    v[i - 4] == w[0] && v[i - 3] == w[1] && v[i - 2] == w[2] && v[i - 1] == w[3] && v[i] == w[4]
}

/// Scores one line of cell values: every maximal run of own stones by length and open
/// ends, plus the split shapes that the fixed windows find.
pub fn score_line(v: &Vec<u8>) -> (r: ScoreBreakdown)
    requires
        v@.len() <= MAX_BOARD_SIZE,
    ensures
        r.score == line_points(v@, v@.len() as int),
        r.open_threes == line_threes(v@, v@.len() as int),
        r.open_fours == line_fours(v@, v@.len() as int),
        0 <= r.score <= LINE_CAP,
        0 <= r.open_threes <= 2 * MAX_BOARD_SIZE,
        0 <= r.open_fours <= MAX_BOARD_SIZE,
{
    let len = v.len();
    let mut out = ScoreBreakdown { score: 0, open_threes: 0, open_fours: 0 };
    let mut run: usize = 0;
    let mut i: usize = 0;
    while i < len
        invariant
            len == v@.len(),
            len <= MAX_BOARD_SIZE,
            i <= len,
            run as int == run_len_at(v@, i - 1),
            out.score == line_points(v@, i as int),
            out.open_threes == line_threes(v@, i as int),
            out.open_fours == line_fours(v@, i as int),
            0 <= out.score <= CELL_CAP * i,
            0 <= out.open_threes <= 2 * i,
            0 <= out.open_fours <= i,
        decreases len - i,
    {
        proof {
            lemma_run_len_bound(v@, i - 1);
        }
        let val = v[i];
        if val == 1 {
            run = run + 1;
        } else {
            run = 0;
        }
        let mut pts: i64 = 0;
        let mut threes: i64 = 0;
        let mut fours: i64 = 0;
        if val == 1 && (i + 1 == len || v[i + 1] != 1) {
            let s = i + 1 - run;
            let left: i64 = if s > 0 && v[s - 1] == 0 {
                1
            } else {
                0
            };
            let right: i64 = if i + 1 < len && v[i + 1] == 0 {
                1
            } else {
                0
            };
            let open = left + right;
            pts = run_score(run as i64, open);
            if run == 4 && open == 2 {
                fours = 1;
            }
            if run == 3 && open == 2 {
                threes = 1;
            }
        }
        if i >= 5 {
            if matches6_exec(v, i, [0, 1, 1, 0, 1, 0]) || matches6_exec(v, i, [0, 1, 0, 1, 1, 0]) {
                pts = pts + SCORE_BROKEN_THREE;
                threes = threes + 1;
            }
            if matches6_exec(v, i, [0, 1, 1, 1, 0, 1]) || matches6_exec(v, i, [1, 0, 1, 1, 1, 0]) {
                pts = pts + SCORE_BROKEN_FOUR;
            }
        }
        if i >= 4 {
            if matches5_exec(v, i, [0, 1, 0, 1, 0]) {
                pts = pts + SCORE_OPEN_TWO;
            }
            if matches5_exec(v, i, [1, 1, 1, 0, 1]) || matches5_exec(v, i, [1, 0, 1, 1, 1]) {
                pts = pts + SCORE_BROKEN_FOUR;
            }
        }
        assert(pts == points_at(v@, i as int));
        assert(threes == threes_at(v@, i as int));
        assert(fours == fours_at(v@, i as int));
        out.score = out.score + pts;
        out.open_threes = out.open_threes + threes;
        out.open_fours = out.open_fours + fours;
        i += 1;
    }
    out
}

/// A straight line of the board: `len` cells from `(x, y)`, stepping by `(dx, dy)`.
#[derive(Clone, Copy, Debug)]
pub struct LineDesc {
    pub x: usize,
    pub y: usize,
    pub dx: i64,
    pub dy: i64,
    pub len: usize,
}

/// The `k`-th cell of line `d`.
pub open spec fn line_cell(b: BoardView, d: LineDesc, k: int) -> Option<Player> {
    b.get(d.x + k * d.dx, d.y + k * d.dy)
}

/// The cells of line `d` as seen by `p`.
pub open spec fn line_vals(b: BoardView, p: Player, d: LineDesc) -> Seq<u8> {
    Seq::new(d.len as nat, |k: int| cell_val(line_cell(b, d, k), p))
}

/// Diagonals of each direction that start on the top edge and hold at least five cells.
pub open spec fn top_diagonals(n: int) -> int {
    if n >= 5 {
        n - 4
    } else {
        0
    }
}

/// Diagonals of each direction that start on a side edge below the top and hold at least five cells.
pub open spec fn side_diagonals(n: int) -> int {
    if n >= 6 {
        n - 5
    } else {
        0
    }
}

pub open spec fn line_count_of(n: int) -> int {
    2 * n + 2 * top_diagonals(n) + 2 * side_diagonals(n)
}

/// The `j`-th line scanned on a board of side `n`: all rows, all columns, then the
/// diagonals of five cells or more going down-right (from the top edge, then from the left
/// edge), then those going down-left (from the top edge, then from the right edge).
pub open spec fn line_at(n: int, j: int) -> LineDesc {
    let t = top_diagonals(n);
    let s = side_diagonals(n);
    if j < n {
        LineDesc { x: 0, y: j as usize, dx: 1, dy: 0, len: n as usize }
    } else if j < 2 * n {
        LineDesc { x: (j - n) as usize, y: 0, dx: 0, dy: 1, len: n as usize }
    } else if j < 2 * n + t {
        let k = j - 2 * n;
        LineDesc { x: k as usize, y: 0, dx: 1, dy: 1, len: (n - k) as usize }
    } else if j < 2 * n + t + s {
        let k = j - 2 * n - t;
        LineDesc { x: 0, y: (k + 1) as usize, dx: 1, dy: 1, len: (n - k - 1) as usize }
    } else if j < 2 * n + 2 * t + s {
        let k = j - 2 * n - t - s;
        LineDesc { x: (k + 4) as usize, y: 0, dx: -1i64, dy: 1, len: (k + 5) as usize }
    } else {
        let k = j - 2 * n - 2 * t - s;
        LineDesc { x: (n - 1) as usize, y: (k + 1) as usize, dx: -1i64, dy: 1, len: (n - k - 1) as usize }
    }
}

pub open spec fn scan_lines(n: int) -> Seq<LineDesc> {
    Seq::new(line_count_of(n) as nat, |j: int| line_at(n, j))
}

pub open spec fn desc_ok(d: LineDesc) -> bool {
    &&& d.x <= MAX_BOARD_SIZE
    &&& d.y <= MAX_BOARD_SIZE
    &&& -1 <= d.dx <= 1
    &&& -1 <= d.dy <= 1
    &&& d.len <= MAX_BOARD_SIZE
}

/// Score of the first `j` lines of `ds` for `p`.
pub open spec fn lines_points(b: BoardView, p: Player, ds: Seq<LineDesc>, j: int) -> int
    decreases j,
{
    if j <= 0 {
        0
    } else {
        lines_points(b, p, ds, j - 1) + line_points(line_vals(b, p, ds[j - 1]), ds[j - 1].len as int)
    }
}

pub open spec fn lines_threes(b: BoardView, p: Player, ds: Seq<LineDesc>, j: int) -> int
    decreases j,
{
    if j <= 0 {
        0
    } else {
        lines_threes(b, p, ds, j - 1) + line_threes(line_vals(b, p, ds[j - 1]), ds[j - 1].len as int)
    }
}

pub open spec fn lines_fours(b: BoardView, p: Player, ds: Seq<LineDesc>, j: int) -> int
    decreases j,
{
    if j <= 0 {
        0
    } else {
        lines_fours(b, p, ds, j - 1) + line_fours(line_vals(b, p, ds[j - 1]), ds[j - 1].len as int)
    }
}

pub open spec fn abs_diff(a: int, b: int) -> int {
    if a >= b {
        a - b
    } else {
        b - a
    }
}

/// Centre bonus of a stone on flat index `i`: (side - Manhattan distance to the centre) / 3.
pub open spec fn center_points_at(b: BoardView, i: int) -> int {
    let n = b.size as int;
    let c = (n - 1) / 2;
    (n - (abs_diff(i % n, c) + abs_diff(i / n, c))) / 3
}

/// Centre bonus of `p`'s stones among the first `k` cells.
pub open spec fn center_points(b: BoardView, p: Player, k: int) -> int
    decreases k,
{
    if k <= 0 {
        0
    } else {
        center_points(b, p, k - 1) + (if b.cells[k - 1] == Some(p) {
            center_points_at(b, k - 1)
        } else {
            0
        })
    }
}

/// `p`'s total: all scanned lines, the centre bonus, and the bonuses for an open four
/// and for two or more open threes.
pub open spec fn side_score(b: BoardView, p: Player) -> int {
    let ds = scan_lines(b.size as int);
    let n = ds.len() as int;
    lines_points(b, p, ds, n) + center_points(b, p, b.cells.len() as int) + (if lines_fours(b, p, ds, n)
        > 0 {
        BONUS_OPEN_FOUR as int
    } else {
        0
    }) + (if lines_threes(b, p, ds, n) >= 2 {
        BONUS_DOUBLE_THREE as int
    } else {
        0
    })
}

/// `a / 10`, rounded toward zero.
pub open spec fn div10_trunc(a: int) -> int {
    if a >= 0 {
        a / 10
    } else {
        -((-a) / 10)
    }
}

/// The score of a position for `p`: own total less `defense_weight` tenths of the opponent's.
pub open spec fn position_score(b: BoardView, p: Player, defense_weight: int) -> int {
    side_score(b, p) - div10_trunc(side_score(b, p.opp()) * defense_weight)
}

proof fn lemma_line_at_ok(n: int, j: int)
    requires
        0 <= n <= MAX_BOARD_SIZE,
        0 <= j < line_count_of(n),
    ensures
        desc_ok(line_at(n, j)),
{
}

/// The lines scanned on a board of side `size`.
fn scan_lines_exec(size: usize) -> (r: Vec<LineDesc>)
    requires
        size <= MAX_BOARD_SIZE,
    ensures
        r@ == scan_lines(size as int),
{
    let n = size;
    let t: usize = if n >= 5 {
        n - 4
    } else {
        0
    };
    let s: usize = if n >= 6 {
        n - 5
    } else {
        0
    };
    let ghost ni = n as int;
    let mut r: Vec<LineDesc> = Vec::new();
    let mut k: usize = 0;
    while k < n
        invariant
            n <= MAX_BOARD_SIZE,
            ni == n as int,
            k <= n,
            r@.len() == k,
            forall|j: int| 0 <= j < r@.len() ==> r@[j] == line_at(ni, j),
        decreases n - k,
    {
        r.push(LineDesc { x: 0, y: k, dx: 1, dy: 0, len: n });
        k += 1;
    }
    k = 0;
    while k < n
        invariant
            n <= MAX_BOARD_SIZE,
            ni == n as int,
            k <= n,
            r@.len() == n + k,
            forall|j: int| 0 <= j < r@.len() ==> r@[j] == line_at(ni, j),
        decreases n - k,
    {
        r.push(LineDesc { x: k, y: 0, dx: 0, dy: 1, len: n });
        k += 1;
    }
    k = 0;
    while k < t
        invariant
            n <= MAX_BOARD_SIZE,
            ni == n as int,
            t == top_diagonals(ni),
            k <= t,
            r@.len() == 2 * n + k,
            forall|j: int| 0 <= j < r@.len() ==> r@[j] == line_at(ni, j),
        decreases t - k,
    {
        r.push(LineDesc { x: k, y: 0, dx: 1, dy: 1, len: n - k });
        k += 1;
    }
    k = 0;
    while k < s
        invariant
            n <= MAX_BOARD_SIZE,
            ni == n as int,
            t == top_diagonals(ni),
            s == side_diagonals(ni),
            k <= s,
            r@.len() == 2 * n + t + k,
            forall|j: int| 0 <= j < r@.len() ==> r@[j] == line_at(ni, j),
        decreases s - k,
    {
        r.push(LineDesc { x: 0, y: k + 1, dx: 1, dy: 1, len: n - k - 1 });
        k += 1;
    }
    k = 0;
    while k < t
        invariant
            n <= MAX_BOARD_SIZE,
            ni == n as int,
            t == top_diagonals(ni),
            s == side_diagonals(ni),
            k <= t,
            r@.len() == 2 * n + t + s + k,
            forall|j: int| 0 <= j < r@.len() ==> r@[j] == line_at(ni, j),
        decreases t - k,
    {
        r.push(LineDesc { x: k + 4, y: 0, dx: -1, dy: 1, len: k + 5 });
        k += 1;
    }
    k = 0;
    while k < s
        invariant
            n <= MAX_BOARD_SIZE,
            ni == n as int,
            t == top_diagonals(ni),
            s == side_diagonals(ni),
            k <= s,
            r@.len() == 2 * n + 2 * t + s + k,
            forall|j: int| 0 <= j < r@.len() ==> r@[j] == line_at(ni, j),
        decreases s - k,
    {
        r.push(LineDesc { x: n - 1, y: k + 1, dx: -1, dy: 1, len: n - k - 1 });
        k += 1;
    }
    assert(r@ =~= scan_lines(ni));
    r
}

fn cell_value(c: Option<Player>, p: Player) -> (r: u8)
    ensures
        r == cell_val(c, p),
{
    match c {
        None => 0,
        Some(q) => if q == p {
            1
        } else {
            2
        },
    }
}

/// The cells of line `d` as seen by `player`.
fn line_values(board: &Board, player: Player, d: LineDesc) -> (r: Vec<u8>)
    requires
        board.wf(),
        desc_ok(d),
    ensures
        r@ == line_vals(board@, player, d),
{
    let mut r: Vec<u8> = Vec::with_capacity(d.len);
    let mut k: usize = 0;
    let mut cx: i64 = d.x as i64;
    let mut cy: i64 = d.y as i64;
    while k < d.len
        invariant
            board.wf(),
            desc_ok(d),
            k <= d.len,
            cx == d.x + k * d.dx,
            cy == d.y + k * d.dy,
            d.x - k <= cx <= d.x + k,
            d.y - k <= cy <= d.y + k,
            r@ =~= line_vals(board@, player, d).subrange(0, k as int),
        decreases d.len - k,
    {
        let c = if cx < 0 || cy < 0 {
            None
        } else {
            board.get(cx as usize, cy as usize)
        };
        r.push(cell_value(c, player));
        proof {
            let ki = k as int;
            assert(d.x + (ki + 1) * d.dx == d.x + ki * d.dx + d.dx) by (nonlinear_arith);
            assert(d.y + (ki + 1) * d.dy == d.y + ki * d.dy + d.dy) by (nonlinear_arith);
            assert(r@ =~= line_vals(board@, player, d).subrange(0, ki + 1));
        }
        cx = cx + d.dx;
        cy = cy + d.dy;
        k += 1;
    }
    r
}

/// `p`'s centre bonus.
fn center_bonus(board: &Board, player: Player) -> (r: i64)
    requires
        board.wf(),
    ensures
        r == center_points(board@, player, board@.cells.len() as int),
        0 <= r <= 11 * MAX_BOARD_SIZE * MAX_BOARD_SIZE,
{
    proof {
        lemma_wf_bounds(board@);
    }
    let n = board.size();
    let total = n * n;
    let c = if n > 0 {
        (n - 1) / 2
    } else {
        0
    };
    let mut score: i64 = 0;
    let mut i: usize = 0;
    while i < total
        invariant
            board.wf(),
            n == board@.size,
            total == board@.cells.len(),
            total <= MAX_BOARD_SIZE * MAX_BOARD_SIZE,
            n > 0 ==> c == (n - 1) / 2,
            i <= total,
            score == center_points(board@, player, i as int),
            0 <= score <= 11 * i,
        decreases total - i,
    {
        proof {
            lemma_coord_of(board@, i as int);
        }
        let x = i % n;
        let y = i / n;
        if board.get(x, y) == Some(player) {
            let dx = if x >= c {
                x - c
            } else {
                c - x
            };
            let dy = if y >= c {
                y - c
            } else {
                c - y
            };
            assert(dx + dy <= n);
            let pts = (n - (dx + dy)) / 3;
            assert(pts <= 11);
            score = score + pts as i64;
        }
        i += 1;
    }
    score
}

/// `player`'s total over the whole board, with its open-three and open-four counts.
pub fn score_for_player(board: &Board, player: Player) -> (r: ScoreBreakdown)
    requires
        board.wf(),
    ensures
        r.score == side_score(board@, player),
        r.open_threes == lines_threes(board@, player, scan_lines(board@.size as int), scan_lines(board@.size as int).len() as int),
        r.open_fours == lines_fours(board@, player, scan_lines(board@.size as int), scan_lines(board@.size as int).len() as int),
        0 <= r.score <= SIDE_CAP,
{
    let lines = scan_lines_exec(board.size());
    let ghost ds = scan_lines(board@.size as int);
    let mut total = ScoreBreakdown { score: 0, open_threes: 0, open_fours: 0 };
    let mut j: usize = 0;
    while j < lines.len()
        invariant
            board.wf(),
            lines@ == ds,
            ds == scan_lines(board@.size as int),
            lines@.len() <= 6 * MAX_BOARD_SIZE,
            j <= lines@.len(),
            total.score == lines_points(board@, player, ds, j as int),
            total.open_threes == lines_threes(board@, player, ds, j as int),
            total.open_fours == lines_fours(board@, player, ds, j as int),
            0 <= total.score <= LINE_CAP * j,
            0 <= total.open_threes <= 64 * j,
            0 <= total.open_fours <= 32 * j,
        decreases lines@.len() - j,
    {
        let d = lines[j];
        proof {
            lemma_line_at_ok(board@.size as int, j as int);
        }
        let v = line_values(board, player, d);
        let s = score_line(&v);
        total.score = total.score + s.score;
        total.open_threes = total.open_threes + s.open_threes;
        total.open_fours = total.open_fours + s.open_fours;
        j += 1;
    }
    total.score = total.score + center_bonus(board, player);
    if total.open_fours > 0 {
        total.score = total.score + BONUS_OPEN_FOUR;
    }
    if total.open_threes >= 2 {
        total.score = total.score + BONUS_DOUBLE_THREE;
    }
    total
}

proof fn lemma_weighted_bound(a: int, w: int)
    requires
        0 <= a <= SIDE_CAP,
        -0x8000_0000 <= w < 0x8000_0000,
    ensures
        -(SIDE_CAP * 0x8000_0000) <= a * w <= SIDE_CAP * 0x8000_0000,
{
    assert(-(SIDE_CAP * 0x8000_0000) <= a * w <= SIDE_CAP * 0x8000_0000) by (nonlinear_arith)
        requires
            0 <= a <= SIDE_CAP,
            -0x8000_0000 <= w < 0x8000_0000,
    ;
}

/// The static score of the position for `player`: own total less `defense_weight` tenths
/// of the opponent's total.
pub fn evaluate_board(board: &Board, player: Player, defense_weight: i32) -> (r: i64)
    requires
        board.wf(),
    ensures
        r == position_score(board@, player, defense_weight as int),
        -EVAL_CAP <= r <= EVAL_CAP,
{
    let my = score_for_player(board, player);
    let opp = score_for_player(board, player.other());
    proof {
        lemma_weighted_bound(opp.score as int, defense_weight as int);
    }
    let prod: i64 = opp.score * (defense_weight as i64);
    let defense: i64 = if prod >= 0 {
        prod / 10
    } else {
        -((-prod) / 10)
    };
    my.score - defense
}

/// A line of `a` empty cells, then `k` own stones, then `b` empty cells.
pub open spec fn open_run_line(a: nat, k: nat, b: nat) -> Seq<u8> {
    Seq::new(a + k + b, |j: int| if a <= j < a + k { 1u8 } else { 0u8 })
}

proof fn lemma_open_run_len(a: nat, k: nat, b: nat, i: int)
    requires
        a <= i < a + k,
    ensures
        run_len_at(open_run_line(a, k, b), i) == i - a + 1,
    decreases i,
{
    let v = open_run_line(a, k, b);
    assert(v[i] == 1);
    if i > a {
        lemma_open_run_len(a, k, b, i - 1);
    } else if i >= 1 {
        assert(v[i - 1] == 0);
        assert(run_len_at(v, i - 1) == 0);
    } else {
        assert(run_len_at(v, i - 1) == 0);
    }
}

proof fn lemma_open_run_points(a: nat, k: nat, b: nat, n: int)
    requires
        a >= 1,
        b >= 1,
        1 <= k <= 4,
        0 <= n <= a + k + b,
    ensures
        line_points(open_run_line(a, k, b), n) == (if n >= a + k {
            run_points(k as int, 2)
        } else {
            0
        }),
    decreases n,
{
    let v = open_run_line(a, k, b);
    if n > 0 {
        lemma_open_run_points(a, k, b, n - 1);
        let i = n - 1;
        if a <= i < a + k {
            lemma_open_run_len(a, k, b, i);
            assert(v[a - 1] == 0);
        }
        assert(!split_three_at(v, i));
        assert(!split_four6_at(v, i));
        assert(!split_two_at(v, i));
        assert(!split_four5_at(v, i));
        if i == a + k - 1 {
            assert(v[i + 1] == 0);
            assert(ends_run(v, i));
        } else {
            assert(!ends_run(v, i));
        }
    }
}

/// On otherwise equal lines, an open four scores more than an open three, and an open
/// three more than an open two.
pub proof fn lemma_open_run_order(a: nat, b: nat)
    requires
        a >= 1,
        b >= 1,
    ensures
        line_points(open_run_line(a, 4, b), (a + 4 + b) as int) > line_points(open_run_line(a, 3, b + 1), (a + 4 + b) as int),
        line_points(open_run_line(a, 3, b + 1), (a + 4 + b) as int) > line_points(open_run_line(a, 2, b + 2), (a + 4 + b) as int),
{
    lemma_open_run_points(a, 4, b, (a + 4 + b) as int);
    lemma_open_run_points(a, 3, b + 1, (a + 4 + b) as int);
    lemma_open_run_points(a, 2, b + 2, (a + 4 + b) as int);
}

} // verus!
