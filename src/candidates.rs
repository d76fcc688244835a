use vstd::prelude::*;
use vstd::seq_lib::group_to_multiset_ensures;

use crate::board::{lemma_coord_of, lemma_set_clear_round_trip, lemma_wf_bounds, Board, BoardView};
use crate::eval::{evaluate_board, position_score};
use crate::types::{Coord, Player};

verus! {

broadcast use group_to_multiset_ensures;

/// Search depths that keep killer moves; deeper plies are not tracked.
pub const MAX_KILLER_DEPTH: usize = 16;

/// Whether `c` is an empty cell of the board.
pub open spec fn legal_cell(b: BoardView, c: Coord) -> bool {
    b.in_bounds(c.x as int, c.y as int) && b.get(c.x as int, c.y as int) is None
}

/// Whether a stone lies within Chebyshev distance 2 of `(x, y)`.
pub open spec fn near_stone(b: BoardView, x: int, y: int) -> bool {
    exists|dx: int, dy: int| -2 <= dx <= 2 && -2 <= dy <= 2 && (#[trigger] b.get(x + dx, y + dy)) is Some
}

/// Whether flat cell `i` is empty with a stone near it.
pub open spec fn is_near_cell(b: BoardView, i: int) -> bool {
    b.cells[i] is None && near_stone(b, b.coord_of(i).x as int, b.coord_of(i).y as int)
}

/// The cells among the first `k`, in row-major order, that are empty and near a stone.
pub open spec fn near_cells_upto(b: BoardView, k: int) -> Seq<Coord>
    decreases k,
{
    if k <= 0 {
        Seq::empty()
    } else if is_near_cell(b, k - 1) {
        near_cells_upto(b, k - 1).push(b.coord_of(k - 1))
    } else {
        near_cells_upto(b, k - 1)
    }
}

/// The moves worth considering, before any ordering: every empty cell near a stone, in
/// row-major order; on a board without stones, the centre alone.
pub open spec fn base_candidates(b: BoardView) -> Seq<Coord> {
    if b.has_stones() {
        near_cells_upto(b, b.cells.len() as int)
    } else if b.size > 0 {
        seq![Coord { x: (b.size / 2) as usize, y: (b.size / 2) as usize }]
    } else {
        Seq::empty()
    }
}

/// The rank of `c` among the killer moves kept for ply `d`: 2 primary, 1 secondary, 0 none.
pub open spec fn killer_rank(killers: Seq<Option<Coord>>, c: Coord, d: int) -> int {
    if d >= MAX_KILLER_DEPTH {
        0
    } else if killers[2 * d] == Some(c) {
        2
    } else if killers[2 * d + 1] == Some(c) {
        1
    } else {
        0
    }
}

pub open spec fn sorted_desc(s: Seq<(i64, Coord)>) -> bool {
    forall|a: int, b: int| 0 <= a < b < s.len() ==> (#[trigger] s[a]).0 >= (#[trigger] s[b]).0
}

/// Per-worker move-ordering state: nodes visited, two killer moves per ply and a
/// cutoff weight per cell.
pub struct SearchContext {
    pub nodes: u64,
    pub killers: Vec<Option<Coord>>,
    pub history: Vec<u32>,
}

impl SearchContext {
    pub open spec fn wf(&self, cells: nat) -> bool {
        &&& self.killers@.len() == 2 * MAX_KILLER_DEPTH
        &&& self.history@.len() == cells
    }

    /// A fresh context for a board of `cells` cells.
    pub fn new(cells: usize) -> (r: SearchContext)
        ensures
            r.wf(cells as nat),
            r.nodes == 0,
            forall|i: int| 0 <= i < r.killers@.len() ==> (#[trigger] r.killers@[i]) is None,
            forall|i: int| 0 <= i < r.history@.len() ==> (#[trigger] r.history@[i]) == 0,
    {
        let mut killers: Vec<Option<Coord>> = Vec::new();
        let mut i: usize = 0;
        while i < 2 * MAX_KILLER_DEPTH
            invariant
                i <= 2 * MAX_KILLER_DEPTH,
                killers@.len() == i,
                forall|j: int| 0 <= j < i ==> (#[trigger] killers@[j]) is None,
            decreases 2 * MAX_KILLER_DEPTH - i,
        {
            killers.push(None);
            i += 1;
        }
        let mut history: Vec<u32> = Vec::new();
        let mut k: usize = 0;
        while k < cells
            invariant
                k <= cells,
                history@.len() == k,
                forall|j: int| 0 <= j < k ==> (#[trigger] history@[j]) == 0,
            decreases cells - k,
        {
            history.push(0);
            k += 1;
        }
        SearchContext { nodes: 0, killers, history }
    }
}

proof fn lemma_near_cells_legal(b: BoardView, k: int)
    requires
        b.wf(),
        k <= b.cells.len(),
    ensures
        forall|i: int| 0 <= i < near_cells_upto(b, k).len() ==> legal_cell(b, #[trigger] near_cells_upto(b, k)[i]),
    decreases k,
{
    if k > 0 {
        lemma_near_cells_legal(b, k - 1);
        if is_near_cell(b, k - 1) {
            lemma_coord_of(b, k - 1);
            let prev = near_cells_upto(b, k - 1);
            let cur = near_cells_upto(b, k);
            assert forall|i: int| 0 <= i < cur.len() implies legal_cell(b, #[trigger] cur[i]) by {
                if i < prev.len() {
                    assert(cur[i] == prev[i]);
                } else {
                    assert(cur[i] == b.coord_of(k - 1));
                }
            }
        } else {
            assert(near_cells_upto(b, k) == near_cells_upto(b, k - 1));
        }
    }
}

proof fn lemma_near_cells_len(b: BoardView, k: int)
    requires
        0 <= k,
    ensures
        near_cells_upto(b, k).len() <= k,
    decreases k,
{
    if k > 0 {
        lemma_near_cells_len(b, k - 1);
    }
}

/// There are no more base candidates than cells, plus one.
pub proof fn lemma_base_candidates_len(b: BoardView)
    ensures
        base_candidates(b).len() <= b.cells.len() + 1,
{
    lemma_near_cells_len(b, b.cells.len() as int);
}

/// Every base candidate is an empty cell of the board.
pub proof fn lemma_base_candidates_legal(b: BoardView)
    requires
        b.wf(),
    ensures
        forall|i: int| 0 <= i < base_candidates(b).len() ==> legal_cell(b, #[trigger] base_candidates(b)[i]),
{
    if b.has_stones() {
        lemma_near_cells_legal(b, b.cells.len() as int);
    } else if b.size > 0 {
        let m = (b.size / 2) as int;
        crate::board::lemma_idx_in_range(b.size, m, m);
        assert(b.cells[b.idx(m, m)] is None);
    }
}

proof fn lemma_near_cells_contains(b: BoardView, k: int, i: int)
    requires
        b.wf(),
        0 <= i < k <= b.cells.len(),
        is_near_cell(b, i),
    ensures
        near_cells_upto(b, k).contains(b.coord_of(i)),
    decreases k,
{
    if i == k - 1 {
        assert(near_cells_upto(b, k).last() == b.coord_of(i));
    } else {
        lemma_near_cells_contains(b, k - 1, i);
        let prev = near_cells_upto(b, k - 1);
        let j = choose|j: int| 0 <= j < prev.len() && prev[j] == b.coord_of(i);
        if is_near_cell(b, k - 1) {
            assert(near_cells_upto(b, k)[j] == b.coord_of(i));
        }
    }
}

/// An empty cell next to a stone is a base candidate.
pub proof fn lemma_near_cell_is_candidate(b: BoardView, c: Coord)
    requires
        b.wf(),
        legal_cell(b, c),
        near_stone(b, c.x as int, c.y as int),
    ensures
        base_candidates(b).contains(c),
{
    let (dx, dy) = choose|dx: int, dy: int|
        -2 <= dx <= 2 && -2 <= dy <= 2 && (#[trigger] b.get(c.x + dx, c.y + dy)) is Some;
    let i = b.idx(c.x + dx, c.y + dy);
    crate::board::lemma_idx_in_range(b.size, c.x + dx, c.y + dy);
    assert(b.cells[i] is Some);
    assert(b.has_stones());
    let ci = b.idx(c.x as int, c.y as int);
    crate::board::lemma_idx_in_range(b.size, c.x as int, c.y as int);
    lemma_coord_of(b, ci);
    crate::board::lemma_coord_of_idx(b, c);
    lemma_near_cells_contains(b, b.cells.len() as int, ci);
}

/// Whether a stone lies within distance 2 of `(x, y)`.
fn has_stone_near(board: &Board, x: usize, y: usize) -> (r: bool)
    requires
        board.wf(),
        board@.in_bounds(x as int, y as int),
    ensures
        r == near_stone(board@, x as int, y as int),
{
    proof {
        lemma_wf_bounds(board@);
    }
    let mut dy: i64 = -2;
    while dy <= 2
        invariant
            board.wf(),
            board@.in_bounds(x as int, y as int),
            board@.size <= 32,
            -2 <= dy <= 3,
            forall|ddx: int, ddy: int|
                -2 <= ddx <= 2 && -2 <= ddy < dy ==> (#[trigger] board@.get(x + ddx, y + ddy)) is None,
        decreases 3 - dy,
    {
        let mut dx: i64 = -2;
        while dx <= 2
            invariant
                board.wf(),
                board@.in_bounds(x as int, y as int),
                board@.size <= 32,
                -2 <= dy <= 2,
                -2 <= dx <= 3,
                forall|ddx: int, ddy: int|
                    -2 <= ddx <= 2 && -2 <= ddy < dy ==> (#[trigger] board@.get(x + ddx, y + ddy)) is None,
                forall|ddx: int| -2 <= ddx < dx ==> (#[trigger] board@.get(x + ddx, y + dy)) is None,
            decreases 3 - dx,
        {
            let nx = x as i64 + dx;
            let ny = y as i64 + dy;
            if nx >= 0 && ny >= 0 && board.get(nx as usize, ny as usize).is_some() {
                assert(board@.get(x + dx, y + dy) is Some);
                return true;
            }
            assert(board@.get(x + dx, y + dy) is None);
            dx += 1;
        }
        dy += 1;
    }
    false
}

/// The base candidates of the position.
pub fn base_candidate_list(board: &Board) -> (r: Vec<Coord>)
    requires
        board.wf(),
    ensures
        r@ == base_candidates(board@),
{
    proof {
        lemma_wf_bounds(board@);
    }
    let n = board.size();
    let total = n * n;
    let mut near: Vec<Coord> = Vec::new();
    let mut has_stones = false;
    let mut i: usize = 0;
    while i < total
        invariant
            board.wf(),
            n == board@.size,
            total == board@.cells.len(),
            i <= total,
            near@ == near_cells_upto(board@, i as int),
            has_stones == exists|j: int| 0 <= j < i && (#[trigger] board@.cells[j]) is Some,
        decreases total - i,
    {
        proof {
            lemma_coord_of(board@, i as int);
        }
        let x = i % n;
        let y = i / n;
        if board.get(x, y).is_some() {
            has_stones = true;
        } else if has_stone_near(board, x, y) {
            near.push(Coord { x, y });
        }
        i += 1;
    }
    if has_stones {
        near
    } else if n > 0 {
        let mut r: Vec<Coord> = Vec::new();
        r.push(Coord { x: n / 2, y: n / 2 });
        assert(r@ =~= seq![Coord { x: n / 2, y: n / 2 }]);
        r
    } else {
        Vec::new()
    }
}

proof fn lemma_swap_multiset(s: Seq<(i64, Coord)>, i: int, j: int)
    requires
        0 <= i < s.len(),
        0 <= j < s.len(),
    ensures
        s.update(i, s[j]).update(j, s[i]).to_multiset() == s.to_multiset(),
{
    broadcast use vstd::multiset::group_multiset_axioms;

    let s1 = s.update(i, s[j]);
    if i != j {
        assert(s1[j] == s[j]);
        assert(s.contains(s[i]));
        assert(s.contains(s[j]));
        assert(s.to_multiset().insert(s[j]).remove(s[i]).insert(s[i]).remove(s[j]) =~= s.to_multiset());
    } else {
        assert(s.update(i, s[j]).update(j, s[i]) =~= s);
    }
}

/// Sorts by the first component, highest first.
pub(crate) fn sort_desc(v: &mut Vec<(i64, Coord)>)
    ensures
        final(v)@.len() == old(v)@.len(),
        final(v)@.to_multiset() == old(v)@.to_multiset(),
        sorted_desc(final(v)@),
{
    let n = v.len();
    let mut i: usize = 1;
    if n == 0 {
        return;
    }
    while i < n
        invariant
            1 <= i <= n,
            n == v@.len(),
            v@.to_multiset() == old(v)@.to_multiset(),
            sorted_desc(v@.subrange(0, i as int)),
        decreases n - i,
    {
        let mut j: usize = i;
        proof {
            assert forall|a: int, b: int| 0 <= a < b <= i && a != j && b != j implies (#[trigger] v@[a]).0
                >= (#[trigger] v@[b]).0 by {
                assert(v@.subrange(0, i as int)[a] == v@[a]);
                assert(v@.subrange(0, i as int)[b] == v@[b]);
            }
        }
        while j > 0 && v[j - 1].0 < v[j].0
            invariant
                0 <= j <= i < n,
                n == v@.len(),
                v@.to_multiset() == old(v)@.to_multiset(),
                forall|a: int, b: int|
                    0 <= a < b <= i && a != j && b != j ==> (#[trigger] v@[a]).0 >= (#[trigger] v@[b]).0,
                forall|b: int| j < b <= i ==> v@[j as int].0 >= (#[trigger] v@[b]).0,
            decreases j,
        {
            let a = v[j - 1];
            let b = v[j];
            proof {
                lemma_swap_multiset(v@, j - 1, j as int);
            }
            v.set(j - 1, b);
            v.set(j, a);
            j -= 1;
        }
        proof {
            assert forall|a: int, b: int| 0 <= a < b < i + 1 implies (#[trigger] v@.subrange(0, i + 1)[a]).0
                >= (#[trigger] v@.subrange(0, i + 1)[b]).0 by {
                if a == j && j > 0 {
                    assert(v@[j - 1].0 >= v@[j as int].0);
                }
                if a < j && b == j {
                    if a < j - 1 {
                        assert(v@[a].0 >= v@[j - 1].0);
                    }
                    assert(v@[j - 1].0 >= v@[j as int].0);
                }
            }
        }
        i += 1;
    }
    assert(v@.subrange(0, n as int) =~= v@);
}

/// The rank of `coord` among the killer moves of ply `depth`.
fn killer_priority(coord: &Coord, ctx: &SearchContext, depth: usize) -> (r: i64)
    requires
        ctx.killers@.len() == 2 * MAX_KILLER_DEPTH,
    ensures
        r == killer_rank(ctx.killers@, *coord, depth as int),
{
    if depth >= MAX_KILLER_DEPTH {
        return 0;
    }
    match ctx.killers[2 * depth] {
        Some(k) if k == *coord => {
            return 2;
        },
        _ => {},
    }
    match ctx.killers[2 * depth + 1] {
        Some(k) if k == *coord => 1,
        _ => 0,
    }
}

/// The coordinates of `s`, in order.
pub(crate) fn coords_of(s: &Vec<(i64, Coord)>, k: usize) -> (r: Vec<Coord>)
    requires
        k <= s@.len(),
    ensures
        r@.len() == k,
        forall|i: int| 0 <= i < k ==> (#[trigger] r@[i]) == s@[i].1,
{
    let mut r: Vec<Coord> = Vec::new();
    let mut i: usize = 0;
    while i < k
        invariant
            k <= s@.len(),
            i <= k,
            r@.len() == i,
            forall|j: int| 0 <= j < i ==> (#[trigger] r@[j]) == s@[j].1,
        decreases k - i,
    {
        r.push(s[i].1);
        i += 1;
    }
    r
}

/// After a sort, the coordinates of the first `k` entries come from `cands`, and when
/// none is cut off every one of `cands` is there.
pub(crate) proof fn lemma_sorted_coords(scored: Seq<(i64, Coord)>, sorted: Seq<(i64, Coord)>, cands: Seq<Coord>, r: Seq<Coord>)
    requires
        scored.len() == cands.len(),
        forall|m: int| 0 <= m < scored.len() ==> (#[trigger] scored[m]).1 == cands[m],
        sorted.to_multiset() == scored.to_multiset(),
        sorted.len() == scored.len(),
        r.len() <= sorted.len(),
        forall|i: int| 0 <= i < r.len() ==> (#[trigger] r[i]) == sorted[i].1,
    ensures
        forall|i: int| 0 <= i < r.len() ==> cands.contains(#[trigger] r[i]),
        r.len() == cands.len() ==> forall|m: int| 0 <= m < cands.len() ==> r.contains(#[trigger] cands[m]),
{
    assert forall|i: int| 0 <= i < r.len() implies cands.contains(#[trigger] r[i]) by {
        assert(sorted.contains(sorted[i]));
        assert(scored.to_multiset().count(sorted[i]) > 0);
        assert(scored.contains(sorted[i]));
        let m = choose|m: int| 0 <= m < scored.len() && scored[m] == sorted[i];
        assert(cands[m] == r[i]);
    }
    if r.len() == cands.len() {
        assert forall|m: int| 0 <= m < cands.len() implies r.contains(#[trigger] cands[m]) by {
            assert(scored.contains(scored[m]));
            assert(sorted.to_multiset().count(scored[m]) > 0);
            assert(sorted.contains(scored[m]));
            let i = choose|i: int| 0 <= i < sorted.len() && sorted[i] == scored[m];
            assert(r[i] == cands[m]);
        }
    }
}

/// A sorted list of distinct moves gives distinct moves.
pub(crate) proof fn lemma_sorted_distinct(scored: Seq<(i64, Coord)>, sorted: Seq<(i64, Coord)>, cands: Seq<Coord>, r: Seq<Coord>)
    requires
        scored.len() == cands.len(),
        forall|m: int| 0 <= m < scored.len() ==> (#[trigger] scored[m]).1 == cands[m],
        cands.no_duplicates(),
        sorted.to_multiset() == scored.to_multiset(),
        sorted.len() == scored.len(),
        r.len() <= sorted.len(),
        forall|i: int| 0 <= i < r.len() ==> (#[trigger] r[i]) == sorted[i].1,
    ensures
        r.no_duplicates(),
{
    assert(scored.no_duplicates()) by {
        assert forall|i: int, j: int| 0 <= i < scored.len() && 0 <= j < scored.len() && i != j implies scored[i] != scored[j] by {
            assert(scored[i].1 == cands[i] && scored[j].1 == cands[j]);
        }
    }
    scored.lemma_multiset_has_no_duplicates();
    sorted.lemma_multiset_has_no_duplicates_conv();
    assert forall|a: int, b: int| 0 <= a < r.len() && 0 <= b < r.len() && a != b implies r[a] != r[b] by {
        assert(sorted.contains(sorted[a]));
        assert(scored.to_multiset().count(sorted[a]) > 0);
        assert(scored.contains(sorted[a]));
        let ma = choose|m: int| 0 <= m < scored.len() && scored[m] == sorted[a];
        assert(sorted.contains(sorted[b]));
        assert(scored.to_multiset().count(sorted[b]) > 0);
        assert(scored.contains(sorted[b]));
        let mb = choose|m: int| 0 <= m < scored.len() && scored[m] == sorted[b];
        if r[a] == r[b] {
            assert(cands[ma] == cands[mb]);
            assert(ma == mb);
            assert(sorted[a] == sorted[b]);
        }
    }
}

/// After a sort by key and a cut, every move left out has a key no higher than any kept one.
pub(crate) proof fn lemma_top_k(
    scored: Seq<(i64, Coord)>,
    sorted: Seq<(i64, Coord)>,
    cands: Seq<Coord>,
    r: Seq<Coord>,
    key: spec_fn(Coord) -> int,
)
    requires
        scored.len() == cands.len(),
        forall|m: int| 0 <= m < scored.len() ==> (#[trigger] scored[m]).1 == cands[m] && scored[m].0 == key(cands[m]),
        sorted.to_multiset() == scored.to_multiset(),
        sorted.len() == scored.len(),
        sorted_desc(sorted),
        r.len() <= sorted.len(),
        forall|i: int| 0 <= i < r.len() ==> (#[trigger] r[i]) == sorted[i].1,
    ensures
        forall|m: int, i: int|
            0 <= m < cands.len() && !r.contains(cands[m]) && 0 <= i < r.len() ==> key(#[trigger] r[i]) >= key(
                #[trigger] cands[m],
            ),
{
    assert forall|m: int, i: int|
        0 <= m < cands.len() && !r.contains(cands[m]) && 0 <= i < r.len() implies key(#[trigger] r[i]) >= key(
        #[trigger] cands[m],
    ) by {
        assert(scored.contains(scored[m]));
        assert(sorted.to_multiset().count(scored[m]) > 0);
        assert(sorted.contains(scored[m]));
        let j = choose|j: int| 0 <= j < sorted.len() && sorted[j] == scored[m];
        if j < r.len() {
            assert(r[j] == cands[m]);
        }
        assert(sorted.contains(sorted[i]));
        assert(scored.to_multiset().count(sorted[i]) > 0);
        assert(scored.contains(sorted[i]));
        let mi = choose|k: int| 0 <= k < scored.len() && scored[k] == sorted[i];
        assert(sorted[i].0 >= sorted[j].0);
    }
}

/// Two duplicate-free sequences holding the same elements are permutations of each other.
pub(crate) proof fn lemma_same_elements_multiset(a: Seq<Coord>, b: Seq<Coord>)
    requires
        a.no_duplicates(),
        b.no_duplicates(),
        forall|i: int| 0 <= i < a.len() ==> b.contains(#[trigger] a[i]),
        forall|i: int| 0 <= i < b.len() ==> a.contains(#[trigger] b[i]),
    ensures
        a.to_multiset() =~= b.to_multiset(),
{
    broadcast use vstd::multiset::group_multiset_axioms;

    a.lemma_multiset_has_no_duplicates();
    b.lemma_multiset_has_no_duplicates();
    assert forall|x: Coord| a.to_multiset().count(x) == b.to_multiset().count(x) by {
        if a.contains(x) {
            let i = choose|i: int| 0 <= i < a.len() && a[i] == x;
            assert(b.contains(a[i]));
            assert(a.to_multiset().contains(x));
            assert(b.to_multiset().contains(x));
        } else if b.contains(x) {
            let i = choose|i: int| 0 <= i < b.len() && b[i] == x;
            assert(a.contains(b[i]));
        }
    }
}

proof fn lemma_near_cells_distinct(b: BoardView, k: int)
    requires
        b.wf(),
        0 <= k <= b.cells.len(),
    ensures
        near_cells_upto(b, k).no_duplicates(),
        forall|i: int| 0 <= i < near_cells_upto(b, k).len() ==> b.idx(
            (#[trigger] near_cells_upto(b, k)[i]).x as int,
            near_cells_upto(b, k)[i].y as int,
        ) < k,
    decreases k,
{
    if k > 0 {
        lemma_near_cells_distinct(b, k - 1);
        lemma_near_cells_legal(b, k - 1);
        let prev = near_cells_upto(b, k - 1);
        let cur = near_cells_upto(b, k);
        if is_near_cell(b, k - 1) {
            lemma_coord_of(b, k - 1);
            assert forall|i: int| 0 <= i < cur.len() implies b.idx((#[trigger] cur[i]).x as int, cur[i].y as int) < k by {
                if i < prev.len() {
                    assert(cur[i] == prev[i]);
                }
            }
            assert forall|i: int, j: int| 0 <= i < cur.len() && 0 <= j < cur.len() && i != j implies cur[i] != cur[j] by {
                if i < prev.len() && j < prev.len() {
                    assert(cur[i] == prev[i] && cur[j] == prev[j]);
                } else if i < prev.len() {
                    assert(cur[i] == prev[i]);
                    assert(b.idx(prev[i].x as int, prev[i].y as int) < k - 1);
                } else if j < prev.len() {
                    assert(cur[j] == prev[j]);
                    assert(b.idx(prev[j].x as int, prev[j].y as int) < k - 1);
                }
            }
        } else {
            assert(cur == prev);
        }
    }
}

/// The base candidates are distinct.
pub proof fn lemma_base_candidates_distinct(b: BoardView)
    requires
        b.wf(),
    ensures
        base_candidates(b).no_duplicates(),
{
    if b.has_stones() {
        lemma_near_cells_distinct(b, b.cells.len() as int);
    }
}

/// Ordering key of a move when the candidates fit: killer rank first, history weight second.
pub open spec fn order_key(ctx: SearchContext, n: int, depth: int, c: Coord) -> int {
    killer_rank(ctx.killers@, c, depth) * 1_000_000 + ctx.history@[c.y * n + c.x] as int
}

/// Quick score of a move when the candidates must be cut: the static score after placing
/// the stone, a large bonus for a killer move, and the history weight.
pub open spec fn quick_key(b: BoardView, p: Player, ctx: SearchContext, depth: int, c: Coord) -> int {
    position_score(b.with_cell(c.x as int, c.y as int, Some(p)), p, 11) + killer_rank(ctx.killers@, c, depth)
        * 100_000 + ctx.history@[c.y * b.size + c.x] as int
}

/// Whether `r` is in non-increasing order of `key`.
pub open spec fn ordered_by(r: Seq<Coord>, key: spec_fn(Coord) -> int) -> bool {
    forall|a: int, b: int| 0 <= a < b < r.len() ==> key(#[trigger] r[a]) >= key(#[trigger] r[b])
}

/// Sorting keeps each entry's key tied to its move, so the moves come out ordered by key.
pub(crate) proof fn lemma_sorted_by_key(
    scored: Seq<(i64, Coord)>,
    sorted: Seq<(i64, Coord)>,
    r: Seq<Coord>,
    key: spec_fn(Coord) -> int,
)
    requires
        forall|m: int| 0 <= m < scored.len() ==> (#[trigger] scored[m]).0 == key(scored[m].1),
        sorted.to_multiset() == scored.to_multiset(),
        sorted_desc(sorted),
        r.len() <= sorted.len(),
        forall|i: int| 0 <= i < r.len() ==> (#[trigger] r[i]) == sorted[i].1,
    ensures
        ordered_by(r, key),
{
    assert forall|k: int| 0 <= k < sorted.len() implies (#[trigger] sorted[k]).0 == key(sorted[k].1) by {
        assert(sorted.contains(sorted[k]));
        assert(scored.to_multiset().count(sorted[k]) > 0);
        assert(scored.contains(sorted[k]));
        let m = choose|m: int| 0 <= m < scored.len() && scored[m] == sorted[k];
        assert(scored[m].0 == key(scored[m].1));
    }
    assert forall|a: int, b: int| 0 <= a < b < r.len() implies key(#[trigger] r[a]) >= key(#[trigger] r[b]) by {
        assert(sorted[a].0 >= sorted[b].0);
        assert(sorted[a].0 == key(sorted[a].1));
        assert(sorted[b].0 == key(sorted[b].1));
    }
}

/// Whether every coordinate of `cs` lies on a board of side `n`.
pub open spec fn all_on_board(cs: Seq<Coord>, n: nat) -> bool {
    forall|i: int| 0 <= i < cs.len() ==> (#[trigger] cs[i]).x < n && cs[i].y < n
}

/// The history weight of `c`.
fn history_of(ctx: &SearchContext, c: Coord, n: usize) -> (r: u32)
    requires
        n <= 32,
        ctx.wf((n * n) as nat),
        c.x < n,
        c.y < n,
    ensures
        r == ctx.history@[c.y * n + c.x],
{
    proof {
        crate::board::lemma_idx_in_range(n as nat, c.x as int, c.y as int);
        crate::board::lemma_square_bound(n as nat);
    }
    ctx.history[c.y * n + c.x]
}

/// Orders `candidates` by killer rank, then by history weight, highest first.
fn sort_by_killer_and_history(candidates: &Vec<Coord>, ctx: &SearchContext, depth: usize, n: usize) -> (r: Vec<
    Coord,
>)
    requires
        n <= 32,
        ctx.wf((n * n) as nat),
        all_on_board(candidates@, n as nat),
        candidates@.no_duplicates(),
    ensures
        r@.no_duplicates(),
        r@.to_multiset() == candidates@.to_multiset(),
        r@.len() == candidates@.len(),
        forall|i: int| 0 <= i < r@.len() ==> candidates@.contains(#[trigger] r@[i]),
        forall|m: int| 0 <= m < candidates@.len() ==> r@.contains(#[trigger] candidates@[m]),
        ordered_by(r@, |c: Coord| order_key(*ctx, n as int, depth as int, c)),
{
    let mut scored: Vec<(i64, Coord)> = Vec::new();
    let mut i: usize = 0;
    while i < candidates.len()
        invariant
            n <= 32,
            ctx.wf((n * n) as nat),
            all_on_board(candidates@, n as nat),
            i <= candidates@.len(),
            scored@.len() == i,
            forall|m: int| 0 <= m < i ==> (#[trigger] scored@[m]).1 == candidates@[m],
            forall|m: int|
                0 <= m < i ==> (#[trigger] scored@[m]).0 == order_key(*ctx, n as int, depth as int, scored@[m].1),
        decreases candidates@.len() - i,
    {
        let c = candidates[i];
        let key = killer_priority(&c, ctx, depth) * 1_000_000 + history_of(ctx, c, n) as i64;
        scored.push((key, c));
        i += 1;
    }
    let ghost before = scored@;
    sort_desc(&mut scored);
    let r = coords_of(&scored, scored.len());
    proof {
        lemma_sorted_coords(before, scored@, candidates@, r@);
        lemma_sorted_by_key(before, scored@, r@, |c: Coord| order_key(*ctx, n as int, depth as int, c));
        lemma_sorted_distinct(before, scored@, candidates@, r@);
        lemma_same_elements_multiset(r@, candidates@);
    }
    r
}

/// `r` is drawn from `base`: distinct moves, as many as `cap` allows, none outside `base`,
/// and all of `base` when it fits under `cap`.
pub open spec fn ranked_from(base: Seq<Coord>, cap: int, r: Seq<Coord>) -> bool {
    &&& r.no_duplicates()
    &&& r.len() == (if base.len() <= cap {
        base.len() as int
    } else {
        cap
    })
    &&& forall|i: int| 0 <= i < r.len() ==> base.contains(#[trigger] r[i])
    &&& base.len() <= cap ==> forall|m: int| 0 <= m < base.len() ==> r.contains(#[trigger] base[m])
}

/// Keeps the `max_candidates` best of `candidates`, judged by the static score after
/// placing `player`'s stone, a large bonus for a killer move of ply `depth`, and the
/// history weight.
fn rank_candidates_with_killers(
    board: &mut Board,
    player: Player,
    candidates: &Vec<Coord>,
    max_candidates: usize,
    ctx: &SearchContext,
    depth: usize,
) -> (r: Vec<Coord>)
    requires
        old(board).wf(),
        ctx.wf(old(board)@.cells.len()),
        forall|i: int| 0 <= i < candidates@.len() ==> legal_cell(old(board)@, #[trigger] candidates@[i]),
        candidates@.no_duplicates(),
    ensures
        final(board)@ == old(board)@,
        ranked_from(candidates@, max_candidates as int, r@),
        ordered_by(r@, |c: Coord| quick_key(old(board)@, player, *ctx, depth as int, c)),
        forall|m: int, i: int|
            0 <= m < candidates@.len() && !r@.contains(candidates@[m]) && 0 <= i < r@.len() ==> quick_key(
                old(board)@,
                player,
                *ctx,
                depth as int,
                #[trigger] r@[i],
            ) >= quick_key(old(board)@, player, *ctx, depth as int, #[trigger] candidates@[m]),
{
    let ghost b0 = board@;
    let n = board.size();
    proof {
        lemma_wf_bounds(board@);
    }
    let mut scored: Vec<(i64, Coord)> = Vec::new();
    let mut i: usize = 0;
    while i < candidates.len()
        invariant
            board.wf(),
            board@ == b0,
            n == b0.size,
            n <= 32,
            ctx.wf((n * n) as nat),
            b0.cells.len() == n * n,
            forall|k: int| 0 <= k < candidates@.len() ==> legal_cell(b0, #[trigger] candidates@[k]),
            i <= candidates@.len(),
            scored@.len() == i,
            forall|m: int| 0 <= m < i ==> (#[trigger] scored@[m]).1 == candidates@[m],
            forall|m: int|
                0 <= m < i ==> (#[trigger] scored@[m]).0 == quick_key(b0, player, *ctx, depth as int, scored@[m].1),
        decreases candidates@.len() - i,
    {
        let c = candidates[i];
        assert(legal_cell(b0, candidates@[i as int]));
        board.set(c.x, c.y, player);
        let base = evaluate_board(board, player, 11);
        board.clear(c.x, c.y);
        proof {
            lemma_set_clear_round_trip(b0, c.x as int, c.y as int, player);
        }
        let killer = killer_priority(&c, ctx, depth) * 100_000;
        let hist = history_of(ctx, c, n) as i64;
        scored.push((base + killer + hist, c));
        i += 1;
    }
    let ghost before = scored@;
    sort_desc(&mut scored);
    let keep = if scored.len() <= max_candidates {
        scored.len()
    } else {
        max_candidates
    };
    let r = coords_of(&scored, keep);
    proof {
        lemma_sorted_coords(before, scored@, candidates@, r@);
        lemma_sorted_by_key(before, scored@, r@, |c: Coord| quick_key(b0, player, *ctx, depth as int, c));
        lemma_sorted_distinct(before, scored@, candidates@, r@);
        lemma_top_k(before, scored@, candidates@, r@, |c: Coord| quick_key(b0, player, *ctx, depth as int, c));
    }
    r
}

/// The moves to try for `player` at ply `depth`, best first: the base candidates, cut to
/// the best `max_candidates` by a quick static score when there are more; otherwise
/// ordered by killer rank and history weight when the ply is tracked.
pub fn candidate_moves(
    board: &mut Board,
    player: Player,
    max_candidates: usize,
    ctx: &SearchContext,
    depth: usize,
) -> (r: Vec<Coord>)
    requires
        old(board).wf(),
        ctx.wf(old(board)@.cells.len()),
    ensures
        final(board)@ == old(board)@,
        ranked_from(base_candidates(old(board)@), max_candidates as int, r@),
        base_candidates(old(board)@).len() > max_candidates ==> ordered_by(
            r@,
            |c: Coord| quick_key(old(board)@, player, *ctx, depth as int, c),
        ),
        base_candidates(old(board)@).len() > max_candidates ==> forall|m: int, i: int|
            0 <= m < base_candidates(old(board)@).len() && !r@.contains(base_candidates(old(board)@)[m]) && 0 <= i
                < r@.len() ==> quick_key(old(board)@, player, *ctx, depth as int, #[trigger] r@[i]) >= quick_key(
                old(board)@,
                player,
                *ctx,
                depth as int,
                #[trigger] base_candidates(old(board)@)[m],
            ),
        base_candidates(old(board)@).len() <= max_candidates && depth < MAX_KILLER_DEPTH ==> ordered_by(
            r@,
            |c: Coord| order_key(*ctx, old(board)@.size as int, depth as int, c),
        ),
        base_candidates(old(board)@).len() <= max_candidates && (base_candidates(old(board)@).len() <= 1 || depth
            >= MAX_KILLER_DEPTH) ==> r@ == base_candidates(old(board)@),
{
    let size = board.size();
    let cands = base_candidate_list(board);
    proof {
        lemma_base_candidates_distinct(board@);
        lemma_base_candidates_legal(board@);
        lemma_wf_bounds(board@);
    }
    if cands.len() > max_candidates {
        rank_candidates_with_killers(board, player, &cands, max_candidates, ctx, depth)
    } else if cands.len() > 1 && depth < MAX_KILLER_DEPTH {
        sort_by_killer_and_history(&cands, ctx, depth, size)
    } else {
        proof {
            assert forall|m: int| 0 <= m < cands@.len() implies cands@.contains(#[trigger] cands@[m]) by {}
        }
        cands
    }
}

} // verus!
