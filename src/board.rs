use rand::rngs::StdRng;
use rand::{Rng, SeedableRng};
use vstd::prelude::*;

use crate::types::{Coord, Player};

verus! {

/// Seed of the hash-key table that every board shares.
pub const ZOBRIST_SEED: u64 = 0x5eed_2025;

/// The first value of rand's `StdRng` seeded with `seed`.
pub uninterp spec fn seeded_key(seed: u64) -> u64;

/// Relies on rand: `StdRng::seed_from_u64(seed)` then one `Rng::gen::<u64>()`. The value
/// depends on the seed alone.
#[verifier::external_body]
fn key_from_seed(seed: u64) -> (r: u64)
    ensures
        r == seeded_key(seed),
{
    StdRng::seed_from_u64(seed).gen::<u64>()
}

/// The shared key table for `n` keys: key `i` comes from seed `ZOBRIST_SEED + i`.
pub open spec fn zobrist_keys(n: nat) -> Seq<u64> {
    Seq::new(n, |i: int| seeded_key((ZOBRIST_SEED + i) as u64))
}

/// Largest board side the engine accepts; it keeps every score well within `i64`.
pub const MAX_BOARD_SIZE: usize = 32;

/// The hash key of occupant `c` of the cell with flat index `i`: one key per (cell, side).
pub open spec fn key_of(keys: Seq<u64>, i: int, c: Option<Player>) -> u64 {
    match c {
        None => 0,
        Some(Player::B) => keys[2 * i],
        Some(Player::W) => keys[2 * i + 1],
    }
}

/// XOR of the keys of the occupants of the first `n` cells.
pub open spec fn hash_of(cells: Seq<Option<Player>>, keys: Seq<u64>, n: int) -> u64
    decreases n,
{
    if n <= 0 {
        0
    } else {
        hash_of(cells, keys, n - 1) ^ key_of(keys, n - 1, cells[n - 1])
    }
}

/// The mathematical board: side length, cells in row-major order, hash keys and the cached hash.
pub struct BoardView {
    pub size: nat,
    pub cells: Seq<Option<Player>>,
    pub keys: Seq<u64>,
    pub hash: u64,
}

impl BoardView {
    /// The cached hash is the XOR of the keys of all occupied cells.
    pub open spec fn wf(self) -> bool {
        &&& self.size <= MAX_BOARD_SIZE
        &&& self.cells.len() == self.size * self.size
        &&& self.keys == zobrist_keys(2 * self.cells.len())
        &&& self.hash == hash_of(self.cells, self.keys, self.cells.len() as int)
    }

    pub open spec fn in_bounds(self, x: int, y: int) -> bool {
        0 <= x < self.size && 0 <= y < self.size
    }

    pub open spec fn idx(self, x: int, y: int) -> int {
        y * self.size + x
    }

    /// The occupant of `(x, y)`; `None` off the board.
    pub open spec fn get(self, x: int, y: int) -> Option<Player> {
        if self.in_bounds(x, y) {
            self.cells[self.idx(x, y)]
        } else {
            None
        }
    }

    /// The board with `(x, y)` holding `c`, and its hash recomputed.
    pub open spec fn with_cell(self, x: int, y: int, c: Option<Player>) -> BoardView {
        let cells = self.cells.update(self.idx(x, y), c);
        BoardView { size: self.size, cells, keys: self.keys, hash: hash_of(cells, self.keys, cells.len() as int) }
    }

    pub open spec fn is_full(self) -> bool {
        forall|i: int| 0 <= i < self.cells.len() ==> (#[trigger] self.cells[i]) is Some
    }

    pub open spec fn has_stones(self) -> bool {
        exists|i: int| 0 <= i < self.cells.len() && (#[trigger] self.cells[i]) is Some
    }

    /// The coordinate of flat index `i`.
    pub open spec fn coord_of(self, i: int) -> Coord {
        Coord { x: (i % (self.size as int)) as usize, y: (i / (self.size as int)) as usize }
    }
}

/// The empty cells among the first `k` in row-major order.
pub open spec fn empty_coords_upto(b: BoardView, k: int) -> Seq<Coord>
    decreases k,
{
    if k <= 0 {
        Seq::empty()
    } else if b.cells[k - 1] is None {
        empty_coords_upto(b, k - 1).push(b.coord_of(k - 1))
    } else {
        empty_coords_upto(b, k - 1)
    }
}

pub proof fn lemma_idx_in_range(size: nat, x: int, y: int)
    requires
        0 <= x < size,
        0 <= y < size,
    ensures
        0 <= y * size + x < size * size,
{
    assert(0 <= y * size + x < size * size) by (nonlinear_arith)
        requires
            0 <= x < size,
            0 <= y < size,
    ;
}

/// Flat index `i` and `coord_of(i)` name the same cell.
pub proof fn lemma_coord_of(b: BoardView, i: int)
    requires
        b.wf(),
        0 <= i < b.cells.len(),
    ensures
        b.in_bounds(b.coord_of(i).x as int, b.coord_of(i).y as int),
        b.idx(b.coord_of(i).x as int, b.coord_of(i).y as int) == i,
        b.get(b.coord_of(i).x as int, b.coord_of(i).y as int) == b.cells[i],
{
    let n = b.size as int;
    assert(n > 0) by (nonlinear_arith)
        requires
            0 <= i < n * n,
            n >= 0,
    ;
    vstd::arithmetic::div_mod::lemma_fundamental_div_mod(i, n);
    vstd::arithmetic::div_mod::lemma_mod_bound(i, n);
    assert(i / n < n) by (nonlinear_arith)
        requires
            i == n * (i / n) + i % n,
            0 <= i % n,
            i < n * n,
            n > 0,
    ;
    assert(i / n >= 0) by (nonlinear_arith)
        requires
            0 <= i,
            n > 0,
    ;
    assert((i / n) * n == n * (i / n)) by (nonlinear_arith);
    let c = b.coord_of(i);
    assert(c.x as int == i % n);
    assert(c.y as int == i / n);
}

/// The flat index of `(x, y)` names `(x, y)` again.
pub proof fn lemma_coord_of_idx(b: BoardView, c: Coord)
    requires
        b.wf(),
        b.in_bounds(c.x as int, c.y as int),
    ensures
        b.coord_of(b.idx(c.x as int, c.y as int)) == c,
{
    let n = b.size as int;
    let i = b.idx(c.x as int, c.y as int);
    vstd::arithmetic::div_mod::lemma_fundamental_div_mod_converse(i, n, c.y as int, c.x as int);
}

/// A well-formed board has at most `MAX_BOARD_SIZE²` cells.
pub proof fn lemma_wf_bounds(b: BoardView)
    requires
        b.wf(),
    ensures
        b.cells.len() <= MAX_BOARD_SIZE * MAX_BOARD_SIZE,
        b.cells.len() > 0 ==> b.size > 0,
{
    lemma_square_bound(b.size);
    if b.size == 0 {
        assert(b.size * b.size == 0) by (nonlinear_arith)
            requires
                b.size == 0,
        ;
    }
}

pub proof fn lemma_square_bound(n: nat)
    requires
        n <= MAX_BOARD_SIZE,
    ensures
        n * n <= MAX_BOARD_SIZE * MAX_BOARD_SIZE,
{
    assert(n * n <= 32 * 32) by (nonlinear_arith)
        requires
            n <= 32,
    ;
}

proof fn lemma_hash_prefix(c1: Seq<Option<Player>>, c2: Seq<Option<Player>>, keys: Seq<u64>, n: int)
    requires
        forall|j: int| 0 <= j < n ==> c1[j] == c2[j],
    ensures
        hash_of(c1, keys, n) == hash_of(c2, keys, n),
    decreases n,
{
    if n > 0 {
        lemma_hash_prefix(c1, c2, keys, n - 1);
    }
}

/// Changing one cell toggles the old occupant's key out of the hash and the new one's in.
pub proof fn lemma_hash_update(cells: Seq<Option<Player>>, keys: Seq<u64>, n: int, i: int, c: Option<Player>)
    requires
        0 <= i < n <= cells.len(),
    ensures
        hash_of(cells.update(i, c), keys, n) == hash_of(cells, keys, n) ^ key_of(keys, i, cells[i])
            ^ key_of(keys, i, c),
    decreases n,
{
    let upd = cells.update(i, c);
    let ko = key_of(keys, i, cells[i]);
    let kc = key_of(keys, i, c);
    if n - 1 == i {
        lemma_hash_prefix(upd, cells, keys, n - 1);
        let h = hash_of(cells, keys, n - 1);
        assert(h ^ kc == ((h ^ ko) ^ ko) ^ kc) by (bit_vector);
    } else {
        lemma_hash_update(cells, keys, n - 1, i, c);
        let h = hash_of(cells, keys, n - 1);
        let k = key_of(keys, n - 1, cells[n - 1]);
        assert(((h ^ ko) ^ kc) ^ k == ((h ^ k) ^ ko) ^ kc) by (bit_vector);
    }
}

proof fn lemma_hash_all_empty(cells: Seq<Option<Player>>, keys: Seq<u64>, n: int)
    requires
        n <= cells.len(),
        forall|j: int| 0 <= j < n ==> cells[j] is None,
    ensures
        hash_of(cells, keys, n) == 0,
    decreases n,
{
    if n > 0 {
        lemma_hash_all_empty(cells, keys, n - 1);
        assert(0u64 ^ 0u64 == 0u64) by (bit_vector);
    }
}

/// Changing a cell keeps a board well formed.
pub proof fn lemma_with_cell_wf(b: BoardView, x: int, y: int, c: Option<Player>)
    requires
        b.wf(),
        b.in_bounds(x, y),
    ensures
        b.with_cell(x, y, c).wf(),
        b.with_cell(x, y, c).get(x, y) == c,
        forall|x2: int, y2: int| (x2 != x || y2 != y) ==> #[trigger] b.with_cell(x, y, c).get(x2, y2) == b.get(x2, y2),
{
    lemma_idx_in_range(b.size, x, y);
    let nb = b.with_cell(x, y, c);
    assert forall|x2: int, y2: int| (x2 != x || y2 != y) implies #[trigger] nb.get(x2, y2) == b.get(x2, y2) by {
        if b.in_bounds(x2, y2) {
            lemma_idx_in_range(b.size, x2, y2);
            lemma_idx_distinct(b.size, x, y, x2, y2);
        }
    }
}

proof fn lemma_idx_distinct(size: nat, x: int, y: int, x2: int, y2: int)
    requires
        0 <= x < size,
        0 <= y < size,
        0 <= x2 < size,
        0 <= y2 < size,
        x != x2 || y != y2,
    ensures
        y * size + x != y2 * size + x2,
{
    if y == y2 {
    } else if y < y2 {
        assert(y * size + x < y2 * size + x2) by (nonlinear_arith)
            requires
                0 <= x < size,
                0 <= x2,
                y < y2,
        ;
    } else {
        assert(y * size + x > y2 * size + x2) by (nonlinear_arith)
            requires
                0 <= x2 < size,
                0 <= x,
                y2 < y,
        ;
    }
}

/// Which cells are empty depends on the side and the cells alone.
pub proof fn lemma_empty_coords_by_cells(b1: BoardView, b2: BoardView, k: int)
    requires
        b1.size == b2.size,
        b1.cells == b2.cells,
    ensures
        empty_coords_upto(b1, k) == empty_coords_upto(b2, k),
    decreases k,
{
    if k > 0 {
        lemma_empty_coords_by_cells(b1, b2, k - 1);
    }
}

/// The hash of a well-formed board depends on its side and cells alone.
pub proof fn lemma_hash_by_cells(b1: BoardView, b2: BoardView)
    requires
        b1.wf(),
        b2.wf(),
        b1.size == b2.size,
        b1.cells == b2.cells,
    ensures
        b1.hash == b2.hash,
        b1 == b2,
{
}

/// Placing a stone on an empty cell and clearing that cell again gives back the
/// board it started from, its position hash included.
pub proof fn lemma_set_clear_round_trip(b: BoardView, x: int, y: int, p: Player)
    requires
        b.wf(),
        b.in_bounds(x, y),
        b.get(x, y) is None,
    ensures
        b.with_cell(x, y, Some(p)).with_cell(x, y, None) == b,
        b.with_cell(x, y, Some(p)).with_cell(x, y, None).hash == b.hash,
{
    lemma_idx_in_range(b.size, x, y);
    let i = b.idx(x, y);
    assert(b.cells.update(i, Some(p)).update(i, None) =~= b.cells);
}

fn copy_vec<T: Copy>(v: &Vec<T>) -> (r: Vec<T>)
    ensures
        r@ == v@,
{
    let mut r: Vec<T> = Vec::with_capacity(v.len());
    let mut i: usize = 0;
    while i < v.len()
        invariant
            i <= v.len(),
            r@ == v@.subrange(0, i as int),
        decreases v.len() - i,
    {
        r.push(v[i]);
        i += 1;
        assert(r@ =~= v@.subrange(0, i as int));
    }
    assert(r@ =~= v@);
    r
}

/// A square board with a cached Zobrist position hash.
///
/// Every board of a given side uses the same hash keys, taken from one table drawn from a
/// fixed seed, so equal positions have equal hashes whichever board holds them.
#[derive(Debug)]
pub struct Board {
    size: usize,
    cells: Vec<Option<Player>>,
    keys: Vec<u64>,
    hash: u64,
}

impl View for Board {
    type V = BoardView;

    closed spec fn view(&self) -> BoardView {
        BoardView { size: self.size as nat, cells: self.cells@, keys: self.keys@, hash: self.hash }
    }
}

impl Clone for Board {
    fn clone(&self) -> (r: Board)
        ensures
            r@ == self@,
    {
        Board { size: self.size, cells: copy_vec(&self.cells), keys: copy_vec(&self.keys), hash: self.hash }
    }
}

impl Board {
    pub open spec fn wf(&self) -> bool {
        self@.wf()
    }

    /// An empty board of side `size`.
    pub fn new(size: usize) -> (r: Board)
        requires
            size <= MAX_BOARD_SIZE,
        ensures
            r.wf(),
            r@.size == size,
            forall|i: int| 0 <= i < r@.cells.len() ==> (#[trigger] r@.cells[i]) is None,
    {
        proof {
            lemma_square_bound(size as nat);
        }
        let n: usize = size * size;
        let mut cells: Vec<Option<Player>> = Vec::with_capacity(n);
        let mut i: usize = 0;
        while i < n
            invariant
                i <= n,
                cells@.len() == i,
                forall|j: int| 0 <= j < i ==> (#[trigger] cells@[j]) is None,
            decreases n - i,
        {
            cells.push(None);
            i += 1;
        }
        let mut keys: Vec<u64> = Vec::with_capacity(2 * n);
        let mut k: usize = 0;
        while k < 2 * n
            invariant
                n <= MAX_BOARD_SIZE * MAX_BOARD_SIZE,
                k <= 2 * n,
                keys@ == zobrist_keys(k as nat),
            decreases 2 * n - k,
        {
            let key: u64 = key_from_seed(ZOBRIST_SEED + k as u64);
            keys.push(key);
            k += 1;
            assert(keys@ =~= zobrist_keys(k as nat));
        }
        proof {
            lemma_hash_all_empty(cells@, keys@, n as int);
        }
        Board { size, cells, keys, hash: 0 }
    }

    pub fn size(&self) -> (r: usize)
        ensures
            r == self@.size,
    {
        self.size
    }

    pub fn in_bounds(&self, x: usize, y: usize) -> (r: bool)
        ensures
            r == self@.in_bounds(x as int, y as int),
    {
        x < self.size && y < self.size
    }

    /// The flat row-major index of `(x, y)`.
    pub fn index(&self, x: usize, y: usize) -> (r: usize)
        requires
            y * self@.size + x <= usize::MAX,
        ensures
            r == self@.idx(x as int, y as int),
    {
        y * self.size + x
    }

    /// The occupant of `(x, y)`; `None` when empty or off the board.
    pub fn get(&self, x: usize, y: usize) -> (r: Option<Player>)
        requires
            self.wf(),
        ensures
            r == self@.get(x as int, y as int),
    {
        if !self.in_bounds(x, y) {
            return None;
        }
        proof {
            lemma_idx_in_range(self@.size, x as int, y as int);
            lemma_wf_bounds(self@);
        }
        self.cells[y * self.size + x]
    }

    fn key(&self, i: usize, c: Option<Player>) -> (r: u64)
        requires
            self.wf(),
            i < self@.cells.len(),
        ensures
            r == key_of(self@.keys, i as int, c),
    {
        proof {
            lemma_wf_bounds(self@);
        }
        match c {
            None => 0,
            Some(Player::B) => self.keys[2 * i],
            Some(Player::W) => self.keys[2 * i + 1],
        }
    }

    fn put(&mut self, x: usize, y: usize, c: Option<Player>)
        requires
            old(self).wf(),
            old(self)@.in_bounds(x as int, y as int),
        ensures
            final(self).wf(),
            final(self)@ == old(self)@.with_cell(x as int, y as int, c),
    {
        proof {
            lemma_idx_in_range(self@.size, x as int, y as int);
            lemma_hash_update(self@.cells, self@.keys, self@.cells.len() as int, self@.idx(x as int, y as int), c);
            lemma_with_cell_wf(self@, x as int, y as int, c);
            lemma_wf_bounds(self@);
        }
        let i = y * self.size + x;
        let k_old = self.key(i, self.cells[i]);
        let k_new = self.key(i, c);
        self.hash = self.hash ^ k_old ^ k_new;
        self.cells.set(i, c);
    }

    /// Places `player`'s stone on `(x, y)`, replacing any stone there.
    pub fn set(&mut self, x: usize, y: usize, player: Player)
        requires
            old(self).wf(),
            old(self)@.in_bounds(x as int, y as int),
        ensures
            final(self).wf(),
            final(self)@ == old(self)@.with_cell(x as int, y as int, Some(player)),
    {
        self.put(x, y, Some(player));
    }

    /// Empties `(x, y)`.
    pub fn clear(&mut self, x: usize, y: usize)
        requires
            old(self).wf(),
            old(self)@.in_bounds(x as int, y as int),
        ensures
            final(self).wf(),
            final(self)@ == old(self)@.with_cell(x as int, y as int, None),
    {
        self.put(x, y, None);
    }

    pub fn is_empty(&self, x: usize, y: usize) -> (r: bool)
        requires
            self.wf(),
        ensures
            r == (self@.in_bounds(x as int, y as int) && self@.get(x as int, y as int) is None),
    {
        self.in_bounds(x, y) && self.get(x, y).is_none()
    }

    /// Whether every cell holds a stone.
    pub fn is_full(&self) -> (r: bool)
        requires
            self.wf(),
        ensures
            r == self@.is_full(),
    {
        let mut i: usize = 0;
        while i < self.cells.len()
            invariant
                i <= self@.cells.len(),
                self.cells@ == self@.cells,
                forall|j: int| 0 <= j < i ==> (#[trigger] self@.cells[j]) is Some,
            decreases self@.cells.len() - i,
        {
            if self.cells[i].is_none() {
                return false;
            }
            i += 1;
        }
        true
    }

    /// The empty cells in row-major order.
    pub fn empty_coords(&self) -> (r: Vec<Coord>)
        requires
            self.wf(),
        ensures
            r@ == empty_coords_upto(self@, self@.cells.len() as int),
    {
        let n = self.cells.len();
        let mut r: Vec<Coord> = Vec::with_capacity(n);
        let mut i: usize = 0;
        while i < n
            invariant
                i <= n,
                n == self@.cells.len(),
                self.wf(),
                r@ == empty_coords_upto(self@, i as int),
            decreases n - i,
        {
            if self.cells[i].is_none() {
                proof {
                    lemma_wf_bounds(self@);
                }
                r.push(Coord { x: i % self.size, y: i / self.size });
            }
            i += 1;
        }
        r
    }

    /// A copy of the cells in row-major order.
    pub fn cells(&self) -> (r: Vec<Option<Player>>)
        ensures
            r@ == self@.cells,
    {
        copy_vec(&self.cells)
    }

    /// The cached position hash.
    pub fn hash(&self) -> (r: u64)
        ensures
            r == self@.hash,
    {
        self.hash
    }

    /// The Zobrist hash of the position: the cached value, which `wf` keeps exact.
    pub fn zobrist_hash(&self) -> (r: u64)
        requires
            self.wf(),
        ensures
            r == hash_of(self@.cells, self@.keys, self@.cells.len() as int),
    {
        self.hash
    }
}

} // verus!
