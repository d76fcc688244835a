use vstd::prelude::*;

use crate::board::{empty_coords_upto, Board, BoardView, MAX_BOARD_SIZE};
use crate::notation::{chars_of, decimal, digit_char, push_decimal, text_of};
use crate::rules::{lemma_win_same_cells, rules_for, standard_legal, standard_win, RuleSet};
use crate::types::{
    Coord, GameMode, GameRecord, GameResult, GameSnapshot, Meta, Move, Player, Players, RuleSetKind, TrainingSample,
};

verus! {

/// Relies on `SystemTime::now` and `duration_since(UNIX_EPOCH)`: whole seconds since the
/// Unix epoch, 0 when the clock reads earlier. Nothing is promised of the value.
#[verifier::external_body]
fn now_ts() -> i64 {
    std::time::SystemTime::now().duration_since(std::time::UNIX_EPOCH).unwrap_or_default().as_secs() as i64
}

pub open spec fn hex_char(d: int) -> char {
    if d < 10 {
        digit_char(d)
    } else if d == 10 {
        'a'
    } else if d == 11 {
        'b'
    } else if d == 12 {
        'c'
    } else if d == 13 {
        'd'
    } else if d == 14 {
        'e'
    } else {
        'f'
    }
}

/// The last `n` hexadecimal digits of `t`, lower case, zero-padded.
pub open spec fn hex_digits(t: nat, n: nat) -> Seq<char>
    decreases n,
{
    if n == 0 {
        Seq::empty()
    } else {
        hex_digits(t / 16, (n - 1) as nat).push(hex_char((t % 16) as int))
    }
}

/// `v` in decimal, with a leading `-` when negative.
pub open spec fn signed_decimal(v: int) -> Seq<char> {
    if v < 0 {
        seq!['-'] + decimal((-v) as nat)
    } else {
        decimal(v as nat)
    }
}

/// A game id: `gomoku-`, the time stamp in decimal, `-`, the tag as eight lower-case
/// hexadecimal digits.
pub open spec fn game_id_text(seed: i64, tag: u32) -> Seq<char> {
    "gomoku-"@ + signed_decimal(seed as int) + seq!['-'] + hex_digits(tag as nat, 8)
}

fn hex_exec(d: u32) -> (r: char)
    requires
        d < 16,
    ensures
        r == hex_char(d as int),
{
    if d < 10 {
        if d == 0 { '0' } else if d == 1 { '1' } else if d == 2 { '2' } else if d == 3 { '3' } else if d == 4 { '4' }
        else if d == 5 { '5' } else if d == 6 { '6' } else if d == 7 { '7' } else if d == 8 { '8' } else { '9' }
    } else if d == 10 {
        'a'
    } else if d == 11 {
        'b'
    } else if d == 12 {
        'c'
    } else if d == 13 {
        'd'
    } else if d == 14 {
        'e'
    } else {
        'f'
    }
}

fn push_hex(out: &mut Vec<char>, t: u32, n: u32)
    ensures
        final(out)@ == old(out)@ + hex_digits(t as nat, n as nat),
    decreases n,
{
    if n > 0 {
        push_hex(out, t / 16, n - 1);
        out.push(hex_exec(t % 16));
        assert(old(out)@ + hex_digits(t as nat, n as nat) =~= old(out)@ + hex_digits((t / 16) as nat, (n - 1) as nat)
            + seq![hex_char((t % 16) as int)]);
    } else {
        assert(old(out)@ + hex_digits(t as nat, n as nat) =~= old(out)@);
    }
}

/// The game id for time stamp `seed` and random `tag`.
pub fn format_game_id(seed: i64, tag: u32) -> (r: String)
    ensures
        r@ == game_id_text(seed, tag),
{
    let mut out = chars_of("gomoku-");
    if seed < 0 {
        out.push('-');
        push_decimal(&mut out, (-(seed as i128)) as u128);
    } else {
        push_decimal(&mut out, seed as u128);
    }
    out.push('-');
    push_hex(&mut out, tag, 8);
    assert(out@ =~= game_id_text(seed, tag));
    text_of(&out)
}

/// A fresh game id: the time stamp and a random tag.
fn new_game_id(seed: i64) -> String {
    let tag: u32 = rand::random::<u32>();
    format_game_id(seed, tag)
}

fn copy_string(s: &String) -> (r: String)
    ensures
        r@ == s@,
{
    s.as_str().to_owned()
}

fn copy_moves(v: &Vec<Move>) -> (r: Vec<Move>)
    ensures
        r@ == v@,
{
    let mut r: Vec<Move> = Vec::new();
    let mut i: usize = 0;
    while i < v.len()
        invariant
            i <= v@.len(),
            r@ == v@.subrange(0, i as int),
        decreases v@.len() - i,
    {
        r.push(v[i]);
        i += 1;
        assert(r@ =~= v@.subrange(0, i as int));
    }
    assert(r@ =~= v@);
    r
}

/// A game in progress or finished: the board, whose turn it is, the moves so far and
/// who controls each side.
#[derive(Debug)]
pub struct GameState {
    pub board: Board,
    pub rule_set: RuleSetKind,
    pub to_move: Player,
    pub moves: Vec<Move>,
    pub result: Option<GameResult>,
    pub players: Players,
    pub created_at: i64,
    pub updated_at: i64,
    pub game_id: String,
    pub mode: GameMode,
}

/// The result a legal move leaves on the board `after` it was placed.
pub open spec fn result_after(after: crate::board::BoardView, mv: Move) -> Option<GameResult> {
    if standard_win(after, mv) is Some {
        standard_win(after, mv)
    } else if after.is_full() {
        Some(GameResult::Draw)
    } else {
        None
    }
}

/// A board of side `size` with the given cells, hash keys left out: legality and wins
/// depend on the cells alone.
pub open spec fn grid(size: nat, cells: Seq<Option<Player>>) -> BoardView {
    BoardView { size, cells, keys: Seq::empty(), hash: 0 }
}

/// The state a sequence of moves leads to: cells, side to move, result.
pub struct Replay {
    pub cells: Seq<Option<Player>>,
    pub to_move: Player,
    pub result: Option<GameResult>,
}

/// One move of a replay: `None` when the game is over, it is not `mv.player`'s turn, or
/// the move is illegal.
pub open spec fn replay_step(size: nat, s: Replay, mv: Move) -> Option<Replay> {
    let g = grid(size, s.cells);
    if s.result is Some || mv.player != s.to_move || !standard_legal(g, mv) {
        None
    } else {
        let cells = s.cells.update(g.idx(mv.x as int, mv.y as int), Some(mv.player));
        let res = result_after(grid(size, cells), mv);
        Some(
            Replay {
                cells,
                to_move: if res is None {
                    s.to_move.opp()
                } else {
                    s.to_move
                },
                result: res,
            },
        )
    }
}

/// Playing `moves` from an empty board of side `size`, black first; `None` when one of
/// them cannot be played.
pub open spec fn replay(size: nat, moves: Seq<Move>) -> Option<Replay>
    decreases moves.len(),
{
    if moves.len() == 0 {
        Some(Replay { cells: Seq::new(size * size, |i: int| None), to_move: Player::B, result: None })
    } else {
        match replay(size, moves.drop_last()) {
            None => None,
            Some(s) => replay_step(size, s, moves.last()),
        }
    }
}

proof fn lemma_replay_stuck(size: nat, moves: Seq<Move>, i: int, n: int)
    requires
        0 <= i < n <= moves.len(),
        replay(size, moves.subrange(0, i + 1)) is None,
    ensures
        replay(size, moves.subrange(0, n)) is None,
    decreases n,
{
    if n > i + 1 {
        lemma_replay_stuck(size, moves, i, n - 1);
        assert(moves.subrange(0, n).drop_last() =~= moves.subrange(0, n - 1));
    }
}

/// The cells of an empty board of side `size` after placing the first `k` of `moves`,
/// each overwriting its cell.
pub open spec fn placed(size: nat, moves: Seq<Move>, k: int) -> Seq<Option<Player>>
    decreases k,
{
    if k <= 0 {
        Seq::new(size * size, |i: int| None)
    } else {
        placed(size, moves, k - 1).update(moves[k - 1].y * size + moves[k - 1].x, Some(moves[k - 1].player))
    }
}

impl GameState {
    /// The board is well formed and every recorded move lies on it.
    pub open spec fn wf(&self) -> bool {
        &&& self.board.wf()
        &&& forall|i: int|
            0 <= i < self.moves@.len() ==> self.board@.in_bounds(
                (#[trigger] self.moves@[i]).x as int,
                self.moves@[i].y as int,
            )
    }

    pub open spec fn human_may_move(&self) -> bool {
        self.result is None && match self.mode {
            GameMode::HumanVsAi { human_color } => self.to_move == human_color,
            GameMode::HumanVsHuman => true,
            GameMode::AiVsAi { .. } => false,
        }
    }

    pub open spec fn ai_to_move(&self) -> bool {
        self.result is None && match self.mode {
            GameMode::HumanVsAi { human_color } => self.to_move != human_color,
            GameMode::HumanVsHuman => false,
            GameMode::AiVsAi { .. } => true,
        }
    }

    /// A new game on an empty board, black to move.
    pub fn new(board_size: usize, rule_set: RuleSetKind, players: Players, mode: GameMode) -> (r: GameState)
        requires
            board_size <= MAX_BOARD_SIZE,
        ensures
            r.wf(),
            r.board@.size == board_size,
            forall|i: int| 0 <= i < r.board@.cells.len() ==> (#[trigger] r.board@.cells[i]) is None,
            r.rule_set == rule_set,
            r.to_move == Player::B,
            r.moves@.len() == 0,
            r.result is None,
            r.players == players,
            r.mode == mode,
            r.created_at == r.updated_at,
    {
        let now = now_ts();
        GameState {
            board: Board::new(board_size),
            rule_set,
            to_move: Player::B,
            moves: Vec::new(),
            result: None,
            players,
            created_at: now,
            updated_at: now,
            game_id: new_game_id(now),
            mode,
        }
    }

    /// Whether a human may move now.
    pub fn can_human_move(&self) -> (r: bool)
        ensures
            r == self.human_may_move(),
    {
        if self.result.is_some() {
            return false;
        }
        match &self.mode {
            GameMode::HumanVsAi { human_color } => self.to_move == *human_color,
            GameMode::HumanVsHuman => true,
            GameMode::AiVsAi { .. } => false,
        }
    }

    /// Whether an automated player moves now.
    pub fn is_ai_turn(&self) -> (r: bool)
        ensures
            r == self.ai_to_move(),
    {
        if self.result.is_some() {
            return false;
        }
        match &self.mode {
            GameMode::HumanVsAi { human_color } => self.to_move != *human_color,
            GameMode::HumanVsHuman => false,
            GameMode::AiVsAi { .. } => true,
        }
    }

    /// In a game between two automated players, the profile id of the side to move.
    pub fn current_ai_profile(&self) -> (r: Option<&str>)
        ensures
            r matches Some(s) ==> (self.mode matches GameMode::AiVsAi { black_id, white_id } && s@ == (if self.to_move
                == Player::B {
                black_id@
            } else {
                white_id@
            })),
            r is None <==> !(self.mode is AiVsAi),
    {
        match &self.mode {
            GameMode::HumanVsAi { .. } => None,
            GameMode::AiVsAi { black_id, white_id } => {
                if self.to_move == Player::B {
                    Some(black_id.as_str())
                } else {
                    Some(white_id.as_str())
                }
            },
            GameMode::HumanVsHuman => None,
        }
    }

    /// Plays `mv` if the game is open, it is `mv.player`'s turn and the move is legal:
    /// the stone is placed and recorded, then a win or a full board ends the game, or the
    /// turn passes. Otherwise the game is left as it was and an error says why.
    fn apply_existing_move(&mut self, mv: Move) -> (r: Result<(), String>)
        requires
            old(self).wf(),
        ensures
            final(self).wf(),
            final(self).rule_set == old(self).rule_set,
            final(self).created_at == old(self).created_at,
            final(self).game_id == old(self).game_id,
            final(self).players == old(self).players,
            final(self).mode == old(self).mode,
            r is Err <==> (old(self).result is Some || mv.player != old(self).to_move || !standard_legal(
                old(self).board@,
                mv,
            )),
            r is Err ==> final(self).board@ == old(self).board@ && final(self).moves@ == old(self).moves@
                && final(self).result == old(self).result && final(self).to_move == old(self).to_move
                && final(self).updated_at == old(self).updated_at,
            r is Ok ==> final(self).board@ == old(self).board@.with_cell(mv.x as int, mv.y as int, Some(mv.player))
                && final(self).moves@ == old(self).moves@.push(mv) && final(self).result == result_after(
                final(self).board@,
                mv,
            ) && final(self).to_move == (if final(self).result is None {
                old(self).to_move.opp()
            } else {
                old(self).to_move
            }),
    {
        if self.result.is_some() {
            return Err("Game is already finished".to_owned());
        }
        if mv.player != self.to_move {
            return Err("Move order mismatch".to_owned());
        }
        let rules = rules_for(self.rule_set);
        if !rules.is_legal(&self.board, &mv) {
            return Err("Illegal move".to_owned());
        }
        self.board.set(mv.x, mv.y, mv.player);
        self.moves.push(mv);
        proof {
            crate::board::lemma_with_cell_wf(old(self).board@, mv.x as int, mv.y as int, Some(mv.player));
            assert forall|i: int| 0 <= i < self.moves@.len() implies self.board@.in_bounds(
                (#[trigger] self.moves@[i]).x as int,
                self.moves@[i].y as int,
            ) by {
                if i < old(self).moves@.len() {
                    assert(self.moves@[i] == old(self).moves@[i]);
                }
            }
        }
        match rules.check_win(&self.board, &mv) {
            Some(result) => {
                self.result = Some(result);
                self.updated_at = now_ts();
                return Ok(());
            },
            None => {},
        }
        if self.board.is_full() {
            self.result = Some(GameResult::Draw);
            self.updated_at = now_ts();
            return Ok(());
        }
        self.to_move = self.to_move.other();
        self.updated_at = now_ts();
        Ok(())
    }

    /// Plays the side to move at `(x, y)`, time-stamped now; see `apply_existing_move`.
    pub fn apply_move(&mut self, x: usize, y: usize) -> (r: Result<(), String>)
        requires
            old(self).wf(),
        ensures
            final(self).wf(),
            final(self).rule_set == old(self).rule_set,
            final(self).created_at == old(self).created_at,
            final(self).game_id == old(self).game_id,
            final(self).players == old(self).players,
            final(self).mode == old(self).mode,
            r is Err <==> (old(self).result is Some || !old(self).board@.in_bounds(x as int, y as int)
                || old(self).board@.get(x as int, y as int) is Some),
            r is Err ==> final(self).board@ == old(self).board@ && final(self).moves@ == old(self).moves@
                && final(self).result == old(self).result && final(self).to_move == old(self).to_move,
            r is Ok ==> final(self).board@ == old(self).board@.with_cell(x as int, y as int, Some(old(self).to_move))
                && final(self).moves@.len() == old(self).moves@.len() + 1 && final(self).moves@.last().x == x
                && final(self).moves@.last().y == y && final(self).moves@.last().player == old(self).to_move
                && final(self).moves@.drop_last() == old(self).moves@ && final(self).result == result_after(
                final(self).board@,
                final(self).moves@.last(),
            ) && final(self).to_move == (if final(self).result is None {
                old(self).to_move.opp()
            } else {
                old(self).to_move
            }),
            r is Err ==> final(self).updated_at == old(self).updated_at,
    {
        let mv = Move { x, y, player: self.to_move, t: Some(now_ts()) };
        let r = self.apply_existing_move(mv);
        proof {
            if r is Ok {
                assert(self.moves@.drop_last() =~= old(self).moves@);
            }
        }
        r
    }

    /// What a front end needs to show the game.
    pub fn snapshot(&self) -> (r: GameSnapshot)
        ensures
            r.board_size == self.board@.size,
            r.board@ == self.board@.cells,
            r.rule_set == self.rule_set,
            r.to_move == self.to_move,
            r.result == self.result,
            r.moves@ == self.moves@,
            r.can_human_move == self.human_may_move(),
    {
        let can_human_move = self.can_human_move();
        GameSnapshot {
            board_size: self.board.size(),
            board: self.board.cells(),
            rule_set: self.rule_set,
            to_move: self.to_move,
            result: self.result,
            moves: copy_moves(&self.moves),
            mode: self.mode.clone(),
            can_human_move,
        }
    }

    /// Rebuilds a game from a stored record by replaying its moves; the first move that
    /// cannot be played gives the error. Missing time stamps and id are filled in.
    pub fn from_record(record: GameRecord) -> (r: Result<GameState, String>)
        requires
            record.board_size <= MAX_BOARD_SIZE,
        ensures
            r is Ok <==> replay(record.board_size as nat, record.moves@) is Some,
            r matches Ok(s) ==> {
                &&& s.wf()
                &&& s.board@.size == record.board_size
                &&& s.rule_set == record.rule_set
                &&& s.moves@ == record.moves@
                &&& replay(record.board_size as nat, record.moves@) matches Some(rp) && s.board@.cells == rp.cells
                    && s.to_move == rp.to_move && (record.result is None ==> s.result == rp.result)
                &&& record.result is Some ==> s.result == record.result
                &&& record.meta.created_at > 0 ==> s.created_at == record.meta.created_at
                &&& s.updated_at == (match record.meta.updated_at {
                    Some(u) => u,
                    None => s.created_at,
                })
                &&& record.meta.game_id matches Some(id) ==> s.game_id == id
            },
    {
        let ghost rec = record;
        let GameRecord { version: _, board_size, rule_set, players, result, moves, meta } = record;
        assert(moves@ == rec.moves@ && board_size == rec.board_size);
        let mut state = GameState::new(board_size, rule_set, players, GameMode::default());
        let created_at = if meta.created_at > 0 {
            meta.created_at
        } else {
            now_ts()
        };
        let updated_at = match meta.updated_at {
            Some(u) => u,
            None => created_at,
        };
        state.created_at = created_at;
        state.updated_at = updated_at;
        state.game_id = match meta.game_id {
            Some(id) => id,
            None => new_game_id(created_at),
        };
        let mut i: usize = 0;
        proof {
            assert(moves@.subrange(0, 0) =~= Seq::<Move>::empty());
            assert(state.board@.cells =~= Seq::new((board_size * board_size) as nat, |k: int| None::<Player>));
        }
        while i < moves.len()
            invariant
                state.wf(),
                state.board@.size == board_size,
                state.rule_set == rule_set,
                state.created_at == created_at,
                meta.game_id matches Some(id) ==> state.game_id == id,
                i <= moves@.len(),
                rec == record,
                rec.moves@ == moves@,
                rec.board_size == board_size,
                state.moves@ == moves@.subrange(0, i as int),
                replay(board_size as nat, moves@.subrange(0, i as int)) == Some(
                    Replay { cells: state.board@.cells, to_move: state.to_move, result: state.result },
                ),
            decreases moves@.len() - i,
        {
            let ghost before = state.board@;
            let ghost prefix = moves@.subrange(0, i as int + 1);
            proof {
                assert(prefix.drop_last() =~= moves@.subrange(0, i as int));
                assert(prefix.last() == moves@[i as int]);
                assert(grid(board_size as nat, before.cells).get(moves@[i as int].x as int, moves@[i as int].y as int)
                    == before.get(moves@[i as int].x as int, moves@[i as int].y as int));
            }
            match state.apply_existing_move(moves[i]) {
                Ok(()) => {
                    proof {
                        let mv = moves@[i as int];
                        let cells = before.cells.update(before.idx(mv.x as int, mv.y as int), Some(mv.player));
                        lemma_win_same_cells(state.board@, grid(board_size as nat, cells), mv);
                    }
                },
                Err(e) => {
                    proof {
                        let s0 = Replay { cells: state.board@.cells, to_move: state.to_move, result: state.result };
                        assert(replay(board_size as nat, prefix.drop_last()) == Some(s0));
                        assert(replay_step(board_size as nat, s0, moves@[i as int]) is None);
                        assert(replay(board_size as nat, prefix) is None);
                        assert(moves@.subrange(0, i as int + 1) == prefix);
                        lemma_replay_stuck(board_size as nat, moves@, i as int, moves@.len() as int);
                        assert(moves@.subrange(0, moves@.len() as int) =~= moves@);
                    }
                    return Err(e);
                },
            }
            i += 1;
            assert(state.moves@ =~= moves@.subrange(0, i as int));
        }
        assert(state.moves@ =~= moves@);
        assert(moves@.subrange(0, moves@.len() as int) =~= moves@);
        if let Some(res) = result {
            state.result = Some(res);
        }
        state.updated_at = updated_at;
        Ok(state)
    }

    /// One sample per move played: the position before it, the side to move, the empty
    /// cells, the move itself, the game's result and the ply number.
    pub fn training_samples(&self) -> (r: Vec<TrainingSample>)
        requires
            self.wf(),
        ensures
            r@.len() == self.moves@.len(),
            forall|i: int|
                0 <= i < r@.len() ==> (#[trigger] r@[i]).ply == i && r@[i].played_move == Some(
                    Coord { x: self.moves@[i].x, y: self.moves@[i].y },
                ) && r@[i].result == self.result && r@[i].board_size == self.board@.size && r@[i].to_move == (if i
                    % 2 == 0 {
                    Player::B
                } else {
                    Player::W
                }) && r@[i].board@ == placed(self.board@.size, self.moves@, i) && r@[i].legal_moves@
                    == empty_coords_upto(grid(self.board@.size, placed(self.board@.size, self.moves@, i)),
                    (self.board@.size * self.board@.size) as int),
    {
        let mut board = Board::new(self.board.size());
        assert(board@.cells =~= placed(self.board@.size, self.moves@, 0));
        let mut samples: Vec<TrainingSample> = Vec::new();
        let mut to_move = Player::B;
        let mut ply: usize = 0;
        while ply < self.moves.len()
            invariant
                self.wf(),
                board.wf(),
                board@.size == self.board@.size,
                ply <= self.moves@.len(),
                samples@.len() == ply,
                to_move == (if ply % 2 == 0 {
                    Player::B
                } else {
                    Player::W
                }),
                forall|i: int|
                    0 <= i < ply ==> (#[trigger] samples@[i]).ply == i && samples@[i].played_move == Some(
                        Coord { x: self.moves@[i].x, y: self.moves@[i].y },
                    ) && samples@[i].result == self.result && samples@[i].board_size == self.board@.size
                        && samples@[i].to_move == (if i % 2 == 0 {
                        Player::B
                    } else {
                        Player::W
                    }) && samples@[i].board@ == placed(self.board@.size, self.moves@, i) && samples@[i].legal_moves@
                        == empty_coords_upto(grid(self.board@.size, placed(self.board@.size, self.moves@, i)),
                        (self.board@.size * self.board@.size) as int),
                board@.cells == placed(self.board@.size, self.moves@, ply as int),
            decreases self.moves@.len() - ply,
        {
            let mv = self.moves[ply];
            let legal_moves = board.empty_coords();
            proof {
                crate::board::lemma_empty_coords_by_cells(board@, grid(board@.size, board@.cells),
                    board@.cells.len() as int);
            }
            samples.push(
                TrainingSample {
                    board_size: board.size(),
                    board: board.cells(),
                    to_move,
                    legal_moves,
                    played_move: Some(Coord { x: mv.x, y: mv.y }),
                    result: self.result,
                    ply,
                },
            );
            assert(self.board@.in_bounds(self.moves@[ply as int].x as int, self.moves@[ply as int].y as int));
            board.set(mv.x, mv.y, mv.player);
            to_move = to_move.other();
            ply += 1;
        }
        samples
    }

    /// The game as a record for storage.
    pub fn to_record(&self) -> (r: GameRecord)
        ensures
            r.board_size == self.board@.size,
            r.rule_set == self.rule_set,
            r.result == self.result,
            r.moves@ == self.moves@,
            r.meta.created_at == self.created_at,
            r.meta.updated_at == Some(self.updated_at),
            r.meta.game_id matches Some(id) && id@ == self.game_id@,
            r.version@ == "1.0"@,
    {
        GameRecord {
            version: "1.0".to_owned(),
            board_size: self.board.size(),
            rule_set: self.rule_set,
            players: Players { black: copy_string(&self.players.black), white: copy_string(&self.players.white) },
            result: self.result,
            moves: copy_moves(&self.moves),
            meta: Meta {
                created_at: self.created_at,
                updated_at: Some(self.updated_at),
                game_id: Some(copy_string(&self.game_id)),
            },
        }
    }
}

} // verus!
