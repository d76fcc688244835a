use vstd::prelude::*;

verus! {

/// One of the two sides of the game: black moves first.
#[derive(Clone, Copy, Debug, PartialEq, Eq, Structural)]
pub enum Player {
    B,
    W,
}

impl Player {
    pub open spec fn opp(self) -> Player {
        match self {
            Player::B => Player::W,
            Player::W => Player::B,
        }
    }

    /// The opposing side.
    pub fn other(self) -> (r: Player)
        ensures
            r == self.opp(),
            r != self,
    {
        match self {
            Player::B => Player::W,
            Player::W => Player::B,
        }
    }
}

/// The rule variants the engine knows.
#[derive(Clone, Copy, Debug, PartialEq, Eq, Structural)]
pub enum RuleSetKind {
    Standard,
}

/// How a finished game ended.
#[derive(Clone, Copy, Debug, PartialEq, Eq, Structural)]
pub enum GameResult {
    BWin,
    WWin,
    Draw,
}

/// The result that a win by `p` records.
pub open spec fn win_for(p: Player) -> GameResult {
    match p {
        Player::B => GameResult::BWin,
        Player::W => GameResult::WWin,
    }
}

/// A stone placed by `player` at `(x, y)`, with an optional time stamp in seconds.
#[derive(Clone, Copy, Debug)]
pub struct Move {
    pub x: usize,
    pub y: usize,
    pub player: Player,
    pub t: Option<i64>,
}

/// The names of the two sides.
#[derive(Clone, Debug)]
pub struct Players {
    pub black: String,
    pub white: String,
}

/// Book-keeping data of a stored game.
#[derive(Clone, Debug, Default)]
pub struct Meta {
    pub created_at: i64,
    pub updated_at: Option<i64>,
    pub game_id: Option<String>,
}

/// A stored game: its setup and the moves played.
#[derive(Clone, Debug)]
pub struct GameRecord {
    pub version: String,
    pub board_size: usize,
    pub rule_set: RuleSetKind,
    pub players: Players,
    pub result: Option<GameResult>,
    pub moves: Vec<Move>,
    pub meta: Meta,
}

/// What a front end needs to draw a game.
#[derive(Clone, Debug)]
pub struct GameSnapshot {
    pub board_size: usize,
    pub board: Vec<Option<Player>>,
    pub rule_set: RuleSetKind,
    pub to_move: Player,
    pub result: Option<GameResult>,
    pub moves: Vec<Move>,
    pub mode: GameMode,
    pub can_human_move: bool,
}

/// Parameters of one move search.
///
/// `depth`: plies to search; `max_candidates`: moves considered per node;
/// `randomness`: 0 picks the best move, `n > 0` picks among the best `n + 1`;
/// `max_nodes`: node budget of one search; `defense_weight`: weight, in tenths,
/// of the opponent's score.
#[derive(Clone, Copy, Debug)]
pub struct AiConfig {
    pub depth: u8,
    pub max_candidates: usize,
    pub randomness: u8,
    pub max_nodes: u32,
    pub defense_weight: i32,
}

/// Which kind of engine an automated player uses.
#[derive(Clone, Copy, Debug, PartialEq, Eq, Structural)]
pub enum ProfileKind {
    Heuristic,
    Llm,
}

impl Default for ProfileKind {
    fn default() -> (r: ProfileKind)
        ensures
            r == ProfileKind::Heuristic,
    {
        ProfileKind::Heuristic
    }
}

/// A cell of the board: column `x`, row `y`.
#[derive(Clone, Copy, Debug, PartialEq, Eq, Structural)]
pub struct Coord {
    pub x: usize,
    pub y: usize,
}

/// Who controls each side.
#[derive(Clone, Debug)]
pub enum GameMode {
    HumanVsAi { human_color: Player },
    AiVsAi { black_id: String, white_id: String },
    HumanVsHuman,
}

impl Default for GameMode {
    fn default() -> (r: GameMode)
        ensures
            r == (GameMode::HumanVsAi { human_color: Player::B }),
    {
        GameMode::HumanVsAi { human_color: Player::B }
    }
}

/// One position of a played game, with the move that was played from it.
#[derive(Clone, Debug)]
pub struct TrainingSample {
    pub board_size: usize,
    pub board: Vec<Option<Player>>,
    pub to_move: Player,
    pub legal_moves: Vec<Coord>,
    pub played_move: Option<Coord>,
    pub result: Option<GameResult>,
    pub ply: usize,
}

} // verus!
