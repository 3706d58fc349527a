//! Moves, outcomes and the session record.

use vstd::prelude::*;

verus! {

/// A player's choice. `NoMove` marks a move that was not made yet and is never
/// a choice a player can submit.
#[derive(Clone, Copy, Debug, PartialEq, Eq, Structural)]
pub enum GameMove {
    Rock,
    Paper,
    Scissors,
    NoMove,
}

/// How a session stands. `Started` is the pending state.
#[derive(Clone, Copy, Debug, PartialEq, Eq, Structural)]
pub enum GameResult {
    HostWins,
    OpponentWins,
    Tie,
    Started,
}

/// One session between a host and an opponent.
#[derive(Clone, Copy, Debug, PartialEq, Eq, Structural)]
pub struct Data {
    pub host_move: GameMove,
    pub opponent_move: GameMove,
    pub result: GameResult,
}

/// The form in which a session is persisted: the codes of the host's move, of
/// the opponent's move and of the result.
pub type Record = (u8, u8, u8);

/// `a` beats `b`: rock beats scissors, scissors beat paper, paper beats rock.
pub open spec fn beats(a: GameMove, b: GameMove) -> bool {
    ||| (a == GameMove::Rock && b == GameMove::Scissors)
    ||| (a == GameMove::Scissors && b == GameMove::Paper)
    ||| (a == GameMove::Paper && b == GameMove::Rock)
}

/// The outcome of two submitted moves, seen from the host.
pub open spec fn outcome(host: GameMove, opponent: GameMove) -> GameResult {
    if host == opponent {
        GameResult::Tie
    } else if beats(host, opponent) {
        GameResult::HostWins
    } else {
        GameResult::OpponentWins
    }
}

/// Decides a game in which both players have moved.
pub fn resolve(host: GameMove, opponent: GameMove) -> (r: GameResult)
    requires
        host != GameMove::NoMove,
        opponent != GameMove::NoMove,
    ensures
        r == outcome(host, opponent),
        r != GameResult::Started,
{
    match (host, opponent) {
        (GameMove::Rock, GameMove::Rock) => GameResult::Tie,
        (GameMove::Paper, GameMove::Paper) => GameResult::Tie,
        (GameMove::Scissors, GameMove::Scissors) => GameResult::Tie,
        (GameMove::Rock, GameMove::Scissors) => GameResult::HostWins,
        (GameMove::Scissors, GameMove::Paper) => GameResult::HostWins,
        (GameMove::Paper, GameMove::Rock) => GameResult::HostWins,
        _ => GameResult::OpponentWins,
    }
}

impl GameMove {
    pub open spec fn spec_code(self) -> u8 {
        match self {
            GameMove::Rock => 0u8,
            GameMove::Paper => 1u8,
            GameMove::Scissors => 2u8,
            GameMove::NoMove => 3u8,
        }
    }

    pub open spec fn spec_from_code(code: u8) -> Option<GameMove> {
        if code == 0 {
            Some(GameMove::Rock)
        } else if code == 1 {
            Some(GameMove::Paper)
        } else if code == 2 {
            Some(GameMove::Scissors)
        } else if code == 3 {
            Some(GameMove::NoMove)
        } else {
            None
        }
    }

    /// The number under which the move is persisted.
    pub fn code(self) -> (c: u8)
        ensures
            c == self.spec_code(),
    {
        match self {
            GameMove::Rock => 0,
            GameMove::Paper => 1,
            GameMove::Scissors => 2,
            GameMove::NoMove => 3,
        }
    }

    /// The move persisted under `code`, if there is one.
    pub fn from_code(code: u8) -> (m: Option<GameMove>)
        ensures
            m == Self::spec_from_code(code),
    {
        if code == 0 {
            Some(GameMove::Rock)
        } else if code == 1 {
            Some(GameMove::Paper)
        } else if code == 2 {
            Some(GameMove::Scissors)
        } else if code == 3 {
            Some(GameMove::NoMove)
        } else {
            None
        }
    }
}

impl GameResult {
    pub open spec fn spec_code(self) -> u8 {
        match self {
            GameResult::HostWins => 0u8,
            GameResult::OpponentWins => 1u8,
            GameResult::Tie => 2u8,
            GameResult::Started => 3u8,
        }
    }

    pub open spec fn spec_from_code(code: u8) -> Option<GameResult> {
        if code == 0 {
            Some(GameResult::HostWins)
        } else if code == 1 {
            Some(GameResult::OpponentWins)
        } else if code == 2 {
            Some(GameResult::Tie)
        } else if code == 3 {
            Some(GameResult::Started)
        } else {
            None
        }
    }

    /// The number under which the result is persisted.
    pub fn code(self) -> (c: u8)
        ensures
            c == self.spec_code(),
    {
        match self {
            GameResult::HostWins => 0,
            GameResult::OpponentWins => 1,
            GameResult::Tie => 2,
            GameResult::Started => 3,
        }
    }

    /// The result persisted under `code`, if there is one.
    pub fn from_code(code: u8) -> (r: Option<GameResult>)
        ensures
            r == Self::spec_from_code(code),
    {
        if code == 0 {
            Some(GameResult::HostWins)
        } else if code == 1 {
            Some(GameResult::OpponentWins)
        } else if code == 2 {
            Some(GameResult::Tie)
        } else if code == 3 {
            Some(GameResult::Started)
        } else {
            None
        }
    }
}

impl Data {
    /// A session as it stands right after the host's first move.
    pub open spec fn spec_opened(first_move: GameMove) -> Data {
        Data { host_move: first_move, opponent_move: GameMove::NoMove, result: GameResult::Started }
    }

    /// A session is well formed when the host has moved, and it is resolved
    /// exactly when the opponent has moved too, with the outcome of the two
    /// moves.
    pub open spec fn wf(self) -> bool {
        &&& self.host_move != GameMove::NoMove
        &&& self.opponent_move == GameMove::NoMove ==> self.result == GameResult::Started
        &&& self.opponent_move != GameMove::NoMove ==> self.result == outcome(
            self.host_move,
            self.opponent_move,
        )
    }

    pub open spec fn spec_record(self) -> Record {
        (self.host_move.spec_code(), self.opponent_move.spec_code(), self.result.spec_code())
    }

    pub open spec fn spec_from_record(record: Record) -> Option<Data> {
        match (
            GameMove::spec_from_code(record.0),
            GameMove::spec_from_code(record.1),
            GameResult::spec_from_code(record.2),
        ) {
            (Some(host_move), Some(opponent_move), Some(result)) => Some(
                Data { host_move, opponent_move, result },
            ),
            _ => None,
        }
    }

    /// Opens a session with the host's first move.
    pub fn opened(first_move: GameMove) -> (d: Data)
        ensures
            d == Self::spec_opened(first_move),
            first_move != GameMove::NoMove ==> d.wf(),
    {
        Data { host_move: first_move, opponent_move: GameMove::NoMove, result: GameResult::Started }
    }

    /// The session with the opponent's move recorded and the outcome decided.
    pub fn answered(self, opponent_move: GameMove) -> (d: Data)
        requires
            self.host_move != GameMove::NoMove,
            opponent_move != GameMove::NoMove,
        ensures
            d == (Data {
                host_move: self.host_move,
                opponent_move,
                result: outcome(self.host_move, opponent_move),
            }),
            d.wf(),
            d.result != GameResult::Started,
    {
        Data { host_move: self.host_move, opponent_move, result: resolve(self.host_move, opponent_move) }
    }

    /// The persisted form of the session.
    pub fn record(self) -> (r: Record)
        ensures
            r == self.spec_record(),
    {
        (self.host_move.code(), self.opponent_move.code(), self.result.code())
    }

    /// The session that `record` persists, if its three codes are known.
    pub fn from_record(record: Record) -> (d: Option<Data>)
        ensures
            d == Self::spec_from_record(record),
    {
        match GameMove::from_code(record.0) {
            None => None,
            Some(host_move) => match GameMove::from_code(record.1) {
                None => None,
                Some(opponent_move) => match GameResult::from_code(record.2) {
                    None => None,
                    Some(result) => Some(Data { host_move, opponent_move, result }),
                },
            },
        }
    }
}

/// Reading back what was persisted gives the session that was written.
pub proof fn lemma_record_round_trip(d: Data)
    ensures
        Data::spec_from_record(d.spec_record()) == Some(d),
{
}

/// Two sessions with the same persisted form are the same session.
pub proof fn lemma_record_injective(a: Data, b: Data)
    requires
        a.spec_record() == b.spec_record(),
    ensures
        a == b,
{
    lemma_record_round_trip(a);
    lemma_record_round_trip(b);
}

/// No move beats itself, and of two different submitted moves exactly one
/// beats the other.
pub proof fn lemma_beats_is_a_cycle(a: GameMove, b: GameMove)
    requires
        a != GameMove::NoMove,
        b != GameMove::NoMove,
    ensures
        !beats(a, a),
        a != b ==> (beats(a, b) <==> !beats(b, a)),
        outcome(a, b) == GameResult::HostWins <==> outcome(b, a) == GameResult::OpponentWins,
        outcome(a, b) == GameResult::Tie <==> a == b,
{
}

} // verus!
