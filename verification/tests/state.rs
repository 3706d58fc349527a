use terra_rps::state::{resolve, Data, GameMove, GameResult};

#[test]
fn outcome_table() {
    let (rock, paper, scissors) = (GameMove::Rock, GameMove::Paper, GameMove::Scissors);
    assert_eq!(resolve(rock, rock), GameResult::Tie);
    assert_eq!(resolve(paper, paper), GameResult::Tie);
    assert_eq!(resolve(scissors, scissors), GameResult::Tie);
    assert_eq!(resolve(rock, scissors), GameResult::HostWins);
    assert_eq!(resolve(scissors, paper), GameResult::HostWins);
    assert_eq!(resolve(paper, rock), GameResult::HostWins);
    assert_eq!(resolve(scissors, rock), GameResult::OpponentWins);
    assert_eq!(resolve(paper, scissors), GameResult::OpponentWins);
    assert_eq!(resolve(rock, paper), GameResult::OpponentWins);
}

#[test]
fn opened_session_awaits_the_opponent() {
    let d = Data::opened(GameMove::Paper);
    assert_eq!(d.host_move, GameMove::Paper);
    assert_eq!(d.opponent_move, GameMove::NoMove);
    assert_eq!(d.result, GameResult::Started);
}

#[test]
fn answered_session_is_decided() {
    let d = Data::opened(GameMove::Paper).answered(GameMove::Rock);
    assert_eq!(
        d,
        Data {
            host_move: GameMove::Paper,
            opponent_move: GameMove::Rock,
            result: GameResult::HostWins
        }
    );
}

#[test]
fn codes_of_moves_and_results() {
    assert_eq!(GameMove::Rock.code(), 0);
    assert_eq!(GameMove::Paper.code(), 1);
    assert_eq!(GameMove::Scissors.code(), 2);
    assert_eq!(GameMove::NoMove.code(), 3);
    assert_eq!(GameResult::HostWins.code(), 0);
    assert_eq!(GameResult::OpponentWins.code(), 1);
    assert_eq!(GameResult::Tie.code(), 2);
    assert_eq!(GameResult::Started.code(), 3);
    assert_eq!(GameMove::from_code(2), Some(GameMove::Scissors));
    assert_eq!(GameMove::from_code(4), None);
    assert_eq!(GameResult::from_code(2), Some(GameResult::Tie));
    assert_eq!(GameResult::from_code(255), None);
}

#[test]
fn records_read_back() {
    let moves = [GameMove::Rock, GameMove::Paper, GameMove::Scissors, GameMove::NoMove];
    let results =
        [GameResult::HostWins, GameResult::OpponentWins, GameResult::Tie, GameResult::Started];
    for h in moves {
        for o in moves {
            for r in results {
                let d = Data { host_move: h, opponent_move: o, result: r };
                assert_eq!(Data::from_record(d.record()), Some(d));
            }
        }
    }
    assert_eq!(Data::opened(GameMove::Scissors).record(), (2, 3, 3));
    assert_eq!(Data::from_record((0, 4, 0)), None);
    assert_eq!(Data::from_record((4, 0, 0)), None);
}
