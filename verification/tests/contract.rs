use cosmwasm_std::testing::{mock_dependencies, MockApi, MockQuerier, MockStorage};
use cosmwasm_std::{coins, OwnedDeps, Storage};
use terra_rps::contract::{
    execute, games_response, host_games_validated, instantiate, query, query_all_games,
    query_host_games, start_validated, submit_opponent_move, try_start_game,
};
use terra_rps::error::ContractError;
use terra_rps::msg::{ExecuteMsg, GamesResponse, InstantiateMsg, QueryMsg};
use terra_rps::state::{Data, GameMove, GameResult};

fn fresh() -> OwnedDeps<MockStorage, MockApi, MockQuerier> {
    let mut deps = mock_dependencies(&coins(2, "token"));
    let msg = InstantiateMsg {};
    let _res = instantiate(&mut deps.as_mut(), "creator", "0.1.0", msg).unwrap();
    deps
}

fn start(
    deps: &mut OwnedDeps<MockStorage, MockApi, MockQuerier>,
    sender: &str,
    addr: &str,
    first_move: GameMove,
) -> Result<terra_rps::msg::Ack, ContractError> {
    let msg = ExecuteMsg::StartGame { addr: String::from(addr), first_move };
    execute(&mut deps.as_mut(), sender, msg)
}

fn raw_key(host: &str, opponent: &str) -> Vec<u8> {
    let mut key = vec![0u8, 5u8];
    key.extend_from_slice(b"games");
    key.push((host.len() / 256) as u8);
    key.push((host.len() % 256) as u8);
    key.extend_from_slice(host.as_bytes());
    key.extend_from_slice(opponent.as_bytes());
    key
}

#[test]
fn proper_initialization() {
    let mut deps = mock_dependencies(&[]);

    let msg = InstantiateMsg {};
    let _funds = coins(1000, "earth");

    // we can just call .unwrap() to assert this was a success
    let res = instantiate(&mut deps.as_mut(), "creator", "0.1.0", msg).unwrap();
    assert_eq!(res.method, "instantiate");
    assert_eq!(res.owner, Some(String::from("creator")));
    assert_eq!(0, query_all_games(deps.as_ref()).unwrap().games.len());
}

#[test]
fn invalid_address() {
    let mut deps = fresh();

    let msg = ExecuteMsg::StartGame {
        addr: String::from("not_a_real_address&DFOUSHDOFUGSDOUFGSDOUGDGSGDFO7d9fgas"),
        first_move: GameMove::Rock,
    };
    let res = execute(&mut deps.as_mut(), "creator", msg);
    match res {
        Err(ContractError::InvalidIdentifier(_)) => {}
        _ => panic!("Must return ContractError"),
    }
    assert_eq!(0, query_all_games(deps.as_ref()).unwrap().games.len());
}

#[test]
fn start_multiple_games() {
    let mut deps = fresh();

    // Start first game
    let _res = start(&mut deps, "creator", "an_opponent", GameMove::Scissors);

    // Start a new game from different address
    let res = start(&mut deps, "someone_else", "an_opponent", GameMove::Scissors);
    match res {
        Err(ContractError::GameInProgress) => panic!("Should let second game start"),
        _ => {}
    }
    assert!(res.is_ok());
}

#[test]
fn start_two_games_same_host_and_opponent() {
    let mut deps = fresh();

    // Start first game
    let first = start(&mut deps, "creator", "an_opponent", GameMove::Scissors);
    assert!(first.is_ok());

    let res = start(&mut deps, "creator", "an_opponent", GameMove::Scissors);
    match res {
        Err(ContractError::GameInProgress) => {}
        _ => panic!("Must return ContractError::GameInProgress"),
    }
}

#[test]
fn start_two_games_one_host_different_opponents() {
    let mut deps = fresh();

    // Start first game
    let _res = start(&mut deps, "creator", "an_opponent", GameMove::Scissors);

    let res = start(&mut deps, "creator", "different_opponent", GameMove::Scissors);
    match res {
        Err(ContractError::GameInProgress) => panic!("Second game should start"),
        _ => {}
    }
    assert!(res.is_ok());
}

#[test]
fn test_query_games() {
    let mut deps = fresh();

    // Start a game
    let _res = start(&mut deps, "creator", "an_opponent", GameMove::Scissors);

    // Start another game with same host
    let _res = start(&mut deps, "creator", "diff_opponent", GameMove::Rock);

    // Start another game with different host
    let _res = start(&mut deps, "user", "diff_opponent", GameMove::Rock);

    // Query all games
    let msg = QueryMsg::QueryAllGames {};
    let value: GamesResponse = query(deps.as_ref(), msg).unwrap();
    println!("{:?}", value.games);
    assert_eq!(value.games.len(), 3);

    // Query host games
    let msg = QueryMsg::QueryHostGames { addr: "creator".to_string() };
    let value: GamesResponse = query(deps.as_ref(), msg).unwrap();
    assert_eq!(value.games.len(), 2);
}

#[test]
fn scenario_of_four_starts() {
    let mut deps = fresh();
    let ack = start(&mut deps, "creator", "an_opponent", GameMove::Scissors).unwrap();
    assert_eq!(ack.method, "start_game");
    assert_eq!(ack.owner, None);
    assert!(matches!(
        start(&mut deps, "creator", "an_opponent", GameMove::Rock),
        Err(ContractError::GameInProgress)
    ));
    assert!(start(&mut deps, "creator", "diff_opponent", GameMove::Rock).is_ok());
    assert!(start(&mut deps, "user", "diff_opponent", GameMove::Rock).is_ok());
    assert_eq!(query_all_games(deps.as_ref()).unwrap().games.len(), 3);
    assert_eq!(query_host_games(deps.as_ref(), "creator".to_string()).unwrap().games.len(), 2);
}

#[test]
fn refused_restart_keeps_the_stored_session() {
    let mut deps = fresh();
    start(&mut deps, "creator", "an_opponent", GameMove::Scissors).unwrap();
    let before = query_all_games(deps.as_ref()).unwrap().games;
    assert!(start(&mut deps, "creator", "an_opponent", GameMove::Rock).is_err());
    let after = query_all_games(deps.as_ref()).unwrap().games;
    assert_eq!(before, after);
    assert_eq!(
        after[0].1,
        Data {
            host_move: GameMove::Scissors,
            opponent_move: GameMove::NoMove,
            result: GameResult::Started
        }
    );
}

#[test]
fn pairs_are_directional() {
    let mut deps = fresh();
    assert!(start(&mut deps, "alice", "bobby", GameMove::Rock).is_ok());
    assert!(start(&mut deps, "bobby", "alice", GameMove::Paper).is_ok());
    assert_eq!(query_all_games(deps.as_ref()).unwrap().games.len(), 2);
}

#[test]
fn all_games_come_with_their_keys_in_ascending_order() {
    let mut deps = fresh();
    start(&mut deps, "user", "diff_opponent", GameMove::Rock).unwrap();
    start(&mut deps, "creator", "diff_opponent", GameMove::Paper).unwrap();
    start(&mut deps, "creator", "an_opponent", GameMove::Scissors).unwrap();
    let games = query_all_games(deps.as_ref()).unwrap().games;
    let opened = |m: GameMove| Data {
        host_move: m,
        opponent_move: GameMove::NoMove,
        result: GameResult::Started,
    };
    let mut k0 = vec![0u8, 4u8];
    k0.extend_from_slice(b"userdiff_opponent");
    let mut k1 = vec![0u8, 7u8];
    k1.extend_from_slice(b"creatoran_opponent");
    let mut k2 = vec![0u8, 7u8];
    k2.extend_from_slice(b"creatordiff_opponent");
    assert_eq!(
        games,
        vec![
            (k0, opened(GameMove::Rock)),
            (k1, opened(GameMove::Scissors)),
            (k2, opened(GameMove::Paper)),
        ]
    );
}

#[test]
fn host_games_come_in_ascending_order_of_opponents() {
    let mut deps = fresh();
    start(&mut deps, "creator", "zed", GameMove::Rock).unwrap();
    start(&mut deps, "creator", "abe", GameMove::Paper).unwrap();
    start(&mut deps, "creato", "rabe", GameMove::Paper).unwrap();
    start(&mut deps, "creators", "mid", GameMove::Scissors).unwrap();
    let games = query_host_games(deps.as_ref(), "creator".to_string()).unwrap().games;
    assert_eq!(games.len(), 2);
    assert_eq!(games[0].0, b"\x00\x07creatorabe".to_vec());
    assert_eq!(games[0].1.host_move, GameMove::Paper);
    assert_eq!(games[1].0, b"\x00\x07creatorzed".to_vec());
    let all = query_all_games(deps.as_ref()).unwrap().games;
    assert_eq!(all.len(), 4);
    for row in &games {
        assert!(all.contains(row));
    }
    assert_eq!(games[1].1.host_move, GameMove::Rock);
}

#[test]
fn unknown_host_has_no_games() {
    let mut deps = fresh();
    start(&mut deps, "creator", "an_opponent", GameMove::Rock).unwrap();
    let games = query_host_games(deps.as_ref(), "nobody".to_string()).unwrap().games;
    assert!(games.is_empty());
}

#[test]
fn host_query_refuses_an_invalid_address() {
    let deps = fresh();
    let res = query_host_games(
        deps.as_ref(),
        String::from("not_a_real_address&DFOUSHDOFUGSDOUFGSDOUGDGSGDFO7d9fgas"),
    );
    assert!(matches!(res, Err(ContractError::InvalidIdentifier(_))));
}

#[test]
fn no_move_cannot_open_a_game() {
    let mut deps = fresh();
    let res = start(&mut deps, "creator", "an_opponent", GameMove::NoMove);
    assert!(matches!(res, Err(ContractError::InvalidMove)));
    assert_eq!(0, query_all_games(deps.as_ref()).unwrap().games.len());
    let res = try_start_game(
        &mut deps.as_mut(),
        "creator",
        String::from("an_opponent"),
        GameMove::NoMove,
    );
    assert!(matches!(res, Err(ContractError::InvalidMove)));
}

#[test]
fn too_long_host_is_refused() {
    let mut deps = fresh();
    let host = "a".repeat(65536);
    let res = start(&mut deps, &host, "an_opponent", GameMove::Rock);
    assert!(matches!(res, Err(ContractError::KeyTooLong)));
    let res = submit_opponent_move(&mut deps.as_mut(), &host, "an_opponent", GameMove::Rock);
    assert!(matches!(res, Err(ContractError::KeyTooLong)));
    let res = host_games_validated(deps.as_ref(), Ok(host));
    assert!(matches!(res, Err(ContractError::KeyTooLong)));
}

#[test]
fn longest_host_is_accepted() {
    let mut deps = fresh();
    let host = "a".repeat(65535);
    assert!(start(&mut deps, &host, "an_opponent", GameMove::Rock).is_ok());
    let games = query_all_games(deps.as_ref()).unwrap().games;
    assert_eq!(games.len(), 1);
    assert_eq!(&games[0].0[0..2], &[255u8, 255u8]);
    let games = host_games_validated(deps.as_ref(), Ok(host)).unwrap().games;
    assert_eq!(games.len(), 1);
    assert_eq!(games, query_all_games(deps.as_ref()).unwrap().games);
    assert_eq!(games[0].0.len(), 2 + 65535 + 11);
    assert_eq!(&games[0].0[0..2], &[255u8, 255u8]);
    assert_eq!(&games[0].0[2 + 65535..], b"an_opponent");
}

#[test]
fn start_validated_hands_on_the_refusal() {
    let mut deps = fresh();
    let refusal = cosmwasm_std::StdError::generic_err("refused");
    let same = cosmwasm_std::StdError::generic_err("refused");
    let res = start_validated(&mut deps.as_mut(), "creator", Err(same), GameMove::Rock);
    match res {
        Err(ContractError::InvalidIdentifier(e)) => assert_eq!(e, refusal),
        _ => panic!("the refusal must come back"),
    }
    let res = start_validated(
        &mut deps.as_mut(),
        "creator",
        Ok(String::from("an_opponent")),
        GameMove::Rock,
    );
    assert!(res.is_ok());
    let same = cosmwasm_std::StdError::generic_err("refused");
    let res = host_games_validated(deps.as_ref(), Err(same));
    match res {
        Err(ContractError::InvalidIdentifier(e)) => assert_eq!(e, refusal),
        _ => panic!("the refusal must come back"),
    }
}

#[test]
fn opponent_move_resolves_the_game() {
    let mut deps = fresh();
    start(&mut deps, "creator", "an_opponent", GameMove::Scissors).unwrap();
    let ack =
        submit_opponent_move(&mut deps.as_mut(), "creator", "an_opponent", GameMove::Rock).unwrap();
    assert_eq!(ack.method, "submit_move");
    let games = query_all_games(deps.as_ref()).unwrap().games;
    assert_eq!(games.len(), 1);
    assert_eq!(
        games[0].1,
        Data {
            host_move: GameMove::Scissors,
            opponent_move: GameMove::Rock,
            result: GameResult::OpponentWins
        }
    );
    let again = submit_opponent_move(&mut deps.as_mut(), "creator", "an_opponent", GameMove::Paper);
    assert!(matches!(again, Err(ContractError::GameAlreadyResolved)));
    assert_eq!(query_all_games(deps.as_ref()).unwrap().games, games);
    let restart = start(&mut deps, "creator", "an_opponent", GameMove::Paper);
    assert!(matches!(restart, Err(ContractError::GameInProgress)));
}

#[test]
fn opponent_move_needs_a_game_and_a_real_move() {
    let mut deps = fresh();
    let res = submit_opponent_move(&mut deps.as_mut(), "creator", "an_opponent", GameMove::Rock);
    assert!(matches!(res, Err(ContractError::NoSuchGame)));
    start(&mut deps, "creator", "an_opponent", GameMove::Scissors).unwrap();
    let res = submit_opponent_move(&mut deps.as_mut(), "an_opponent", "creator", GameMove::Rock);
    assert!(matches!(res, Err(ContractError::NoSuchGame)));
    let res = submit_opponent_move(&mut deps.as_mut(), "creator", "an_opponent", GameMove::NoMove);
    assert!(matches!(res, Err(ContractError::InvalidMove)));
    let games = query_all_games(deps.as_ref()).unwrap().games;
    assert_eq!(games[0].1.result, GameResult::Started);
}

#[test]
fn unreadable_entries_are_reported() {
    let mut deps = fresh();
    deps.storage.set(&raw_key("creator", "an_opponent"), b"[9,0,3]");
    assert!(matches!(query_all_games(deps.as_ref()), Err(ContractError::CorruptRecord)));
    assert!(matches!(
        query_host_games(deps.as_ref(), "creator".to_string()),
        Err(ContractError::CorruptRecord)
    ));
    assert!(matches!(
        submit_opponent_move(&mut deps.as_mut(), "creator", "an_opponent", GameMove::Rock),
        Err(ContractError::CorruptRecord)
    ));
    assert!(matches!(
        start(&mut deps, "creator", "an_opponent", GameMove::Rock),
        Err(ContractError::CorruptRecord)
    ));
    assert_eq!(
        deps.storage.get(&raw_key("creator", "an_opponent")),
        Some(b"[9,0,3]".to_vec())
    );

    deps.storage.set(&raw_key("creator", "an_opponent"), b"[3,3,3]");
    assert!(matches!(
        submit_opponent_move(&mut deps.as_mut(), "creator", "an_opponent", GameMove::Rock),
        Err(ContractError::CorruptRecord)
    ));

    deps.storage.set(&raw_key("creator", "an_opponent"), b"not a record");
    assert!(matches!(query_all_games(deps.as_ref()), Err(ContractError::Std(_))));
    assert!(matches!(
        submit_opponent_move(&mut deps.as_mut(), "creator", "an_opponent", GameMove::Rock),
        Err(ContractError::Std(_))
    ));
    assert!(matches!(
        start(&mut deps, "creator", "an_opponent", GameMove::Rock),
        Err(ContractError::Std(_))
    ));
    assert_eq!(
        deps.storage.get(&raw_key("creator", "an_opponent")),
        Some(b"not a record".to_vec())
    );
}

#[test]
fn stored_bytes_are_the_three_codes() {
    let mut deps = fresh();
    start(&mut deps, "creator", "an_opponent", GameMove::Scissors).unwrap();
    let stored = deps.storage.get(&raw_key("creator", "an_opponent"));
    assert_eq!(stored, Some(b"[2,3,3]".to_vec()));
}

#[test]
fn games_response_reads_each_row() {
    let rows = vec![(b"a".to_vec(), (0u8, 1u8, 1u8)), (b"b".to_vec(), (2u8, 3u8, 3u8))];
    let response = games_response(Ok(rows)).unwrap();
    assert_eq!(
        response.games,
        vec![
            (
                b"a".to_vec(),
                Data {
                    host_move: GameMove::Rock,
                    opponent_move: GameMove::Paper,
                    result: GameResult::OpponentWins
                }
            ),
            (
                b"b".to_vec(),
                Data {
                    host_move: GameMove::Scissors,
                    opponent_move: GameMove::NoMove,
                    result: GameResult::Started
                }
            ),
        ]
    );
    let bad = vec![(b"a".to_vec(), (0u8, 1u8, 1u8)), (b"b".to_vec(), (0u8, 0u8, 4u8))];
    assert!(matches!(games_response(Ok(bad)), Err(ContractError::CorruptRecord)));
    let failed = games_response(Err(cosmwasm_std::StdError::generic_err("down")));
    assert!(matches!(failed, Err(ContractError::Std(_))));
    assert!(games_response(Ok(vec![])).unwrap().games.is_empty());
}

#[test]
fn instantiate_records_the_version_and_no_game() {
    let mut deps = mock_dependencies(&[]);
    let ack = instantiate(&mut deps.as_mut(), "creator", "1.2.3", InstantiateMsg {}).unwrap();
    assert_eq!(ack.method, "instantiate");
    assert_eq!(ack.owner, Some(String::from("creator")));
    let version = cw2::get_contract_version(&deps.storage).unwrap();
    assert_eq!(version.contract, "crates.io:terra-rps");
    assert_eq!(version.version, "1.2.3");
    assert!(query_all_games(deps.as_ref()).unwrap().games.is_empty());
}

#[test]
fn instantiate_keeps_the_games() {
    let mut deps = fresh();
    start(&mut deps, "creator", "an_opponent", GameMove::Scissors).unwrap();
    let before = query_all_games(deps.as_ref()).unwrap().games;
    instantiate(&mut deps.as_mut(), "creator", "0.2.0", InstantiateMsg {}).unwrap();
    assert_eq!(query_all_games(deps.as_ref()).unwrap().games, before);
}

#[test]
fn valid_address_is_kept_as_given() {
    let mut deps = fresh();
    start(&mut deps, "creator", "an-opponent_01", GameMove::Scissors).unwrap();
    let games = query_host_games(deps.as_ref(), "creator".to_string()).unwrap().games;
    assert_eq!(games.len(), 1);
    assert_eq!(games[0].0, b"\x00\x07creatoran-opponent_01".to_vec());
}

#[test]
fn address_that_the_validator_refuses_opens_nothing() {
    let mut deps = fresh();
    let res = start(&mut deps, "creator", "An_Opponent", GameMove::Scissors);
    assert!(matches!(res, Err(ContractError::InvalidIdentifier(_))));
    let res = start(&mut deps, "creator", "ab", GameMove::NoMove);
    assert!(matches!(res, Err(ContractError::InvalidIdentifier(_))));
    assert!(query_all_games(deps.as_ref()).unwrap().games.is_empty());
}

#[test]
fn n_starts_give_n_entries() {
    let mut deps = fresh();
    let opponents = ["oppo_a", "oppo_b", "oppo_c", "oppo_d", "oppo_e"];
    let mut n = 0;
    for o in opponents {
        start(&mut deps, "creator", o, GameMove::Paper).unwrap();
        n += 1;
        let games = query_all_games(deps.as_ref()).unwrap().games;
        assert_eq!(games.len(), n);
        for (_, d) in games {
            assert_eq!(d, Data::opened(GameMove::Paper));
        }
    }
}

#[test]
fn instantiate_succeeds_again_and_with_any_text() {
    let mut deps = fresh();
    let ack = instantiate(&mut deps.as_mut(), "cre\"ator\n", "v\\1\u{0007}é", InstantiateMsg {});
    assert!(ack.is_ok());
    let version = cw2::get_contract_version(&deps.storage).unwrap();
    assert_eq!(version.version, "v\\1\u{0007}é");
}

#[test]
fn every_record_can_be_written_and_read_back() {
    let mut deps = fresh();
    let moves = [GameMove::Rock, GameMove::Paper, GameMove::Scissors, GameMove::NoMove];
    let results =
        [GameResult::HostWins, GameResult::OpponentWins, GameResult::Tie, GameResult::Started];
    let mut n = 0;
    for h in moves {
        for o in moves {
            for r in results {
                let d = Data { host_move: h, opponent_move: o, result: r };
                let opponent = format!("opponent_{}", n);
                assert!(terra_rps::store::put(&mut deps.as_mut(), "creator", &opponent, d).is_ok());
                assert_eq!(
                    terra_rps::store::get(deps.as_ref(), "creator", &opponent).unwrap(),
                    Some(d)
                );
                n += 1;
            }
        }
    }
    assert_eq!(query_all_games(deps.as_ref()).unwrap().games.len(), 64);
}

#[test]
fn host_games_are_the_hosts_rows_of_all_games() {
    let mut deps = fresh();
    start(&mut deps, "creator", "an_opponent", GameMove::Scissors).unwrap();
    start(&mut deps, "creator", "diff_opponent", GameMove::Rock).unwrap();
    start(&mut deps, "user", "diff_opponent", GameMove::Rock).unwrap();
    start(&mut deps, "creato", "ran_opponent", GameMove::Paper).unwrap();
    let all = query_all_games(deps.as_ref()).unwrap().games;
    let mut prefix = vec![0u8, 7u8];
    prefix.extend_from_slice(b"creator");
    let expected: Vec<_> = all.iter().filter(|(k, _)| k.starts_with(&prefix)).cloned().collect();
    let games = query_host_games(deps.as_ref(), "creator".to_string()).unwrap().games;
    assert_eq!(games.len(), 2);
    assert_eq!(games, expected);
    let mut first = prefix.clone();
    first.extend_from_slice(b"an_opponent");
    assert_eq!(games[0].0, first);
    let one = query_host_games(deps.as_ref(), "creato".to_string()).unwrap().games;
    assert_eq!(one.len(), 1);
    assert_eq!(one[0].0, b"\x00\x06creatoran_opponent".to_vec());
}

#[test]
fn host_of_256_bytes_has_its_length_in_the_high_byte() {
    let mut deps = fresh();
    let host = "h".repeat(256);
    start(&mut deps, &host, "an_opponent", GameMove::Rock).unwrap();
    let games = host_games_validated(deps.as_ref(), Ok(host)).unwrap().games;
    assert_eq!(games, query_all_games(deps.as_ref()).unwrap().games);
    assert_eq!(&games[0].0[0..2], &[1u8, 0u8]);
}
