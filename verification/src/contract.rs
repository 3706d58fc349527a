//! The contract's operations: opening a session, answering it, and the two
//! listings.

use crate::error::ContractError;
use crate::msg::{Ack, ExecuteMsg, GamesResponse, InstantiateMsg, QueryMsg};
use crate::state::{Data, GameMove, GameResult, Record};
use crate::store::{
    all_sessions, frame_rows, framed, games, games_mut, get, has_no_sessions, host_frame,
    host_prefix, id_bytes, insert, list_all, list_host, lists, put, reader, record_version,
    rows_of, session_key, stored_session, under_prefix, validate, with_prefix, MAX_HOST_LEN,
};
use cosmwasm_std::{Deps, DepsMut, StdError};
use vstd::prelude::*;
use vstd::string::StringSliceAdditionalSpecFns;

verus! {

/// What opening a session between `host` and the checked address `opponent`
/// does to the sessions, and what it answers: the session is written when the
/// move is a real one, the host's address fits a key and no entry stands
/// under the key; otherwise the error says which of these failed and nothing
/// changes. A session under the key gives `GameInProgress`, an entry there
/// that reads as a record of no session gives `CorruptRecord`, and one that
/// reads as no record gives `Std`.
pub open spec fn start_effect(
    before: Map<Seq<u8>, Option<Record>>,
    after: Map<Seq<u8>, Option<Record>>,
    host: Seq<char>,
    opponent: Seq<char>,
    first_move: GameMove,
    r: Result<Ack, ContractError>,
) -> bool {
    let key = session_key(id_bytes(host), id_bytes(opponent));
    let fits = id_bytes(host).len() <= MAX_HOST_LEN;
    match r {
        Ok(ack) => {
            &&& first_move != GameMove::NoMove
            &&& fits
            &&& !before.dom().contains(key)
            &&& after == before.insert(key, Some(Data::spec_opened(first_move).spec_record()))
            &&& ack.method@ == "start_game"@
            &&& ack.owner is None
        },
        Err(ContractError::InvalidMove) => first_move == GameMove::NoMove && after == before,
        Err(ContractError::KeyTooLong) => first_move != GameMove::NoMove && !fits && after
            == before,
        Err(ContractError::GameInProgress) => first_move != GameMove::NoMove && fits
            && before.dom().contains(key) && stored_session(before, key) is Some && after
            == before,
        Err(ContractError::CorruptRecord) => first_move != GameMove::NoMove && fits
            && before.dom().contains(key) && before[key] is Some && stored_session(before, key)
            is None && after == before,
        Err(ContractError::Std(_)) => first_move != GameMove::NoMove && fits
            && before.dom().contains(key) && before[key] is None && after == before,
        Err(_) => false,
    }
}

/// An opening of a session between `host` and `opponent` is due to go
/// through: the move is a real one, the host's address fits a key and no
/// entry stands under the key.
pub open spec fn opening_is_due(
    before: Map<Seq<u8>, Option<Record>>,
    host: Seq<char>,
    opponent: Seq<char>,
    first_move: GameMove,
) -> bool {
    &&& first_move != GameMove::NoMove
    &&& id_bytes(host).len() <= MAX_HOST_LEN
    &&& !before.dom().contains(session_key(id_bytes(host), id_bytes(opponent)))
}

/// The opening went through, or the validator did not accept the address.
pub open spec fn opened_unless_invalid(r: Result<Ack, ContractError>) -> bool {
    match r {
        Ok(_) => true,
        Err(ContractError::InvalidIdentifier(_)) => true,
        Err(_) => false,
    }
}

/// An answer to the session between `host` and `opponent` is due to go
/// through: the move is a real one and the stored session awaits it.
pub open spec fn answer_is_due(
    before: Map<Seq<u8>, Option<Record>>,
    host: Seq<char>,
    opponent: Seq<char>,
    opponent_move: GameMove,
) -> bool {
    let key = session_key(id_bytes(host), id_bytes(opponent));
    &&& opponent_move != GameMove::NoMove
    &&& id_bytes(host).len() <= MAX_HOST_LEN
    &&& before.dom().contains(key)
    &&& match stored_session(before, key) {
        Some(d) => awaits_answer(d),
        None => false,
    }
}

/// The session `d` can take the opponent's move: it is pending and the host
/// has moved.
pub open spec fn awaits_answer(d: Data) -> bool {
    d.result == GameResult::Started && d.host_move != GameMove::NoMove
}

/// What answering the session between `host` and `opponent` does: a stored
/// session that awaits the answer gets the opponent's move and the outcome;
/// otherwise the error says what failed and nothing changes. `Std` says that
/// the entry under the key reads as no record, and `CorruptRecord` that it
/// reads as a record of no session, or of a pending session without a host's
/// move.
pub open spec fn answer_effect(
    before: Map<Seq<u8>, Option<Record>>,
    after: Map<Seq<u8>, Option<Record>>,
    host: Seq<char>,
    opponent: Seq<char>,
    opponent_move: GameMove,
    r: Result<Ack, ContractError>,
) -> bool {
    let key = session_key(id_bytes(host), id_bytes(opponent));
    let fits = id_bytes(host).len() <= MAX_HOST_LEN;
    let moved = opponent_move != GameMove::NoMove;
    let there = moved && fits && before.dom().contains(key);
    match r {
        Ok(ack) => {
            &&& there
            &&& match stored_session(before, key) {
                Some(d) => awaits_answer(d) && after == before.insert(
                    key,
                    Some(
                        (Data {
                            host_move: d.host_move,
                            opponent_move,
                            result: crate::state::outcome(d.host_move, opponent_move),
                        }).spec_record(),
                    ),
                ),
                None => false,
            }
            &&& ack.method@ == "submit_move"@
            &&& ack.owner is None
        },
        Err(ContractError::InvalidMove) => !moved && after == before,
        Err(ContractError::KeyTooLong) => moved && !fits && after == before,
        Err(ContractError::NoSuchGame) => moved && fits && !before.dom().contains(key) && after
            == before,
        Err(ContractError::Std(_)) => there && before[key] is None && after == before,
        Err(ContractError::CorruptRecord) => {
            &&& there && before[key] is Some && after == before
            &&& match stored_session(before, key) {
                None => true,
                Some(d) => d.result == GameResult::Started && d.host_move == GameMove::NoMove,
            }
        },
        Err(ContractError::GameAlreadyResolved) => {
            &&& there && after == before
            &&& match stored_session(before, key) {
                None => false,
                Some(d) => d.result != GameResult::Started,
            }
        },
        Err(_) => false,
    }
}

/// The rows that a response stands for: each session in its persisted form.
pub open spec fn records_of(games: Seq<(Seq<u8>, Data)>) -> Seq<(Seq<u8>, Record)> {
    Seq::new(games.len(), |i: int| (games[i].0, games[i].1.spec_record()))
}

/// Every record of `rows` stands for a session.
pub open spec fn all_readable(rows: Seq<(Seq<u8>, Record)>) -> bool {
    forall|i: int| 0 <= i < rows.len() ==> Data::spec_from_record(#[trigger] rows[i].1) is Some
}

/// What a listing of `entries` answers: `Std` where an entry reads as no
/// record; `CorruptRecord` where all read as records and one of them stands
/// for no session; and otherwise the entries, each once, in ascending order
/// of the keys.
pub open spec fn listing_effect(
    entries: Map<Seq<u8>, Option<Record>>,
    r: Result<GamesResponse, ContractError>,
) -> bool {
    match r {
        Ok(response) => lists(records_of(response@), entries),
        Err(ContractError::CorruptRecord) => {
            &&& forall|k: Seq<u8>| #[trigger] entries.dom().contains(k) ==> entries[k] is Some
            &&& exists|k: Seq<u8>| #[trigger]
                entries.dom().contains(k) && stored_session(entries, k) is None
        },
        Err(ContractError::Std(_)) => exists|k: Seq<u8>| #[trigger]
            entries.dom().contains(k) && entries[k] is None,
        Err(_) => false,
    }
}

fn copy_bytes(bytes: &Vec<u8>) -> (r: Vec<u8>)
    ensures
        r@ == bytes@,
{
    let mut out: Vec<u8> = Vec::new();
    let mut i: usize = 0;
    while i < bytes.len()
        invariant
            i <= bytes.len(),
            out@ == bytes@.subrange(0, i as int),
        decreases bytes.len() - i,
    {
        out.push(bytes[i]);
        i = i + 1;
        assert(out@ =~= bytes@.subrange(0, i as int));
    }
    assert(bytes@.subrange(0, bytes.len() as int) =~= bytes@);
    out
}

/// Turns what the storage listed into a response: an error of the storage is
/// handed on, rows that all stand for sessions give those sessions under the
/// same keys and in the same order, and a row that stands for none gives
/// `CorruptRecord`.
pub fn games_response(listed: Result<Vec<(Vec<u8>, Record)>, StdError>) -> (r: Result<
    GamesResponse,
    ContractError,
>)
    ensures
        match listed {
            Err(e) => r == Err::<GamesResponse, ContractError>(ContractError::Std(e)),
            Ok(items) => if all_readable(rows_of(items@)) {
                r matches Ok(response) && records_of(response@) == rows_of(items@)
            } else {
                r matches Err(ContractError::CorruptRecord)
            },
        },
{
    match listed {
        Err(e) => Err(ContractError::Std(e)),
        Ok(items) => {
            let mut out: Vec<(Vec<u8>, Data)> = Vec::new();
            let mut i: usize = 0;
            while i < items.len()
                invariant
                    listed == Ok::<Vec<(Vec<u8>, Record)>, StdError>(items),
                    i <= items.len(),
                    out@.len() == i,
                    forall|j: int|
                        0 <= j < i ==> (#[trigger] out@[j]).0@ == items@[j].0@
                            && Data::spec_from_record(items@[j].1) == Some(out@[j].1),
                decreases items.len() - i,
            {
                let key = copy_bytes(&items[i].0);
                let record: Record = items[i].1;
                match Data::from_record(record) {
                    None => {
                        assert(Data::spec_from_record(rows_of(items@)[i as int].1) is None);
                        return Err(ContractError::CorruptRecord);
                    },
                    Some(d) => {
                        out.push((key, d));
                    },
                }
                i = i + 1;
            }
            let response = GamesResponse { games: out };
            proof {
                assert forall|j: int| 0 <= j < items@.len() implies records_of(response@)[j]
                    == rows_of(items@)[j] by {
                    assert(Data::spec_from_record(items@[j].1) == Some(out@[j].1));
                }
                assert(records_of(response@) =~= rows_of(items@));
                assert(all_readable(rows_of(items@))) by {
                    assert forall|j: int| 0 <= j < rows_of(items@).len() implies Data::spec_from_record(
                        #[trigger] rows_of(items@)[j].1,
                    ) is Some by {
                        assert(Data::spec_from_record(items@[j].1) == Some(out@[j].1));
                    }
                }
            }
            Ok(response)
        },
    }
}

/// A response made from rows that list `entries` answers the listing of
/// `entries`.
proof fn lemma_response_lists(
    listed: Result<Vec<(Vec<u8>, Record)>, StdError>,
    entries: Map<Seq<u8>, Option<Record>>,
    r: Result<GamesResponse, ContractError>,
)
    requires
        listed matches Ok(items) ==> lists(rows_of(items@), entries),
        listed is Err ==> exists|k: Seq<u8>| #[trigger]
            entries.dom().contains(k) && entries[k] is None,
        match listed {
            Err(e) => r == Err::<GamesResponse, ContractError>(ContractError::Std(e)),
            Ok(items) => if all_readable(rows_of(items@)) {
                r matches Ok(response) && records_of(response@) == rows_of(items@)
            } else {
                r matches Err(ContractError::CorruptRecord)
            },
        },
    ensures
        listing_effect(entries, r),
{
    if let Ok(items) = listed {
        let rows = rows_of(items@);
        if !all_readable(rows) {
            let i = choose|i: int|
                0 <= i < rows.len() && !(Data::spec_from_record(#[trigger] rows[i].1) is Some);
            assert(entries.dom().contains(rows[i].0));
            assert(stored_session(entries, rows[i].0) is None);
            assert forall|k: Seq<u8>| #[trigger] entries.dom().contains(k) implies entries[k]
                is Some by {
                let j = choose|j: int| 0 <= j < rows.len() && #[trigger] rows[j].0 == k;
                assert(entries[rows[j].0] == Some(rows[j].1));
            }
        }
    }
}

/// Records the contract's version and names the sender as the owner. The
/// call always succeeds, and the sessions are left as they are.
pub fn instantiate(deps: &mut DepsMut, sender: &str, version: &str, msg: InstantiateMsg) -> (r:
    Result<Ack, ContractError>)
    ensures
        games_mut(*final(deps)) == games_mut(*old(deps)),
        r is Ok,
        match r {
            Ok(ack) => {
                &&& ack.method@ == "instantiate"@
                &&& ack.owner matches Some(owner) && owner@ == sender@
            },
            Err(_) => false,
        },
{
    match record_version(deps, "crates.io:terra-rps", version) {
        Ok(()) => Ok(Ack { method: "instantiate".to_owned(), owner: Some(sender.to_owned()) }),
        // The write owes success; this arm only satisfies the type.
        Err(e) => Err(ContractError::Std(e)),
    }
}

/// Carries out a state-changing message sent by `sender`.
pub fn execute(deps: &mut DepsMut, sender: &str, msg: ExecuteMsg) -> (r: Result<Ack, ContractError>)
    ensures
        match msg {
            ExecuteMsg::StartGame { addr, first_move } => {
                &&& match r {
                    Err(ContractError::InvalidIdentifier(_)) => games_mut(*final(deps))
                        == games_mut(*old(deps)),
                    _ => start_effect(
                        games_mut(*old(deps)),
                        games_mut(*final(deps)),
                        sender@,
                        addr@,
                        first_move,
                        r,
                    ),
                }
                &&& opening_is_due(games_mut(*old(deps)), sender@, addr@, first_move)
                    ==> opened_unless_invalid(r)
            },
        },
{
    match msg {
        ExecuteMsg::StartGame { addr, first_move } => try_start_game(deps, sender, addr, first_move),
    }
}

/// Opens a session between `sender`, the host, and the address `addr`, with
/// the host's first move. The address goes to the validator first; where it
/// is refused the answer is `InvalidIdentifier` and nothing changes. Otherwise
/// the call does what `start_effect` says.
pub fn try_start_game(deps: &mut DepsMut, sender: &str, addr: String, first_move: GameMove) -> (r:
    Result<Ack, ContractError>)
    ensures
        match r {
            Err(ContractError::InvalidIdentifier(_)) => games_mut(*final(deps)) == games_mut(
                *old(deps),
            ),
            _ => start_effect(
                games_mut(*old(deps)),
                games_mut(*final(deps)),
                sender@,
                addr@,
                first_move,
                r,
            ),
        },
        opening_is_due(games_mut(*old(deps)), sender@, addr@, first_move) ==> opened_unless_invalid(
            r,
        ),
{
    let checked = validate(reader(deps), addr.as_str());
    start_validated(deps, sender, checked, first_move)
}

/// Opens a session once the validator has spoken: its refusal is handed on as
/// `InvalidIdentifier` with nothing changed, and for the address it accepted
/// the call does what `start_effect` says.
pub fn start_validated(
    deps: &mut DepsMut,
    sender: &str,
    checked: Result<String, StdError>,
    first_move: GameMove,
) -> (r: Result<Ack, ContractError>)
    ensures
        match checked {
            Err(e) => r == Err::<Ack, ContractError>(ContractError::InvalidIdentifier(e))
                && games_mut(*final(deps)) == games_mut(*old(deps)),
            Ok(opponent) => start_effect(
                games_mut(*old(deps)),
                games_mut(*final(deps)),
                sender@,
                opponent@,
                first_move,
                r,
            ) && (opening_is_due(games_mut(*old(deps)), sender@, opponent@, first_move) ==> r
                is Ok),
        },
{
    let opponent = match checked {
        Err(e) => {
            return Err(ContractError::InvalidIdentifier(e));
        },
        Ok(opponent) => opponent,
    };
    if first_move == GameMove::NoMove {
        return Err(ContractError::InvalidMove);
    }
    match insert(deps, sender, opponent.as_str(), Data::opened(first_move)) {
        Err(e) => Err(e),
        Ok(()) => Ok(Ack { method: "start_game".to_owned(), owner: None }),
    }
}

/// Records the opponent's move in the pending session between `host` and
/// `opponent` and decides the game, as `answer_effect` says.
pub fn submit_opponent_move(
    deps: &mut DepsMut,
    host: &str,
    opponent: &str,
    opponent_move: GameMove,
) -> (r: Result<Ack, ContractError>)
    ensures
        answer_effect(
            games_mut(*old(deps)),
            games_mut(*final(deps)),
            host@,
            opponent@,
            opponent_move,
            r,
        ),
        answer_is_due(games_mut(*old(deps)), host@, opponent@, opponent_move) ==> r is Ok,
{
    if opponent_move == GameMove::NoMove {
        return Err(ContractError::InvalidMove);
    }
    let session = match get(reader(deps), host, opponent) {
        Err(e) => {
            return Err(e);
        },
        Ok(None) => {
            return Err(ContractError::NoSuchGame);
        },
        Ok(Some(session)) => session,
    };
    if session.result != GameResult::Started {
        return Err(ContractError::GameAlreadyResolved);
    }
    if session.host_move == GameMove::NoMove {
        return Err(ContractError::CorruptRecord);
    }
    match put(deps, host, opponent, session.answered(opponent_move)) {
        Err(e) => Err(e),
        Ok(()) => Ok(Ack { method: "submit_move".to_owned(), owner: None }),
    }
}

/// Answers a query.
pub fn query(deps: Deps, msg: QueryMsg) -> (r: Result<GamesResponse, ContractError>)
    ensures
        match msg {
            QueryMsg::QueryAllGames {  } => listing_effect(games(deps), r),
            QueryMsg::QueryHostGames { addr } => match r {
                Err(ContractError::InvalidIdentifier(_)) => true,
                Err(ContractError::KeyTooLong) => id_bytes(addr@).len() > MAX_HOST_LEN,
                _ => id_bytes(addr@).len() <= MAX_HOST_LEN && listing_effect(
                    with_prefix(games(deps), host_prefix(id_bytes(addr@))),
                    r,
                ),
            },
        },
{
    match msg {
        QueryMsg::QueryHostGames { addr } => query_host_games(deps, addr),
        QueryMsg::QueryAllGames {  } => query_all_games(deps),
    }
}

/// The sessions of one host, each under the bytes of its whole key, as the
/// listing of all sessions has it, in ascending order of the keys and so of
/// the opponents' addresses. The address goes to the validator first, and a
/// refusal is answered with `InvalidIdentifier`. A host without sessions gets
/// an empty response.
pub fn query_host_games(deps: Deps, host_addr: String) -> (r: Result<GamesResponse, ContractError>)
    ensures
        match r {
            Err(ContractError::InvalidIdentifier(_)) => true,
            Err(ContractError::KeyTooLong) => id_bytes(host_addr@).len() > MAX_HOST_LEN,
            _ => id_bytes(host_addr@).len() <= MAX_HOST_LEN && listing_effect(
                with_prefix(games(deps), host_prefix(id_bytes(host_addr@))),
                r,
            ),
        },
        has_no_sessions(games(deps), id_bytes(host_addr@)) ==> match r {
            Ok(response) => response@.len() == 0,
            Err(ContractError::InvalidIdentifier(_)) => true,
            Err(ContractError::KeyTooLong) => true,
            Err(_) => false,
        },
        all_sessions(games(deps)) ==> match r {
            Ok(_) => true,
            Err(ContractError::InvalidIdentifier(_)) => true,
            Err(ContractError::KeyTooLong) => true,
            Err(_) => false,
        },
{
    let checked = validate(deps, host_addr.as_str());
    host_games_validated(deps, checked)
}

/// The sessions of one host once the validator has spoken: its refusal is
/// handed on as `InvalidIdentifier`, an address too long for a key gives
/// `KeyTooLong`, and otherwise the answer is the listing of the entries whose
/// key starts with the host's prefix.
pub fn host_games_validated(deps: Deps, checked: Result<String, StdError>) -> (r: Result<
    GamesResponse,
    ContractError,
>)
    ensures
        match checked {
            Err(e) => r == Err::<GamesResponse, ContractError>(ContractError::InvalidIdentifier(e)),
            Ok(host) => if id_bytes(host@).len() > MAX_HOST_LEN {
                r matches Err(ContractError::KeyTooLong)
            } else {
                &&& listing_effect(with_prefix(games(deps), host_prefix(id_bytes(host@))), r)
                &&& has_no_sessions(games(deps), id_bytes(host@)) ==> match r {
                    Ok(response) => response@.len() == 0,
                    Err(_) => false,
                }
                &&& all_sessions(games(deps)) ==> r is Ok
            },
        },
{
    let host = match checked {
        Err(e) => {
            return Err(ContractError::InvalidIdentifier(e));
        },
        Ok(host) => host,
    };
    if host.as_str().as_bytes().len() > MAX_HOST_LEN {
        return Err(ContractError::KeyTooLong);
    }
    let listed = match list_host(deps, "games", host.as_str()) {
        Err(e) => Err(e),
        Ok(items) => {
            let frame = host_frame(host.as_str());
            proof {
                crate::laws::lemma_framed_listing(rows_of(items@), games(deps), frame@);
            }
            Ok(frame_rows(&frame, &items))
        },
    };
    let ghost shown = listed;
    let r = games_response(listed);
    proof {
        let prefix = host_prefix(id_bytes(host@));
        let entries = with_prefix(games(deps), prefix);
        if shown is Err {
            let k = choose|k: Seq<u8>| #[trigger]
                under_prefix(games(deps), prefix).dom().contains(k) && under_prefix(
                    games(deps),
                    prefix,
                )[k] is None;
            crate::laws::lemma_prefix_starts(prefix, k);
            assert(entries.dom().contains(prefix + k) && entries[prefix + k] is None);
        }
        lemma_response_lists(shown, entries, r);
        if all_sessions(games(deps)) {
            crate::laws::lemma_sessions_with_prefix(games(deps), prefix);
        }
        if has_no_sessions(games(deps), id_bytes(host@)) {
            crate::laws::lemma_no_sessions_no_entries(games(deps), id_bytes(host@));
            crate::laws::law_nothing_to_list(entries, r);
        }
    }
    r
}

/// All sessions, in ascending order of their keys, each under the bytes of
/// its key.
pub fn query_all_games(deps: Deps) -> (r: Result<GamesResponse, ContractError>)
    ensures
        listing_effect(games(deps), r),
        all_sessions(games(deps)) ==> r is Ok,
{
    let listed = list_all(deps, "games");
    let ghost shown = listed;
    let r = games_response(listed);
    proof {
        lemma_response_lists(shown, games(deps), r);
    }
    r
}

} // verus!
