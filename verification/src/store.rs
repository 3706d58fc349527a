//! The session store: the keying scheme, the point operations `insert`, `get`
//! and `put`, and the calls into the contract's storage through the map of
//! cw_storage_plus.

use crate::error::ContractError;
use crate::state::{Data, Record};
use cosmwasm_std::{Addr, Deps, DepsMut, Order, StdError};
use vstd::prelude::*;
use vstd::string::StringSliceAdditionalSpecFns;

verus! {

/// The contract's read-only dependencies, carried through without being read.
#[verifier::external_type_specification]
#[verifier::external_body]
pub struct ExDeps<'a>(Deps<'a>);

/// The contract's mutable dependencies, carried through without being read.
#[verifier::external_type_specification]
#[verifier::external_body]
pub struct ExDepsMut<'a>(DepsMut<'a>);

/// The longest host address, in bytes, that a key can frame.
pub const MAX_HOST_LEN: usize = 0xFFFF;

/// The bytes of an address.
pub open spec fn id_bytes(id: Seq<char>) -> Seq<u8> {
    vstd::utf8::encode_utf8(id)
}

/// What every key of one host starts with: the length of the host's address
/// as two bytes, high byte first, and then the address.
pub open spec fn host_prefix(host: Seq<u8>) -> Seq<u8> {
    seq![(host.len() / 256) as u8, (host.len() % 256) as u8] + host
}

/// The key of the session between `host` and `opponent`: the host's prefix
/// and then the opponent's address.
pub open spec fn session_key(host: Seq<u8>, opponent: Seq<u8>) -> Seq<u8> {
    host_prefix(host) + opponent
}

/// `a` comes before `b` in the order of the bytes.
pub open spec fn bytes_lt(a: Seq<u8>, b: Seq<u8>) -> bool
    decreases a.len(),
{
    if b.len() == 0 {
        false
    } else if a.len() == 0 {
        true
    } else if a[0] != b[0] {
        a[0] < b[0]
    } else {
        bytes_lt(a.drop_first(), b.drop_first())
    }
}

/// `rows` holds each entry of `entries` once, with the record it reads as, in
/// ascending order of the keys, and nothing else. Entries of which one cannot
/// be read have no listing.
pub open spec fn lists(rows: Seq<(Seq<u8>, Record)>, entries: Map<Seq<u8>, Option<Record>>) -> bool {
    &&& forall|i: int|
        0 <= i < rows.len() ==> entries.dom().contains(#[trigger] rows[i].0) && entries[rows[i].0]
            == Some(rows[i].1)
    &&& forall|k: Seq<u8>| #[trigger]
        entries.dom().contains(k) ==> exists|i: int| 0 <= i < rows.len() && #[trigger] rows[i].0 == k
    &&& forall|i: int, j: int|
        0 <= i < j < rows.len() ==> bytes_lt(#[trigger] rows[i].0, #[trigger] rows[j].0)
}

/// The entries whose key starts with `prefix`, each under the rest of its key.
pub open spec fn under_prefix(entries: Map<Seq<u8>, Option<Record>>, prefix: Seq<u8>) -> Map<
    Seq<u8>,
    Option<Record>,
> {
    Map::new(|rest: Seq<u8>| entries.dom().contains(prefix + rest), |rest: Seq<u8>| entries[prefix + rest])
}

/// `key` starts with `prefix`.
pub open spec fn starts_with(key: Seq<u8>, prefix: Seq<u8>) -> bool {
    prefix.len() <= key.len() && key.subrange(0, prefix.len() as int) == prefix
}

/// The entries whose key starts with `prefix`, each under its whole key.
pub open spec fn with_prefix(entries: Map<Seq<u8>, Option<Record>>, prefix: Seq<u8>) -> Map<
    Seq<u8>,
    Option<Record>,
> {
    Map::new(
        |key: Seq<u8>| entries.dom().contains(key) && starts_with(key, prefix),
        |key: Seq<u8>| entries[key],
    )
}

/// The rows with `prefix` put in front of each key.
pub open spec fn framed(rows: Seq<(Seq<u8>, Record)>, prefix: Seq<u8>) -> Seq<(Seq<u8>, Record)> {
    Seq::new(rows.len(), |i: int| (prefix + rows[i].0, rows[i].1))
}

/// What stands in a key of `host` behind the host's prefix: the opponent's
/// address.
pub open spec fn opponent_in(key: Seq<u8>, host: Seq<u8>) -> Seq<u8> {
    key.subrange(2 + host.len() as int, key.len() as int)
}

/// `host` has no session with anybody.
pub open spec fn has_no_sessions(entries: Map<Seq<u8>, Option<Record>>, host: Seq<u8>) -> bool {
    forall|opponent: Seq<u8>| !entries.dom().contains(#[trigger] session_key(host, opponent))
}

/// The session stored under `key`, where the entry reads as a record and the
/// record stands for a session.
pub open spec fn stored_session(entries: Map<Seq<u8>, Option<Record>>, key: Seq<u8>) -> Option<
    Data,
> {
    match entries[key] {
        Some(record) => Data::spec_from_record(record),
        None => None,
    }
}

/// Every entry reads as a record that stands for a session.
pub open spec fn all_sessions(entries: Map<Seq<u8>, Option<Record>>) -> bool {
    forall|k: Seq<u8>| #[trigger] entries.dom().contains(k) ==> stored_session(entries, k) is Some
}

/// The rows of a listing, each key by its bytes.
pub open spec fn rows_of(items: Seq<(Vec<u8>, Record)>) -> Seq<(Seq<u8>, Record)> {
    Seq::new(items.len(), |i: int| (items[i].0@, items[i].1))
}

/// The entries that the storage behind `deps` holds in the namespace
/// "games": each key, without the namespace in front of it, with the record
/// that the bytes stored under it read as, or `None` where they read as no
/// record.
pub uninterp spec fn games(deps: Deps) -> Map<Seq<u8>, Option<Record>>;

/// The same for mutable dependencies.
pub uninterp spec fn games_mut(deps: DepsMut) -> Map<Seq<u8>, Option<Record>>;

/// `DepsMut::as_ref` of cosmwasm_std: the read-only dependencies over the same
/// storage, so they show the same entries.
#[verifier::external_body]
pub(crate) fn reader<'a>(deps: &'a DepsMut<'_>) -> (r: Deps<'a>)
    ensures
        games(r) == games_mut(*deps),
{
    deps.as_ref()
}

/// `Api::addr_validate` of cosmwasm_std, on the validator in `deps`. Whether an
/// address is accepted is the validator's affair; an accepted address is
/// returned with the text that was handed in.
#[verifier::external_body]
pub(crate) fn validate(deps: Deps, raw: &str) -> (r: Result<String, StdError>)
    ensures
        r matches Ok(checked) ==> checked@ == raw@,
{
    deps.api.addr_validate(raw).map(String::from)
}

/// `Map::may_load` of cw_storage_plus, on the map from pairs of addresses to
/// records in `namespace`. `Ok(None)` says that nothing is stored under the
/// key, `Ok(Some(..))` gives the record that the entry there reads as, and an
/// error says that the entry there reads as no record.
#[verifier::external_body]
pub(crate) fn load(deps: Deps, namespace: &'static str, host: &str, opponent: &str) -> (r: Result<
    Option<Record>,
    StdError,
>)
    requires
        namespace@ == "games"@,
        id_bytes(host@).len() <= MAX_HOST_LEN,
    ensures
        match r {
            Ok(Some(record)) => games(deps).dom().contains(
                session_key(id_bytes(host@), id_bytes(opponent@)),
            ) && games(deps)[session_key(id_bytes(host@), id_bytes(opponent@))] == Some(record),
            Ok(None) => !games(deps).dom().contains(
                session_key(id_bytes(host@), id_bytes(opponent@)),
            ),
            Err(_) => games(deps).dom().contains(
                session_key(id_bytes(host@), id_bytes(opponent@)),
            ) && games(deps)[session_key(id_bytes(host@), id_bytes(opponent@))] is None,
        },
{
    let map: cw_storage_plus::Map<(&Addr, &Addr), Record> = cw_storage_plus::Map::new(namespace);
    map.may_load(deps.storage, (&Addr::unchecked(host), &Addr::unchecked(opponent)))
}

/// `Map::save` of cw_storage_plus, on the same map. The call can fail only
/// while it turns the value into bytes, which it cannot for three small
/// numbers, and the storage takes every write: so the call succeeds, the
/// entry under the key reads as the record, and every other entry is as
/// before.
#[verifier::external_body]
pub(crate) fn save(
    deps: &mut DepsMut,
    namespace: &'static str,
    host: &str,
    opponent: &str,
    record: Record,
) -> (r: Result<(), StdError>)
    requires
        namespace@ == "games"@,
        id_bytes(host@).len() <= MAX_HOST_LEN,
    ensures
        r is Ok,
        games_mut(*final(deps)) == games_mut(*old(deps)).insert(
            session_key(id_bytes(host@), id_bytes(opponent@)),
            Some(record),
        ),
{
    let map: cw_storage_plus::Map<(&Addr, &Addr), Record> = cw_storage_plus::Map::new(namespace);
    map.save(deps.storage, (&Addr::unchecked(host), &Addr::unchecked(opponent)), &record)
}

/// `Map::range` of cw_storage_plus, unbounded and ascending, collected. On
/// success the rows are all the entries in ascending order of their keys. An
/// error comes from an entry that reads as no record, and from nothing else.
#[verifier::external_body]
pub(crate) fn list_all(deps: Deps, namespace: &'static str) -> (r: Result<
    Vec<(Vec<u8>, Record)>,
    StdError,
>)
    requires
        namespace@ == "games"@,
    ensures
        r matches Ok(items) ==> lists(rows_of(items@), games(deps)),
        r is Err ==> exists|k: Seq<u8>| #[trigger]
            games(deps).dom().contains(k) && games(deps)[k] is None,
{
    let map: cw_storage_plus::Map<(&Addr, &Addr), Record> = cw_storage_plus::Map::new(namespace);
    map.range(deps.storage, None, None, Order::Ascending).collect()
}

/// `Map::prefix` and `Prefix::range` of cw_storage_plus, unbounded and
/// ascending, collected. On success the rows are the sessions whose key
/// starts with the host's prefix, each under the rest of its key, in
/// ascending order. An error comes from an entry under the prefix that reads
/// as no record, and from nothing else.
#[verifier::external_body]
pub(crate) fn list_host(deps: Deps, namespace: &'static str, host: &str) -> (r: Result<
    Vec<(Vec<u8>, Record)>,
    StdError,
>)
    requires
        namespace@ == "games"@,
        id_bytes(host@).len() <= MAX_HOST_LEN,
    ensures
        r matches Ok(items) ==> lists(
            rows_of(items@),
            under_prefix(games(deps), host_prefix(id_bytes(host@))),
        ),
        r is Err ==> exists|k: Seq<u8>| #[trigger]
            under_prefix(games(deps), host_prefix(id_bytes(host@))).dom().contains(k)
                && under_prefix(games(deps), host_prefix(id_bytes(host@)))[k] is None,
{
    let map: cw_storage_plus::Map<(&Addr, &Addr), Record> = cw_storage_plus::Map::new(namespace);
    map.prefix(&Addr::unchecked(host)).range(deps.storage, None, None, Order::Ascending).collect()
}

/// `set_contract_version` of cw2: it writes the contract's name and version
/// under a key of its own and leaves the entries of the sessions as they are.
/// It can fail only while it turns the two strings into bytes, which it
/// cannot: so the call succeeds.
#[verifier::external_body]
pub(crate) fn record_version(deps: &mut DepsMut, name: &str, version: &str) -> (r: Result<
    (),
    StdError,
>)
    ensures
        r is Ok,
        games_mut(*final(deps)) == games_mut(*old(deps)),
{
    cw2::set_contract_version(deps.storage, name, version)
}

/// What `insert` does for the pair `host`, `opponent`: the session is written
/// when the host's address fits a key and nothing stands under the key;
/// otherwise nothing changes, and the error is `KeyTooLong` for the address,
/// `GameInProgress` for a session under the key, `CorruptRecord` for an entry
/// there that reads as a record of no session, and `Std` for one that reads
/// as no record at all.
pub open spec fn insert_effect(
    before: Map<Seq<u8>, Option<Record>>,
    after: Map<Seq<u8>, Option<Record>>,
    host: Seq<char>,
    opponent: Seq<char>,
    session: Data,
    r: Result<(), ContractError>,
) -> bool {
    let key = session_key(id_bytes(host), id_bytes(opponent));
    let fits = id_bytes(host).len() <= MAX_HOST_LEN;
    match r {
        Ok(_) => fits && !before.dom().contains(key) && after == before.insert(
            key,
            Some(session.spec_record()),
        ),
        Err(ContractError::KeyTooLong) => !fits && after == before,
        Err(ContractError::GameInProgress) => fits && before.dom().contains(key)
            && stored_session(before, key) is Some && after == before,
        Err(ContractError::CorruptRecord) => fits && before.dom().contains(key) && before[key]
            is Some && stored_session(before, key) is None && after == before,
        Err(ContractError::Std(_)) => fits && before.dom().contains(key) && before[key] is None
            && after == before,
        Err(_) => false,
    }
}

/// What `get` answers for the pair `host`, `opponent`: the stored session,
/// `None` where nothing stands under the key, `CorruptRecord` where the entry
/// there reads as a record of no session, and `Std` where it reads as no
/// record at all.
pub open spec fn get_effect(
    entries: Map<Seq<u8>, Option<Record>>,
    host: Seq<char>,
    opponent: Seq<char>,
    r: Result<Option<Data>, ContractError>,
) -> bool {
    let key = session_key(id_bytes(host), id_bytes(opponent));
    let fits = id_bytes(host).len() <= MAX_HOST_LEN;
    match r {
        Ok(Some(session)) => fits && entries.dom().contains(key) && stored_session(entries, key)
            == Some(session),
        Ok(None) => fits && !entries.dom().contains(key),
        Err(ContractError::KeyTooLong) => !fits,
        Err(ContractError::CorruptRecord) => fits && entries.dom().contains(key)
            && entries[key] is Some && stored_session(entries, key) is None,
        Err(ContractError::Std(_)) => fits && entries.dom().contains(key) && entries[key] is None,
        Err(_) => false,
    }
}

/// What `put` does for the pair `host`, `opponent`: the session stands under
/// the key, whatever stood there, unless the host's address fits no key, and
/// then nothing changes.
pub open spec fn put_effect(
    before: Map<Seq<u8>, Option<Record>>,
    after: Map<Seq<u8>, Option<Record>>,
    host: Seq<char>,
    opponent: Seq<char>,
    session: Data,
    r: Result<(), ContractError>,
) -> bool {
    let key = session_key(id_bytes(host), id_bytes(opponent));
    let fits = id_bytes(host).len() <= MAX_HOST_LEN;
    match r {
        Ok(_) => fits && after == before.insert(key, Some(session.spec_record())),
        Err(ContractError::KeyTooLong) => !fits && after == before,
        Err(_) => false,
    }
}

/// Writes a session for a pair that has none. A pair that has one keeps it,
/// and the answer is `GameInProgress`; where the entry under the pair's key
/// cannot be read as a session, the error of reading it is handed on.
pub fn insert(deps: &mut DepsMut, host: &str, opponent: &str, session: Data) -> (r: Result<
    (),
    ContractError,
>)
    ensures
        insert_effect(
            games_mut(*old(deps)),
            games_mut(*final(deps)),
            host@,
            opponent@,
            session,
            r,
        ),
        id_bytes(host@).len() <= MAX_HOST_LEN && !games_mut(*old(deps)).dom().contains(
            session_key(id_bytes(host@), id_bytes(opponent@)),
        ) ==> r is Ok,
{
    match get(reader(deps), host, opponent) {
        Ok(None) => {},
        Ok(Some(_)) => {
            return Err(ContractError::GameInProgress);
        },
        Err(e) => {
            return Err(e);
        },
    }
    match save(deps, "games", host, opponent, session.record()) {
        Ok(()) => Ok(()),
        // The write owes success; this arm only satisfies the type.
        Err(e) => Err(ContractError::Std(e)),
    }
}

/// Looks a session up. Nothing is changed.
pub fn get(deps: Deps, host: &str, opponent: &str) -> (r: Result<Option<Data>, ContractError>)
    ensures
        get_effect(games(deps), host@, opponent@, r),
{
    if host.as_bytes().len() > MAX_HOST_LEN {
        return Err(ContractError::KeyTooLong);
    }
    match load(deps, "games", host, opponent) {
        Err(e) => Err(ContractError::Std(e)),
        Ok(None) => Ok(None),
        Ok(Some(record)) => match Data::from_record(record) {
            None => Err(ContractError::CorruptRecord),
            Some(session) => Ok(Some(session)),
        },
    }
}

/// Writes a session over whatever stands under the pair's key.
pub fn put(deps: &mut DepsMut, host: &str, opponent: &str, session: Data) -> (r: Result<
    (),
    ContractError,
>)
    ensures
        put_effect(
            games_mut(*old(deps)),
            games_mut(*final(deps)),
            host@,
            opponent@,
            session,
            r,
        ),
        id_bytes(host@).len() <= MAX_HOST_LEN ==> r is Ok,
{
    if host.as_bytes().len() > MAX_HOST_LEN {
        return Err(ContractError::KeyTooLong);
    }
    match save(deps, "games", host, opponent, session.record()) {
        Ok(()) => Ok(()),
        // The write owes success; this arm only satisfies the type.
        Err(e) => Err(ContractError::Std(e)),
    }
}

/// The prefix of the keys of `host`, as bytes.
pub(crate) fn host_frame(host: &str) -> (frame: Vec<u8>)
    requires
        id_bytes(host@).len() <= MAX_HOST_LEN,
    ensures
        frame@ == host_prefix(id_bytes(host@)),
{
    let bytes = host.as_bytes();
    let n: usize = bytes.len();
    let mut frame: Vec<u8> = Vec::new();
    frame.push((n / 256) as u8);
    frame.push((n % 256) as u8);
    let mut i: usize = 0;
    while i < n
        invariant
            n == bytes@.len(),
            i <= n,
            frame@ == seq![(n / 256) as u8, (n % 256) as u8] + bytes@.subrange(0, i as int),
        decreases n - i,
    {
        frame.push(bytes[i]);
        i = i + 1;
        assert(frame@ =~= seq![(n / 256) as u8, (n % 256) as u8] + bytes@.subrange(0, i as int));
    }
    assert(bytes@.subrange(0, n as int) =~= bytes@);
    frame
}

/// `frame` and then `rest`.
pub(crate) fn framed_key(frame: &Vec<u8>, rest: &Vec<u8>) -> (key: Vec<u8>)
    ensures
        key@ == frame@ + rest@,
{
    let mut key: Vec<u8> = Vec::new();
    let mut i: usize = 0;
    while i < frame.len()
        invariant
            i <= frame.len(),
            key@ == frame@.subrange(0, i as int),
        decreases frame.len() - i,
    {
        key.push(frame[i]);
        i = i + 1;
        assert(key@ =~= frame@.subrange(0, i as int));
    }
    assert(frame@.subrange(0, frame.len() as int) =~= frame@);
    let mut j: usize = 0;
    while j < rest.len()
        invariant
            j <= rest.len(),
            key@ == frame@ + rest@.subrange(0, j as int),
        decreases rest.len() - j,
    {
        key.push(rest[j]);
        j = j + 1;
        assert(key@ =~= frame@ + rest@.subrange(0, j as int));
    }
    assert(rest@.subrange(0, rest.len() as int) =~= rest@);
    key
}

/// The rows with `frame` put in front of each key, in the same order.
pub(crate) fn frame_rows(frame: &Vec<u8>, items: &Vec<(Vec<u8>, Record)>) -> (out: Vec<
    (Vec<u8>, Record),
>)
    ensures
        rows_of(out@) == framed(rows_of(items@), frame@),
{
    let mut out: Vec<(Vec<u8>, Record)> = Vec::new();
    let mut i: usize = 0;
    while i < items.len()
        invariant
            i <= items.len(),
            out@.len() == i,
            forall|j: int|
                0 <= j < i ==> (#[trigger] out@[j]).0@ == frame@ + items@[j].0@ && out@[j].1
                    == items@[j].1,
        decreases items.len() - i,
    {
        let key = framed_key(frame, &items[i].0);
        let record: Record = items[i].1;
        out.push((key, record));
        i = i + 1;
    }
    assert(rows_of(out@) =~= framed(rows_of(items@), frame@));
    out
}

} // verus!
