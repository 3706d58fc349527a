//! What holds of the keying scheme, of the listings and of sessions opened
//! one after another.

use crate::contract::{answer_effect, listing_effect, start_effect};
use crate::error::ContractError;
use crate::msg::{Ack, GamesResponse};
use crate::state::{Data, GameMove, Record};
use crate::store::{
    all_sessions, bytes_lt, framed, has_no_sessions, host_prefix, id_bytes, lists, opponent_in,
    session_key, starts_with, stored_session, under_prefix, with_prefix, MAX_HOST_LEN,
};
use vstd::prelude::*;

verus! {

/// The record that opening with `first_move` writes.
pub open spec fn opening_record(first_move: GameMove) -> Record {
    Data::spec_opened(first_move).spec_record()
}

/// A key that starts with a host's prefix belongs to that host: two pairs with
/// the same key are the same pair.
pub proof fn lemma_session_key_injective(
    host: Seq<u8>,
    opponent: Seq<u8>,
    other_host: Seq<u8>,
    other_opponent: Seq<u8>,
)
    requires
        host.len() <= MAX_HOST_LEN,
        other_host.len() <= MAX_HOST_LEN,
        session_key(host, opponent) == session_key(other_host, other_opponent),
    ensures
        host == other_host,
        opponent == other_opponent,
{
    let k = session_key(host, opponent);
    let n = host.len() as int;
    let m = other_host.len() as int;
    assert(k[0] == (n / 256) as u8 && k[1] == (n % 256) as u8);
    assert(k[0] == (m / 256) as u8 && k[1] == (m % 256) as u8);
    assert(n == m);
    assert(host =~= k.subrange(2, 2 + n));
    assert(other_host =~= k.subrange(2, 2 + m));
    assert(opponent =~= k.subrange(2 + n, k.len() as int));
    assert(other_opponent =~= k.subrange(2 + m, k.len() as int));
}

/// Two addresses with the same bytes are the same address.
pub proof fn lemma_id_bytes_injective(a: Seq<char>, b: Seq<char>)
    requires
        id_bytes(a) == id_bytes(b),
    ensures
        a == b,
{
    vstd::utf8::encode_utf8_decode_utf8(a);
    vstd::utf8::encode_utf8_decode_utf8(b);
}

/// No key comes before itself.
pub proof fn lemma_bytes_lt_irreflexive(a: Seq<u8>)
    ensures
        !bytes_lt(a, a),
    decreases a.len(),
{
    if a.len() > 0 {
        lemma_bytes_lt_irreflexive(a.drop_first());
    }
}

/// Of two keys at most one comes before the other.
pub proof fn lemma_bytes_lt_asymmetric(a: Seq<u8>, b: Seq<u8>)
    ensures
        !(bytes_lt(a, b) && bytes_lt(b, a)),
    decreases a.len(),
{
    if a.len() > 0 && b.len() > 0 && a[0] == b[0] {
        lemma_bytes_lt_asymmetric(a.drop_first(), b.drop_first());
    }
}

/// The order of the keys is transitive.
pub proof fn lemma_bytes_lt_transitive(a: Seq<u8>, b: Seq<u8>, c: Seq<u8>)
    requires
        bytes_lt(a, b),
        bytes_lt(b, c),
    ensures
        bytes_lt(a, c),
    decreases a.len(),
{
    if a.len() > 0 && a[0] == b[0] && b[0] == c[0] {
        lemma_bytes_lt_transitive(a.drop_first(), b.drop_first(), c.drop_first());
    }
}

/// Of two different keys one comes before the other.
pub proof fn lemma_bytes_lt_total(a: Seq<u8>, b: Seq<u8>)
    ensures
        a == b || bytes_lt(a, b) || bytes_lt(b, a),
    decreases a.len(),
{
    if a.len() == 0 || b.len() == 0 {
        if a.len() == 0 && b.len() == 0 {
            assert(a =~= b);
        }
    } else if a[0] == b[0] {
        lemma_bytes_lt_total(a.drop_first(), b.drop_first());
        if a.drop_first() == b.drop_first() {
            assert(a =~= seq![a[0]] + a.drop_first());
            assert(b =~= seq![b[0]] + b.drop_first());
        }
    }
}

/// Keys that share what they start with are ordered as their rests are: the
/// sessions of one host stand together among all sessions, in the order of
/// the opponents' addresses.
pub proof fn lemma_bytes_lt_after_prefix(prefix: Seq<u8>, a: Seq<u8>, b: Seq<u8>)
    ensures
        bytes_lt(prefix + a, prefix + b) == bytes_lt(a, b),
    decreases prefix.len(),
{
    if prefix.len() == 0 {
        assert(prefix + a =~= a);
        assert(prefix + b =~= b);
    } else {
        let rest = prefix.drop_first();
        assert((prefix + a).drop_first() =~= rest + a);
        assert((prefix + b).drop_first() =~= rest + b);
        lemma_bytes_lt_after_prefix(rest, a, b);
    }
}

/// Opening a session for a pair that has one is refused with
/// `GameInProgress`, whatever real move is offered, and the stored session
/// stays as the first opening wrote it.
pub proof fn law_second_opening_is_refused(
    s0: Map<Seq<u8>, Option<Record>>,
    s1: Map<Seq<u8>, Option<Record>>,
    s2: Map<Seq<u8>, Option<Record>>,
    host: Seq<char>,
    opponent: Seq<char>,
    first: GameMove,
    second: GameMove,
    r1: Result<Ack, ContractError>,
    r2: Result<Ack, ContractError>,
)
    requires
        start_effect(s0, s1, host, opponent, first, r1),
        r1 is Ok,
        second != GameMove::NoMove,
        start_effect(s1, s2, host, opponent, second, r2),
    ensures
        r2 matches Err(ContractError::GameInProgress),
        s2 == s1,
        s2[session_key(id_bytes(host), id_bytes(opponent))] == Some(opening_record(first)),
{
    crate::state::lemma_record_round_trip(Data::spec_opened(first));
}

/// A refused opening never changes the sessions, whatever the reason.
pub proof fn law_refused_opening_changes_nothing(
    s0: Map<Seq<u8>, Option<Record>>,
    s1: Map<Seq<u8>, Option<Record>>,
    host: Seq<char>,
    opponent: Seq<char>,
    first: GameMove,
    r: Result<Ack, ContractError>,
)
    requires
        start_effect(s0, s1, host, opponent, first, r),
        r is Err,
    ensures
        s1 == s0,
{
}

/// One host may open sessions with two different opponents: after the first
/// opening the second pair is as free as it was, so the second opening goes
/// through, and then both sessions stand.
pub proof fn law_other_opponent_is_independent(
    s0: Map<Seq<u8>, Option<Record>>,
    s1: Map<Seq<u8>, Option<Record>>,
    s2: Map<Seq<u8>, Option<Record>>,
    host: Seq<char>,
    opponent: Seq<char>,
    other: Seq<char>,
    first: GameMove,
    second: GameMove,
    r1: Result<Ack, ContractError>,
    r2: Result<Ack, ContractError>,
)
    requires
        opponent != other,
        !s0.dom().contains(session_key(id_bytes(host), id_bytes(other))),
        start_effect(s0, s1, host, opponent, first, r1),
        r1 is Ok,
        second != GameMove::NoMove,
        start_effect(s1, s2, host, other, second, r2),
    ensures
        session_key(id_bytes(host), id_bytes(opponent)) != session_key(
            id_bytes(host),
            id_bytes(other),
        ),
        r2 is Ok,
        s2[session_key(id_bytes(host), id_bytes(opponent))] == Some(opening_record(first)),
        s2[session_key(id_bytes(host), id_bytes(other))] == Some(opening_record(second)),
        s2.dom() == s0.dom().insert(session_key(id_bytes(host), id_bytes(opponent))).insert(
            session_key(id_bytes(host), id_bytes(other)),
        ),
{
    if session_key(id_bytes(host), id_bytes(opponent)) == session_key(
        id_bytes(host),
        id_bytes(other),
    ) {
        lemma_session_key_injective(
            id_bytes(host),
            id_bytes(opponent),
            id_bytes(host),
            id_bytes(other),
        );
        lemma_id_bytes_injective(opponent, other);
    }
}

/// Two different hosts may each open a session with the same opponent: the
/// pair is ordered, so the second host's pair is as free as it was, and the
/// second opening goes through, and then both sessions stand.
pub proof fn law_other_host_is_independent(
    s0: Map<Seq<u8>, Option<Record>>,
    s1: Map<Seq<u8>, Option<Record>>,
    s2: Map<Seq<u8>, Option<Record>>,
    host: Seq<char>,
    other: Seq<char>,
    opponent: Seq<char>,
    first: GameMove,
    second: GameMove,
    r1: Result<Ack, ContractError>,
    r2: Result<Ack, ContractError>,
)
    requires
        host != other,
        id_bytes(other).len() <= MAX_HOST_LEN,
        !s0.dom().contains(session_key(id_bytes(other), id_bytes(opponent))),
        start_effect(s0, s1, host, opponent, first, r1),
        r1 is Ok,
        second != GameMove::NoMove,
        start_effect(s1, s2, other, opponent, second, r2),
    ensures
        session_key(id_bytes(host), id_bytes(opponent)) != session_key(
            id_bytes(other),
            id_bytes(opponent),
        ),
        r2 is Ok,
        s2[session_key(id_bytes(host), id_bytes(opponent))] == Some(opening_record(first)),
        s2[session_key(id_bytes(other), id_bytes(opponent))] == Some(opening_record(second)),
        s2.dom() == s0.dom().insert(session_key(id_bytes(host), id_bytes(opponent))).insert(
            session_key(id_bytes(other), id_bytes(opponent)),
        ),
{
    if session_key(id_bytes(host), id_bytes(opponent)) == session_key(
        id_bytes(other),
        id_bytes(opponent),
    ) {
        lemma_session_key_injective(
            id_bytes(host),
            id_bytes(opponent),
            id_bytes(other),
            id_bytes(opponent),
        );
        lemma_id_bytes_injective(host, other);
    }
}

/// A host whose address fits no key opens nothing: with a real move the
/// answer is `KeyTooLong`, whatever the store holds, and nothing changes.
pub proof fn law_too_long_host_opens_nothing(
    s0: Map<Seq<u8>, Option<Record>>,
    s1: Map<Seq<u8>, Option<Record>>,
    host: Seq<char>,
    opponent: Seq<char>,
    first: GameMove,
    r: Result<Ack, ContractError>,
)
    requires
        id_bytes(host).len() > MAX_HOST_LEN,
        first != GameMove::NoMove,
        start_effect(s0, s1, host, opponent, first, r),
    ensures
        r matches Err(ContractError::KeyTooLong),
        s1 == s0,
{
}

/// The keys of the rows, in their order.
pub open spec fn keys_of(rows: Seq<(Seq<u8>, Record)>) -> Seq<Seq<u8>> {
    Seq::new(rows.len(), |i: int| rows[i].0)
}

/// A listing has as many rows as there are entries: the entries are finitely
/// many and none is listed twice.
pub proof fn law_listing_counts_the_entries(
    rows: Seq<(Seq<u8>, Record)>,
    entries: Map<Seq<u8>, Option<Record>>,
)
    requires
        lists(rows, entries),
    ensures
        entries.dom().finite(),
        rows.len() == entries.dom().len(),
{
    let keys = keys_of(rows);
    assert forall|i: int, j: int| 0 <= i < keys.len() && 0 <= j < keys.len() && i != j implies keys[i]
        != keys[j] by {
        lemma_bytes_lt_irreflexive(keys[i]);
        if i < j {
            assert(bytes_lt(rows[i].0, rows[j].0));
        } else {
            assert(bytes_lt(rows[j].0, rows[i].0));
        }
    }
    assert(keys.no_duplicates());
    keys.unique_seq_to_set();
    assert forall|k: Seq<u8>| keys.to_set().contains(k) <==> entries.dom().contains(k) by {
        if keys.to_set().contains(k) {
            let i = choose|i: int| 0 <= i < keys.len() && keys[i] == k;
            assert(entries.dom().contains(rows[i].0));
        }
        if entries.dom().contains(k) {
            let i = choose|i: int| 0 <= i < rows.len() && #[trigger] rows[i].0 == k;
            assert(keys[i] == k);
        }
    }
    assert(keys.to_set() =~= entries.dom());
    vstd::seq_lib::seq_to_set_is_finite(keys);
}

/// A listing is determined by the entries: two listings of the same entries
/// are the same rows in the same order.
pub proof fn law_listing_is_unique(
    rows: Seq<(Seq<u8>, Record)>,
    other: Seq<(Seq<u8>, Record)>,
    entries: Map<Seq<u8>, Option<Record>>,
)
    requires
        lists(rows, entries),
        lists(other, entries),
    ensures
        rows == other,
    decreases rows.len(),
{
    law_listing_counts_the_entries(rows, entries);
    law_listing_counts_the_entries(other, entries);
    if rows.len() == 0 {
        assert(rows =~= other);
    } else {
        let k1 = rows[0].0;
        let k2 = other[0].0;
        assert(entries.dom().contains(k1));
        assert(entries.dom().contains(k2));
        let j = choose|j: int| 0 <= j < other.len() && #[trigger] other[j].0 == k1;
        let i = choose|i: int| 0 <= i < rows.len() && #[trigger] rows[i].0 == k2;
        if j > 0 && i > 0 {
            assert(bytes_lt(other[0].0, other[j].0));
            assert(bytes_lt(rows[0].0, rows[i].0));
            lemma_bytes_lt_asymmetric(k1, k2);
        }
        assert(k1 == k2);
        assert(rows[0] == other[0]);
        let rest = entries.remove(k1);
        lemma_rest_is_listed(rows, entries);
        lemma_rest_is_listed(other, entries);
        law_listing_is_unique(rows.drop_first(), other.drop_first(), rest);
        assert(rows =~= seq![rows[0]] + rows.drop_first());
        assert(other =~= seq![other[0]] + other.drop_first());
    }
}

/// Without its first row, a listing lists the entries without that row's key.
proof fn lemma_rest_is_listed(rows: Seq<(Seq<u8>, Record)>, entries: Map<Seq<u8>, Option<Record>>)
    requires
        lists(rows, entries),
        rows.len() > 0,
    ensures
        lists(rows.drop_first(), entries.remove(rows[0].0)),
{
    let tail = rows.drop_first();
    let rest = entries.remove(rows[0].0);
    assert forall|i: int| 0 <= i < tail.len() implies rest.dom().contains(#[trigger] tail[i].0)
        && rest[tail[i].0] == Some(tail[i].1) by {
        assert(tail[i] == rows[i + 1]);
        assert(entries.dom().contains(rows[i + 1].0));
        assert(bytes_lt(rows[0].0, rows[i + 1].0));
        lemma_bytes_lt_irreflexive(rows[0].0);
    }
    assert forall|k: Seq<u8>| #[trigger] rest.dom().contains(k) implies exists|i: int|
        0 <= i < tail.len() && #[trigger] tail[i].0 == k by {
        assert(entries.dom().contains(k));
        let i = choose|i: int| 0 <= i < rows.len() && #[trigger] rows[i].0 == k;
        assert(i != 0);
        assert(tail[i - 1] == rows[i]);
        assert(tail[i - 1].0 == k);
    }
    assert forall|i: int, j: int| 0 <= i < j < tail.len() implies bytes_lt(
        #[trigger] tail[i].0,
        #[trigger] tail[j].0,
    ) by {
        assert(tail[i] == rows[i + 1]);
        assert(tail[j] == rows[j + 1]);
        assert(bytes_lt(rows[i + 1].0, rows[j + 1].0));
    }
}

/// The state after `n` of the openings `calls`, each of which went through,
/// is `states[n]`.
pub open spec fn openings_went_through(
    states: Seq<Map<Seq<u8>, Option<Record>>>,
    calls: Seq<(Seq<char>, Seq<char>, GameMove)>,
    answers: Seq<Result<Ack, ContractError>>,
) -> bool {
    &&& states.len() == calls.len() + 1
    &&& answers.len() == calls.len()
    &&& states[0] == Map::<Seq<u8>, Option<Record>>::empty()
    &&& forall|i: int|
        0 <= i < calls.len() ==> (#[trigger] answers[i]) is Ok && start_effect(
            states[i],
            states[i + 1],
            calls[i].0,
            calls[i].1,
            calls[i].2,
            answers[i],
        )
}

/// The entry `stored` under `key` is what the opening `call` wrote.
pub open spec fn written_by(
    key: Seq<u8>,
    stored: Option<Record>,
    call: (Seq<char>, Seq<char>, GameMove),
) -> bool {
    &&& key == session_key(id_bytes(call.0), id_bytes(call.1))
    &&& stored == Some(opening_record(call.2))
}

/// The entry `stored` under `key` was written by one of the first `n`
/// openings of `calls`.
pub open spec fn written_by_one_of(
    key: Seq<u8>,
    stored: Option<Record>,
    calls: Seq<(Seq<char>, Seq<char>, GameMove)>,
    n: int,
) -> bool {
    exists|i: int| 0 <= i < n && i < calls.len() && written_by(key, stored, #[trigger] calls[i])
}

/// After `n` openings that went through, starting from no sessions, there
/// are exactly `n` entries, each is what one of these openings wrote, and so
/// each stands for a session.
pub proof fn law_openings_are_counted(
    states: Seq<Map<Seq<u8>, Option<Record>>>,
    calls: Seq<(Seq<char>, Seq<char>, GameMove)>,
    answers: Seq<Result<Ack, ContractError>>,
    n: int,
)
    requires
        openings_went_through(states, calls, answers),
        0 <= n <= calls.len(),
    ensures
        states[n].dom().finite(),
        states[n].dom().len() == n,
        forall|k: Seq<u8>| #[trigger]
            states[n].dom().contains(k) ==> written_by_one_of(k, states[n][k], calls, n),
        all_sessions(states[n]),
    decreases n,
{
    if n > 0 {
        law_openings_are_counted(states, calls, answers, n - 1);
        let before = states[n - 1];
        let after = states[n];
        let call = calls[n - 1];
        let key = session_key(id_bytes(call.0), id_bytes(call.1));
        assert(answers[n - 1] is Ok);
        assert(after == before.insert(key, Some(opening_record(call.2))));
        assert(after.dom() =~= before.dom().insert(key));
        assert forall|k: Seq<u8>| #[trigger] after.dom().contains(k) implies written_by_one_of(
            k,
            after[k],
            calls,
            n,
        ) && stored_session(after, k) is Some by {
            if k == key {
                assert(written_by(k, after[k], calls[n - 1]));
                crate::state::lemma_record_round_trip(Data::spec_opened(call.2));
            } else {
                assert(before.dom().contains(k));
                assert(written_by_one_of(k, before[k], calls, n - 1));
                let i = choose|i: int|
                    0 <= i < n - 1 && i < calls.len() && written_by(
                        k,
                        before[k],
                        #[trigger] calls[i],
                    );
                assert(written_by(k, after[k], calls[i]));
            }
        }
    }
}

/// A listing of all sessions after `n` openings that went through, starting
/// from no sessions, has `n` rows, and each row is the key and the record of
/// one of these openings.
pub proof fn law_listing_after_openings(
    states: Seq<Map<Seq<u8>, Option<Record>>>,
    calls: Seq<(Seq<char>, Seq<char>, GameMove)>,
    answers: Seq<Result<Ack, ContractError>>,
    rows: Seq<(Seq<u8>, Record)>,
)
    requires
        openings_went_through(states, calls, answers),
        lists(rows, states.last()),
    ensures
        rows.len() == calls.len(),
        forall|j: int|
            0 <= j < rows.len() ==> written_by_one_of(
                (#[trigger] rows[j]).0,
                Some(rows[j].1),
                calls,
                calls.len() as int,
            ),
{
    let n = calls.len() as int;
    law_openings_are_counted(states, calls, answers, n);
    law_listing_counts_the_entries(rows, states[n]);
    assert forall|j: int| 0 <= j < rows.len() implies written_by_one_of(
        (#[trigger] rows[j]).0,
        Some(rows[j].1),
        calls,
        n,
    ) by {
        assert(states[n].dom().contains(rows[j].0));
    }
}

/// Where every entry stands for a session, a listing succeeds.
pub proof fn law_listing_of_sessions_succeeds(
    entries: Map<Seq<u8>, Option<Record>>,
    r: Result<GamesResponse, ContractError>,
)
    requires
        listing_effect(entries, r),
        all_sessions(entries),
    ensures
        r is Ok,
{
}

/// The query for all sessions after `n` openings that went through, starting
/// from no sessions, succeeds with `n` rows, each the key and the session of
/// one of these openings.
pub proof fn law_query_after_openings(
    states: Seq<Map<Seq<u8>, Option<Record>>>,
    calls: Seq<(Seq<char>, Seq<char>, GameMove)>,
    answers: Seq<Result<Ack, ContractError>>,
    r: Result<GamesResponse, ContractError>,
)
    requires
        openings_went_through(states, calls, answers),
        listing_effect(states.last(), r),
    ensures
        match r {
            Ok(response) => {
                &&& response@.len() == calls.len()
                &&& forall|j: int|
                    0 <= j < response@.len() ==> written_by_one_of(
                        (#[trigger] response@[j]).0,
                        Some(response@[j].1.spec_record()),
                        calls,
                        calls.len() as int,
                    )
            },
            Err(_) => false,
        },
{
    let n = calls.len() as int;
    law_openings_are_counted(states, calls, answers, n);
    law_listing_of_sessions_succeeds(states[n], r);
    match r {
        Ok(response) => {
            let rows = crate::contract::records_of(response@);
            law_listing_after_openings(states, calls, answers, rows);
            assert forall|j: int| 0 <= j < response@.len() implies written_by_one_of(
                (#[trigger] response@[j]).0,
                Some(response@[j].1.spec_record()),
                calls,
                n,
            ) by {
                assert(rows[j] == (response@[j].0, response@[j].1.spec_record()));
                assert(written_by_one_of(rows[j].0, Some(rows[j].1), calls, n));
            }
        },
        Err(_) => {},
    }
}

/// Opening a session leaves every entry standing for a session, where each
/// did before.
pub proof fn law_opening_keeps_sessions(
    s0: Map<Seq<u8>, Option<Record>>,
    s1: Map<Seq<u8>, Option<Record>>,
    host: Seq<char>,
    opponent: Seq<char>,
    first: GameMove,
    r: Result<Ack, ContractError>,
)
    requires
        start_effect(s0, s1, host, opponent, first, r),
        all_sessions(s0),
    ensures
        all_sessions(s1),
{
    crate::state::lemma_record_round_trip(Data::spec_opened(first));
    assert forall|k: Seq<u8>| #[trigger] s1.dom().contains(k) implies stored_session(s1, k)
        is Some by {
        if k != session_key(id_bytes(host), id_bytes(opponent)) {
            assert(s0.dom().contains(k));
        }
    }
}

/// Answering a session leaves every entry standing for a session, where each
/// did before.
pub proof fn law_answer_keeps_sessions(
    s0: Map<Seq<u8>, Option<Record>>,
    s1: Map<Seq<u8>, Option<Record>>,
    host: Seq<char>,
    opponent: Seq<char>,
    opponent_move: GameMove,
    r: Result<Ack, ContractError>,
)
    requires
        answer_effect(s0, s1, host, opponent, opponent_move, r),
        all_sessions(s0),
    ensures
        all_sessions(s1),
{
    let key = session_key(id_bytes(host), id_bytes(opponent));
    if r is Ok {
        let d = stored_session(s0, key)->Some_0;
        crate::state::lemma_record_round_trip(
            Data {
                host_move: d.host_move,
                opponent_move,
                result: crate::state::outcome(d.host_move, opponent_move),
            },
        );
    }
    assert forall|k: Seq<u8>| #[trigger] s1.dom().contains(k) implies stored_session(s1, k)
        is Some by {
        if k != key {
            assert(s0.dom().contains(k));
        }
    }
}

/// A listing of no entries succeeds and is empty: a host without sessions
/// gets an empty answer, not an error.
pub proof fn law_nothing_to_list(
    entries: Map<Seq<u8>, Option<Record>>,
    r: Result<GamesResponse, ContractError>,
)
    requires
        listing_effect(entries, r),
        forall|k: Seq<u8>| !entries.dom().contains(k),
    ensures
        r matches Ok(response) && response@.len() == 0,
{
    match r {
        Ok(response) => {
            if response@.len() > 0 {
                assert(entries.dom().contains(crate::contract::records_of(response@)[0].0));
            }
        },
        Err(_) => {},
    }
}

/// A key made of a prefix and a rest starts with the prefix, and the rest is
/// what stands behind it.
pub proof fn lemma_prefix_starts(prefix: Seq<u8>, rest: Seq<u8>)
    ensures
        starts_with(prefix + rest, prefix),
        (prefix + rest).subrange(prefix.len() as int, (prefix + rest).len() as int) == rest,
{
    assert((prefix + rest).subrange(0, prefix.len() as int) =~= prefix);
    assert((prefix + rest).subrange(prefix.len() as int, (prefix + rest).len() as int) =~= rest);
}

/// A key that starts with a prefix is the prefix and then the rest of the
/// key.
pub proof fn lemma_key_is_prefix_and_rest(key: Seq<u8>, prefix: Seq<u8>)
    requires
        starts_with(key, prefix),
    ensures
        key == prefix + key.subrange(prefix.len() as int, key.len() as int),
{
    assert(key =~= key.subrange(0, prefix.len() as int) + key.subrange(
        prefix.len() as int,
        key.len() as int,
    ));
}

/// The keys of `host` are the keys that start with the host's prefix, and
/// what stands in such a key behind the prefix is the opponent's address.
pub proof fn lemma_keys_of_host(host: Seq<u8>, key: Seq<u8>)
    ensures
        starts_with(key, host_prefix(host)) <==> key == session_key(host, opponent_in(key, host)),
        forall|opponent: Seq<u8>|
            key == session_key(host, opponent) ==> opponent == opponent_in(key, host),
{
    let prefix = host_prefix(host);
    assert(prefix.len() == 2 + host.len());
    if starts_with(key, prefix) {
        lemma_key_is_prefix_and_rest(key, prefix);
    }
    if key == session_key(host, opponent_in(key, host)) {
        lemma_prefix_starts(prefix, opponent_in(key, host));
    }
    assert forall|opponent: Seq<u8>| key == session_key(host, opponent) implies opponent
        == opponent_in(key, host) by {
        lemma_prefix_starts(prefix, opponent);
    }
}

/// Rows that list the entries behind a prefix, with the prefix put in front
/// of each key, list the entries whose key starts with the prefix.
pub proof fn lemma_framed_listing(
    rows: Seq<(Seq<u8>, Record)>,
    entries: Map<Seq<u8>, Option<Record>>,
    prefix: Seq<u8>,
)
    requires
        lists(rows, under_prefix(entries, prefix)),
    ensures
        lists(framed(rows, prefix), with_prefix(entries, prefix)),
{
    let inner = under_prefix(entries, prefix);
    let outer = with_prefix(entries, prefix);
    let whole = framed(rows, prefix);
    assert forall|i: int| 0 <= i < whole.len() implies outer.dom().contains(#[trigger] whole[i].0)
        && outer[whole[i].0] == Some(whole[i].1) by {
        assert(inner.dom().contains(rows[i].0));
        lemma_prefix_starts(prefix, rows[i].0);
    }
    assert forall|k: Seq<u8>| #[trigger] outer.dom().contains(k) implies exists|i: int|
        0 <= i < whole.len() && #[trigger] whole[i].0 == k by {
        lemma_key_is_prefix_and_rest(k, prefix);
        let rest = k.subrange(prefix.len() as int, k.len() as int);
        assert(inner.dom().contains(rest));
        let i = choose|i: int| 0 <= i < rows.len() && #[trigger] rows[i].0 == rest;
        assert(whole[i].0 == k);
    }
    assert forall|i: int, j: int| 0 <= i < j < whole.len() implies bytes_lt(
        #[trigger] whole[i].0,
        #[trigger] whole[j].0,
    ) by {
        assert(bytes_lt(rows[i].0, rows[j].0));
        lemma_bytes_lt_after_prefix(prefix, rows[i].0, rows[j].0);
    }
}

/// Where every entry stands for a session, so does every entry whose key
/// starts with a prefix.
pub proof fn lemma_sessions_with_prefix(entries: Map<Seq<u8>, Option<Record>>, prefix: Seq<u8>)
    requires
        all_sessions(entries),
    ensures
        all_sessions(with_prefix(entries, prefix)),
{
    let sub = with_prefix(entries, prefix);
    assert forall|k: Seq<u8>| #[trigger] sub.dom().contains(k) implies stored_session(sub, k)
        is Some by {
        assert(entries.dom().contains(k));
    }
}

/// A host without sessions has no entry under its prefix.
pub proof fn lemma_no_sessions_no_entries(entries: Map<Seq<u8>, Option<Record>>, host: Seq<u8>)
    requires
        has_no_sessions(entries, host),
    ensures
        forall|k: Seq<u8>| !with_prefix(entries, host_prefix(host)).dom().contains(k),
{
    assert forall|k: Seq<u8>| !with_prefix(entries, host_prefix(host)).dom().contains(k) by {
        if with_prefix(entries, host_prefix(host)).dom().contains(k) {
            lemma_keys_of_host(host, k);
            assert(entries.dom().contains(session_key(host, opponent_in(k, host))));
        }
    }
}

/// A listing of the entries that start with a host's prefix holds exactly
/// that host's sessions, each under its whole key, in ascending order of the
/// keys and of the opponents' addresses; no row stands for a session of
/// another host, and there are as many rows as the host has sessions.
pub proof fn law_host_listing_is_the_hosts_sessions(
    entries: Map<Seq<u8>, Option<Record>>,
    host: Seq<u8>,
    rows: Seq<(Seq<u8>, Record)>,
)
    requires
        host.len() <= MAX_HOST_LEN,
        lists(rows, with_prefix(entries, host_prefix(host))),
    ensures
        forall|i: int|
            0 <= i < rows.len() ==> (#[trigger] rows[i]).0 == session_key(
                host,
                opponent_in(rows[i].0, host),
            ) && entries.dom().contains(rows[i].0) && entries[rows[i].0] == Some(rows[i].1),
        forall|opponent: Seq<u8>| #[trigger]
            entries.dom().contains(session_key(host, opponent)) ==> holds_row(
                rows,
                (session_key(host, opponent), entries[session_key(host, opponent)]->Some_0),
            ),
        forall|i: int, j: int|
            0 <= i < j < rows.len() ==> bytes_lt(#[trigger] rows[i].0, #[trigger] rows[j].0)
                && bytes_lt(opponent_in(rows[i].0, host), opponent_in(rows[j].0, host)),
        forall|i: int, other: Seq<u8>, opponent: Seq<u8>|
            0 <= i < rows.len() && other.len() <= MAX_HOST_LEN && other != host ==> (
            #[trigger] rows[i]).0 != #[trigger] session_key(other, opponent),
        with_prefix(entries, host_prefix(host)).dom().finite(),
        rows.len() == with_prefix(entries, host_prefix(host)).dom().len(),
        has_no_sessions(entries, host) ==> rows.len() == 0,
{
    let prefix = host_prefix(host);
    let sub = with_prefix(entries, prefix);
    law_listing_counts_the_entries(rows, sub);
    assert forall|i: int| 0 <= i < rows.len() implies (#[trigger] rows[i]).0 == session_key(
        host,
        opponent_in(rows[i].0, host),
    ) && entries.dom().contains(rows[i].0) && entries[rows[i].0] == Some(rows[i].1) by {
        assert(sub.dom().contains(rows[i].0));
        lemma_keys_of_host(host, rows[i].0);
    }
    assert forall|opponent: Seq<u8>| #[trigger]
        entries.dom().contains(session_key(host, opponent)) implies holds_row(
        rows,
        (session_key(host, opponent), entries[session_key(host, opponent)]->Some_0),
    ) by {
        let key = session_key(host, opponent);
        lemma_prefix_starts(prefix, opponent);
        assert(sub.dom().contains(key));
        let i = choose|i: int| 0 <= i < rows.len() && #[trigger] rows[i].0 == key;
        assert(sub[rows[i].0] == Some(rows[i].1));
        assert(rows[i] == (key, entries[key]->Some_0));
    }
    assert forall|i: int, j: int| 0 <= i < j < rows.len() implies bytes_lt(
        #[trigger] rows[i].0,
        #[trigger] rows[j].0,
    ) && bytes_lt(opponent_in(rows[i].0, host), opponent_in(rows[j].0, host)) by {
        assert(sub.dom().contains(rows[i].0));
        assert(sub.dom().contains(rows[j].0));
        lemma_keys_of_host(host, rows[i].0);
        lemma_keys_of_host(host, rows[j].0);
        lemma_bytes_lt_after_prefix(
            prefix,
            opponent_in(rows[i].0, host),
            opponent_in(rows[j].0, host),
        );
    }
    assert forall|i: int, other: Seq<u8>, opponent: Seq<u8>|
        0 <= i < rows.len() && other.len() <= MAX_HOST_LEN && other != host implies (
    #[trigger] rows[i]).0 != #[trigger] session_key(other, opponent) by {
        assert(sub.dom().contains(rows[i].0));
        lemma_keys_of_host(host, rows[i].0);
        if rows[i].0 == session_key(other, opponent) {
            lemma_session_key_injective(host, opponent_in(rows[i].0, host), other, opponent);
        }
    }
    if has_no_sessions(entries, host) {
        lemma_no_sessions_no_entries(entries, host);
        if rows.len() > 0 {
            assert(sub.dom().contains(rows[0].0));
        }
    }
}

/// `row` is one of `rows`.
pub open spec fn holds_row(rows: Seq<(Seq<u8>, Record)>, row: (Seq<u8>, Record)) -> bool {
    exists|i: int| 0 <= i < rows.len() && #[trigger] rows[i] == row
}

/// `response` holds the session `d` under `key`.
pub open spec fn answers_with(response: Seq<(Seq<u8>, Data)>, key: Seq<u8>, d: Data) -> bool {
    exists|i: int| 0 <= i < response.len() && #[trigger] response[i] == (key, d)
}

/// Where every entry stands for a session, the query for one host succeeds,
/// and its answer holds each session of that host once, under its whole key,
/// and nothing else: as many rows as the host has sessions, in ascending
/// order of the keys.
pub proof fn law_host_query_is_complete(
    entries: Map<Seq<u8>, Option<Record>>,
    host: Seq<u8>,
    r: Result<GamesResponse, ContractError>,
)
    requires
        host.len() <= MAX_HOST_LEN,
        all_sessions(entries),
        listing_effect(with_prefix(entries, host_prefix(host)), r),
    ensures
        match r {
            Ok(response) => {
                &&& forall|opponent: Seq<u8>| #[trigger]
                    entries.dom().contains(session_key(host, opponent)) ==> answers_with(
                        response@,
                        session_key(host, opponent),
                        stored_session(entries, session_key(host, opponent))->Some_0,
                    )
                &&& forall|i: int|
                    0 <= i < response@.len() ==> (#[trigger] response@[i]).0 == session_key(
                        host,
                        opponent_in(response@[i].0, host),
                    ) && entries.dom().contains(response@[i].0) && stored_session(
                        entries,
                        response@[i].0,
                    ) == Some(response@[i].1)
                &&& forall|i: int, j: int|
                    0 <= i < j < response@.len() ==> bytes_lt(
                        (#[trigger] response@[i]).0,
                        (#[trigger] response@[j]).0,
                    )
                &&& forall|i: int, j: int|
                    0 <= i < response@.len() && 0 <= j < response@.len() && i != j ==> (
                    #[trigger] response@[i]).0 != (#[trigger] response@[j]).0
                &&& response@.len() == with_prefix(entries, host_prefix(host)).dom().len()
            },
            Err(_) => false,
        },
{
    lemma_sessions_with_prefix(entries, host_prefix(host));
    law_listing_of_sessions_succeeds(with_prefix(entries, host_prefix(host)), r);
    match r {
        Ok(response) => {
            let rows = crate::contract::records_of(response@);
            law_host_listing_is_the_hosts_sessions(entries, host, rows);
            assert forall|i: int| 0 <= i < response@.len() implies (#[trigger] response@[i]).0
                == session_key(host, opponent_in(response@[i].0, host)) && entries.dom().contains(
                response@[i].0,
            ) && stored_session(entries, response@[i].0) == Some(response@[i].1) by {
                assert(rows[i] == (response@[i].0, response@[i].1.spec_record()));
                crate::state::lemma_record_round_trip(response@[i].1);
            }
            assert forall|opponent: Seq<u8>| #[trigger]
                entries.dom().contains(session_key(host, opponent)) implies answers_with(
                response@,
                session_key(host, opponent),
                stored_session(entries, session_key(host, opponent))->Some_0,
            ) by {
                let key = session_key(host, opponent);
                let row = (key, entries[key]->Some_0);
                assert(holds_row(rows, row));
                let i = choose|i: int| 0 <= i < rows.len() && #[trigger] rows[i] == row;
                assert(rows[i] == (response@[i].0, response@[i].1.spec_record()));
                crate::state::lemma_record_round_trip(response@[i].1);
                assert(response@[i] == (key, stored_session(entries, key)->Some_0));
            }
            assert forall|i: int, j: int| 0 <= i < j < response@.len() implies bytes_lt(
                (#[trigger] response@[i]).0,
                (#[trigger] response@[j]).0,
            ) by {
                assert(rows[i].0 == response@[i].0);
                assert(rows[j].0 == response@[j].0);
            }
            assert forall|i: int, j: int|
                0 <= i < response@.len() && 0 <= j < response@.len() && i != j implies (
            #[trigger] response@[i]).0 != (#[trigger] response@[j]).0 by {
                assert(rows[i].0 == response@[i].0);
                assert(rows[j].0 == response@[j].0);
                lemma_bytes_lt_irreflexive(rows[i].0);
                if i < j {
                    assert(bytes_lt(rows[i].0, rows[j].0));
                } else {
                    assert(bytes_lt(rows[j].0, rows[i].0));
                }
            }
        },
        Err(_) => {},
    }
}

/// The rows of one host are rows of the listing of all sessions, under the
/// same bytes, and the rows of the listing of all sessions whose key starts
/// with the host's prefix are rows of the host.
pub proof fn law_host_rows_are_among_all_rows(
    entries: Map<Seq<u8>, Option<Record>>,
    host: Seq<u8>,
    all_rows: Seq<(Seq<u8>, Record)>,
    host_rows: Seq<(Seq<u8>, Record)>,
)
    requires
        lists(all_rows, entries),
        lists(host_rows, with_prefix(entries, host_prefix(host))),
    ensures
        forall|j: int| 0 <= j < host_rows.len() ==> holds_row(all_rows, #[trigger] host_rows[j]),
        forall|i: int|
            0 <= i < all_rows.len() && starts_with((#[trigger] all_rows[i]).0, host_prefix(host))
                ==> holds_row(host_rows, all_rows[i]),
{
    let sub = with_prefix(entries, host_prefix(host));
    assert forall|j: int| 0 <= j < host_rows.len() implies holds_row(
        all_rows,
        #[trigger] host_rows[j],
    ) by {
        let key = host_rows[j].0;
        assert(sub.dom().contains(key));
        let i = choose|i: int| 0 <= i < all_rows.len() && #[trigger] all_rows[i].0 == key;
        assert(entries[all_rows[i].0] == Some(all_rows[i].1));
        assert(all_rows[i] == host_rows[j]);
    }
    assert forall|i: int|
        0 <= i < all_rows.len() && starts_with(
            (#[trigger] all_rows[i]).0,
            host_prefix(host),
        ) implies holds_row(host_rows, all_rows[i]) by {
        let key = all_rows[i].0;
        assert(entries.dom().contains(key));
        assert(sub.dom().contains(key));
        let j = choose|j: int| 0 <= j < host_rows.len() && #[trigger] host_rows[j].0 == key;
        assert(sub[host_rows[j].0] == Some(host_rows[j].1));
        assert(host_rows[j] == all_rows[i]);
    }
}

/// The answer for one host is part of the answer for all sessions: each of
/// its rows stands there too, under the same bytes and with the same
/// session.
pub proof fn law_host_answer_is_part_of_the_full_answer(
    entries: Map<Seq<u8>, Option<Record>>,
    host: Seq<u8>,
    all: Seq<(Seq<u8>, Data)>,
    part: Seq<(Seq<u8>, Data)>,
)
    requires
        lists(crate::contract::records_of(all), entries),
        lists(crate::contract::records_of(part), with_prefix(entries, host_prefix(host))),
    ensures
        forall|j: int|
            0 <= j < part.len() ==> answers_with(all, (#[trigger] part[j]).0, part[j].1),
{
    let all_rows = crate::contract::records_of(all);
    let host_rows = crate::contract::records_of(part);
    law_host_rows_are_among_all_rows(entries, host, all_rows, host_rows);
    assert forall|j: int| 0 <= j < part.len() implies answers_with(
        all,
        (#[trigger] part[j]).0,
        part[j].1,
    ) by {
        assert(holds_row(all_rows, host_rows[j]));
        let i = choose|i: int| 0 <= i < all_rows.len() && #[trigger] all_rows[i] == host_rows[j];
        assert(all_rows[i] == (all[i].0, all[i].1.spec_record()));
        assert(host_rows[j] == (part[j].0, part[j].1.spec_record()));
        crate::state::lemma_record_injective(all[i].1, part[j].1);
        assert(all[i] == (part[j].0, part[j].1));
    }
}

/// The keys of `entries` that start with the prefix of one of the first `n`
/// hosts.
pub open spec fn keys_of_hosts(
    entries: Map<Seq<u8>, Option<Record>>,
    hosts: Seq<Seq<u8>>,
    n: int,
) -> Set<Seq<u8>> {
    Set::new(
        |key: Seq<u8>|
            entries.dom().contains(key) && exists|i: int|
                0 <= i < n && i < hosts.len() && starts_with(key, host_prefix(#[trigger] hosts[i])),
    )
}

/// The number of rows in the listings of the first `n` hosts, taken
/// together.
pub open spec fn rows_of_hosts(
    entries: Map<Seq<u8>, Option<Record>>,
    hosts: Seq<Seq<u8>>,
    n: int,
) -> nat
    decreases n,
{
    if n <= 0 || n > hosts.len() {
        0
    } else {
        with_prefix(entries, host_prefix(hosts[n - 1])).dom().len() + rows_of_hosts(
            entries,
            hosts,
            n - 1,
        )
    }
}

/// The listings of different hosts share no key, so the listings of `n`
/// different hosts have together as many rows as there are entries under
/// the prefix of one of them.
pub proof fn law_host_listings_add_up(
    entries: Map<Seq<u8>, Option<Record>>,
    hosts: Seq<Seq<u8>>,
    n: int,
)
    requires
        entries.dom().finite(),
        hosts.no_duplicates(),
        forall|i: int| 0 <= i < hosts.len() ==> (#[trigger] hosts[i]).len() <= MAX_HOST_LEN,
        0 <= n <= hosts.len(),
    ensures
        keys_of_hosts(entries, hosts, n).finite(),
        rows_of_hosts(entries, hosts, n) == keys_of_hosts(entries, hosts, n).len(),
    decreases n,
{
    let all = keys_of_hosts(entries, hosts, n);
    vstd::set_lib::lemma_len_subset(all, entries.dom());
    if n == 0 {
        assert(all =~= Set::<Seq<u8>>::empty());
    } else {
        law_host_listings_add_up(entries, hosts, n - 1);
        let before = keys_of_hosts(entries, hosts, n - 1);
        let last = with_prefix(entries, host_prefix(hosts[n - 1])).dom();
        vstd::set_lib::lemma_len_subset(last, entries.dom());
        assert(all =~= before + last);
        assert(before.disjoint(last)) by {
            assert forall|key: Seq<u8>| !(before.contains(key) && last.contains(key)) by {
                if before.contains(key) && last.contains(key) {
                    let i = choose|i: int|
                        0 <= i < n - 1 && i < hosts.len() && starts_with(
                            key,
                            host_prefix(#[trigger] hosts[i]),
                        );
                    lemma_keys_of_host(hosts[i], key);
                    lemma_keys_of_host(hosts[n - 1], key);
                    lemma_session_key_injective(
                        hosts[i],
                        opponent_in(key, hosts[i]),
                        hosts[n - 1],
                        opponent_in(key, hosts[n - 1]),
                    );
                }
            }
        }
        vstd::set_lib::lemma_set_disjoint_lens(before, last);
    }
}

/// Where each key starts with the prefix of one of `hosts`, all different,
/// the listings of these hosts have together as many rows as the listing of
/// all sessions.
pub proof fn law_host_listings_sum_to_the_full_listing(
    entries: Map<Seq<u8>, Option<Record>>,
    hosts: Seq<Seq<u8>>,
    all_rows: Seq<(Seq<u8>, Record)>,
)
    requires
        lists(all_rows, entries),
        hosts.no_duplicates(),
        forall|i: int| 0 <= i < hosts.len() ==> (#[trigger] hosts[i]).len() <= MAX_HOST_LEN,
        forall|key: Seq<u8>| #[trigger]
            entries.dom().contains(key) ==> exists|i: int|
                0 <= i < hosts.len() && starts_with(key, host_prefix(#[trigger] hosts[i])),
    ensures
        rows_of_hosts(entries, hosts, hosts.len() as int) == all_rows.len(),
{
    law_listing_counts_the_entries(all_rows, entries);
    law_host_listings_add_up(entries, hosts, hosts.len() as int);
    assert(keys_of_hosts(entries, hosts, hosts.len() as int) =~= entries.dom());
}

/// A listing after one more entry was written under a free key has one more
/// row: every row of the listing before, and the new entry.
pub proof fn law_listing_after_insert(
    rows: Seq<(Seq<u8>, Record)>,
    later: Seq<(Seq<u8>, Record)>,
    entries: Map<Seq<u8>, Option<Record>>,
    key: Seq<u8>,
    record: Record,
)
    requires
        lists(rows, entries),
        !entries.dom().contains(key),
        lists(later, entries.insert(key, Some(record))),
    ensures
        later.len() == rows.len() + 1,
        forall|i: int| 0 <= i < rows.len() ==> holds_row(later, #[trigger] rows[i]),
        holds_row(later, (key, record)),
{
    let grown = entries.insert(key, Some(record));
    law_listing_counts_the_entries(rows, entries);
    law_listing_counts_the_entries(later, grown);
    assert(grown.dom() =~= entries.dom().insert(key));
    assert forall|i: int| 0 <= i < rows.len() implies holds_row(later, #[trigger] rows[i]) by {
        assert(entries.dom().contains(rows[i].0));
        assert(grown.dom().contains(rows[i].0));
        let j = choose|j: int| 0 <= j < later.len() && #[trigger] later[j].0 == rows[i].0;
        assert(grown[later[j].0] == Some(later[j].1));
        assert(later[j] == rows[i]);
    }
    assert(grown.dom().contains(key));
    let j = choose|j: int| 0 <= j < later.len() && #[trigger] later[j].0 == key;
    assert(grown[later[j].0] == Some(later[j].1));
    assert(later[j] == (key, record));
}

} // verus!
