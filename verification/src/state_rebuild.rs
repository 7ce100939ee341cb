//! The step from database version 5 to 6: the resolved states of the legacy
//! flat store are written anew as diff layers.
//!
//! A legacy row is keyed by a short state hash and a short state key, eight
//! bytes each, and holds a short event id of eight bytes. The rows of one
//! hash stand together and spell one state. Each state is saved on the chain
//! of the state that was saved last for the same room.

use crate::error::Error;
use crate::rooms::{RoomState, Timeline};
use crate::state_diff::{
    cache_valid, cached, chain, fault_error, hash_key, new_state_cache, parents_of, place_fits,
    save_state, saved, StateInfo,
};
use crate::state_laws::{base, keyed_set, newest, store_sound};
use crate::state_set::StateSet;
use crate::order::differ_at;
use crate::tree::{ascending, every_key, listing, rows_of, Tree};
use crate::utils::{
    append, be_decode, be_value, lemma_pow256_values, str_eq, to_vec, u64_from_be_bytes,
};
use lru_cache::LruCache;
use vstd::prelude::*;
use vstd::slice::slice_subrange;

verus! {

/// One state of the legacy store.
pub struct LegacyState {
    /// The hash the state is stored under.
    pub shortstatehash: u64,
    /// The entries of the state.
    pub state: StateSet,
    /// The short event id in the first row of the state, by which the
    /// state's room is found.
    pub first_event: Vec<u8>,
}

/// A [`LegacyState`] as plain values.
pub ghost struct LegacyStateView {
    pub shortstatehash: u64,
    pub state: Set<u128>,
    pub first_event: Seq<u8>,
}

impl View for LegacyState {
    type V = LegacyStateView;

    open spec fn view(&self) -> LegacyStateView {
        LegacyStateView {
            shortstatehash: self.shortstatehash,
            state: self.state@,
            first_event: self.first_event@,
        }
    }
}

/// The plain values of a list of legacy states.
pub open spec fn states_view(states: Seq<LegacyState>) -> Seq<LegacyStateView> {
    Seq::new(states.len(), |i: int| states[i]@)
}

/// The row can be read: its key holds a hash and a state key that are not
/// zero, and its value a short event id.
pub open spec fn row_ok(row: (Seq<u8>, Seq<u8>)) -> bool {
    &&& row.0.len() == 16
    &&& row.1.len() == 8
    &&& be_value(row.0.subrange(0, 8)) != 0
    &&& be_value(row.0.subrange(8, 16)) != 0
}

/// Every row can be read.
pub open spec fn all_rows_ok(rows: Seq<(Seq<u8>, Seq<u8>)>) -> bool {
    forall|i: int| 0 <= i < rows.len() ==> row_ok(#[trigger] rows[i])
}

/// The hash a row belongs to.
pub open spec fn row_hash(row: (Seq<u8>, Seq<u8>)) -> u64 {
    be_value(row.0.subrange(0, 8)) as u64
}

/// The state entry a row spells: its state key, then its event.
pub open spec fn row_entry(row: (Seq<u8>, Seq<u8>)) -> u128 {
    be_value(row.0.subrange(8, 16) + row.1) as u128
}

/// The states that the rows spell: each run of rows with one hash is one
/// state.
pub open spec fn legacy_states(rows: Seq<(Seq<u8>, Seq<u8>)>) -> Seq<LegacyStateView>
    decreases rows.len(),
{
    if rows.len() == 0 {
        Seq::empty()
    } else {
        let before = legacy_states(rows.drop_last());
        let row = rows.last();
        if before.len() > 0 && before.last().shortstatehash == row_hash(row) {
            before.drop_last().push(
                LegacyStateView {
                    shortstatehash: before.last().shortstatehash,
                    state: before.last().state.insert(row_entry(row)),
                    first_event: before.last().first_event,
                },
            )
        } else {
            before.push(
                LegacyStateView {
                    shortstatehash: row_hash(row),
                    state: Set::empty().insert(row_entry(row)),
                    first_event: row.1,
                },
            )
        }
    }
}

/// Reads the states of the legacy store out of its rows.
pub fn read_legacy_states(rows: &Vec<(Vec<u8>, Vec<u8>)>) -> (r: Result<Vec<LegacyState>, Error>)
    ensures
        match r {
            Ok(states) => all_rows_ok(rows_of(rows@)) && states_view(states@) == legacy_states(
                rows_of(rows@),
            ) && forall|i: int| 0 <= i < states@.len() ==> (#[trigger] states@[i]).state.wf(),
            Err(e) => !all_rows_ok(rows_of(rows@)) && e == Error::BadDatabase(
                "Invalid stateid in db.",
            ),
        },
{
    let ghost list = rows_of(rows@);
    let mut states: Vec<LegacyState> = Vec::new();
    let mut i: usize = 0;
    proof {
        assert(list.take(0) =~= Seq::empty());
        assert(states_view(states@) =~= Seq::empty());
    }
    while i < rows.len()
        invariant
            i <= rows@.len(),
            list == rows_of(rows@),
            all_rows_ok(list.take(i as int)),
            states_view(states@) == legacy_states(list.take(i as int)),
            forall|k: int| 0 <= k < states@.len() ==> (#[trigger] states@[k]).state.wf(),
        decreases rows@.len() - i,
    {
        proof {
            assert(list.take(i + 1).drop_last() =~= list.take(i as int));
            assert(list.take(i + 1).last() == list[i as int]);
            assert(list[i as int] == (rows@[i as int].0@, rows@[i as int].1@));
        }
        let key = rows[i].0.as_slice();
        let value = rows[i].1.as_slice();
        if key.len() != 16 || value.len() != 8 {
            assert(!row_ok(list[i as int]));
            return Err(Error::bad_database("Invalid stateid in db."));
        }
        let hash = u64_from_be_bytes(slice_subrange(key, 0, 8));
        let statekey = u64_from_be_bytes(slice_subrange(key, 8, 16));
        if hash == 0 || statekey == 0 {
            assert(!row_ok(list[i as int]));
            return Err(Error::bad_database("Invalid stateid in db."));
        }
        let mut bytes = to_vec(slice_subrange(key, 8, 16));
        append(&mut bytes, value);
        let entry = be_decode(bytes.as_slice());
        let ghost before = states_view(states@);
        let same = states.len() > 0 && states[states.len() - 1].shortstatehash == hash;
        if same {
            let mut last = states.pop().unwrap();
            assert(last@ == before.last());
            last.state.insert(entry);
            states.push(last);
            assert(states_view(states@) =~= before.drop_last().push(
                LegacyStateView {
                    shortstatehash: before.last().shortstatehash,
                    state: before.last().state.insert(entry),
                    first_event: before.last().first_event,
                },
            ));
        } else {
            let mut state = StateSet::new();
            state.insert(entry);
            states.push(LegacyState { shortstatehash: hash, state, first_event: to_vec(value) });
            assert(states_view(states@) =~= before.push(
                LegacyStateView {
                    shortstatehash: hash,
                    state: Set::empty().insert(entry),
                    first_event: value@,
                },
            ));
        }
        proof {
            assert forall|k: int| 0 <= k < i + 1 implies row_ok(#[trigger] list.take(i + 1)[k]) by {
                if k < i {
                    assert(list.take(i as int)[k] == list.take(i + 1)[k]);
                }
            }
        }
        i = i + 1;
    }
    assert(list.take(i as int) =~= list);
    Ok(states)
}


/// The rooms of the states, each found by the state's first event. Reading
/// stops at the first state whose room cannot be found.
pub open spec fn rooms_of(states: Seq<LegacyStateView>, timeline: Timeline) -> Result<
    Seq<Seq<char>>,
    Error,
>
    decreases states.len(),
{
    if states.len() == 0 {
        Ok(Seq::empty())
    } else {
        match rooms_of(states.drop_last(), timeline) {
            Err(e) => Err(e),
            Ok(rooms) => match timeline.room_of(states.last().first_event) {
                Err(e) => Err(e),
                Ok(room) => Ok(rooms.push(room)),
            },
        }
    }
}

proof fn lemma_rooms_of_len(states: Seq<LegacyStateView>, timeline: Timeline)
    ensures
        rooms_of(states, timeline) matches Ok(rooms) ==> rooms.len() == states.len(),
    decreases states.len(),
{
    if states.len() > 0 {
        lemma_rooms_of_len(states.drop_last(), timeline);
    }
}

proof fn lemma_rooms_of_stop(states: Seq<LegacyStateView>, timeline: Timeline, n: int)
    requires
        0 <= n <= states.len(),
        rooms_of(states.take(n), timeline) is Err,
    ensures
        rooms_of(states, timeline) == rooms_of(states.take(n), timeline),
    decreases states.len() - n,
{
    if n < states.len() {
        assert(states.take(n + 1).drop_last() =~= states.take(n));
        lemma_rooms_of_stop(states, timeline, n + 1);
    } else {
        assert(states.take(n) =~= states);
    }
}

/// Finds the room of each state.
pub fn resolve_rooms(states: &Vec<LegacyState>, timeline: &Timeline) -> (r: Result<
    Vec<String>,
    Error,
>)
    requires
        timeline.wf(),
    ensures
        match r {
            Ok(rooms) => rooms_of(states_view(states@), *timeline) == Ok::<Seq<Seq<char>>, Error>(
                crate::config::strings_view(rooms@),
            ) && rooms@.len() == states@.len(),
            Err(e) => rooms_of(states_view(states@), *timeline) == Err::<Seq<Seq<char>>, Error>(e),
        },
{
    let ghost views = states_view(states@);
    let mut rooms: Vec<String> = Vec::new();
    let mut i: usize = 0;
    proof {
        assert(views.take(0) =~= Seq::empty());
        assert(crate::config::strings_view(rooms@) =~= Seq::empty());
    }
    while i < states.len()
        invariant
            i <= states@.len(),
            timeline.wf(),
            views == states_view(states@),
            rooms@.len() == i,
            rooms_of(views.take(i as int), *timeline) == Ok::<Seq<Seq<char>>, Error>(
                crate::config::strings_view(rooms@),
            ),
        decreases states@.len() - i,
    {
        proof {
            assert(views.take(i + 1).drop_last() =~= views.take(i as int));
            assert(views.take(i + 1).last() == states@[i as int]@);
        }
        let ghost before = crate::config::strings_view(rooms@);
        match timeline.room_of_event(states[i].first_event.as_slice()) {
            Ok(room) => {
                rooms.push(room);
                assert(crate::config::strings_view(rooms@) =~= before.push(room@));
            },
            Err(e) => {
                proof {
                    lemma_rooms_of_stop(views, *timeline, i + 1);
                }
                return Err(e);
            },
        }
        i = i + 1;
    }
    assert(views.take(i as int) =~= views);
    Ok(rooms)
}

/// The hash of the last of the first `n` states that belongs to `room`.
pub open spec fn last_state_of(
    states: Seq<LegacyStateView>,
    rooms: Seq<Seq<char>>,
    room: Seq<char>,
    n: int,
) -> Option<u64>
    decreases n,
{
    if n <= 0 || n > states.len() || n > rooms.len() {
        None
    } else if rooms[n - 1] == room {
        Some(states[n - 1].shortstatehash)
    } else {
        last_state_of(states, rooms, room, n - 1)
    }
}

/// The layers after the first `n` states were saved, each on the chain of
/// the state saved last for its room, and the error that stopped the
/// saving, if any.
pub open spec fn rebuilt(
    statediffs: Map<Seq<u8>, Seq<u8>>,
    states: Seq<LegacyStateView>,
    rooms: Seq<Seq<char>>,
    n: int,
) -> (Map<Seq<u8>, Seq<u8>>, Option<Error>)
    decreases n,
{
    if n <= 0 || n > states.len() || n > rooms.len() {
        (statediffs, None)
    } else {
        let before = rebuilt(statediffs, states, rooms, n - 1);
        if before.1 is Some {
            before
        } else {
            let state = states[n - 1];
            let parent = last_state_of(states, rooms, rooms[n - 1], n - 1);
            match parents_of(before.0, parent) {
                Err(fault) => (before.0, Some(fault_error(fault))),
                Ok(parents) => if place_fits(
                    state.state.difference(base(parents)),
                    base(parents).difference(state.state),
                    parents,
                ) {
                    (saved(before.0, state.shortstatehash, parents, state.state), None)
                } else {
                    (before.0, Some(Error::BadDatabase("State diff is too large.")))
                },
            }
        }
    }
}

proof fn lemma_rebuilt_stop(
    statediffs: Map<Seq<u8>, Seq<u8>>,
    states: Seq<LegacyStateView>,
    rooms: Seq<Seq<char>>,
    n: int,
    m: int,
)
    requires
        0 <= n <= m <= states.len(),
        states.len() == rooms.len(),
        rebuilt(statediffs, states, rooms, n).1 is Some,
    ensures
        rebuilt(statediffs, states, rooms, m) == rebuilt(statediffs, states, rooms, n),
    decreases m - n,
{
    if n < m {
        lemma_rebuilt_stop(statediffs, states, rooms, n, m - 1);
    }
}

/// The states can be saved in their order: their hashes grow and are not
/// zero, and no entry of them has the short state key zero.
pub open spec fn in_saving_order(states: Seq<LegacyStateView>) -> bool {
    &&& forall|i: int|
        0 <= i < states.len() ==> {
            let state = #[trigger] states[i];
            state.shortstatehash != 0 && state.state.finite() && keyed_set(state.state)
        }
    &&& forall|i: int, j: int|
        0 <= i < j < states.len() ==> (#[trigger] states[i]).shortstatehash < (
        #[trigger] states[j]).shortstatehash
}

/// The hashes of the rows do not fall.
pub open spec fn hashes_rise(rows: Seq<(Seq<u8>, Seq<u8>)>) -> bool {
    forall|i: int, j: int|
        #![trigger rows[i], rows[j]]
        0 <= i < j < rows.len() ==> row_hash(rows[i]) <= row_hash(rows[j])
}

/// Rows in the order of their keys stand in the order of their hashes.
pub proof fn lemma_hashes_rise(rows: Seq<(Seq<u8>, Seq<u8>)>)
    requires
        ascending(rows),
        all_rows_ok(rows),
    ensures
        hashes_rise(rows),
{
    assert forall|i: int, j: int|
        #![trigger rows[i], rows[j]]
        0 <= i < j < rows.len() implies row_hash(rows[i]) <= row_hash(rows[j]) by {
        let a = rows[i].0;
        let b = rows[j].0;
        assert(row_ok(rows[i]) && row_ok(rows[j]));
        let at = choose|at: int| #[trigger] differ_at(a, b, at);
        let x = a.subrange(0, 8);
        let y = b.subrange(0, 8);
        crate::utils::lemma_be_bytes_of_value(x);
        crate::utils::lemma_be_bytes_of_value(y);
        lemma_pow256_values();
        if at < 8 {
            assert(differ_at(x, y, at));
            crate::utils::lemma_be_value_ordered(x, y);
        } else {
            assert(x =~= y);
        }
    }
}

/// The states that rows with rising hashes spell can be saved in their
/// order, and the last of them has the hash of the last row.
pub proof fn lemma_states_in_saving_order(rows: Seq<(Seq<u8>, Seq<u8>)>)
    requires
        hashes_rise(rows),
        all_rows_ok(rows),
    ensures
        in_saving_order(legacy_states(rows)),
        rows.len() > 0 ==> legacy_states(rows).len() > 0 && legacy_states(
            rows,
        ).last().shortstatehash == row_hash(rows.last()),
    decreases rows.len(),
{
    if rows.len() > 0 {
        let front = rows.drop_last();
        let row = rows.last();
        let before = legacy_states(front);
        let states = legacy_states(rows);
        assert(hashes_rise(front)) by {
            assert forall|i: int, j: int|
                #![trigger front[i], front[j]]
                0 <= i < j < front.len() implies row_hash(front[i]) <= row_hash(front[j]) by {
                assert(row_hash(rows[i]) <= row_hash(rows[j]));
            }
        }
        assert(all_rows_ok(front)) by {
            assert forall|i: int| 0 <= i < front.len() implies row_ok(#[trigger] front[i]) by {
                assert(row_ok(rows[i]));
            }
        }
        lemma_states_in_saving_order(front);
        assert(row_ok(row));
        let high = row.0.subrange(8, 16);
        crate::utils::lemma_be_value_concat(high, row.1);
        crate::utils::lemma_be_bytes_of_value(high);
        crate::utils::lemma_be_bytes_of_value(row.1);
        crate::utils::lemma_be_bytes_of_value(row.0.subrange(0, 8));
        lemma_pow256_values();
        assert(row_entry(row) >= crate::state_laws::first_keyed_entry()) by (nonlinear_arith)
            requires
                row_entry(row) == be_value(high) * 0x1_0000_0000_0000_0000 + be_value(row.1),
                be_value(high) >= 1,
                crate::state_laws::first_keyed_entry() == 0x1_0000_0000_0000_0000,
        ;
        if front.len() > 0 {
            assert(row_hash(rows[front.len() - 1]) <= row_hash(rows[rows.len() - 1]));
        }
        let last = states.last();
        assert(last.shortstatehash == row_hash(row));
        assert(last.state.finite() && keyed_set(last.state));
        assert forall|i: int| 0 <= i < states.len() implies ({
            let state = #[trigger] states[i];
            state.shortstatehash != 0 && state.state.finite() && keyed_set(state.state)
        }) by {
            if i < states.len() - 1 {
                assert(states[i] == before[i]);
            }
        }
        assert forall|i: int, j: int| 0 <= i < j < states.len() implies (
        #[trigger] states[i]).shortstatehash < (#[trigger] states[j]).shortstatehash by {
            assert(states[i] == before[i]);
            if j < states.len() - 1 {
                assert(states[j] == before[j]);
            } else if before.len() == states.len() {
                assert(before[i].shortstatehash < before[j].shortstatehash);
            } else {
                assert(before[i].shortstatehash <= before.last().shortstatehash) by {
                    if i < before.len() - 1 {
                        assert(before[i].shortstatehash < before[before.len() - 1].shortstatehash);
                    }
                }
            }
        }
    }
}

/// The rebuilt layers give every legacy state back: where the step from
/// version 5 to 6 ends without an error, on a sound store that held no
/// layer yet, each state that the legacy rows spell is read back from the
/// layers as it stood there, and the store is sound.
pub proof fn lemma_rebuilt_states_read_back(
    legacy: Tree,
    statediffs: Map<Seq<u8>, Seq<u8>>,
    timeline: Timeline,
)
    requires
        legacy.wf(),
        store_sound(statediffs),
        newest(statediffs, 1),
        rebuilt_from(legacy@, statediffs, timeline).1 is None,
    ensures
        store_sound(rebuilt_from(legacy@, statediffs, timeline).0),
        forall|i: int|
            0 <= i < legacy_states(listing(legacy@, every_key())).len() ==> reads_back(
                rebuilt_from(legacy@, statediffs, timeline).0,
                #[trigger] legacy_states(listing(legacy@, every_key()))[i],
            ),
{
    let rows = listing(legacy@, every_key());
    legacy.lemma_listing_exists(every_key());
    lemma_hashes_rise(rows);
    lemma_states_in_saving_order(rows);
    let states = legacy_states(rows);
    let rooms = rooms_of(states, timeline)->Ok_0;
    lemma_rooms_of_len(states, timeline);
    if states.len() > 0 {
        assert forall|later: u64| later >= states[0].shortstatehash implies !statediffs.contains_key(
            #[trigger] hash_key(later),
        ) by {
            assert(later >= 1);
        }
    }
    lemma_rebuilt_read_back(statediffs, states, rooms, rooms.len() as int);
}

/// The layers spell out the state under its hash.
pub open spec fn reads_back(statediffs: Map<Seq<u8>, Seq<u8>>, state: LegacyStateView) -> bool {
    match chain(statediffs, state.shortstatehash) {
        Ok(c) => c.last().full_state == state.state,
        Err(_) => false,
    }
}

/// Every state that was saved is read back from the layers as it was: after
/// the first `n` states were saved without an error, into a sound store
/// that held no row for their hashes, the chain of each ends in the state
/// itself, and the store is sound.
pub proof fn lemma_rebuilt_read_back(
    statediffs: Map<Seq<u8>, Seq<u8>>,
    states: Seq<LegacyStateView>,
    rooms: Seq<Seq<char>>,
    n: int,
)
    requires
        store_sound(statediffs),
        in_saving_order(states),
        states.len() == rooms.len(),
        0 <= n <= states.len(),
        states.len() > 0 ==> newest(statediffs, states[0].shortstatehash),
        rebuilt(statediffs, states, rooms, n).1 is None,
    ensures
        store_sound(rebuilt(statediffs, states, rooms, n).0),
        n < states.len() ==> newest(
            rebuilt(statediffs, states, rooms, n).0,
            states[n].shortstatehash,
        ),
        forall|i: int|
            0 <= i < n ==> reads_back(rebuilt(statediffs, states, rooms, n).0, #[trigger] states[i]),
    decreases n,
{
    if n > 0 {
        let before = rebuilt(statediffs, states, rooms, n - 1);
        lemma_rebuilt_read_back(statediffs, states, rooms, n - 1);
        let state = states[n - 1];
        let parent = last_state_of(states, rooms, rooms[n - 1], n - 1);
        let parents = parents_of(before.0, parent)->Ok_0;
        let after = rebuilt(statediffs, states, rooms, n).0;
        crate::state_laws::lemma_save_keeps_store_sound(
            before.0,
            state.shortstatehash,
            parent,
            state.state,
        );
        assert forall|i: int| 0 <= i < n implies reads_back(after, #[trigger] states[i]) by {
            if i < n - 1 {
                assert(states[i].shortstatehash < states[n - 1].shortstatehash);
                crate::state_laws::lemma_chain_stable(
                    before.0,
                    state.shortstatehash,
                    after[hash_key(state.shortstatehash)],
                    states[i].shortstatehash,
                );
                assert(after =~= before.0.insert(
                    hash_key(state.shortstatehash),
                    after[hash_key(state.shortstatehash)],
                ));
                assert(reads_back(before.0, states[i]));
            }
        }
        if n < states.len() {
            assert forall|later: u64| later >= states[n].shortstatehash implies !after.contains_key(
                #[trigger] hash_key(later),
            ) by {
                assert(states[n - 1].shortstatehash < states[n].shortstatehash);
                if hash_key(later) == hash_key(state.shortstatehash) {
                    crate::state_laws::lemma_hash_key_injective(later, state.shortstatehash);
                }
            }
        }
    }
}

/// The hash of the last of the first `n` states that belongs to the room of
/// state `n`.
fn find_parent(states: &Vec<LegacyState>, rooms: &Vec<String>, n: usize) -> (r: Option<u64>)
    requires
        n < states@.len(),
        states@.len() == rooms@.len(),
    ensures
        r == last_state_of(
            states_view(states@),
            crate::config::strings_view(rooms@),
            rooms@[n as int]@,
            n as int,
        ),
        r matches Some(hash) ==> exists|k: int|
            0 <= k < n && (#[trigger] states@[k]).shortstatehash == hash,
{
    let ghost views = states_view(states@);
    let ghost names = crate::config::strings_view(rooms@);
    let ghost room = rooms@[n as int]@;
    let mut j: usize = n;
    while j > 0
        invariant
            j <= n < states@.len(),
            states@.len() == rooms@.len(),
            views == states_view(states@),
            names == crate::config::strings_view(rooms@),
            room == rooms@[n as int]@,
            last_state_of(views, names, room, n as int) == last_state_of(
                views,
                names,
                room,
                j as int,
            ),
        decreases j,
    {
        assert(names[j - 1] == rooms@[j - 1]@);
        assert(views[j - 1] == states@[j - 1]@);
        if str_eq(rooms[j - 1].as_str(), rooms[n].as_str()) {
            return Some(states[j - 1].shortstatehash);
        }
        j = j - 1;
    }
    None
}

/// Saves the states, one after the other, each on the chain of the state
/// saved last for its room.
pub fn rebuild(states: &Vec<LegacyState>, rooms: &Vec<String>, statediffs: &mut Tree) -> (r: Result<
    (),
    Error,
>)
    requires
        old(statediffs).wf(),
        states@.len() == rooms@.len(),
        forall|i: int| 0 <= i < states@.len() ==> (#[trigger] states@[i]).state.wf(),
    ensures
        final(statediffs).wf(),
        (final(statediffs)@, crate::globals::error_of(r)) == rebuilt(
            old(statediffs)@,
            states_view(states@),
            crate::config::strings_view(rooms@),
            states@.len() as int,
        ),
{
    let ghost views = states_view(states@);
    let ghost names = crate::config::strings_view(rooms@);
    let ghost start = statediffs@;
    let mut lru = new_state_cache(1000);
    let mut newest: u64 = 0;
    let mut g: usize = 0;
    while g < states.len()
        invariant
            g <= states@.len(),
            states@.len() == rooms@.len(),
            views == states_view(states@),
            names == crate::config::strings_view(rooms@),
            start == old(statediffs)@,
            forall|i: int| 0 <= i < states@.len() ==> (#[trigger] states@[i]).state.wf(),
            statediffs.wf(),
            cache_valid(lru, statediffs@),
            forall|k: u64| #[trigger] cached(lru).contains_key(k) ==> k <= newest,
            forall|i: int| 0 <= i < g ==> (#[trigger] states@[i]).shortstatehash <= newest,
            rebuilt(start, views, names, g as int) == (statediffs@, None::<Error>),
        decreases states@.len() - g,
    {
        let hash = states[g].shortstatehash;
        let parent = find_parent(states, rooms, g);
        let in_order = hash > newest;
        proof {
            assert(views[g as int] == states@[g as int]@);
            assert(names[g as int] == rooms@[g as int]@);
            assert(states@[g as int].state.wf());
        }
        if !in_order {
            lru = new_state_cache(1000);
        }
        let ghost before = statediffs@;
        match save_state(hash, parent, &states[g].state, statediffs, &mut lru) {
            Ok(()) => {},
            Err(e) => {
                proof {
                    assert(rebuilt(start, views, names, g + 1).1 is Some);
                    lemma_rebuilt_stop(start, views, names, g + 1, states@.len() as int);
                }
                return Err(e);
            },
        }
        if !in_order {
            lru = new_state_cache(1000);
        } else {
            newest = hash;
        }
        g = g + 1;
    }
    Ok(())
}

/// What the step from version 5 to 6 makes of the layers, and the error
/// that stops it, if any: the legacy rows must all be readable and the room
/// of each state must be found before anything is written.
pub open spec fn rebuilt_from(
    legacy: Map<Seq<u8>, Seq<u8>>,
    statediffs: Map<Seq<u8>, Seq<u8>>,
    timeline: Timeline,
) -> (Map<Seq<u8>, Seq<u8>>, Option<Error>) {
    let rows = listing(legacy, every_key());
    if !all_rows_ok(rows) {
        (statediffs, Some(Error::BadDatabase("Invalid stateid in db.")))
    } else {
        match rooms_of(legacy_states(rows), timeline) {
            Err(e) => (statediffs, Some(e)),
            Ok(rooms) => rebuilt(statediffs, legacy_states(rows), rooms, rooms.len() as int),
        }
    }
}

/// Version 5 to 6: writes the states of the legacy store as diff layers.
pub fn migrate_5_to_6(state: &mut RoomState, timeline: &Timeline) -> (r: Result<(), Error>)
    requires
        old(state).wf(),
        timeline.wf(),
    ensures
        final(state).wf(),
        final(state).stateid_shorteventid == old(state).stateid_shorteventid,
        final(state).roomid_shortstatehash == old(state).roomid_shortstatehash,
        final(state).statekey_shortstatekey == old(state).statekey_shortstatekey,
        final(state).shorteventid_shortstatehash == old(state).shorteventid_shortstatehash,
        final(state).statehash_shortstatehash == old(state).statehash_shortstatehash,
        (final(state).shortstatehash_statediff@, crate::globals::error_of(r)) == rebuilt_from(
            old(state).stateid_shorteventid@,
            old(state).shortstatehash_statediff@,
            *timeline,
        ),
{
    let rows = state.stateid_shorteventid.iter();
    let states = match read_legacy_states(&rows) {
        Ok(states) => states,
        Err(e) => {
            return Err(e);
        },
    };
    let rooms = match resolve_rooms(&states, timeline) {
        Ok(rooms) => rooms,
        Err(e) => {
            return Err(e);
        },
    };
    rebuild(&states, &rooms, &mut state.shortstatehash_statediff)
}

} // verus!
