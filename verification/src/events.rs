//! Appending events to rooms: the one way in which a room changes.
//!
//! The event comes with its id and its canonical bytes, which are made
//! where events are hashed and signed. What is done here is the storing:
//! the event under the short id of its room and the next count, the indexes
//! by event id, the room's new state if the event is a state event, the
//! membership indexes if it is a member event, the room's leaves, and the
//! words of its text for the search.

use crate::error::Error;
use crate::json::{json_string_at, string_member};
use crate::utils::str_eq;
use crate::globals::{count_of, counter_readable, is_count_fault, Globals};
use crate::membership::{pair_key, MembershipState};
use crate::rooms::{RoomState, Rooms, ShortRoomIds, Timeline};
use crate::state_diff::{
    cache_valid, cached, load_shortstatehash_info, save_state, StateInfo,
};
use crate::state_set::{entry, entry_of, shortstatekey_of, StateSet};
use crate::tree::{keys_of, listing, remove_all, rows_of, with_prefix, Tree};
use crate::utils::{
    append, be_bytes, be_encode, be_value, to_vec, u64_from_bytes, u64_to_be_bytes, SEPARATOR,
};
use lru_cache::LruCache;
use vstd::prelude::*;
use vstd::utf8::*;

verus! {

/// What is known of an event before it is appended.
pub struct PduBuilder {
    pub room_id: String,
    pub sender: String,
    pub event_type: String,
    /// The content of the event, as JSON.
    pub content: String,
    pub unsigned: Option<String>,
    /// The state key, if the event is a state event.
    pub state_key: Option<String>,
    pub redacts: Option<String>,
}

/// The short id that `key` has, if it has one that can be read.
pub open spec fn short_id(forward: Map<Seq<u8>, Seq<u8>>, key: Seq<u8>) -> Option<Result<u64, Error>> {
    if !forward.contains_key(key) {
        None
    } else if forward[key].len() == 8 {
        Some(Ok(be_value(forward[key]) as u64))
    } else {
        Some(Err(Error::BadDatabase("Invalid short id in db.")))
    }
}

/// The short id that `key` has after it was given one where it had none,
/// and the count after that: a new short id is the next count.
pub open spec fn interned(forward: Map<Seq<u8>, Seq<u8>>, key: Seq<u8>, count: nat) -> Result<
    (u64, nat),
    Error,
> {
    match short_id(forward, key) {
        Some(Ok(id)) => Ok((id, count)),
        Some(Err(e)) => Err(e),
        None => Ok(((count + 1) as u64, count + 1)),
    }
}

/// Gives `key` a short id from the counter, unless it has one: returns the
/// short id and whether it is new.
///
/// A counter that cannot be read is reported before anything is changed.
pub fn intern(forward: &mut Tree, key: &[u8], globals: &mut Globals) -> (r: Result<(u64, bool), Error>)
    requires
        old(forward).wf(),
        old(globals).wf(),
        count_of(old(globals).globals@) < u64::MAX,
    ensures
        final(forward).wf(),
        final(globals).wf(),
        counter_readable(old(globals).globals@) ==> (final(globals).config == old(globals).config),
        counter_readable(old(globals).globals@) ==> (final(globals).servertimeout_signingkey == old(globals).servertimeout_signingkey),
        counter_readable(old(globals).globals@) ==> (final(globals).rotate == old(globals).rotate),
        counter_readable(old(globals).globals@) ==> (final(globals).has_keypair() == old(globals).has_keypair()),
        counter_readable(old(globals).globals@) ==> (match short_id(old(forward)@, key@) {
            Some(Ok(id)) => r == Ok::<(u64, bool), Error>((id, false))
                && final(forward)@ == old(forward)@
                && final(globals).globals == old(globals).globals,
            Some(Err(e)) => r == Err::<(u64, bool), Error>(e) && final(forward)@ == old(forward)@
                && final(globals).globals == old(globals).globals,
            None => r == Ok::<(u64, bool), Error>(
                ((count_of(old(globals).globals@) + 1) as u64, true),
            ) && count_of(final(globals).globals@) == count_of(old(globals).globals@) + 1
                && final(forward)@ == old(forward)@.insert(
                key@,
                be_bytes(count_of(old(globals).globals@) + 1, 8),
            ),
        }),
        !counter_readable(old(globals).globals@) ==> (is_count_fault(r) && *final(forward) == *old(forward) && *final(globals) == *old(globals)),
        counter_readable(old(globals).globals@) ==> counter_readable(final(globals).globals@),
{
    if !globals.counter_is_readable() {
        return Err(Error::bad_database("Count has invalid bytes."));
    }
    match forward.get(key) {
        Some(bytes) => match u64_from_bytes(bytes.as_slice()) {
            Ok(id) => Ok((id, false)),
            Err(_) => Err(Error::bad_database("Invalid short id in db.")),
        },
        None => {
            let id = globals.advance_count();
            forward.insert(key, u64_to_be_bytes(id).as_slice());
            Ok((id, true))
        },
    }
}

/// The state after the event `shorteventid` has taken the place
/// `shortstatekey`: what held the place before is gone.
pub open spec fn state_with(state: Set<u128>, shortstatekey: u64, shorteventid: u64) -> Set<u128> {
    Set::new(
        |e: u128|
            (state.contains(e) && shortstatekey_of(e) != shortstatekey) || e == entry_of(
                shortstatekey,
                shorteventid,
            ),
    )
}

/// The resolved state with the given hash, as the layers spell it out.
pub open spec fn state_at(statediffs: Map<Seq<u8>, Seq<u8>>, shortstatehash: u64) -> Result<
    Set<u128>,
    Error,
> {
    match crate::state_diff::chain(statediffs, shortstatehash) {
        Ok(c) => Ok(c.last().full_state),
        Err(fault) => Err(crate::state_diff::fault_error(fault)),
    }
}

/// The resolved state of a room: the state with the hash that is recorded
/// for the room, and the empty state for a room without a record.
pub open spec fn room_state(
    roomid_shortstatehash: Map<Seq<u8>, Seq<u8>>,
    statediffs: Map<Seq<u8>, Seq<u8>>,
    room_id: Seq<u8>,
) -> Result<Set<u128>, Error> {
    if !roomid_shortstatehash.contains_key(room_id) {
        Ok(Set::empty())
    } else if roomid_shortstatehash[room_id].len() == 8 {
        state_at(statediffs, be_value(roomid_shortstatehash[room_id]) as u64)
    } else {
        Err(Error::BadDatabase("Invalid shortstatehash in roomid_shortstatehash"))
    }
}

/// The entries behind a state that was read.
pub open spec fn state_view(r: Result<StateSet, Error>) -> Result<Set<u128>, Error> {
    match r {
        Ok(state) => Ok(state@),
        Err(e) => Err(e),
    }
}

/// Reads a short id of eight bytes.
fn read_short(bytes: &[u8], message: &'static str) -> (r: Result<u64, Error>)
    ensures
        bytes@.len() == 8 ==> r == Ok::<u64, Error>(be_value(bytes@) as u64),
        bytes@.len() != 8 ==> r == Err::<u64, Error>(Error::BadDatabase(message)),
{
    match u64_from_bytes(bytes) {
        Ok(id) => Ok(id),
        Err(_) => Err(Error::bad_database(message)),
    }
}

/// The bytes of the entries of a state, in ascending order: what a state is
/// known by.
fn state_bytes(state: &StateSet) -> (r: Vec<u8>)
    ensures
        r@ == crate::state_diff::entries_bytes(state.elems()),
{
    let items = state.as_slice();
    let mut out: Vec<u8> = Vec::new();
    let mut i: usize = 0;
    assert(items@.take(0) =~= Seq::empty());
    while i < items.len()
        invariant
            i <= items@.len(),
            out@ == crate::state_diff::entries_bytes(items@.take(i as int)),
        decreases items@.len() - i,
    {
        proof {
            assert(items@.take(i + 1).drop_last() =~= items@.take(i as int));
        }
        append(&mut out, be_encode(items[i], 16).as_slice());
        i = i + 1;
    }
    assert(items@.take(i as int) =~= items@);
    out
}

/// The hash that is recorded for a room, if one is.
pub open spec fn recorded_hash(roomid_shortstatehash: Map<Seq<u8>, Seq<u8>>, room_id: Seq<u8>) -> Option<
    u64,
> {
    if roomid_shortstatehash.contains_key(room_id) {
        Some(be_value(roomid_shortstatehash[room_id]) as u64)
    } else {
        None
    }
}

/// What giving a place in a room's state to an event does to the layers
/// and to the index of the states by their entries, and what comes of it:
/// the room's state with the place taken anew is looked up by its entries;
/// a state that is known keeps its hash and nothing is written; a new
/// state gets the next count as its hash and is saved on the chain of the
/// room's state before.
pub open spec fn state_entry_set(
    roomid_shortstatehash: Map<Seq<u8>, Seq<u8>>,
    statediffs: Map<Seq<u8>, Seq<u8>>,
    statehashes: Map<Seq<u8>, Seq<u8>>,
    room_id: Seq<u8>,
    shortstatekey: u64,
    shorteventid: u64,
    count: nat,
) -> (Map<Seq<u8>, Seq<u8>>, Map<Seq<u8>, Seq<u8>>, Result<u64, Error>) {
    match room_state(roomid_shortstatehash, statediffs, room_id) {
        Err(e) => (statediffs, statehashes, Err(e)),
        Ok(before) => {
            let state = state_with(before, shortstatekey, shorteventid);
            let known_by = crate::state_diff::entries_bytes(
                crate::state_diff::ascending_seq(state),
            );
            match short_id(statehashes, known_by) {
                Some(Ok(hash)) => (statediffs, statehashes, Ok(hash)),
                Some(Err(e)) => (statediffs, statehashes, Err(e)),
                None => {
                    let hash = (count + 1) as u64;
                    let indexed = statehashes.insert(known_by, be_bytes(count + 1, 8));
                    match crate::state_diff::parents_of(
                        statediffs,
                        recorded_hash(roomid_shortstatehash, room_id),
                    ) {
                        Err(fault) => (
                            statediffs,
                            indexed,
                            Err(crate::state_diff::fault_error(fault)),
                        ),
                        Ok(parents) => if crate::state_diff::place_fits(
                            state.difference(crate::state_laws::base(parents)),
                            crate::state_laws::base(parents).difference(state),
                            parents,
                        ) {
                            (
                                crate::state_diff::saved(statediffs, hash, parents, state),
                                indexed,
                                Ok(hash),
                            )
                        } else {
                            (
                                statediffs,
                                indexed,
                                Err(Error::BadDatabase("State diff is too large.")),
                            )
                        },
                    }
                },
            }
        },
    }
}

/// No state that the layers spell out holds an entry with the short state
/// key zero, and each is finite.
proof fn lemma_state_keyed(statediffs: Map<Seq<u8>, Seq<u8>>, c: Seq<crate::state_diff::StateInfoView>, i: int)
    requires
        crate::state_laws::linked(statediffs, c),
        0 <= i < c.len(),
    ensures
        crate::state_laws::keyed_set(c[i].full_state),
        c[i].full_state.finite(),
    decreases i,
{
    if i > 0 {
        lemma_state_keyed(statediffs, c, i - 1);
    }
}

/// A state that was given a new hash is read back as it was made: after an
/// event has taken a place in the state of a room, and the state was not
/// known before, the room's state is the state before with the place taken
/// anew, and the store of the layers is sound as it was.
pub proof fn lemma_state_entry_read_back(
    roomid_shortstatehash: Map<Seq<u8>, Seq<u8>>,
    statediffs: Map<Seq<u8>, Seq<u8>>,
    statehashes: Map<Seq<u8>, Seq<u8>>,
    room_id: Seq<u8>,
    shortstatekey: u64,
    shorteventid: u64,
    count: nat,
)
    requires
        crate::state_laws::store_sound(statediffs),
        crate::state_laws::newest(statediffs, (count + 1) as u64),
        count < u64::MAX,
        shortstatekey != 0,
        room_state(roomid_shortstatehash, statediffs, room_id) is Ok,
        short_id(
            statehashes,
            crate::state_diff::entries_bytes(
                crate::state_diff::ascending_seq(
                    state_with(
                        room_state(roomid_shortstatehash, statediffs, room_id)->Ok_0,
                        shortstatekey,
                        shorteventid,
                    ),
                ),
            ),
        ) is None,
    ensures
        ({
            let before = room_state(roomid_shortstatehash, statediffs, room_id)->Ok_0;
            let after = state_entry_set(
                roomid_shortstatehash,
                statediffs,
                statehashes,
                room_id,
                shortstatekey,
                shorteventid,
                count,
            );
            after.2 is Ok ==> after.2 == Ok::<u64, Error>((count + 1) as u64)
                && crate::state_laws::store_sound(after.0) && room_state(
                roomid_shortstatehash.insert(room_id, be_bytes(count + 1, 8)),
                after.0,
                room_id,
            ) == Ok::<Set<u128>, Error>(state_with(before, shortstatekey, shorteventid))
        }),
{
    let before = room_state(roomid_shortstatehash, statediffs, room_id)->Ok_0;
    let state = state_with(before, shortstatekey, shorteventid);
    let parent = recorded_hash(roomid_shortstatehash, room_id);
    let hash = (count + 1) as u64;
    if parent is Some {
        let c = crate::state_diff::chain(statediffs, parent->Some_0)->Ok_0;
        crate::state_laws::lemma_chain_linked(statediffs, parent->Some_0);
        lemma_state_keyed(statediffs, c, c.len() - 1);
    }
    assert(state.subset_of(before.insert(entry_of(shortstatekey, shorteventid))));
    vstd::set_lib::lemma_len_subset(state, before.insert(entry_of(shortstatekey, shorteventid)));
    assert(entry_of(shortstatekey, shorteventid) >= crate::state_laws::first_keyed_entry())
        by (nonlinear_arith)
        requires
            shortstatekey >= 1,
            entry_of(shortstatekey, shorteventid) == shortstatekey * 0x1_0000_0000_0000_0000
                + shorteventid,
            crate::state_laws::first_keyed_entry() == 0x1_0000_0000_0000_0000,
    ;
    if crate::state_diff::parents_of(statediffs, parent) is Ok {
        crate::state_laws::lemma_save_keeps_store_sound(statediffs, hash, parent, state);
        crate::utils::lemma_be_bytes_len(count + 1, 8);
        crate::utils::lemma_pow256_values();
        crate::utils::lemma_be_value_of_bytes(count + 1, 8);
    }
}

/// No layer is stored under a hash that the counter has yet to hand out.
pub open spec fn layers_counted(statediffs: Map<Seq<u8>, Seq<u8>>, globals: Map<Seq<u8>, Seq<u8>>) -> bool {
    forall|hash: u64|
        hash > count_of(globals) ==> !statediffs.contains_key(
            #[trigger] crate::state_diff::hash_key(hash),
        )
}

impl RoomState {
    /// The hash of the room's current state, if it has a state.
    pub fn current_shortstatehash(&self, room_id: &str) -> (r: Result<Option<u64>, Error>)
        requires
            self.wf(),
        ensures
            match self.roomid_shortstatehash.stored(encode_utf8(room_id@)) {
                None => r == Ok::<Option<u64>, Error>(None),
                Some(bytes) => if bytes.len() == 8 {
                    r == Ok::<Option<u64>, Error>(Some(be_value(bytes) as u64))
                } else {
                    r == Err::<Option<u64>, Error>(
                        Error::BadDatabase("Invalid shortstatehash in roomid_shortstatehash"),
                    )
                },
            },
    {
        match self.roomid_shortstatehash.get(room_id.as_bytes()) {
            None => Ok(None),
            Some(bytes) => match read_short(
                bytes.as_slice(),
                "Invalid shortstatehash in roomid_shortstatehash",
            ) {
                Ok(hash) => Ok(Some(hash)),
                Err(e) => Err(e),
            },
        }
    }

    /// The resolved state with the given hash.
    pub fn state_full(&self, shortstatehash: u64, lru: &mut LruCache<u64, Vec<StateInfo>>) -> (r:
        Result<StateSet, Error>)
        requires
            self.wf(),
            cache_valid(*old(lru), self.shortstatehash_statediff@),
        ensures
            cache_valid(*final(lru), self.shortstatehash_statediff@),
            r matches Ok(state) ==> state.wf(),
            state_view(r) == state_at(self.shortstatehash_statediff@, shortstatehash),
    {
        match load_shortstatehash_info(shortstatehash, &self.shortstatehash_statediff, lru) {
            Ok(mut infos) => {
                proof {
                    crate::state_diff::lemma_chain_shape(
                        self.shortstatehash_statediff@,
                        shortstatehash,
                    );
                }
                let ghost views = crate::state_diff::infos_view(infos@);
                let last = infos.pop().unwrap();
                assert(views.last() == last@);
                Ok(last.full_state)
            },
            Err(e) => Err(e),
        }
    }

    /// The resolved state of the room: empty for a room without state.
    pub fn room_state_full(&self, room_id: &str, lru: &mut LruCache<u64, Vec<StateInfo>>) -> (r:
        Result<StateSet, Error>)
        requires
            self.wf(),
            cache_valid(*old(lru), self.shortstatehash_statediff@),
        ensures
            cache_valid(*final(lru), self.shortstatehash_statediff@),
            r matches Ok(state) ==> state.wf(),
            state_view(r) == room_state(
                self.roomid_shortstatehash@,
                self.shortstatehash_statediff@,
                encode_utf8(room_id@),
            ),
    {
        match self.current_shortstatehash(room_id) {
            Err(e) => Err(e),
            Ok(None) => Ok(StateSet::new()),
            Ok(Some(hash)) => self.state_full(hash, lru),
        }
    }

    /// Makes the event `shorteventid` the room's state at the place
    /// `shortstatekey`, and returns the hash of the room's new state.
    ///
    /// The new state is the room's state with the place taken anew. It is
    /// known by its entries: a state that was saved before keeps its hash,
    /// and a new state gets the next count as its hash and is saved as a
    /// diff layer on the chain of the room's state before.
    ///
    /// A counter that cannot be read is reported before anything is changed.
    pub fn set_state_entry(
        &mut self,
        room_id: &str,
        shortstatekey: u64,
        shorteventid: u64,
        globals: &mut Globals,
        lru: &mut LruCache<u64, Vec<StateInfo>>,
    ) -> (r: Result<u64, Error>)
        requires
            old(self).wf(),
            old(globals).wf(),
            count_of(old(globals).globals@) < u64::MAX,
            cache_valid(*old(lru), old(self).shortstatehash_statediff@),
        ensures
            final(self).wf(),
            final(globals).wf(),
            counter_readable(old(globals).globals@) ==> (final(globals).config == old(globals).config),
            counter_readable(old(globals).globals@) ==> (final(globals).servertimeout_signingkey == old(globals).servertimeout_signingkey),
            counter_readable(old(globals).globals@) ==> (final(globals).rotate == old(globals).rotate),
            counter_readable(old(globals).globals@) ==> (final(globals).has_keypair() == old(globals).has_keypair()),
            counter_readable(old(globals).globals@) ==> (final(self).stateid_shorteventid == old(self).stateid_shorteventid),
            counter_readable(old(globals).globals@) ==> (final(self).statekey_shortstatekey == old(self).statekey_shortstatekey),
            counter_readable(old(globals).globals@) ==> (count_of(old(globals).globals@) <= count_of(final(globals).globals@) <= count_of(
                old(globals).globals@,
            ) + 1),
            counter_readable(old(globals).globals@) ==> (r matches Ok(hash) ==>
                final(self).roomid_shortstatehash@ == old(self).roomid_shortstatehash@.insert(encode_utf8(room_id@), be_bytes(hash as nat, 8))
                && final(self).shorteventid_shortstatehash@ == old(self).shorteventid_shortstatehash@.insert(
                be_bytes(shorteventid as nat, 8),
                be_bytes(hash as nat, 8),
            )),
            counter_readable(old(globals).globals@) ==> (r is Err ==> final(self).roomid_shortstatehash == old(self).roomid_shortstatehash
                && final(self).shorteventid_shortstatehash == old(self).shorteventid_shortstatehash),
            counter_readable(old(globals).globals@) ==> ((final(self).shortstatehash_statediff@, final(self).statehash_shortstatehash@, r)
                == state_entry_set(
                old(self).roomid_shortstatehash@,
                old(self).shortstatehash_statediff@,
                old(self).statehash_shortstatehash@,
                encode_utf8(room_id@),
                shortstatekey,
                shorteventid,
                count_of(old(globals).globals@),
            )),
            layers_counted(old(self).shortstatehash_statediff@, old(globals).globals@) ==> cache_valid(
            *final(lru),
            final(self).shortstatehash_statediff@,
            ) && layers_counted(final(self).shortstatehash_statediff@, final(globals).globals@),
            !counter_readable(old(globals).globals@) ==> (is_count_fault(r) && *final(self) == *old(self) && *final(globals) == *old(globals) && *final(lru) == *old(lru)),
            counter_readable(old(globals).globals@) ==> counter_readable(final(globals).globals@),
    {
        if !globals.counter_is_readable() {
            return Err(Error::bad_database("Count has invalid bytes."));
        }
        let current = match self.current_shortstatehash(room_id) {
            Ok(current) => current,
            Err(e) => {
                return Err(e);
            },
        };
        let before = match current {
            Some(hash) => match self.state_full(hash, lru) {
                Ok(state) => state,
                Err(e) => {
                    return Err(e);
                },
            },
            None => StateSet::new(),
        };
        let mut state = before.without_key(shortstatekey);
        state.insert(entry(shortstatekey, shorteventid));
        proof {
            assert(state@ =~= state_with(before@, shortstatekey, shorteventid));
            crate::state_diff::lemma_ascending_seq(&state);
            if current is Some {
                crate::utils::lemma_be_bytes_of_value(
                    old(self).roomid_shortstatehash@[encode_utf8(room_id@)],
                );
            }
        }
        let known_by = state_bytes(&state);
        let (hash, created) = match intern(
            &mut self.statehash_shortstatehash,
            known_by.as_slice(),
            globals,
        ) {
            Ok(interned) => interned,
            Err(e) => {
                return Err(e);
            },
        };
        proof {
            if layers_counted(old(self).shortstatehash_statediff@, old(globals).globals@) {
                let rows = self.shortstatehash_statediff@;
                assert forall|k: u64| #[trigger]
                    cached(*lru).contains_key(k) implies k <= count_of(old(globals).globals@) by {
                    assert(rows.contains_key(crate::state_diff::hash_key(k)));
                }
                if current is Some {
                    assert(rows.contains_key(crate::state_diff::hash_key(current->Some_0)));
                }
                assert forall|later: u64| later > count_of(globals.globals@) implies !rows.contains_key(
                    #[trigger] crate::state_diff::hash_key(later),
                ) && (created ==> crate::state_diff::hash_key(later)
                    != crate::state_diff::hash_key(hash)) by {
                    if created && crate::state_diff::hash_key(later)
                        == crate::state_diff::hash_key(hash) {
                        crate::state_laws::lemma_hash_key_injective(later, hash);
                    }
                }
            }
        }
        if created {
            match save_state(hash, current, &state, &mut self.shortstatehash_statediff, lru) {
                Ok(()) => {},
                Err(e) => {
                    return Err(e);
                },
            }
        }
        self.shorteventid_shortstatehash.insert(
            u64_to_be_bytes(shorteventid).as_slice(),
            u64_to_be_bytes(hash).as_slice(),
        );
        self.roomid_shortstatehash.insert(room_id.as_bytes(), u64_to_be_bytes(hash).as_slice());
        Ok(hash)
    }
}

/// Whether a byte belongs to a word: letters, digits, and the bytes of
/// characters beyond ASCII.
pub open spec fn is_word_byte(b: u8) -> bool {
    (0x30 <= b <= 0x39) || (0x41 <= b <= 0x5a) || (0x61 <= b <= 0x7a) || b >= 0x80
}

/// The byte in lower case, where it is an ASCII letter.
pub open spec fn lower(b: u8) -> u8 {
    if 0x41 <= b <= 0x5a {
        (b + 0x20) as u8
    } else {
        b
    }
}

/// The longest word, in bytes, that the search keeps.
pub const MAX_WORD_LENGTH: usize = 50;

/// The words of a text, in order and in lower case: the runs of word bytes
/// of at most fifty bytes. `word` is the run that ends the text read so far.
pub open spec fn words_of(text: Seq<u8>, word: Seq<u8>, from: int) -> Seq<Seq<u8>>
    decreases text.len() - from,
{
    if from < 0 || from >= text.len() {
        if 0 < word.len() <= MAX_WORD_LENGTH {
            seq![word]
        } else {
            Seq::empty()
        }
    } else if is_word_byte(text[from]) {
        words_of(text, word.push(lower(text[from])), from + 1)
    } else if 0 < word.len() <= MAX_WORD_LENGTH {
        seq![word] + words_of(text, Seq::empty(), from + 1)
    } else {
        words_of(text, Seq::empty(), from + 1)
    }
}

/// Splits a text into the words that the search finds it by.
pub fn tokenize(text: &[u8]) -> (r: Vec<Vec<u8>>)
    ensures
        crate::order::list_view(r@) == words_of(text@, Seq::empty(), 0),
{
    let mut words: Vec<Vec<u8>> = Vec::new();
    let mut word: Vec<u8> = Vec::new();
    let mut i: usize = 0;
    proof {
        assert(crate::order::list_view(words@) =~= Seq::empty());
        assert(Seq::<Seq<u8>>::empty() + words_of(text@, Seq::empty(), 0) =~= words_of(
            text@,
            Seq::empty(),
            0,
        ));
    }
    while i < text.len()
        invariant
            i <= text@.len(),
            words_of(text@, Seq::empty(), 0) == crate::order::list_view(words@) + words_of(
                text@,
                word@,
                i as int,
            ),
        decreases text@.len() - i,
    {
        let b = text[i];
        let ghost before = crate::order::list_view(words@);
        let is_word = (0x30 <= b && b <= 0x39) || (0x41 <= b && b <= 0x5a) || (0x61 <= b && b
            <= 0x7a) || b >= 0x80;
        if is_word {
            if 0x41 <= b && b <= 0x5a {
                word.push(b + 0x20);
            } else {
                word.push(b);
            }
        } else {
            if word.len() > 0 && word.len() <= MAX_WORD_LENGTH {
                let ghost done = word@;
                let mut finished: Vec<u8> = Vec::new();
                std::mem::swap(&mut finished, &mut word);
                words.push(finished);
                proof {
                    assert(crate::order::list_view(words@) =~= before.push(done));
                    assert(before + (seq![done] + words_of(text@, Seq::empty(), i + 1))
                        =~= before.push(done) + words_of(text@, Seq::empty(), i + 1));
                }
            } else {
                word = Vec::new();
            }
        }
        i = i + 1;
    }
    if word.len() > 0 && word.len() <= MAX_WORD_LENGTH {
        let ghost before = crate::order::list_view(words@);
        let ghost done = word@;
        words.push(word);
        assert(crate::order::list_view(words@) =~= before + seq![done]);
    } else {
        assert(crate::order::list_view(words@) + Seq::<Seq<u8>>::empty()
            =~= crate::order::list_view(words@));
    }
    words
}

/// The key of a word of an event in the search index.
pub open spec fn token_key(shortroomid: u64, word: Seq<u8>, count: u64) -> Seq<u8> {
    be_bytes(shortroomid as nat, 8) + word.push(SEPARATOR) + be_bytes(count as nat, 8)
}

/// The rows that index an event by the words of its text.
pub open spec fn token_rows(shortroomid: u64, words: Seq<Seq<u8>>, count: u64) -> Seq<
    (Seq<u8>, Seq<u8>),
> {
    Seq::new(words.len(), |i: int| (token_key(shortroomid, words[i], count), Seq::<u8>::empty()))
}

/// The key of an event: the short id of its room, then its count.
pub open spec fn pdu_id(shortroomid: u64, count: u64) -> Seq<u8> {
    be_bytes(shortroomid as nat, 8) + be_bytes(count as nat, 8)
}

impl Timeline {
    /// Stores the event under the short id of its room and its count, and
    /// under its id the key it is stored under. Returns that key.
    pub fn store_pdu(&mut self, shortroomid: u64, count: u64, event_id: &str, pdu_json: &[u8]) -> (r:
        Vec<u8>)
        requires
            old(self).wf(),
        ensures
            final(self).wf(),
            r@ == pdu_id(shortroomid, count),
            final(self).pduid_pdu@ == old(self).pduid_pdu@.insert(r@, pdu_json@),
            final(self).pduid_pdu.watch() == old(self).pduid_pdu.watch().fire(r@),
            final(self).eventid_pduid@ == old(self).eventid_pduid@.insert(
                encode_utf8(event_id@),
                r@,
            ),
            final(self).tokenids == old(self).tokenids,
            final(self).eventid_outlierpdu == old(self).eventid_outlierpdu,
            final(self).shorteventid_eventid == old(self).shorteventid_eventid,
            final(self).eventid_shorteventid == old(self).eventid_shorteventid,
            final(self).roomid_pduleaves == old(self).roomid_pduleaves,
    {
        let mut pduid = u64_to_be_bytes(shortroomid);
        append(&mut pduid, u64_to_be_bytes(count).as_slice());
        self.pduid_pdu.insert(pduid.as_slice(), pdu_json);
        self.eventid_pduid.insert(event_id.as_bytes(), pduid.as_slice());
        pduid
    }

    /// Makes the event the only leaf of its room.
    pub fn replace_pdu_leaves(&mut self, room_id: &str, event_id: &str)
        requires
            old(self).wf(),
        ensures
            final(self).wf(),
            final(self).roomid_pduleaves@ == remove_all(
                old(self).roomid_pduleaves@,
                keys_of(
                    listing(
                        old(self).roomid_pduleaves@,
                        with_prefix(encode_utf8(room_id@).push(SEPARATOR)),
                    ),
                ),
            ).insert(encode_utf8(room_id@).push(SEPARATOR) + encode_utf8(event_id@), Seq::empty()),
            final(self).pduid_pdu == old(self).pduid_pdu,
            final(self).eventid_pduid == old(self).eventid_pduid,
            final(self).tokenids == old(self).tokenids,
            final(self).eventid_outlierpdu == old(self).eventid_outlierpdu,
            final(self).shorteventid_eventid == old(self).shorteventid_eventid,
            final(self).eventid_shorteventid == old(self).eventid_shorteventid,
    {
        let mut prefix = to_vec(room_id.as_bytes());
        prefix.push(SEPARATOR);
        let rows = self.roomid_pduleaves.scan_prefix(prefix.as_slice());
        let ghost list = rows_of(rows@);
        let ghost start = self.roomid_pduleaves@;
        let mut i: usize = 0;
        assert(keys_of(list).take(0) =~= Seq::empty());
        while i < rows.len()
            invariant
                i <= rows@.len(),
                list == rows_of(rows@),
                self.wf(),
                self.pduid_pdu == old(self).pduid_pdu,
                self.eventid_pduid == old(self).eventid_pduid,
                self.tokenids == old(self).tokenids,
                self.eventid_outlierpdu == old(self).eventid_outlierpdu,
                self.shorteventid_eventid == old(self).shorteventid_eventid,
                self.eventid_shorteventid == old(self).eventid_shorteventid,
                self.roomid_pduleaves@ == remove_all(start, keys_of(list).take(i as int)),
            decreases rows@.len() - i,
        {
            proof {
                assert(keys_of(list).take(i + 1).drop_last() =~= keys_of(list).take(i as int));
                assert(keys_of(list).take(i + 1).last() == rows@[i as int].0@);
            }
            self.roomid_pduleaves.remove(rows[i].0.as_slice());
            i = i + 1;
        }
        assert(keys_of(list).take(i as int) =~= keys_of(list));
        let mut key = prefix;
        append(&mut key, event_id.as_bytes());
        let empty: Vec<u8> = Vec::new();
        self.roomid_pduleaves.insert(key.as_slice(), empty.as_slice());
    }

    /// Indexes the event by the words of its text.
    pub fn index_tokens(&mut self, shortroomid: u64, count: u64, text: &[u8])
        requires
            old(self).wf(),
        ensures
            final(self).wf(),
            final(self).tokenids@ == crate::tree::put_all(
                old(self).tokenids@,
                token_rows(shortroomid, words_of(text@, Seq::empty(), 0), count),
            ),
            final(self).pduid_pdu == old(self).pduid_pdu,
            final(self).eventid_pduid == old(self).eventid_pduid,
            final(self).eventid_outlierpdu == old(self).eventid_outlierpdu,
            final(self).shorteventid_eventid == old(self).shorteventid_eventid,
            final(self).eventid_shorteventid == old(self).eventid_shorteventid,
            final(self).roomid_pduleaves == old(self).roomid_pduleaves,
    {
        let words = tokenize(text);
        let ghost views = crate::order::list_view(words@);
        let ghost rows = token_rows(shortroomid, views, count);
        let mut i: usize = 0;
        assert(rows.take(0) =~= Seq::empty());
        while i < words.len()
            invariant
                i <= words@.len(),
                views == crate::order::list_view(words@),
                rows == token_rows(shortroomid, views, count),
                self.wf(),
                self.pduid_pdu == old(self).pduid_pdu,
                self.eventid_pduid == old(self).eventid_pduid,
                self.eventid_outlierpdu == old(self).eventid_outlierpdu,
                self.shorteventid_eventid == old(self).shorteventid_eventid,
                self.eventid_shorteventid == old(self).eventid_shorteventid,
                self.roomid_pduleaves == old(self).roomid_pduleaves,
                self.tokenids@ == crate::tree::put_all(old(self).tokenids@, rows.take(i as int)),
            decreases words@.len() - i,
        {
            proof {
                assert(rows.take(i + 1).drop_last() =~= rows.take(i as int));
                assert(views[i as int] == words@[i as int]@);
            }
            let mut key = u64_to_be_bytes(shortroomid);
            append(&mut key, words[i].as_slice());
            key.push(SEPARATOR);
            append(&mut key, u64_to_be_bytes(count).as_slice());
            assert(key@ =~= token_key(shortroomid, words@[i as int]@, count));
            let empty: Vec<u8> = Vec::new();
            self.tokenids.insert(key.as_slice(), empty.as_slice());
            i = i + 1;
        }
        assert(rows.take(i as int) =~= rows);
    }
}


/// What the content of a member event says of its user, if it says one of
/// the memberships that are indexed.
pub open spec fn membership_in(content: Seq<u8>) -> Option<MembershipState> {
    match json_string_at(content, "membership"@) {
        None => None,
        Some(word) => if word == "join"@ {
            Some(MembershipState::Join)
        } else if word == "invite"@ {
            Some(MembershipState::Invite)
        } else if word == "leave"@ {
            Some(MembershipState::Leave)
        } else if word == "ban"@ {
            Some(MembershipState::Ban)
        } else {
            None
        },
    }
}

/// Decides which membership a word names.
pub fn membership_named(word: Option<String>) -> (r: Option<MembershipState>)
    ensures
        r == match word {
            None => None,
            Some(w) => if w@ == "join"@ {
                Some(MembershipState::Join)
            } else if w@ == "invite"@ {
                Some(MembershipState::Invite)
            } else if w@ == "leave"@ {
                Some(MembershipState::Leave)
            } else if w@ == "ban"@ {
                Some(MembershipState::Ban)
            } else {
                None
            },
        },
{
    match word {
        None => None,
        Some(w) => {
            if str_eq(w.as_str(), "join") {
                Some(MembershipState::Join)
            } else if str_eq(w.as_str(), "invite") {
                Some(MembershipState::Invite)
            } else if str_eq(w.as_str(), "leave") {
                Some(MembershipState::Leave)
            } else if str_eq(w.as_str(), "ban") {
                Some(MembershipState::Ban)
            } else {
                None
            }
        },
    }
}

/// What a member event has done to the membership indexes: its user, the
/// state key, is where the content of the event says, and an event that
/// says none of the memberships that are indexed has left them as they
/// were.
pub open spec fn member_recorded(
    after: crate::membership::Membership,
    before: crate::membership::Membership,
    room_id: Seq<char>,
    user_id: Seq<char>,
    content: Seq<u8>,
    invite_state: Seq<u8>,
) -> bool {
    let place = pair_key(user_id, room_id);
    match membership_in(content) {
        Some(MembershipState::Join) => after.userroomid_joined@.contains_key(place),
        Some(MembershipState::Invite) => after.userroomid_invitestate@.contains_key(place)
            && after.userroomid_invitestate@[place] == invite_state,
        Some(_) => after.userroomid_leftstate@.contains_key(place),
        None => after == before,
    }
}

/// How many counts the fan-out of a member event takes: one for an
/// invitation, a leaving or a ban, none for a join or for a content that
/// names no membership.
pub open spec fn member_counts(content: Seq<u8>) -> nat {
    match membership_in(content) {
        Some(MembershipState::Join) => 0,
        Some(_) => 1,
        None => 0,
    }
}

/// Fans a member event out to the membership indexes.
///
/// A counter that cannot be read is reported before anything is changed.
pub fn record_member(
    membership: &mut crate::membership::Membership,
    room_id: &str,
    user_id: &str,
    content: &str,
    invite_state: &[u8],
    globals: &mut Globals,
) -> (r: Result<(), Error>)
    requires
        old(membership).wf(),
        old(globals).wf(),
        count_of(old(globals).globals@) < u64::MAX,
    ensures
        final(membership).wf(),
        final(globals).wf(),
        counter_readable(old(globals).globals@) ==> (r is Ok),
        counter_readable(old(globals).globals@) ==> (final(globals).config == old(globals).config),
        counter_readable(old(globals).globals@) ==> (final(globals).servertimeout_signingkey == old(globals).servertimeout_signingkey),
        counter_readable(old(globals).globals@) ==> (final(globals).rotate == old(globals).rotate),
        counter_readable(old(globals).globals@) ==> (final(globals).has_keypair() == old(globals).has_keypair()),
        counter_readable(old(globals).globals@) ==> (count_of(old(globals).globals@) <= count_of(final(globals).globals@) <= count_of(
            old(globals).globals@,
        ) + 1),
        counter_readable(old(globals).globals@) ==> (count_of(final(globals).globals@) == count_of(old(globals).globals@) + member_counts(
            encode_utf8(content@),
        )),
        counter_readable(old(globals).globals@) ==> (old(membership).exclusive() ==> final(membership).exclusive()),
        counter_readable(old(globals).globals@) ==> (member_recorded(
            *final(membership),
            *old(membership),
            room_id@,
            user_id@,
            encode_utf8(content@),
            invite_state@,
        )),
        !counter_readable(old(globals).globals@) ==> (is_count_fault(r) && *final(membership) == *old(membership) && *final(globals) == *old(globals)),
        counter_readable(old(globals).globals@) ==> counter_readable(final(globals).globals@),
{
    if !globals.counter_is_readable() {
        return Err(Error::bad_database("Count has invalid bytes."));
    }
    match membership_named(string_member(content.as_bytes(), "membership")) {
        Some(state) => membership.update_membership(room_id, user_id, state, invite_state, globals),
        None => Ok(()),
    }
}

/// The key of a place in a state: the type of the event, a separator, and
/// the state key.
pub open spec fn place_key(event_type: Seq<char>, state_key: Seq<char>) -> Seq<u8> {
    encode_utf8(event_type).push(SEPARATOR) + encode_utf8(state_key)
}

/// What comes of letting a state event take its place in the state of its
/// room, when the count stands at `count`: the layers and the index of the
/// states by their entries as they are left, and the hash of the room's new
/// state or the error that stopped it. The fan-out of a member event comes
/// first and takes its counts, then the place gets its short id, then the
/// state with the place taken anew gets its hash.
pub open spec fn state_recorded(
    state: RoomState,
    pdu: PduBuilder,
    state_key: Seq<char>,
    shorteventid: u64,
    count: nat,
) -> (Map<Seq<u8>, Seq<u8>>, Map<Seq<u8>, Seq<u8>>, Result<u64, Error>) {
    let fanned = if pdu.event_type@ == "m.room.member"@ {
        count + member_counts(encode_utf8(pdu.content@))
    } else {
        count
    };
    match interned(state.statekey_shortstatekey@, place_key(pdu.event_type@, state_key), fanned) {
        Err(e) => (state.shortstatehash_statediff@, state.statehash_shortstatehash@, Err(e)),
        Ok((shortstatekey, placed)) => state_entry_set(
            state.roomid_shortstatehash@,
            state.shortstatehash_statediff@,
            state.statehash_shortstatehash@,
            encode_utf8(pdu.room_id@),
            shortstatekey,
            shorteventid,
            placed,
        ),
    }
}

/// The outcome without the value that came with it.
pub open spec fn done<T>(r: Result<T, Error>) -> Result<(), Error> {
    match r {
        Ok(_) => Ok(()),
        Err(e) => Err(e),
    }
}

/// Fans a member event out to the membership indexes, and lets a state
/// event take its place in the state of its room.
///
/// A counter that cannot be read is reported before anything is changed.
pub fn record_state(
    rooms: &mut Rooms,
    pdu: &PduBuilder,
    state_key: &str,
    shorteventid: u64,
    invite_state: &[u8],
    globals: &mut Globals,
    lru: &mut LruCache<u64, Vec<StateInfo>>,
) -> (r: Result<(), Error>)
    requires
        old(rooms).wf(),
        old(globals).wf(),
        count_of(old(globals).globals@) + 3 <= u64::MAX,
        cache_valid(*old(lru), old(rooms).state.shortstatehash_statediff@),
    ensures
        final(rooms).wf(),
        final(globals).wf(),
        counter_readable(old(globals).globals@) ==> (final(globals).config == old(globals).config),
        counter_readable(old(globals).globals@) ==> (final(globals).servertimeout_signingkey == old(globals).servertimeout_signingkey),
        counter_readable(old(globals).globals@) ==> (final(globals).rotate == old(globals).rotate),
        counter_readable(old(globals).globals@) ==> (final(globals).has_keypair() == old(globals).has_keypair()),
        counter_readable(old(globals).globals@) ==> (final(rooms).servers == old(rooms).servers),
        counter_readable(old(globals).globals@) ==> (final(rooms).edus == old(rooms).edus),
        counter_readable(old(globals).globals@) ==> (final(rooms).notifications == old(rooms).notifications),
        counter_readable(old(globals).globals@) ==> (final(rooms).timeline == old(rooms).timeline),
        counter_readable(old(globals).globals@) ==> (final(rooms).shortids == old(rooms).shortids),
        counter_readable(old(globals).globals@) ==> (final(rooms).state.stateid_shorteventid == old(rooms).state.stateid_shorteventid),
        counter_readable(old(globals).globals@) ==> (old(rooms).membership.exclusive() ==> final(rooms).membership.exclusive()),
        counter_readable(old(globals).globals@) ==> (count_of(old(globals).globals@) <= count_of(final(globals).globals@) <= count_of(
            old(globals).globals@,
        ) + 3),
        counter_readable(old(globals).globals@) ==> (r is Ok ==> final(rooms).state.roomid_shortstatehash@.contains_key(
            encode_utf8(pdu.room_id@),
        )),
        counter_readable(old(globals).globals@) ==> (r is Ok && pdu.event_type@ == "m.room.member"@ ==> member_recorded(
            final(rooms).membership,
            old(rooms).membership,
            pdu.room_id@,
            state_key@,
            encode_utf8(pdu.content@),
            invite_state@,
        )),
        counter_readable(old(globals).globals@) ==> (pdu.event_type@ != "m.room.member"@ ==> final(rooms).membership == old(rooms).membership),
        counter_readable(old(globals).globals@) ==> ((final(rooms).state.shortstatehash_statediff@, final(rooms).state.statehash_shortstatehash@)
            == (
            state_recorded(
                old(rooms).state,
                *pdu,
                state_key@,
                shorteventid,
                count_of(old(globals).globals@),
            ).0,
            state_recorded(
                old(rooms).state,
                *pdu,
                state_key@,
                shorteventid,
                count_of(old(globals).globals@),
            ).1,
        )),
        counter_readable(old(globals).globals@) ==> (r == done(
            state_recorded(
                old(rooms).state,
                *pdu,
                state_key@,
                shorteventid,
                count_of(old(globals).globals@),
            ).2,
        )),
        counter_readable(old(globals).globals@) ==> (match r {
            Ok(_) => {
                let hash = state_recorded(
                    old(rooms).state,
                    *pdu,
                    state_key@,
                    shorteventid,
                    count_of(old(globals).globals@),
                ).2->Ok_0;
                &&& final(rooms).state.roomid_shortstatehash@
                    == old(rooms).state.roomid_shortstatehash@.insert(
                    encode_utf8(pdu.room_id@),
                    be_bytes(hash as nat, 8),
                )
                &&& final(rooms).state.shorteventid_shortstatehash@
                    == old(rooms).state.shorteventid_shortstatehash@.insert(
                    be_bytes(shorteventid as nat, 8),
                    be_bytes(hash as nat, 8),
                )
            },
            Err(_) => final(rooms).state.roomid_shortstatehash == old(
                rooms,
            ).state.roomid_shortstatehash && final(rooms).state.shorteventid_shortstatehash == old(
                rooms,
            ).state.shorteventid_shortstatehash,
        }),
        layers_counted(old(rooms).state.shortstatehash_statediff@, old(globals).globals@)
        ==> cache_valid(*final(lru), final(rooms).state.shortstatehash_statediff@)
        && layers_counted(final(rooms).state.shortstatehash_statediff@, final(globals).globals@),
        !counter_readable(old(globals).globals@) ==> (is_count_fault(r) && *final(rooms) == *old(rooms) && *final(globals) == *old(globals) && *final(lru) == *old(lru)),
        counter_readable(old(globals).globals@) ==> counter_readable(final(globals).globals@),
{
    if !globals.counter_is_readable() {
        return Err(Error::bad_database("Count has invalid bytes."));
    }
    let room_id = pdu.room_id.as_str();
    // The membership indexes are written before the room's new state can be
    // seen.
    if str_eq(pdu.event_type.as_str(), "m.room.member") {
        match record_member(
            &mut rooms.membership,
            room_id,
            state_key,
            pdu.content.as_str(),
            invite_state,
            globals,
        ) {
            Ok(()) => {},
            Err(e) => {
                return Err(e);
            },
        }
    }
    let mut statekey = to_vec(pdu.event_type.as_str().as_bytes());
    statekey.push(SEPARATOR);
    append(&mut statekey, state_key.as_bytes());
    let (shortstatekey, _) = match intern(
        &mut rooms.state.statekey_shortstatekey,
        statekey.as_slice(),
        globals,
    ) {
        Ok(interned) => interned,
        Err(e) => {
            return Err(e);
        },
    };
    match rooms.state.set_state_entry(room_id, shortstatekey, shorteventid, globals, lru) {
        Ok(_) => Ok(()),
        Err(e) => Err(e),
    }
}

/// The index of short ids after `key` was given one where it had none, as
/// [`interned`] gives it, and the index from the short ids back.
pub open spec fn interned_rows(
    forward: Map<Seq<u8>, Seq<u8>>,
    backward: Map<Seq<u8>, Seq<u8>>,
    key: Seq<u8>,
    count: nat,
) -> (Map<Seq<u8>, Seq<u8>>, Map<Seq<u8>, Seq<u8>>) {
    if forward.contains_key(key) {
        (forward, backward)
    } else {
        (forward.insert(key, be_bytes(count + 1, 8)), backward.insert(be_bytes(count + 1, 8), key))
    }
}

/// Gives `key` a short id from the counter, unless it has one, and records
/// a new short id in the index from the short ids back.
///
/// A counter that cannot be read is reported before anything is changed.
pub fn intern_both(forward: &mut Tree, backward: &mut Tree, key: &[u8], globals: &mut Globals) -> (r:
    Result<u64, Error>)
    requires
        old(forward).wf(),
        old(backward).wf(),
        old(globals).wf(),
        count_of(old(globals).globals@) < u64::MAX,
    ensures
        final(forward).wf(),
        final(backward).wf(),
        final(globals).wf(),
        counter_readable(old(globals).globals@) ==> (final(globals).config == old(globals).config),
        counter_readable(old(globals).globals@) ==> (final(globals).servertimeout_signingkey == old(globals).servertimeout_signingkey),
        counter_readable(old(globals).globals@) ==> (final(globals).rotate == old(globals).rotate),
        counter_readable(old(globals).globals@) ==> (final(globals).has_keypair() == old(globals).has_keypair()),
        counter_readable(old(globals).globals@) ==> ((final(forward)@, final(backward)@) == interned_rows(
            old(forward)@,
            old(backward)@,
            key@,
            count_of(old(globals).globals@),
        )),
        counter_readable(old(globals).globals@) ==> (match interned(old(forward)@, key@, count_of(old(globals).globals@)) {
            Ok(given) => r == Ok::<u64, Error>(given.0) && count_of(final(globals).globals@)
                == given.1,
            Err(e) => r == Err::<u64, Error>(e) && final(globals).globals == old(globals).globals,
        }),
        counter_readable(old(globals).globals@) ==> (r matches Ok(id) ==> short_id(final(forward)@, key@) == Some(Ok::<u64, Error>(id))),
        !counter_readable(old(globals).globals@) ==> (is_count_fault(r) && *final(forward) == *old(forward) && *final(backward) == *old(backward) && *final(globals) == *old(globals)),
        counter_readable(old(globals).globals@) ==> counter_readable(final(globals).globals@),
{
    if !globals.counter_is_readable() {
        return Err(Error::bad_database("Count has invalid bytes."));
    }
    let (id, created) = match intern(forward, key, globals) {
        Ok(interned) => interned,
        Err(e) => {
            return Err(e);
        },
    };
    if created {
        backward.insert(u64_to_be_bytes(id).as_slice(), key);
    }
    proof {
        crate::utils::lemma_be_bytes_len(id as nat, 8);
        crate::utils::lemma_pow256_values();
        crate::utils::lemma_be_value_of_bytes(id as nat, 8);
    }
    Ok(id)
}

/// What storing an event leaves of the timeline and of the short ids, when
/// the count stood at `count` before: the room and the event have their
/// short ids, in both directions; the event is stored under the short id of
/// its room and its count, and found by its id; it is the only leaf of its
/// room; and the words of its text lead to it.
pub open spec fn event_stored(
    after: Rooms,
    before: Rooms,
    pdu: PduBuilder,
    event_id: Seq<char>,
    pdu_json: Seq<u8>,
    search_text: Option<Seq<char>>,
    count: nat,
) -> bool {
    let room = encode_utf8(pdu.room_id@);
    let roomed = interned(before.shortids.roomid_shortroomid@, room, count + 1)->Ok_0;
    let pduid = pdu_id(roomed.0, (count + 1) as u64);
    &&& (after.shortids.roomid_shortroomid@, after.shortids.shortroomid_roomid@) == interned_rows(
        before.shortids.roomid_shortroomid@,
        before.shortids.shortroomid_roomid@,
        room,
        count + 1,
    )
    &&& (after.timeline.eventid_shorteventid@, after.timeline.shorteventid_eventid@)
        == interned_rows(
        before.timeline.eventid_shorteventid@,
        before.timeline.shorteventid_eventid@,
        encode_utf8(event_id),
        roomed.1,
    )
    &&& after.timeline.pduid_pdu@ == before.timeline.pduid_pdu@.insert(pduid, pdu_json)
    &&& after.timeline.eventid_pduid@ == before.timeline.eventid_pduid@.insert(
        encode_utf8(event_id),
        pduid,
    )
    &&& after.timeline.roomid_pduleaves@ == remove_all(
        before.timeline.roomid_pduleaves@,
        keys_of(listing(before.timeline.roomid_pduleaves@, with_prefix(room.push(SEPARATOR)))),
    ).insert(room.push(SEPARATOR) + encode_utf8(event_id), Seq::empty())
    &&& after.timeline.tokenids@ == match search_text {
        Some(text) => crate::tree::put_all(
            before.timeline.tokenids@,
            token_rows(roomed.0, words_of(encode_utf8(text), Seq::empty(), 0), (count + 1) as u64),
        ),
        None => before.timeline.tokenids@,
    }
}

/// The characters of a text that may be missing.
pub open spec fn text_view(text: Option<&str>) -> Option<Seq<char>> {
    match text {
        Some(text) => Some(text@),
        None => None,
    }
}

/// Stores an event in the timeline of its room: the event takes the next
/// count, its room and the event itself get their short ids, the event is
/// stored and becomes the only leaf of its room, and the words of its text
/// are indexed. Returns the key of the event and its short id.
///
/// A counter that cannot be read is reported before anything is changed.
pub fn store_event(
    rooms: &mut Rooms,
    pdu: &PduBuilder,
    event_id: &str,
    pdu_json: &[u8],
    search_text: Option<&str>,
    globals: &mut Globals,
) -> (r: Result<(Vec<u8>, u64), Error>)
    requires
        old(rooms).wf(),
        old(globals).wf(),
        count_of(old(globals).globals@) + 3 <= u64::MAX,
    ensures
        final(rooms).wf(),
        final(globals).wf(),
        counter_readable(old(globals).globals@) ==> (final(globals).config == old(globals).config),
        counter_readable(old(globals).globals@) ==> (final(globals).servertimeout_signingkey == old(globals).servertimeout_signingkey),
        counter_readable(old(globals).globals@) ==> (final(globals).rotate == old(globals).rotate),
        counter_readable(old(globals).globals@) ==> (final(globals).has_keypair() == old(globals).has_keypair()),
        counter_readable(old(globals).globals@) ==> (final(rooms).servers == old(rooms).servers),
        counter_readable(old(globals).globals@) ==> (final(rooms).edus == old(rooms).edus),
        counter_readable(old(globals).globals@) ==> (final(rooms).notifications == old(rooms).notifications),
        counter_readable(old(globals).globals@) ==> (final(rooms).state == old(rooms).state),
        counter_readable(old(globals).globals@) ==> (final(rooms).membership == old(rooms).membership),
        counter_readable(old(globals).globals@) ==> (final(rooms).timeline.eventid_outlierpdu == old(rooms).timeline.eventid_outlierpdu),
        counter_readable(old(globals).globals@) ==> (count_of(old(globals).globals@) < count_of(final(globals).globals@) <= count_of(
            old(globals).globals@,
        ) + 3),
        counter_readable(old(globals).globals@) ==> (match interned(
            old(rooms).shortids.roomid_shortroomid@,
            encode_utf8(pdu.room_id@),
            count_of(old(globals).globals@) + 1,
        ) {
            Err(e) => r == Err::<(Vec<u8>, u64), Error>(e),
            Ok(roomed) => match interned(
                old(rooms).timeline.eventid_shorteventid@,
                encode_utf8(event_id@),
                roomed.1,
            ) {
                Err(e) => r == Err::<(Vec<u8>, u64), Error>(e),
                Ok(known) => match r {
                    Ok(stored) => stored.0@ == pdu_id(
                        roomed.0,
                        (count_of(old(globals).globals@) + 1) as u64,
                    ) && stored.1 == known.0 && count_of(final(globals).globals@) == known.1
                        && event_stored(
                        *final(rooms),
                        *old(rooms),
                        *pdu,
                        event_id@,
                        pdu_json@,
                        text_view(search_text),
                        count_of(old(globals).globals@),
                    ),
                    Err(_) => false,
                },
            },
        }),
        !counter_readable(old(globals).globals@) ==> (is_count_fault(r) && *final(rooms) == *old(rooms) && *final(globals) == *old(globals)),
        counter_readable(old(globals).globals@) ==> counter_readable(final(globals).globals@),
{
    if !globals.counter_is_readable() {
        return Err(Error::bad_database("Count has invalid bytes."));
    }
    let room_id = pdu.room_id.as_str();
    let count = globals.advance_count();
    let shortroomid = match intern_both(
        &mut rooms.shortids.roomid_shortroomid,
        &mut rooms.shortids.shortroomid_roomid,
        room_id.as_bytes(),
        globals,
    ) {
        Ok(id) => id,
        Err(e) => {
            return Err(e);
        },
    };
    let pduid = rooms.timeline.store_pdu(shortroomid, count, event_id, pdu_json);
    let shorteventid = match intern_both(
        &mut rooms.timeline.eventid_shorteventid,
        &mut rooms.timeline.shorteventid_eventid,
        event_id.as_bytes(),
        globals,
    ) {
        Ok(id) => id,
        Err(e) => {
            return Err(e);
        },
    };
    rooms.timeline.replace_pdu_leaves(room_id, event_id);
    match search_text {
        Some(text) => {
            rooms.timeline.index_tokens(shortroomid, count, text.as_bytes());
        },
        None => {},
    }
    Ok((pduid, shorteventid))
}

/// What comes of appending an event when the count stands at `count`: the
/// key of the event, or the error that stopped it. The event takes the next
/// count; then its room and the event itself get their short ids, and a
/// state event takes its place in the state of its room.
pub open spec fn append_outcome(before: Rooms, pdu: PduBuilder, event_id: Seq<char>, count: nat) -> Result<
    Seq<u8>,
    Error,
> {
    match interned(before.shortids.roomid_shortroomid@, encode_utf8(pdu.room_id@), count + 1) {
        Err(e) => Err(e),
        Ok((shortroomid, roomed)) => match interned(
            before.timeline.eventid_shorteventid@,
            encode_utf8(event_id),
            roomed,
        ) {
            Err(e) => Err(e),
            Ok((shorteventid, known)) => match pdu.state_key {
                None => Ok(pdu_id(shortroomid, (count + 1) as u64)),
                Some(state_key) => match state_recorded(
                    before.state,
                    pdu,
                    state_key@,
                    shorteventid,
                    known,
                ).2 {
                    Err(e) => Err(e),
                    Ok(_) => Ok(pdu_id(shortroomid, (count + 1) as u64)),
                },
            },
        },
    }
}

/// The bytes behind a key that was returned.
pub open spec fn key_view(r: Result<Vec<u8>, Error>) -> Result<Seq<u8>, Error> {
    match r {
        Ok(key) => Ok(key@),
        Err(e) => Err(e),
    }
}

/// Creates a new persisted data unit and adds it to a room: the single way
/// in which a room changes.
///
/// `event_id` and `pdu_json` are the id and the canonical bytes of the
/// event that `pdu` describes; `invite_state` is the stripped state that
/// goes with an invitation, and `search_text` the text that the event is to
/// be found by. The event takes the next count and is stored under the
/// short id of its room and that count. A state event takes its place in
/// the room's state, which gets a new hash. A member event, whose state
/// key is its user, is fanned out to the membership indexes. The event
/// becomes the only leaf of its room. Returns the key of the event.
///
/// A counter that cannot be read is reported before anything is changed.
pub fn append_pdu(
    rooms: &mut Rooms,
    pdu: &PduBuilder,
    event_id: &str,
    pdu_json: &[u8],
    invite_state: &[u8],
    search_text: Option<&str>,
    globals: &mut Globals,
    lru: &mut LruCache<u64, Vec<StateInfo>>,
) -> (r: Result<Vec<u8>, Error>)
    requires
        old(rooms).wf(),
        old(globals).wf(),
        count_of(old(globals).globals@) + 6 <= u64::MAX,
        cache_valid(*old(lru), old(rooms).state.shortstatehash_statediff@),
    ensures
        final(rooms).wf(),
        final(globals).wf(),
        counter_readable(old(globals).globals@) ==> (final(globals).config == old(globals).config),
        counter_readable(old(globals).globals@) ==> (final(globals).servertimeout_signingkey == old(globals).servertimeout_signingkey),
        counter_readable(old(globals).globals@) ==> (final(globals).rotate == old(globals).rotate),
        counter_readable(old(globals).globals@) ==> (final(globals).has_keypair() == old(globals).has_keypair()),
        counter_readable(old(globals).globals@) ==> (final(rooms).servers == old(rooms).servers),
        counter_readable(old(globals).globals@) ==> (final(rooms).edus == old(rooms).edus),
        counter_readable(old(globals).globals@) ==> (final(rooms).notifications == old(rooms).notifications),
        counter_readable(old(globals).globals@) ==> (final(rooms).state.stateid_shorteventid == old(rooms).state.stateid_shorteventid),
        counter_readable(old(globals).globals@) ==> (final(rooms).timeline.eventid_outlierpdu == old(rooms).timeline.eventid_outlierpdu),
        counter_readable(old(globals).globals@) ==> (old(rooms).membership.exclusive() ==> final(rooms).membership.exclusive()),
        counter_readable(old(globals).globals@) ==> (count_of(old(globals).globals@) < count_of(final(globals).globals@) <= count_of(
            old(globals).globals@,
        ) + 6),
        counter_readable(old(globals).globals@) ==> (pdu.state_key is None ==> final(rooms).state == old(rooms).state
            && final(rooms).membership == old(rooms).membership),
        counter_readable(old(globals).globals@) ==> (r matches Ok(pduid) ==> appended(
            *final(rooms),
            *old(rooms),
            *pdu,
            event_id@,
            pdu_json@,
            invite_state@,
            text_view(search_text),
            count_of(old(globals).globals@),
            pduid@,
        )),
        counter_readable(old(globals).globals@) ==> (key_view(r) == append_outcome(
            *old(rooms),
            *pdu,
            event_id@,
            count_of(old(globals).globals@),
        )),
        layers_counted(old(rooms).state.shortstatehash_statediff@, old(globals).globals@)
        ==> cache_valid(*final(lru), final(rooms).state.shortstatehash_statediff@)
        && layers_counted(final(rooms).state.shortstatehash_statediff@, final(globals).globals@),
        !counter_readable(old(globals).globals@) ==> (is_count_fault(r) && *final(rooms) == *old(rooms) && *final(globals) == *old(globals) && *final(lru) == *old(lru)),
        counter_readable(old(globals).globals@) ==> counter_readable(final(globals).globals@),
{
    if !globals.counter_is_readable() {
        return Err(Error::bad_database("Count has invalid bytes."));
    }
    let (pduid, shorteventid) = match store_event(
        rooms,
        pdu,
        event_id,
        pdu_json,
        search_text,
        globals,
    ) {
        Ok(stored) => stored,
        Err(e) => {
            return Err(e);
        },
    };
    match &pdu.state_key {
        Some(state_key) => {
            match record_state(
                rooms,
                pdu,
                state_key.as_str(),
                shorteventid,
                invite_state,
                globals,
                lru,
            ) {
                Ok(()) => {},
                Err(e) => {
                    return Err(e);
                },
            }
        },
        None => {},
    }
    Ok(pduid)
}

/// What appending an event has done, when the count stood at `count`
/// before: the event is stored as [`event_stored`] says, under the key that
/// was returned; a state event has taken its place in the state of its room
/// as [`state_recorded`] says, and the hash of the new state is recorded
/// for the room and for the event; and a member event is recorded in the
/// membership indexes.
pub open spec fn appended(
    after: Rooms,
    before: Rooms,
    pdu: PduBuilder,
    event_id: Seq<char>,
    pdu_json: Seq<u8>,
    invite_state: Seq<u8>,
    search_text: Option<Seq<char>>,
    count: nat,
    pduid: Seq<u8>,
) -> bool {
    let roomed = interned(
        before.shortids.roomid_shortroomid@,
        encode_utf8(pdu.room_id@),
        count + 1,
    )->Ok_0;
    let known = interned(
        before.timeline.eventid_shorteventid@,
        encode_utf8(event_id),
        roomed.1,
    )->Ok_0;
    &&& pduid == pdu_id(roomed.0, (count + 1) as u64)
    &&& event_stored(after, before, pdu, event_id, pdu_json, search_text, count)
    &&& match pdu.state_key {
        None => after.state == before.state && after.membership == before.membership,
        Some(state_key) => {
            let recorded = state_recorded(before.state, pdu, state_key@, known.0, known.1);
            &&& after.state.shortstatehash_statediff@ == recorded.0
            &&& after.state.statehash_shortstatehash@ == recorded.1
            &&& recorded.2 is Ok
            &&& after.state.roomid_shortstatehash@ == before.state.roomid_shortstatehash@.insert(
                encode_utf8(pdu.room_id@),
                be_bytes(recorded.2->Ok_0 as nat, 8),
            )
            &&& after.state.shorteventid_shortstatehash@
                == before.state.shorteventid_shortstatehash@.insert(
                be_bytes(known.0 as nat, 8),
                be_bytes(recorded.2->Ok_0 as nat, 8),
            )
            &&& if pdu.event_type@ == "m.room.member"@ {
                member_recorded(
                    after.membership,
                    before.membership,
                    pdu.room_id@,
                    state_key@,
                    encode_utf8(pdu.content@),
                    invite_state,
                )
            } else {
                after.membership == before.membership
            }
        },
    }
}

} // verus!
