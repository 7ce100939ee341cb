//! Account data: for each room (or none), user and event type, the latest
//! event the user stored.
//!
//! A row is keyed `room + 0xff + user + 0xff + count + 0xff + type`, where
//! the count is the value of the global counter when the row was written.

use crate::error::{Error, ErrorKind};
use crate::globals::{count_of, counter_key, counter_readable, Globals};
use crate::json::{has_field, is_json, json_field_present, json_rendered, parses_as_json, render};
use crate::tree::{at_or_after, has_row, is_listing, leading, listing, rows_of, with_prefix, Tree};
use crate::utils::{
    append, be_bytes, bytes_eq, last_field, last_field_of, lemma_be_bytes_len,
    lemma_last_field_of_join, lemma_utf8_sep_free, string_from_bytes, u64_to_be_bytes, SEPARATOR,
};
use vstd::prelude::*;
use vstd::utf8::*;

verus! {

/// The account data tables.
pub struct AccountData {
    /// RoomUserDataId = Room + User + Count + Type
    pub roomuserdataid_accountdata: Tree,
    /// RoomUserType = Room + User + Type
    pub roomusertype_roomuserdataid: Tree,
}

/// The bytes of a room id, no room counting as the empty string.
pub open spec fn room_bytes(room_id: Option<Seq<char>>) -> Seq<u8> {
    match room_id {
        Some(room) => encode_utf8(room),
        None => Seq::empty(),
    }
}

/// The beginning of the keys of one user's account data in one room.
pub open spec fn data_prefix(room_id: Option<Seq<char>>, user_id: Seq<char>) -> Seq<u8> {
    room_bytes(room_id).push(SEPARATOR) + encode_utf8(user_id).push(SEPARATOR)
}

/// The key of the row written at `count`.
pub open spec fn data_key(prefix: Seq<u8>, count: nat, kind: Seq<u8>) -> Seq<u8> {
    prefix + be_bytes(count, 8).push(SEPARATOR) + kind
}

/// The last of the rows whose key ends in the event type `kind`.
pub open spec fn latest_of_type(rows: Seq<(Seq<u8>, Seq<u8>)>, kind: Seq<u8>) -> Option<
    (Seq<u8>, Seq<u8>),
>
    decreases rows.len(),
{
    if rows.len() == 0 {
        None
    } else if last_field(rows.last().0) == kind {
        Some(rows.last())
    } else {
        latest_of_type(rows.drop_last(), kind)
    }
}

/// The row that holds the latest event of the type, if the user stored one.
pub open spec fn found_event(
    rows: Map<Seq<u8>, Seq<u8>>,
    room_id: Option<Seq<char>>,
    user_id: Seq<char>,
    kind: Seq<char>,
) -> Option<(Seq<u8>, Seq<u8>)> {
    latest_of_type(listing(rows, with_prefix(data_prefix(room_id, user_id))), encode_utf8(kind))
}

/// Whether `data` is JSON text that can be stored as account data: it has
/// the members `type` and `content`.
pub open spec fn storable(data: Seq<char>) -> bool {
    &&& json_field_present(data, "type"@) == Some(true)
    &&& json_field_present(data, "content"@) == Some(true)
    &&& json_rendered(data) is Some
}

/// Decides whether account data can be stored, from what is known of it:
/// whether it has a `type`, whether it has a `content`, and whether it
/// could be written out.
pub fn check_account_data(has_type: Option<bool>, has_content: Option<bool>, written: bool) -> (r:
    Result<(), Error>)
    ensures
        r is Ok <==> has_type == Some(true) && has_content == Some(true) && written,
        r matches Err(e) ==> e == Error::BadRequest(
            ErrorKind::InvalidParam,
            "Account data doesn't have all required fields.",
        ),
{
    let complete = match (has_type, has_content) {
        (Some(a), Some(b)) => a && b && written,
        _ => false,
    };
    if complete {
        Ok(())
    } else {
        Err(
            Error::BadRequest(
                ErrorKind::InvalidParam,
                "Account data doesn't have all required fields.",
            ),
        )
    }
}

/// The rows after the user stored `data` under the event type `kind` at
/// `count`: the row that held the latest event of the type is gone, and a
/// row written at `count` holds the data. Data that cannot be stored
/// leaves the rows as they were.
pub open spec fn updated(
    rows: Map<Seq<u8>, Seq<u8>>,
    room_id: Option<Seq<char>>,
    user_id: Seq<char>,
    kind: Seq<char>,
    count: nat,
    data: Seq<char>,
) -> Map<Seq<u8>, Seq<u8>> {
    let cleared = match found_event(rows, room_id, user_id, kind) {
        Some(row) => rows.remove(row.0),
        None => rows,
    };
    if storable(data) {
        cleared.insert(
            data_key(data_prefix(room_id, user_id), count, encode_utf8(kind)),
            encode_utf8(json_rendered(data)->Some_0),
        )
    } else {
        rows
    }
}

/// What comes of storing `data`: data that cannot be stored is rejected
/// first, then a counter that cannot be read is reported.
pub open spec fn update_outcome(data: Seq<char>, counter_readable: bool) -> Result<(), Error> {
    if !storable(data) {
        Err(
            Error::BadRequest(
                ErrorKind::InvalidParam,
                "Account data doesn't have all required fields.",
            ),
        )
    } else if !counter_readable {
        Err(crate::globals::count_fault())
    } else {
        Ok(())
    }
}

/// The key belongs to the event type `kind` of the user whose keys begin
/// with `prefix`.
pub open spec fn in_slot(key: Seq<u8>, prefix: Seq<u8>, kind: Seq<u8>) -> bool {
    prefix.is_prefix_of(key) && last_field(key) == kind
}

/// At most one row is stored for the event type of the user.
pub open spec fn at_most_one(rows: Map<Seq<u8>, Seq<u8>>, prefix: Seq<u8>, kind: Seq<u8>) -> bool {
    forall|a: Seq<u8>, b: Seq<u8>|
        rows.contains_key(a) && in_slot(a, prefix, kind) && rows.contains_key(b) && in_slot(
            b,
            prefix,
            kind,
        ) ==> a == b
}

/// What the search for the latest row of a type finds: a row of the type if
/// there is one, and none only if there is none.
proof fn lemma_latest_of_type(rows: Seq<(Seq<u8>, Seq<u8>)>, kind: Seq<u8>)
    ensures
        match latest_of_type(rows, kind) {
            Some(row) => rows.contains(row) && last_field(row.0) == kind,
            None => forall|i: int| 0 <= i < rows.len() ==> last_field((#[trigger] rows[i]).0)
                != kind,
        },
    decreases rows.len(),
{
    if rows.len() > 0 {
        if last_field(rows.last().0) == kind {
            assert(rows[rows.len() - 1] == rows.last());
        } else {
            lemma_latest_of_type(rows.drop_last(), kind);
            match latest_of_type(rows.drop_last(), kind) {
                Some(row) => {
                    let j = choose|j: int|
                        0 <= j < rows.drop_last().len() && rows.drop_last()[j] == row;
                    assert(rows[j] == row);
                },
                None => {
                    assert forall|i: int| 0 <= i < rows.len() implies last_field(
                        (#[trigger] rows[i]).0,
                    ) != kind by {
                        if i < rows.len() - 1 {
                            assert(rows.drop_last()[i] == rows[i]);
                        }
                    }
                },
            }
        }
    }
}

/// Latest wins: where at most one row was stored for an event type of a
/// user, storing an event leaves exactly one, the new one, and that is the
/// row a search finds.
proof fn lemma_latest_wins(
    before: Map<Seq<u8>, Seq<u8>>,
    room_id: Option<Seq<char>>,
    user_id: Seq<char>,
    kind: Seq<char>,
    count: nat,
    data: Seq<char>,
)
    requires
        storable(data),
        at_most_one(before, data_prefix(room_id, user_id), encode_utf8(kind)),
        is_listing(
            listing(before, with_prefix(data_prefix(room_id, user_id))),
            before,
            with_prefix(data_prefix(room_id, user_id)),
        ),
        is_listing(
            listing(
                updated(before, room_id, user_id, kind, count, data),
                with_prefix(data_prefix(room_id, user_id)),
            ),
            updated(before, room_id, user_id, kind, count, data),
            with_prefix(data_prefix(room_id, user_id)),
        ),
    ensures
        ({
            let after = updated(before, room_id, user_id, kind, count, data);
            let prefix = data_prefix(room_id, user_id);
            let key = data_key(prefix, count, encode_utf8(kind));
            &&& found_event(after, room_id, user_id, kind) == Some(
                (key, encode_utf8(json_rendered(data)->Some_0)),
            )
            &&& forall|other: Seq<u8>|
                after.contains_key(other) && in_slot(other, prefix, encode_utf8(kind)) ==> other
                    == key
            &&& at_most_one(after, prefix, encode_utf8(kind))
        }),
{
    let prefix = data_prefix(room_id, user_id);
    let k = encode_utf8(kind);
    let key = data_key(prefix, count, k);
    let value = encode_utf8(json_rendered(data)->Some_0);
    let after = updated(before, room_id, user_id, kind, count, data);
    let l0 = listing(before, with_prefix(prefix));
    let l1 = listing(after, with_prefix(prefix));
    lemma_utf8_sep_free(kind);
    lemma_last_field_of_join(prefix + be_bytes(count, 8), k);
    assert(key =~= (prefix + be_bytes(count, 8)).push(SEPARATOR) + k);
    assert(prefix.is_prefix_of(key)) by {
        assert(key.subrange(0, prefix.len() as int) =~= prefix);
    }
    assert(in_slot(key, prefix, k));
    lemma_latest_of_type(l0, k);
    let cleared = match found_event(before, room_id, user_id, kind) {
        Some(row) => before.remove(row.0),
        None => before,
    };
    assert forall|other: Seq<u8>| cleared.contains_key(other) implies !in_slot(
        other,
        prefix,
        k,
    ) by {
        if in_slot(other, prefix, k) {
            assert(before.contains_key(other) && with_prefix(prefix)(other));
            assert(has_row(l0, other));
            match latest_of_type(l0, k) {
                Some(row) => {
                    let j = choose|j: int| 0 <= j < l0.len() && l0[j] == row;
                    assert(before.contains_key(l0[j].0) && with_prefix(prefix)(l0[j].0));
                },
                None => {},
            }
        }
    }
    assert(after.contains_key(key) && with_prefix(prefix)(key));
    assert(has_row(l1, key));
    lemma_latest_of_type(l1, k);
    match latest_of_type(l1, k) {
        Some(row) => {
            let j = choose|j: int| 0 <= j < l1.len() && l1[j] == row;
            assert(after.contains_key(l1[j].0) && after[l1[j].0] == l1[j].1 && with_prefix(prefix)(
                l1[j].0,
            ));
            assert(in_slot(row.0, prefix, k));
            if row.0 != key {
                assert(cleared.contains_key(row.0));
            }
        },
        None => {},
    }
}

/// What the rows say has changed, in order: for each row the event type
/// that ends its key and the event it holds. Reading stops at the first row
/// whose type is not UTF-8 or whose event is not JSON.
pub open spec fn changes(rows: Seq<(Seq<u8>, Seq<u8>)>) -> Result<Seq<(Seq<char>, Seq<u8>)>, Error>
    decreases rows.len(),
{
    if rows.len() == 0 {
        Ok(Seq::empty())
    } else {
        match changes(rows.drop_last()) {
            Err(e) => Err(e),
            Ok(found) => {
                let row = rows.last();
                if !valid_utf8(last_field(row.0)) {
                    Err(Error::BadDatabase("RoomUserData ID in db is invalid."))
                } else if !is_json(row.1) {
                    Err(Error::BadDatabase("Database contains invalid account data."))
                } else {
                    Ok(found.push((decode_utf8(last_field(row.0)), row.1)))
                }
            },
        }
    }
}

proof fn lemma_changes_stop(rows: Seq<(Seq<u8>, Seq<u8>)>, n: int)
    requires
        0 <= n <= rows.len(),
        changes(rows.take(n)) is Err,
    ensures
        changes(rows) == changes(rows.take(n)),
    decreases rows.len() - n,
{
    if n < rows.len() {
        assert(rows.take(n + 1).drop_last() =~= rows.take(n));
        lemma_changes_stop(rows, n + 1);
    } else {
        assert(rows.take(n) =~= rows);
    }
}

/// The types and events behind a list of changes.
pub open spec fn changes_view(list: Seq<(String, Vec<u8>)>) -> Seq<(Seq<char>, Seq<u8>)> {
    Seq::new(list.len(), |i: int| (list[i].0@, list[i].1@))
}

/// The key from which the rows written after `since` begin.
pub open spec fn first_possible(prefix: Seq<u8>, since: u64) -> Seq<u8> {
    prefix + be_bytes(since as nat + 1, 8)
}

/// The beginning of the keys of one user's account data in one room.
fn prefix_of(room_id: Option<&str>, user_id: &str) -> (r: Vec<u8>)
    ensures
        r@ == data_prefix(
            match room_id {
                Some(room) => Some(room@),
                None => None,
            },
            user_id@,
        ),
{
    let mut prefix: Vec<u8> = Vec::new();
    match room_id {
        Some(room) => {
            append(&mut prefix, room.as_bytes());
        },
        None => {},
    }
    prefix.push(SEPARATOR);
    append(&mut prefix, user_id.as_bytes());
    prefix.push(SEPARATOR);
    assert(prefix@ =~= data_prefix(
        match room_id {
            Some(room) => Some(room@),
            None => None,
        },
        user_id@,
    ));
    prefix
}

/// A copy of the bytes.
fn to_vec_of(bytes: &Vec<u8>) -> (r: Vec<u8>)
    ensures
        r@ == bytes@,
{
    crate::utils::to_vec(bytes.as_slice())
}

/// The characters behind an optional string.
pub open spec fn opt_view(s: Option<&str>) -> Option<Seq<char>> {
    match s {
        Some(string) => Some(string@),
        None => None,
    }
}

impl AccountData {
    /// The trees are well formed.
    pub open spec fn wf(&self) -> bool {
        self.roomuserdataid_accountdata.wf() && self.roomusertype_roomuserdataid.wf()
    }

    /// Searches the account data for a specific kind: the row that holds
    /// the latest event of the type.
    pub fn find_event(&self, room_id: Option<&str>, user_id: &str, kind: &str) -> (r: Option<
        (Vec<u8>, Vec<u8>),
    >)
        requires
            self.wf(),
        ensures
            match r {
                Some(row) => found_event(
                    self.roomuserdataid_accountdata@,
                    opt_view(room_id),
                    user_id@,
                    kind@,
                ) == Some((row.0@, row.1@)),
                None => found_event(
                    self.roomuserdataid_accountdata@,
                    opt_view(room_id),
                    user_id@,
                    kind@,
                ) is None,
            },
    {
        let prefix = prefix_of(room_id, user_id);
        let mut rows = self.roomuserdataid_accountdata.scan_prefix(prefix.as_slice());
        let ghost list = rows_of(rows@);
        while rows.len() > 0
            invariant
                rows@.len() <= list.len(),
                list == listing(
                    self.roomuserdataid_accountdata@,
                    with_prefix(data_prefix(opt_view(room_id), user_id@)),
                ),
                rows_of(rows@) == list.take(rows@.len() as int),
                latest_of_type(list, encode_utf8(kind@)) == latest_of_type(
                    rows_of(rows@),
                    encode_utf8(kind@),
                ),
            decreases rows@.len(),
        {
            let ghost before = rows_of(rows@);
            let row = rows.pop().unwrap();
            assert(before.last() == (row.0@, row.1@));
            assert(rows_of(rows@) =~= before.drop_last());
            assert(rows_of(rows@) =~= list.take(rows@.len() as int));
            if bytes_eq(last_field_of(row.0.as_slice()).as_slice(), kind.as_bytes()) {
                assert(latest_of_type(before, encode_utf8(kind@)) == Some(before.last()));
                return Some(row);
            }
        }
        assert(rows_of(rows@) =~= Seq::empty());
        None
    }

    /// Searches the account data for a specific kind: the event that the
    /// user stored last under the type, as it is stored.
    pub fn get(&self, room_id: Option<&str>, user_id: &str, kind: &str) -> (r: Option<Vec<u8>>)
        requires
            self.wf(),
        ensures
            match r {
                Some(value) => found_event(
                    self.roomuserdataid_accountdata@,
                    opt_view(room_id),
                    user_id@,
                    kind@,
                ) matches Some(row) && row.1 == value@,
                None => found_event(
                    self.roomuserdataid_accountdata@,
                    opt_view(room_id),
                    user_id@,
                    kind@,
                ) is None,
            },
    {
        match self.find_event(room_id, user_id, kind) {
            Some(row) => Some(row.1),
            None => None,
        }
    }

    /// Returns all changes to the account data that happened after `since`:
    /// the user's rows written at a later count, in the order they were
    /// written, each as its event type and its event. A later event of a
    /// type replaces an earlier one.
    pub fn changes_since(&self, room_id: Option<&str>, user_id: &str, since: u64) -> (r: Result<
        Vec<(String, Vec<u8>)>,
        Error,
    >)
        requires
            self.wf(),
            since < u64::MAX,
        ensures
            match r {
                Ok(list) => changes(
                    leading(
                        listing(
                            self.roomuserdataid_accountdata@,
                            at_or_after(
                                first_possible(data_prefix(opt_view(room_id), user_id@), since),
                            ),
                        ),
                        data_prefix(opt_view(room_id), user_id@),
                    ),
                ) == Ok::<Seq<(Seq<char>, Seq<u8>)>, Error>(changes_view(list@)),
                Err(e) => changes(
                    leading(
                        listing(
                            self.roomuserdataid_accountdata@,
                            at_or_after(
                                first_possible(data_prefix(opt_view(room_id), user_id@), since),
                            ),
                        ),
                        data_prefix(opt_view(room_id), user_id@),
                    ),
                ) == Err::<Seq<(Seq<char>, Seq<u8>)>, Error>(e),
            },
    {
        let prefix = prefix_of(room_id, user_id);
        // Skip the data that's exactly at since, because we sent that last time
        let mut from = to_vec_of(&prefix);
        append(&mut from, u64_to_be_bytes(since + 1).as_slice());
        let rows = self.roomuserdataid_accountdata.scan_from(from.as_slice(), prefix.as_slice());
        let ghost list = rows_of(rows@);
        let mut userdata: Vec<(String, Vec<u8>)> = Vec::new();
        let mut i: usize = 0;
        proof {
            assert(list.take(0) =~= Seq::empty());
            assert(changes_view(userdata@) =~= Seq::empty());
        }
        while i < rows.len()
            invariant
                i <= rows@.len(),
                list == rows_of(rows@),
                list == leading(
                    listing(
                        self.roomuserdataid_accountdata@,
                        at_or_after(
                            first_possible(data_prefix(opt_view(room_id), user_id@), since),
                        ),
                    ),
                    data_prefix(opt_view(room_id), user_id@),
                ),
                changes(list.take(i as int)) == Ok::<Seq<(Seq<char>, Seq<u8>)>, Error>(
                    changes_view(userdata@),
                ),
            decreases rows@.len() - i,
        {
            proof {
                assert(list.take(i + 1).drop_last() =~= list.take(i as int));
                assert(list.take(i + 1).last() == list[i as int]);
                assert(list[i as int] == (rows@[i as int].0@, rows@[i as int].1@));
            }
            let kind = match string_from_bytes(last_field_of(rows[i].0.as_slice()).as_slice()) {
                Ok(kind) => kind,
                Err(_) => {
                    proof {
                        lemma_changes_stop(list, i + 1);
                    }
                    return Err(Error::bad_database("RoomUserData ID in db is invalid."));
                },
            };
            if !parses_as_json(rows[i].1.as_slice()) {
                proof {
                    lemma_changes_stop(list, i + 1);
                }
                return Err(Error::bad_database("Database contains invalid account data."));
            }
            let ghost before = changes_view(userdata@);
            let value = to_vec_of(&rows[i].1);
            userdata.push((kind, value));
            assert(changes_view(userdata@) =~= before.push(
                (decode_utf8(last_field(list[i as int].0)), list[i as int].1),
            ));
            i = i + 1;
        }
        assert(list.take(i as int) =~= list);
        Ok(userdata)
    }

    /// Places one event in the account data of the user and removes the
    /// previous entry. `data` is the event as JSON text; it is stored as
    /// `serde_json` writes it. An event that is rejected changes nothing:
    /// the previous entry stays and no count is taken.
    pub fn update(
        &mut self,
        room_id: Option<&str>,
        user_id: &str,
        event_type: &str,
        data: &str,
        globals: &mut Globals,
    ) -> (r: Result<(), Error>)
        requires
            old(self).wf(),
            old(globals).wf(),
            count_of(old(globals).globals@) < u64::MAX,
        ensures
            final(self).wf(),
            final(globals).wf(),
            final(self).roomusertype_roomuserdataid == old(self).roomusertype_roomuserdataid,
            final(globals).globals.watch() == old(globals).globals.watch(),
            final(globals).config == old(globals).config,
            final(globals).servertimeout_signingkey == old(globals).servertimeout_signingkey,
            final(globals).rotate == old(globals).rotate,
            final(globals).has_keypair() == old(globals).has_keypair(),
            r == update_outcome(data@, counter_readable(old(globals).globals@)),
            r is Err ==> *final(self) == *old(self) && *final(globals) == *old(globals),
            r is Ok ==> {
                &&& count_of(final(globals).globals@) == count_of(old(globals).globals@) + 1
                &&& counter_readable(final(globals).globals@)
                &&& final(globals).globals@ == old(globals).globals@.insert(
                    counter_key(),
                    be_bytes(count_of(old(globals).globals@) + 1, 8),
                )
                &&& final(self).roomuserdataid_accountdata@ == updated(
                    old(self).roomuserdataid_accountdata@,
                    opt_view(room_id),
                    user_id@,
                    event_type@,
                    count_of(old(globals).globals@) + 1,
                    data@,
                )
                &&& final(self).roomuserdataid_accountdata.watch() == ({
                    let start = old(self).roomuserdataid_accountdata;
                    let cleared = match found_event(
                        start@,
                        opt_view(room_id),
                        user_id@,
                        event_type@,
                    ) {
                        Some(row) => start.watch().fire(row.0),
                        None => start.watch(),
                    };
                    cleared.fire(
                        data_key(
                            data_prefix(opt_view(room_id), user_id@),
                            count_of(old(globals).globals@) + 1,
                            encode_utf8(event_type@),
                        ),
                    )
                })
            },
            r is Ok && at_most_one(
                old(self).roomuserdataid_accountdata@,
                data_prefix(opt_view(room_id), user_id@),
                encode_utf8(event_type@),
            ) ==> at_most_one(
                final(self).roomuserdataid_accountdata@,
                data_prefix(opt_view(room_id), user_id@),
                encode_utf8(event_type@),
            ) && found_event(
                final(self).roomuserdataid_accountdata@,
                opt_view(room_id),
                user_id@,
                event_type@,
            ) == Some(
                (
                    data_key(
                        data_prefix(opt_view(room_id), user_id@),
                        count_of(old(globals).globals@) + 1,
                        encode_utf8(event_type@),
                    ),
                    encode_utf8(json_rendered(data@)->Some_0),
                ),
            ),
    {
        // Data that cannot be stored is rejected before anything is touched.
        let json = render(data);
        match check_account_data(has_field(data, "type"), has_field(data, "content"), json.is_some()) {
            Ok(()) => {},
            Err(e) => {
                return Err(e);
            },
        }
        let json = json.unwrap();
        let count = match globals.next_count() {
            Ok(count) => count,
            Err(e) => {
                return Err(e);
            },
        };
        // Remove old entry
        match self.find_event(room_id, user_id, event_type) {
            Some(previous) => {
                self.roomuserdataid_accountdata.remove(previous.0.as_slice());
            },
            None => {},
        }
        let mut key = prefix_of(room_id, user_id);
        append(&mut key, u64_to_be_bytes(count).as_slice());
        key.push(SEPARATOR);
        append(&mut key, event_type.as_bytes());
        assert(key@ =~= data_key(
            data_prefix(opt_view(room_id), user_id@),
            count as nat,
            encode_utf8(event_type@),
        ));
        self.roomuserdataid_accountdata.insert(key.as_slice(), json.as_str().as_bytes());
        proof {
            let prefix = data_prefix(opt_view(room_id), user_id@);
            if at_most_one(old(self).roomuserdataid_accountdata@, prefix, encode_utf8(event_type@)) {
                old(self).roomuserdataid_accountdata.lemma_listing_exists(with_prefix(prefix));
                self.roomuserdataid_accountdata.lemma_listing_exists(with_prefix(prefix));
                lemma_latest_wins(
                    old(self).roomuserdataid_accountdata@,
                    opt_view(room_id),
                    user_id@,
                    event_type@,
                    count_of(old(globals).globals@) + 1,
                    data@,
                );
            }
        }
        Ok(())
    }
}

} // verus!
