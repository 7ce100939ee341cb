//! The schema migrations, each a step from one database version to the
//! next.

use crate::account_data::AccountData;
use crate::error::Error;
use crate::globals::{count_of, counter_key, Globals, counter_readable, is_count_fault};
use crate::ids::{parse_user_id, parsed_user_id};
use crate::media::Media;
use crate::membership::Membership;
use crate::users::{ids_of, last_fields, user_prefix, user_prefix_of};
use crate::utils::str_eq;
use crate::rooms::{RoomServers, RoomState, ShortRoomIds, Timeline};
use crate::tree::{every_key, keys_of, listing, put_all, rows_of, with_prefix, Tree};
use crate::users::Users;
use crate::utils::{
    after_first_field, after_first_field_of, append, argon2_verified, be_bytes, first_field,
    first_field_of, last_field, last_field_of, string_from_bytes, to_vec, u64_to_be_bytes,
    verify_encoded, SEPARATOR,
};
use vstd::prelude::*;
use vstd::utf8::*;

verus! {

/// Stores the rows in the tree, one after the other.
pub fn put_rows(target: &mut Tree, writes: &Vec<(Vec<u8>, Vec<u8>)>)
    requires
        old(target).wf(),
    ensures
        final(target).wf(),
        final(target)@ == put_all(old(target)@, rows_of(writes@)),
        final(target).watch() == old(target).watch().fire_all(keys_of(rows_of(writes@))),
{
    let mut i: usize = 0;
    let ghost list = rows_of(writes@);
    proof {
        assert(list.take(0) =~= Seq::empty());
        assert(keys_of(list).take(0) =~= Seq::empty());
    }
    while i < writes.len()
        invariant
            i <= writes@.len(),
            list == rows_of(writes@),
            target.wf(),
            target@ == put_all(old(target)@, list.take(i as int)),
            target.watch() == old(target).watch().fire_all(keys_of(list).take(i as int)),
        decreases writes@.len() - i,
    {
        proof {
            assert(list.take(i + 1).drop_last() =~= list.take(i as int));
            assert(list.take(i + 1).last() == (writes@[i as int].0@, writes@[i as int].1@));
            assert(keys_of(list).take(i + 1).drop_last() =~= keys_of(list).take(i as int));
            assert(keys_of(list).take(i + 1).last() == writes@[i as int].0@);
        }
        target.insert(writes[i].0.as_slice(), writes[i].1.as_slice());
        i = i + 1;
    }
    assert(list.take(i as int) =~= list);
    assert(keys_of(list).take(i as int) =~= keys_of(list));
}

/// The rows that a function makes of the rows it is shown, in order,
/// leaving out the rows it makes nothing of.
pub open spec fn collect(
    rows: Seq<(Seq<u8>, Seq<u8>)>,
    make: spec_fn((Seq<u8>, Seq<u8>)) -> Option<(Seq<u8>, Seq<u8>)>,
) -> Seq<(Seq<u8>, Seq<u8>)>
    decreases rows.len(),
{
    if rows.len() == 0 {
        Seq::empty()
    } else {
        match make(rows.last()) {
            Some(row) => collect(rows.drop_last(), make).push(row),
            None => collect(rows.drop_last(), make),
        }
    }
}

/// The key under which a server's room is found, made from the key under
/// which a room's server is found: the first two fields, swapped. A key of
/// one field only gives none.
pub open spec fn serverroomid_of(roomserverid: Seq<u8>) -> Option<Seq<u8>> {
    match after_first_field(roomserverid) {
        Some(rest) => Some(first_field(rest).push(SEPARATOR) + first_field(roomserverid)),
        None => None,
    }
}

/// What the step from version 0 to 1 writes for one row.
pub open spec fn write_0_1() -> spec_fn((Seq<u8>, Seq<u8>)) -> Option<(Seq<u8>, Seq<u8>)> {
    |row: (Seq<u8>, Seq<u8>)|
        match serverroomid_of(row.0) {
            Some(key) => Some((key, Seq::<u8>::empty())),
            None => None,
        }
}

/// Version 0 to 1: fills `serverroomids` from `roomserverids`.
pub fn migrate_0_to_1(servers: &mut RoomServers)
    requires
        old(servers).wf(),
    ensures
        final(servers).wf(),
        final(servers).roomserverids == old(servers).roomserverids,
        final(servers).serverroomids@ == put_all(
            old(servers).serverroomids@,
            collect(listing(old(servers).roomserverids@, every_key()), write_0_1()),
        ),
        final(servers).serverroomids.watch() == old(servers).serverroomids.watch().fire_all(
            keys_of(collect(listing(old(servers).roomserverids@, every_key()), write_0_1())),
        ),
{
    let rows = servers.roomserverids.iter();
    let ghost list = rows_of(rows@);
    let mut writes: Vec<(Vec<u8>, Vec<u8>)> = Vec::new();
    let mut i: usize = 0;
    proof {
        assert(list.take(0) =~= Seq::empty());
        assert(rows_of(writes@) =~= Seq::empty());
    }
    while i < rows.len()
        invariant
            i <= rows@.len(),
            list == rows_of(rows@),
            rows_of(writes@) == collect(list.take(i as int), write_0_1()),
        decreases rows@.len() - i,
    {
        proof {
            assert(list.take(i + 1).drop_last() =~= list.take(i as int));
            assert(list.take(i + 1).last() == (rows@[i as int].0@, rows@[i as int].1@));
        }
        let ghost before = rows_of(writes@);
        match after_first_field_of(rows[i].0.as_slice()) {
            Some(rest) => {
                let mut serverroomid = first_field_of(rest.as_slice());
                serverroomid.push(SEPARATOR);
                append(&mut serverroomid, first_field_of(rows[i].0.as_slice()).as_slice());
                let empty: Vec<u8> = Vec::new();
                writes.push((serverroomid, empty));
                assert(rows_of(writes@) =~= before.push(
                    (serverroomid_of(rows@[i as int].0@)->Some_0, Seq::<u8>::empty()),
                ));
            },
            None => {},
        }
        i = i + 1;
    }
    assert(list.take(i as int) =~= list);
    put_rows(&mut servers.serverroomids, &writes);
}

/// Whether what is stored as a password is a hash of the empty password.
pub open spec fn is_hashed_empty(stored: Seq<u8>) -> bool {
    valid_utf8(stored) && argon2_verified(decode_utf8(stored), Seq::<u8>::empty()) == Some(true)
}

/// What the step from version 1 to 2 writes for one row.
pub open spec fn write_1_2() -> spec_fn((Seq<u8>, Seq<u8>)) -> Option<(Seq<u8>, Seq<u8>)> {
    |row: (Seq<u8>, Seq<u8>)|
        if is_hashed_empty(row.1) {
            Some((row.0, Seq::<u8>::empty()))
        } else {
            None
        }
}

/// Version 1 to 2: where a stored password hash verifies the empty
/// password, the empty string is stored in its place.
pub fn migrate_1_to_2(users: &mut Users)
    requires
        old(users).wf(),
    ensures
        final(users).wf(),
        final(users).userdeviceid_token == old(users).userdeviceid_token,
        final(users).userdeviceid_metadata == old(users).userdeviceid_metadata,
        final(users).userid_devicelistversion == old(users).userid_devicelistversion,
        final(users).token_userdeviceid == old(users).token_userdeviceid,
        final(users).todeviceid_events == old(users).todeviceid_events,
        final(users).userid_password@ == put_all(
            old(users).userid_password@,
            collect(listing(old(users).userid_password@, every_key()), write_1_2()),
        ),
        final(users).userid_password.watch() == old(users).userid_password.watch().fire_all(
            keys_of(collect(listing(old(users).userid_password@, every_key()), write_1_2())),
        ),
{
    let rows = users.userid_password.iter();
    let ghost list = rows_of(rows@);
    let mut writes: Vec<(Vec<u8>, Vec<u8>)> = Vec::new();
    let mut i: usize = 0;
    proof {
        assert(list.take(0) =~= Seq::empty());
        assert(rows_of(writes@) =~= Seq::empty());
    }
    while i < rows.len()
        invariant
            i <= rows@.len(),
            list == rows_of(rows@),
            rows_of(writes@) == collect(list.take(i as int), write_1_2()),
        decreases rows@.len() - i,
    {
        proof {
            assert(list.take(i + 1).drop_last() =~= list.take(i as int));
            assert(list.take(i + 1).last() == (rows@[i as int].0@, rows@[i as int].1@));
        }
        let ghost before = rows_of(writes@);
        let empty_hashed_password = match string_from_bytes(rows[i].1.as_slice()) {
            Ok(password) => {
                let empty: Vec<u8> = Vec::new();
                match verify_encoded(password.as_str(), empty.as_slice()) {
                    Some(verified) => verified,
                    None => false,
                }
            },
            Err(_) => false,
        };
        if empty_hashed_password {
            let empty: Vec<u8> = Vec::new();
            writes.push((to_vec(rows[i].0.as_slice()), empty));
            assert(rows_of(writes@) =~= before.push((rows@[i as int].0@, Seq::<u8>::empty())));
        }
        i = i + 1;
    }
    assert(list.take(i as int) =~= list);
    put_rows(&mut users.userid_password, &writes);
}

/// What the step from version 2 to 3 moves out of one row: the row itself,
/// if it holds a file.
pub open spec fn file_2_3() -> spec_fn((Seq<u8>, Seq<u8>)) -> Option<(Seq<u8>, Seq<u8>)> {
    |row: (Seq<u8>, Seq<u8>)|
        if row.1.len() > 0 {
            Some(row)
        } else {
            None
        }
}

/// What the step from version 2 to 3 writes for one row.
pub open spec fn write_2_3() -> spec_fn((Seq<u8>, Seq<u8>)) -> Option<(Seq<u8>, Seq<u8>)> {
    |row: (Seq<u8>, Seq<u8>)|
        if row.1.len() > 0 {
            Some((row.0, Seq::<u8>::empty()))
        } else {
            None
        }
}

/// Version 2 to 3: moves the media out of the table. Returns, for each row
/// that holds a file, the row's key and the file, which belongs in a file
/// of its own named after the key; the row is left with an empty value.
pub fn migrate_2_to_3(media: &mut Media) -> (files: Vec<(Vec<u8>, Vec<u8>)>)
    requires
        old(media).mediaid_file.wf(),
    ensures
        final(media).mediaid_file.wf(),
        rows_of(files@) == collect(listing(old(media).mediaid_file@, every_key()), file_2_3()),
        final(media).mediaid_file@ == put_all(
            old(media).mediaid_file@,
            collect(listing(old(media).mediaid_file@, every_key()), write_2_3()),
        ),
        final(media).mediaid_file.watch() == old(media).mediaid_file.watch().fire_all(
            keys_of(collect(listing(old(media).mediaid_file@, every_key()), write_2_3())),
        ),
{
    let rows = media.mediaid_file.iter();
    let ghost list = rows_of(rows@);
    let mut files: Vec<(Vec<u8>, Vec<u8>)> = Vec::new();
    let mut writes: Vec<(Vec<u8>, Vec<u8>)> = Vec::new();
    let mut i: usize = 0;
    proof {
        assert(list.take(0) =~= Seq::empty());
        assert(rows_of(writes@) =~= Seq::empty());
        assert(rows_of(files@) =~= Seq::empty());
    }
    while i < rows.len()
        invariant
            i <= rows@.len(),
            list == rows_of(rows@),
            rows_of(writes@) == collect(list.take(i as int), write_2_3()),
            rows_of(files@) == collect(list.take(i as int), file_2_3()),
        decreases rows@.len() - i,
    {
        proof {
            assert(list.take(i + 1).drop_last() =~= list.take(i as int));
            assert(list.take(i + 1).last() == (rows@[i as int].0@, rows@[i as int].1@));
        }
        let ghost before = rows_of(writes@);
        let ghost files_before = rows_of(files@);
        if rows[i].1.len() > 0 {
            let empty: Vec<u8> = Vec::new();
            writes.push((to_vec(rows[i].0.as_slice()), empty));
            files.push((to_vec(rows[i].0.as_slice()), to_vec(rows[i].1.as_slice())));
            assert(rows_of(writes@) =~= before.push((rows@[i as int].0@, Seq::<u8>::empty())));
            assert(rows_of(files@) =~= files_before.push((rows@[i as int].0@, rows@[i as int].1@)));
        }
        i = i + 1;
    }
    assert(list.take(i as int) =~= list);
    put_rows(&mut media.mediaid_file, &writes);
    files
}

/// The key of the index row for a row of account data: the room, the user
/// and the event type of its key. `None` for a key without a user.
pub open spec fn roomusertype_of(roomuserdataid: Seq<u8>) -> Option<Seq<u8>> {
    match after_first_field(roomuserdataid) {
        Some(rest) => Some(
            first_field(roomuserdataid).push(SEPARATOR) + first_field(rest).push(SEPARATOR)
                + last_field(roomuserdataid),
        ),
        None => None,
    }
}

/// What the step from version 4 to 5 writes for one row.
pub open spec fn write_4_5() -> spec_fn((Seq<u8>, Seq<u8>)) -> Option<(Seq<u8>, Seq<u8>)> {
    |row: (Seq<u8>, Seq<u8>)|
        match roomusertype_of(row.0) {
            Some(key) => Some((key, row.0)),
            None => None,
        }
}

/// Every row has a key of which an index row can be made.
pub open spec fn all_indexable(rows: Seq<(Seq<u8>, Seq<u8>)>) -> bool {
    forall|i: int| 0 <= i < rows.len() ==> roomusertype_of((#[trigger] rows[i]).0) is Some
}

/// Version 4 to 5: fills the index `roomusertype_roomuserdataid` from the
/// account data. Nothing is written where a key of the account data names
/// no user.
pub fn migrate_4_to_5(account_data: &mut AccountData) -> (r: Result<(), Error>)
    requires
        old(account_data).wf(),
    ensures
        final(account_data).wf(),
        final(account_data).roomuserdataid_accountdata == old(account_data).roomuserdataid_accountdata,
        r is Ok <==> all_indexable(
            listing(old(account_data).roomuserdataid_accountdata@, every_key()),
        ),
        r matches Err(e) ==> e == Error::BadDatabase("RoomUserData ID in db is invalid.")
            && final(account_data).roomusertype_roomuserdataid == old(account_data).roomusertype_roomuserdataid,
        r is Ok ==> final(account_data).roomusertype_roomuserdataid@ == put_all(
            old(account_data).roomusertype_roomuserdataid@,
            collect(
                listing(old(account_data).roomuserdataid_accountdata@, every_key()),
                write_4_5(),
            ),
        )
            && final(account_data).roomusertype_roomuserdataid.watch() == old(account_data).roomusertype_roomuserdataid.watch().fire_all(
            keys_of(
                collect(
                    listing(old(account_data).roomuserdataid_accountdata@, every_key()),
                    write_4_5(),
                ),
            ),
        ),
{
    let rows = account_data.roomuserdataid_accountdata.iter();
    let ghost list = rows_of(rows@);
    let mut writes: Vec<(Vec<u8>, Vec<u8>)> = Vec::new();
    let mut i: usize = 0;
    proof {
        assert(list.take(0) =~= Seq::empty());
        assert(rows_of(writes@) =~= Seq::empty());
    }
    while i < rows.len()
        invariant
            i <= rows@.len(),
            list == rows_of(rows@),
            list == listing(old(account_data).roomuserdataid_accountdata@, every_key()),
            *account_data == *old(account_data),
            account_data.wf(),
            rows_of(writes@) == collect(list.take(i as int), write_4_5()),
            all_indexable(list.take(i as int)),
        decreases rows@.len() - i,
    {
        proof {
            assert(list.take(i + 1).drop_last() =~= list.take(i as int));
            assert(list.take(i + 1).last() == (rows@[i as int].0@, rows@[i as int].1@));
        }
        let ghost before = rows_of(writes@);
        let rest = match after_first_field_of(rows[i].0.as_slice()) {
            Some(rest) => rest,
            None => {
                assert(list[i as int].0 == rows@[i as int].0@);
                return Err(Error::bad_database("RoomUserData ID in db is invalid."));
            },
        };
        let mut key = first_field_of(rows[i].0.as_slice());
        key.push(SEPARATOR);
        append(&mut key, first_field_of(rest.as_slice()).as_slice());
        key.push(SEPARATOR);
        append(&mut key, last_field_of(rows[i].0.as_slice()).as_slice());
        writes.push((key, to_vec(rows[i].0.as_slice())));
        proof {
            assert(rows_of(writes@) =~= before.push(
                (roomusertype_of(rows@[i as int].0@)->Some_0, rows@[i as int].0@),
            ));
            assert forall|k: int| 0 <= k < i + 1 implies roomusertype_of(
                (#[trigger] list.take(i + 1)[k]).0,
            ) is Some by {
                if k < i {
                    assert(list.take(i as int)[k] == list.take(i + 1)[k]);
                }
            }
        }
        i = i + 1;
    }
    assert(list.take(i as int) =~= list);
    put_rows(&mut account_data.roomusertype_roomuserdataid, &writes);
    Ok(())
}


/// The map after each row was moved from its key to its new key.
pub open spec fn rekey_all(
    m: Map<Seq<u8>, Seq<u8>>,
    rows: Seq<(Seq<u8>, Seq<u8>)>,
    new_keys: Seq<Seq<u8>>,
) -> Map<Seq<u8>, Seq<u8>>
    decreases rows.len(),
{
    if rows.len() == 0 || new_keys.len() != rows.len() {
        m
    } else {
        rekey_all(m, rows.drop_last(), new_keys.drop_last()).remove(rows.last().0).insert(
            new_keys.last(),
            rows.last().1,
        )
    }
}

/// Moves each row from its key to its new key.
fn rekey(tree: &mut Tree, rows: &Vec<(Vec<u8>, Vec<u8>)>, new_keys: &Vec<Vec<u8>>)
    requires
        old(tree).wf(),
        rows@.len() == new_keys@.len(),
    ensures
        final(tree).wf(),
        final(tree)@ == rekey_all(old(tree)@, rows_of(rows@), keys_view(new_keys@)),
{
    let ghost list = rows_of(rows@);
    let ghost keys = keys_view(new_keys@);
    let mut i: usize = 0;
    proof {
        assert(list.take(0) =~= Seq::empty());
    }
    while i < rows.len()
        invariant
            i <= rows@.len(),
            rows@.len() == new_keys@.len(),
            list == rows_of(rows@),
            keys == keys_view(new_keys@),
            tree.wf(),
            tree@ == rekey_all(old(tree)@, list.take(i as int), keys.take(i as int)),
        decreases rows@.len() - i,
    {
        proof {
            assert(list.take(i + 1).drop_last() =~= list.take(i as int));
            assert(keys.take(i + 1).drop_last() =~= keys.take(i as int));
            assert(list.take(i + 1).last() == (rows@[i as int].0@, rows@[i as int].1@));
            assert(keys.take(i + 1).last() == new_keys@[i as int]@);
        }
        tree.remove(rows[i].0.as_slice());
        tree.insert(new_keys[i].as_slice(), rows[i].1.as_slice());
        i = i + 1;
    }
    assert(list.take(i as int) =~= list);
    assert(keys.take(i as int) =~= keys);
}

/// The byte strings behind a list of keys.
pub open spec fn keys_view(keys: Seq<Vec<u8>>) -> Seq<Seq<u8>> {
    Seq::new(keys.len(), |i: int| keys[i]@)
}

/// The short id of the room that begins a key, if the room has one.
pub open spec fn short_of(key: Seq<u8>, shortids: Map<Seq<u8>, Seq<u8>>) -> Option<Seq<u8>> {
    if shortids.contains_key(first_field(key)) {
        Some(shortids[first_field(key)])
    } else {
        None
    }
}

/// The new key of an event: the short id of its room, then its count.
pub open spec fn new_pduid(key: Seq<u8>, shortids: Map<Seq<u8>, Seq<u8>>) -> Option<Seq<u8>> {
    match (after_first_field(key), short_of(key, shortids)) {
        (Some(count), Some(short)) => Some(short + count),
        _ => None,
    }
}

/// The new key of a search token: the short id of its room, the word, a
/// separator, and the count of the event. The old key has four fields: the
/// room, the word, the room of the event and its count.
pub open spec fn new_tokenid(key: Seq<u8>, shortids: Map<Seq<u8>, Seq<u8>>) -> Option<Seq<u8>> {
    match after_first_field(key) {
        None => None,
        Some(rest) => match after_first_field(rest) {
            None => None,
            Some(pdu_id) => match (after_first_field(pdu_id), short_of(key, shortids)) {
                (Some(count), Some(short)) => Some(
                    short + first_field(rest).push(SEPARATOR) + count,
                ),
                _ => None,
            },
        },
    }
}

/// The new keys of the rows, where each row has one.
pub open spec fn new_keys_of(
    rows: Seq<(Seq<u8>, Seq<u8>)>,
    new_key: spec_fn(Seq<u8>) -> Option<Seq<u8>>,
) -> Option<Seq<Seq<u8>>> {
    if forall|i: int| 0 <= i < rows.len() ==> new_key((#[trigger] rows[i]).0) is Some {
        Some(Seq::new(rows.len(), |i: int| new_key(rows[i].0)->Some_0))
    } else {
        None
    }
}

/// The rule by which events get their new keys.
pub open spec fn pduid_rule(shortids: Map<Seq<u8>, Seq<u8>>) -> spec_fn(Seq<u8>) -> Option<Seq<u8>> {
    |key: Seq<u8>| new_pduid(key, shortids)
}

/// The rule by which search tokens get their new keys.
pub open spec fn tokenid_rule(shortids: Map<Seq<u8>, Seq<u8>>) -> spec_fn(Seq<u8>) -> Option<
    Seq<u8>,
> {
    |key: Seq<u8>| new_tokenid(key, shortids)
}

/// The short id of the room that begins a key.
fn short_id_of(key: &[u8], roomid_shortroomid: &Tree) -> (r: Option<Vec<u8>>)
    requires
        roomid_shortroomid.wf(),
    ensures
        match r {
            Some(short) => short_of(key@, roomid_shortroomid@) == Some(short@),
            None => short_of(key@, roomid_shortroomid@) is None,
        },
{
    roomid_shortroomid.get(first_field_of(key).as_slice())
}

/// The new key of an event.
fn new_pduid_of(key: &[u8], roomid_shortroomid: &Tree) -> (r: Option<Vec<u8>>)
    requires
        roomid_shortroomid.wf(),
    ensures
        match r {
            Some(new_key) => new_pduid(key@, roomid_shortroomid@) == Some(new_key@),
            None => new_pduid(key@, roomid_shortroomid@) is None,
        },
{
    let count = match after_first_field_of(key) {
        Some(count) => count,
        None => {
            return None;
        },
    };
    match short_id_of(key, roomid_shortroomid) {
        Some(short) => {
            let mut new_key = short;
            append(&mut new_key, count.as_slice());
            Some(new_key)
        },
        None => None,
    }
}

/// The new key of a search token.
fn new_tokenid_of(key: &[u8], roomid_shortroomid: &Tree) -> (r: Option<Vec<u8>>)
    requires
        roomid_shortroomid.wf(),
    ensures
        match r {
            Some(new_key) => new_tokenid(key@, roomid_shortroomid@) == Some(new_key@),
            None => new_tokenid(key@, roomid_shortroomid@) is None,
        },
{
    let rest = match after_first_field_of(key) {
        Some(rest) => rest,
        None => {
            return None;
        },
    };
    let pdu_id = match after_first_field_of(rest.as_slice()) {
        Some(pdu_id) => pdu_id,
        None => {
            return None;
        },
    };
    let count = match after_first_field_of(pdu_id.as_slice()) {
        Some(count) => count,
        None => {
            return None;
        },
    };
    match short_id_of(key, roomid_shortroomid) {
        Some(short) => {
            let mut new_key = short;
            append(&mut new_key, first_field_of(rest.as_slice()).as_slice());
            new_key.push(SEPARATOR);
            append(&mut new_key, count.as_slice());
            assert(new_key@ =~= short@ + first_field(rest@).push(SEPARATOR) + count@);
            Some(new_key)
        },
        None => None,
    }
}

/// The short ids that the rooms get, one after the other from the count
/// on: for each room its id and its short id.
pub open spec fn short_ids_from(rooms: Seq<(Seq<u8>, Seq<u8>)>, count: nat) -> Seq<
    (Seq<u8>, Seq<u8>),
> {
    Seq::new(rooms.len(), |i: int| (rooms[i].0, be_bytes((count + i + 1) as nat, 8)))
}

/// The rooms by their short ids: for each room its short id and its id.
pub open spec fn rooms_by_short_id(rooms: Seq<(Seq<u8>, Seq<u8>)>, count: nat) -> Seq<
    (Seq<u8>, Seq<u8>),
> {
    Seq::new(rooms.len(), |i: int| (be_bytes((count + i + 1) as nat, 8), rooms[i].0))
}

/// Gives every room that has a state a short id, taken from the counter.
fn assign_short_room_ids(state: &RoomState, shortids: &mut ShortRoomIds, globals: &mut Globals)
    requires
        state.wf(),
        old(shortids).wf(),
        old(globals).wf(),
        counter_readable(old(globals).globals@),
        count_of(old(globals).globals@) + listing(
            state.roomid_shortstatehash@,
            every_key(),
        ).len() <= u64::MAX,
    ensures
        final(shortids).wf(),
        final(globals).wf(),
        final(globals).config == old(globals).config,
        final(globals).servertimeout_signingkey == old(globals).servertimeout_signingkey,
        final(globals).rotate == old(globals).rotate,
        final(globals).has_keypair() == old(globals).has_keypair(),
        final(globals).globals.watch() == old(globals).globals.watch(),
        count_of(final(globals).globals@) == count_of(old(globals).globals@) + listing(
            state.roomid_shortstatehash@,
            every_key(),
        ).len(),
        final(globals).globals@.remove(counter_key()) == old(globals).globals@.remove(
            counter_key(),
        ),
        final(shortids).roomid_shortroomid@ == put_all(
            old(shortids).roomid_shortroomid@,
            short_ids_from(
                listing(state.roomid_shortstatehash@, every_key()),
                count_of(old(globals).globals@),
            ),
        ),
        final(shortids).shortroomid_roomid@ == put_all(
            old(shortids).shortroomid_roomid@,
            rooms_by_short_id(
                listing(state.roomid_shortstatehash@, every_key()),
                count_of(old(globals).globals@),
            ),
        ),
{
    let rows = state.roomid_shortstatehash.iter();
    let ghost list = rows_of(rows@);
    let ghost start = count_of(globals.globals@);
    let mut i: usize = 0;
    proof {
        assert(short_ids_from(list, start).take(0) =~= Seq::empty());
        assert(rooms_by_short_id(list, start).take(0) =~= Seq::empty());
    }
    while i < rows.len()
        invariant
            i <= rows@.len(),
            list == rows_of(rows@),
            start + rows@.len() <= u64::MAX,
            shortids.wf(),
            globals.wf(),
            globals.config == old(globals).config,
            globals.servertimeout_signingkey == old(globals).servertimeout_signingkey,
            globals.rotate == old(globals).rotate,
            globals.has_keypair() == old(globals).has_keypair(),
            globals.globals.watch() == old(globals).globals.watch(),
            count_of(globals.globals@) == start + i,
            counter_readable(globals.globals@),
            globals.globals@.remove(counter_key()) == old(globals).globals@.remove(
                counter_key(),
            ),
            shortids.roomid_shortroomid@ == put_all(
                old(shortids).roomid_shortroomid@,
                short_ids_from(list, start).take(i as int),
            ),
            shortids.shortroomid_roomid@ == put_all(
                old(shortids).shortroomid_roomid@,
                rooms_by_short_id(list, start).take(i as int),
            ),
        decreases rows@.len() - i,
    {
        proof {
            let a = short_ids_from(list, start);
            let b = rooms_by_short_id(list, start);
            assert(a.take(i + 1).drop_last() =~= a.take(i as int));
            assert(b.take(i + 1).drop_last() =~= b.take(i as int));
            assert(a.take(i + 1).last() == (rows@[i as int].0@, be_bytes((start + i + 1) as nat, 8)));
            assert(b.take(i + 1).last() == (be_bytes((start + i + 1) as nat, 8), rows@[i as int].0@));
        }
        let ghost before_count = globals.globals@;
        let shortroomid = u64_to_be_bytes(globals.advance_count());
        assert(globals.globals@.remove(counter_key()) =~= before_count.remove(counter_key()));
        shortids.roomid_shortroomid.insert(rows[i].0.as_slice(), shortroomid.as_slice());
        shortids.shortroomid_roomid.insert(shortroomid.as_slice(), rows[i].0.as_slice());
        i = i + 1;
    }
    proof {
        assert(short_ids_from(list, start).take(i as int) =~= short_ids_from(list, start));
        assert(rooms_by_short_id(list, start).take(i as int) =~= rooms_by_short_id(list, start));
    }
}

/// The new keys of the rows, where each row has one.
fn collect_new_pduids(rows: &Vec<(Vec<u8>, Vec<u8>)>, roomid_shortroomid: &Tree) -> (r: Option<
    Vec<Vec<u8>>,
>)
    requires
        roomid_shortroomid.wf(),
    ensures
        match r {
            Some(keys) => new_keys_of(rows_of(rows@), pduid_rule(roomid_shortroomid@)) == Some(
                keys_view(keys@),
            ),
            None => new_keys_of(rows_of(rows@), pduid_rule(roomid_shortroomid@)) is None,
        },
{
    let ghost list = rows_of(rows@);
    let ghost rule = pduid_rule(roomid_shortroomid@);
    let mut out: Vec<Vec<u8>> = Vec::new();
    let mut i: usize = 0;
    while i < rows.len()
        invariant
            i <= rows@.len(),
            list == rows_of(rows@),
            rule == pduid_rule(roomid_shortroomid@),
            roomid_shortroomid.wf(),
            out@.len() == i,
            forall|k: int| 0 <= k < i ==> rule((#[trigger] list[k]).0) == Some(out@[k]@),
        decreases rows@.len() - i,
    {
        assert(list[i as int].0 == rows@[i as int].0@);
        match new_pduid_of(rows[i].0.as_slice(), roomid_shortroomid) {
            Some(key) => {
                out.push(key);
            },
            None => {
                assert(rule(list[i as int].0) is None);
                return None;
            },
        }
        i = i + 1;
    }
    assert(keys_view(out@) =~= Seq::new(list.len(), |k: int| rule(list[k].0)->Some_0));
    Some(out)
}

/// The new keys of the rows, where each row has one.
fn collect_new_tokenids(rows: &Vec<(Vec<u8>, Vec<u8>)>, roomid_shortroomid: &Tree) -> (r: Option<
    Vec<Vec<u8>>,
>)
    requires
        roomid_shortroomid.wf(),
    ensures
        match r {
            Some(keys) => new_keys_of(rows_of(rows@), tokenid_rule(roomid_shortroomid@)) == Some(
                keys_view(keys@),
            ),
            None => new_keys_of(rows_of(rows@), tokenid_rule(roomid_shortroomid@)) is None,
        },
{
    let ghost list = rows_of(rows@);
    let ghost rule = tokenid_rule(roomid_shortroomid@);
    let mut out: Vec<Vec<u8>> = Vec::new();
    let mut i: usize = 0;
    while i < rows.len()
        invariant
            i <= rows@.len(),
            list == rows_of(rows@),
            rule == tokenid_rule(roomid_shortroomid@),
            roomid_shortroomid.wf(),
            out@.len() == i,
            forall|k: int| 0 <= k < i ==> rule((#[trigger] list[k]).0) == Some(out@[k]@),
        decreases rows@.len() - i,
    {
        assert(list[i as int].0 == rows@[i as int].0@);
        match new_tokenid_of(rows[i].0.as_slice(), roomid_shortroomid) {
            Some(key) => {
                out.push(key);
            },
            None => {
                assert(rule(list[i as int].0) is None);
                return None;
            },
        }
        i = i + 1;
    }
    assert(keys_view(out@) =~= Seq::new(list.len(), |k: int| rule(list[k].0)->Some_0));
    Some(out)
}

/// Version 6 to 7: gives every room a short id, and moves the events and
/// the search tokens to keys that begin with the short id of their room in
/// place of its id. Events and tokens stay as they are where one of them is
/// in a room without a short id or has a key that cannot be read.
///
/// A counter that cannot be read is reported before anything is changed.
pub fn migrate_6_to_7(
    state: &RoomState,
    shortids: &mut ShortRoomIds,
    timeline: &mut Timeline,
    globals: &mut Globals,
) -> (r: Result<(), Error>)
    requires
        state.wf(),
        old(shortids).wf(),
        old(timeline).wf(),
        old(globals).wf(),
        count_of(old(globals).globals@) + listing(
            state.roomid_shortstatehash@,
            every_key(),
        ).len() <= u64::MAX,
    ensures
        final(shortids).wf(),
        final(timeline).wf(),
        final(globals).wf(),
        counter_readable(old(globals).globals@) ==> (final(globals).config == old(globals).config),
        counter_readable(old(globals).globals@) ==> (final(globals).servertimeout_signingkey == old(globals).servertimeout_signingkey),
        counter_readable(old(globals).globals@) ==> (final(globals).rotate == old(globals).rotate),
        counter_readable(old(globals).globals@) ==> (final(globals).has_keypair() == old(globals).has_keypair()),
        counter_readable(old(globals).globals@) ==> (count_of(final(globals).globals@) == count_of(old(globals).globals@) + listing(
            state.roomid_shortstatehash@,
            every_key(),
        ).len()),
        counter_readable(old(globals).globals@) ==> (final(globals).globals@.remove(counter_key()) == old(globals).globals@.remove(
            counter_key(),
        )),
        counter_readable(old(globals).globals@) ==> (final(shortids).roomid_shortroomid@ == put_all(
            old(shortids).roomid_shortroomid@,
            short_ids_from(
                listing(state.roomid_shortstatehash@, every_key()),
                count_of(old(globals).globals@),
            ),
        )),
        counter_readable(old(globals).globals@) ==> (final(shortids).shortroomid_roomid@ == put_all(
            old(shortids).shortroomid_roomid@,
            rooms_by_short_id(
                listing(state.roomid_shortstatehash@, every_key()),
                count_of(old(globals).globals@),
            ),
        )),
        counter_readable(old(globals).globals@) ==> (final(timeline).eventid_pduid == old(timeline).eventid_pduid),
        counter_readable(old(globals).globals@) ==> (final(timeline).eventid_outlierpdu == old(timeline).eventid_outlierpdu),
        counter_readable(old(globals).globals@) ==> (final(timeline).shorteventid_eventid == old(timeline).shorteventid_eventid),
        counter_readable(old(globals).globals@) ==> (final(timeline).eventid_shorteventid == old(timeline).eventid_shorteventid),
        counter_readable(old(globals).globals@) ==> (final(timeline).roomid_pduleaves == old(timeline).roomid_pduleaves),
        counter_readable(old(globals).globals@) ==> (({
            let ids = final(shortids).roomid_shortroomid@;
            let events = listing(old(timeline).pduid_pdu@, every_key());
            let tokens = listing(old(timeline).tokenids@, every_key());
            match (new_keys_of(events, pduid_rule(ids)), new_keys_of(tokens, tokenid_rule(ids))) {
                (Some(pduids), Some(tokenids)) => r is Ok && final(timeline).pduid_pdu@
                    == rekey_all(old(timeline).pduid_pdu@, events, pduids)
                        && final(timeline).tokenids@ == rekey_all(old(timeline).tokenids@, tokens, tokenids),
                (None, _) => r == Err::<(), Error>(Error::BadDatabase("Invalid pduid in db."))

                        && final(timeline).pduid_pdu@ == old(timeline).pduid_pdu@
                        && final(timeline).tokenids@ == old(timeline).tokenids@,
                _ => r == Err::<(), Error>(Error::BadDatabase("Invalid tokenid in db."))
                    && final(timeline).pduid_pdu@ == old(timeline).pduid_pdu@
                    && final(timeline).tokenids@ == old(timeline).tokenids@,
            }
        })),
        !counter_readable(old(globals).globals@) ==> (is_count_fault(r) && *final(shortids) == *old(shortids) && *final(timeline) == *old(timeline) && *final(globals) == *old(globals)),
{
    if !globals.counter_is_readable() {
        return Err(Error::bad_database("Count has invalid bytes."));
    }
    // Generate short room ids for all rooms
    assign_short_room_ids(state, shortids, globals);
    // Update pduids db layout
    let events = timeline.pduid_pdu.iter();
    let pduids = match collect_new_pduids(&events, &shortids.roomid_shortroomid) {
        Some(keys) => keys,
        None => {
            return Err(Error::bad_database("Invalid pduid in db."));
        },
    };
    // Update tokenids db layout
    let tokens = timeline.tokenids.iter();
    let tokenids = match collect_new_tokenids(&tokens, &shortids.roomid_shortroomid) {
        Some(keys) => keys,
        None => {
            return Err(Error::bad_database("Invalid tokenid in db."));
        },
    };
    proof {
        assert(keys_view(pduids@).len() == events@.len());
        assert(keys_view(tokenids@).len() == tokens@.len());
    }
    rekey(&mut timeline.pduid_pdu, &events, &pduids);
    rekey(&mut timeline.tokenids, &tokens, &tokenids);
    Ok(())
}


/// The users among `members` that are not of the server `server_name`, in
/// order; an error where a member's id cannot be read.
pub open spec fn remote_among(members: Seq<Seq<char>>, server_name: Seq<char>) -> Result<
    Seq<Seq<char>>,
    Error,
>
    decreases members.len(),
{
    if members.len() == 0 {
        Ok(Seq::empty())
    } else {
        match remote_among(members.drop_last(), server_name) {
            Err(e) => Err(e),
            Ok(found) => match parsed_user_id(members.last(), server_name) {
                None => Err(Error::BadDatabase("User ID in roomuserid_joined is invalid.")),
                Some(parsed) => if parsed.1 != server_name {
                    Ok(found.push(members.last()))
                } else {
                    Ok(found)
                },
            },
        }
    }
}

/// The members of the room, as the index by room lists them.
pub open spec fn members_of(roomuserid_joined: Map<Seq<u8>, Seq<u8>>, room: Seq<char>) -> Option<
    Seq<Seq<char>>,
> {
    last_fields(listing(roomuserid_joined, with_prefix(user_prefix(room))))
}

/// The users of other servers in the rooms, room by room.
pub open spec fn remote_in_rooms(
    rooms: Seq<Seq<char>>,
    roomuserid_joined: Map<Seq<u8>, Seq<u8>>,
    server_name: Seq<char>,
) -> Result<Seq<Seq<char>>, Error>
    decreases rooms.len(),
{
    if rooms.len() == 0 {
        Ok(Seq::empty())
    } else {
        match remote_in_rooms(rooms.drop_last(), roomuserid_joined, server_name) {
            Err(e) => Err(e),
            Ok(found) => match members_of(roomuserid_joined, rooms.last()) {
                None => Err(Error::BadDatabase("User ID in roomuserid_joined is invalid.")),
                Some(members) => match remote_among(members, server_name) {
                    Err(e) => Err(e),
                    Ok(remote) => Ok(found + remote),
                },
            },
        }
    }
}

/// The users of other servers in the rooms that the accounts are joined
/// to, account by account. An account without a password is passed over.
pub open spec fn remote_for_accounts(
    accounts: Seq<(Seq<u8>, Seq<u8>)>,
    userroomid_joined: Map<Seq<u8>, Seq<u8>>,
    roomuserid_joined: Map<Seq<u8>, Seq<u8>>,
    server_name: Seq<char>,
) -> Result<Seq<Seq<char>>, Error>
    decreases accounts.len(),
{
    if accounts.len() == 0 {
        Ok(Seq::empty())
    } else {
        match remote_for_accounts(
            accounts.drop_last(),
            userroomid_joined,
            roomuserid_joined,
            server_name,
        ) {
            Err(e) => Err(e),
            Ok(found) => {
                let account = accounts.last();
                if !valid_utf8(account.0) {
                    Err(Error::BadDatabase("User ID in userid_password is invalid."))
                } else if account.1.len() == 0 {
                    Ok(found)
                } else {
                    match last_fields(
                        listing(
                            userroomid_joined,
                            with_prefix(user_prefix(decode_utf8(account.0))),
                        ),
                    ) {
                        None => Err(Error::BadDatabase("Room ID in userroomid_joined is invalid.")),
                        Some(rooms) => match remote_in_rooms(rooms, roomuserid_joined, server_name) {
                            Err(e) => Err(e),
                            Ok(remote) => Ok(found + remote),
                        },
                    }
                }
            },
        }
    }
}

proof fn lemma_remote_among_stop(members: Seq<Seq<char>>, server_name: Seq<char>, n: int)
    requires
        0 <= n <= members.len(),
        remote_among(members.take(n), server_name) is Err,
    ensures
        remote_among(members, server_name) == remote_among(members.take(n), server_name),
    decreases members.len() - n,
{
    if n < members.len() {
        assert(members.take(n + 1).drop_last() =~= members.take(n));
        lemma_remote_among_stop(members, server_name, n + 1);
    } else {
        assert(members.take(n) =~= members);
    }
}

proof fn lemma_remote_in_rooms_stop(
    rooms: Seq<Seq<char>>,
    roomuserid_joined: Map<Seq<u8>, Seq<u8>>,
    server_name: Seq<char>,
    n: int,
)
    requires
        0 <= n <= rooms.len(),
        remote_in_rooms(rooms.take(n), roomuserid_joined, server_name) is Err,
    ensures
        remote_in_rooms(rooms, roomuserid_joined, server_name) == remote_in_rooms(
            rooms.take(n),
            roomuserid_joined,
            server_name,
        ),
    decreases rooms.len() - n,
{
    if n < rooms.len() {
        assert(rooms.take(n + 1).drop_last() =~= rooms.take(n));
        lemma_remote_in_rooms_stop(rooms, roomuserid_joined, server_name, n + 1);
    } else {
        assert(rooms.take(n) =~= rooms);
    }
}

proof fn lemma_remote_for_accounts_stop(
    accounts: Seq<(Seq<u8>, Seq<u8>)>,
    userroomid_joined: Map<Seq<u8>, Seq<u8>>,
    roomuserid_joined: Map<Seq<u8>, Seq<u8>>,
    server_name: Seq<char>,
    n: int,
)
    requires
        0 <= n <= accounts.len(),
        remote_for_accounts(accounts.take(n), userroomid_joined, roomuserid_joined, server_name)
            is Err,
    ensures
        remote_for_accounts(accounts, userroomid_joined, roomuserid_joined, server_name)
            == remote_for_accounts(
            accounts.take(n),
            userroomid_joined,
            roomuserid_joined,
            server_name,
        ),
    decreases accounts.len() - n,
{
    if n < accounts.len() {
        assert(accounts.take(n + 1).drop_last() =~= accounts.take(n));
        lemma_remote_for_accounts_stop(
            accounts,
            userroomid_joined,
            roomuserid_joined,
            server_name,
            n + 1,
        );
    } else {
        assert(accounts.take(n) =~= accounts);
    }
}

/// Adds to `out` the users among `members` that are not of the server.
fn collect_remote_among(members: &Vec<String>, server_name: &str, out: &mut Vec<String>) -> (r:
    Result<(), Error>)
    ensures
        match r {
            Ok(_) => remote_among(crate::config::strings_view(members@), server_name@) matches Ok(
                found,
            ) && crate::config::strings_view(final(out)@) == crate::config::strings_view(old(out)@)
                + found,
            Err(e) => remote_among(crate::config::strings_view(members@), server_name@) == Err::<
                Seq<Seq<char>>,
                Error,
            >(e),
        },
{
    let ghost names = crate::config::strings_view(members@);
    let ghost start = crate::config::strings_view(out@);
    let mut i: usize = 0;
    proof {
        assert(names.take(0) =~= Seq::empty());
        assert(start + Seq::<Seq<char>>::empty() =~= start);
    }
    while i < members.len()
        invariant
            i <= members@.len(),
            names == crate::config::strings_view(members@),
            start == crate::config::strings_view(old(out)@),
            remote_among(names.take(i as int), server_name@) matches Ok(found)
                && crate::config::strings_view(out@) == start + found,
        decreases members@.len() - i,
    {
        proof {
            assert(names.take(i + 1).drop_last() =~= names.take(i as int));
            assert(names.take(i + 1).last() == members@[i as int]@);
        }
        let ghost found = remote_among(names.take(i as int), server_name@)->Ok_0;
        let ghost before = crate::config::strings_view(out@);
        match parse_user_id(members[i].as_str(), server_name) {
            None => {
                proof {
                    lemma_remote_among_stop(names, server_name@, i + 1);
                }
                return Err(Error::bad_database("User ID in roomuserid_joined is invalid."));
            },
            Some(parsed) => {
                if !str_eq(parsed.server_name.as_str(), server_name) {
                    out.push(members[i].clone());
                    assert(crate::config::strings_view(out@) =~= before.push(members@[i as int]@));
                    assert(start + found.push(members@[i as int]@) =~= (start + found).push(
                        members@[i as int]@,
                    ));
                }
            },
        }
        i = i + 1;
    }
    assert(names.take(i as int) =~= names);
    Ok(())
}

/// Adds to `out` the users of other servers in the rooms.
fn collect_remote_in_rooms(
    rooms: &Vec<String>,
    membership: &Membership,
    server_name: &str,
    out: &mut Vec<String>,
) -> (r: Result<(), Error>)
    requires
        membership.wf(),
    ensures
        match r {
            Ok(_) => remote_in_rooms(
                crate::config::strings_view(rooms@),
                membership.roomuserid_joined@,
                server_name@,
            ) matches Ok(found) && crate::config::strings_view(final(out)@)
                == crate::config::strings_view(old(out)@) + found,
            Err(e) => remote_in_rooms(
                crate::config::strings_view(rooms@),
                membership.roomuserid_joined@,
                server_name@,
            ) == Err::<Seq<Seq<char>>, Error>(e),
        },
{
    let ghost names = crate::config::strings_view(rooms@);
    let ghost start = crate::config::strings_view(out@);
    let ghost joined = membership.roomuserid_joined@;
    let mut i: usize = 0;
    proof {
        assert(names.take(0) =~= Seq::empty());
        assert(start + Seq::<Seq<char>>::empty() =~= start);
    }
    while i < rooms.len()
        invariant
            i <= rooms@.len(),
            membership.wf(),
            joined == membership.roomuserid_joined@,
            names == crate::config::strings_view(rooms@),
            start == crate::config::strings_view(old(out)@),
            remote_in_rooms(names.take(i as int), joined, server_name@) matches Ok(found)
                && crate::config::strings_view(out@) == start + found,
        decreases rooms@.len() - i,
    {
        proof {
            assert(names.take(i + 1).drop_last() =~= names.take(i as int));
            assert(names.take(i + 1).last() == rooms@[i as int]@);
        }
        let ghost found = remote_in_rooms(names.take(i as int), joined, server_name@)->Ok_0;
        let members = match membership.room_members(rooms[i].as_str()) {
            Some(members) => members,
            None => {
                proof {
                    lemma_remote_in_rooms_stop(names, joined, server_name@, i + 1);
                }
                return Err(Error::bad_database("User ID in roomuserid_joined is invalid."));
            },
        };
        match collect_remote_among(&members, server_name, out) {
            Ok(()) => {
                proof {
                    let remote = remote_among(
                        crate::config::strings_view(members@),
                        server_name@,
                    )->Ok_0;
                    assert(start + (found + remote) =~= (start + found) + remote);
                }
            },
            Err(e) => {
                proof {
                    lemma_remote_in_rooms_stop(names, joined, server_name@, i + 1);
                }
                return Err(e);
            },
        }
        i = i + 1;
    }
    assert(names.take(i as int) =~= names);
    Ok(())
}

/// What the step from version 3 to 4 writes: for each remote user an
/// account without a password.
pub open spec fn accounts_for(remote: Seq<Seq<char>>) -> Seq<(Seq<u8>, Seq<u8>)> {
    Seq::new(remote.len(), |i: int| (encode_utf8(remote[i]), Seq::<u8>::empty()))
}

/// Version 3 to 4: every user of another server who is in a room with an
/// active account of this server gets an account without a password, so
/// that the user's memberships can be tracked. Nothing is written where an
/// id in the accounts or in the membership indexes cannot be read.
pub fn migrate_3_to_4(users: &mut Users, membership: &Membership, server_name: &str) -> (r: Result<
    (),
    Error,
>)
    requires
        old(users).wf(),
        membership.wf(),
    ensures
        final(users).wf(),
        final(users).userdeviceid_token == old(users).userdeviceid_token,
        final(users).userdeviceid_metadata == old(users).userdeviceid_metadata,
        final(users).userid_devicelistversion == old(users).userid_devicelistversion,
        final(users).token_userdeviceid == old(users).token_userdeviceid,
        final(users).todeviceid_events == old(users).todeviceid_events,
        match remote_for_accounts(
            listing(old(users).userid_password@, every_key()),
            membership.userroomid_joined@,
            membership.roomuserid_joined@,
            server_name@,
        ) {
            Ok(remote) => r is Ok && final(users).userid_password@ == put_all(
                old(users).userid_password@,
                accounts_for(remote),
            ) && final(users).userid_password.watch() == old(users).userid_password.watch().fire_all(
                keys_of(accounts_for(remote)),
            ),
            Err(e) => r == Err::<(), Error>(e) && final(users).userid_password == old(users).userid_password,
        },
{
    let accounts = users.userid_password.iter();
    let ghost list = rows_of(accounts@);
    let ghost by_user = membership.userroomid_joined@;
    let ghost by_room = membership.roomuserid_joined@;
    let mut remote: Vec<String> = Vec::new();
    let mut i: usize = 0;
    proof {
        assert(list.take(0) =~= Seq::empty());
        assert(crate::config::strings_view(remote@) =~= Seq::empty());
    }
    while i < accounts.len()
        invariant
            i <= accounts@.len(),
            membership.wf(),
            *users == *old(users),
            users.wf(),
            by_user == membership.userroomid_joined@,
            by_room == membership.roomuserid_joined@,
            list == rows_of(accounts@),
            list == listing(old(users).userid_password@, every_key()),
            remote_for_accounts(list.take(i as int), by_user, by_room, server_name@) == Ok::<
                Seq<Seq<char>>,
                Error,
            >(crate::config::strings_view(remote@)),
        decreases accounts@.len() - i,
    {
        proof {
            assert(list.take(i + 1).drop_last() =~= list.take(i as int));
            assert(list.take(i + 1).last() == (accounts@[i as int].0@, accounts@[i as int].1@));
        }
        let ghost found = crate::config::strings_view(remote@);
        let our_user = match string_from_bytes(accounts[i].0.as_slice()) {
            Ok(user) => user,
            Err(_) => {
                proof {
                    lemma_remote_for_accounts_stop(list, by_user, by_room, server_name@, i + 1);
                }
                return Err(Error::bad_database("User ID in userid_password is invalid."));
            },
        };
        // A deactivated account has an empty password.
        if accounts[i].1.len() > 0 {
            let rooms = match membership.rooms_joined(our_user.as_str()) {
                Some(rooms) => rooms,
                None => {
                    proof {
                        lemma_remote_for_accounts_stop(list, by_user, by_room, server_name@, i + 1);
                    }
                    return Err(Error::bad_database("Room ID in userroomid_joined is invalid."));
                },
            };
            match collect_remote_in_rooms(&rooms, membership, server_name, &mut remote) {
                Ok(()) => {},
                Err(e) => {
                    proof {
                        lemma_remote_for_accounts_stop(list, by_user, by_room, server_name@, i + 1);
                    }
                    return Err(e);
                },
            }
        }
        i = i + 1;
    }
    assert(list.take(i as int) =~= list);
    let mut writes: Vec<(Vec<u8>, Vec<u8>)> = Vec::new();
    let mut j: usize = 0;
    let ghost names = crate::config::strings_view(remote@);
    while j < remote.len()
        invariant
            j <= remote@.len(),
            names == crate::config::strings_view(remote@),
            writes@.len() == j,
            forall|k: int| 0 <= k < j ==> rows_of(writes@)[k] == accounts_for(names)[k],
        decreases remote@.len() - j,
    {
        let empty: Vec<u8> = Vec::new();
        writes.push((to_vec(remote[j].as_str().as_bytes()), empty));
        assert(names[j as int] == remote@[j as int]@);
        j = j + 1;
    }
    assert(rows_of(writes@) =~= accounts_for(names));
    put_rows(&mut users.userid_password, &writes);
    Ok(())
}

} // verus!
