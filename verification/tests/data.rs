use conduit::account_data::{check_account_data, AccountData};
use conduit::config::Config;
use conduit::error::{Error, ErrorKind};
use conduit::globals::Globals;
use conduit::membership::{Membership, MembershipState};
use conduit::rooms::Rooms;
use conduit::tree::Tree;
use conduit::users::Users;

fn new_globals() -> Globals {
    let config = Config::new("example.org".to_owned(), "/tmp".to_owned());
    let (globals, outcome) = Globals::load(Tree::new(), Tree::new(), config);
    outcome.unwrap();
    globals
}

fn new_account_data() -> AccountData {
    AccountData {
        roomuserdataid_accountdata: Tree::new(),
        roomusertype_roomuserdataid: Tree::new(),
    }
}

const ALICE: &str = "@alice:example.org";
const BOB: &str = "@bob:example.org";
const ROOM: &str = "!r:example.org";

#[test]
fn account_data_is_stored_under_the_count() {
    let mut globals = new_globals();
    let mut data = new_account_data();
    data.update(Some(ROOM), ALICE, "m.tag", "{ \"type\": \"m.tag\", \"content\": {} }", &mut globals)
        .unwrap();
    let mut key = b"!r:example.org\xff@alice:example.org\xff".to_vec();
    key.extend_from_slice(&1_u64.to_be_bytes());
    key.extend_from_slice(b"\xffm.tag");
    assert_eq!(
        data.roomuserdataid_accountdata.iter(),
        vec![(key, b"{\"content\":{},\"type\":\"m.tag\"}".to_vec())]
    );
}

#[test]
fn the_latest_account_data_wins() {
    let mut globals = new_globals();
    let mut data = new_account_data();
    for version in 1..=5 {
        let event = format!("{{\"type\":\"m.tag\",\"content\":{{\"v\":{}}}}}", version);
        data.update(None, ALICE, "m.tag", &event, &mut globals).unwrap();
        data.update(None, ALICE, "m.direct", "{\"type\":\"m.direct\",\"content\":{}}", &mut globals)
            .unwrap();
    }
    assert_eq!(
        data.get(None, ALICE, "m.tag"),
        Some(b"{\"content\":{\"v\":5},\"type\":\"m.tag\"}".to_vec())
    );
    assert_eq!(data.roomuserdataid_accountdata.len(), 2);
    assert_eq!(data.get(None, BOB, "m.tag"), None);
    assert_eq!(data.get(Some(ROOM), ALICE, "m.tag"), None);
    let (key, _) = data.find_event(None, ALICE, "m.tag").unwrap();
    assert!(key.ends_with(b"\xffm.tag"));
    assert_eq!(&key[20..28], &9_u64.to_be_bytes());
}

#[test]
fn account_data_without_its_fields_is_rejected() {
    let mut globals = new_globals();
    let mut data = new_account_data();
    data.update(None, ALICE, "m.tag", "{\"type\":\"m.tag\",\"content\":1}", &mut globals).unwrap();
    for bad in ["{\"type\":\"m.tag\"}", "{\"content\":{}}", "[]", "not json"] {
        match data.update(None, ALICE, "m.tag", bad, &mut globals) {
            Err(Error::BadRequest(ErrorKind::InvalidParam, message)) => {
                assert_eq!(message, "Account data doesn't have all required fields.")
            }
            _ => panic!("incomplete account data was stored"),
        }
    }
    // What was stored stays, and no count was taken.
    assert_eq!(
        data.get(None, ALICE, "m.tag"),
        Some(b"{\"content\":1,\"type\":\"m.tag\"}".to_vec())
    );
    assert_eq!(data.roomuserdataid_accountdata.len(), 1);
    assert_eq!(globals.current_count().unwrap(), 1);
}

#[test]
fn account_data_is_not_stored_under_an_unreadable_counter() {
    let mut globals = new_globals();
    let mut data = new_account_data();
    data.update(None, ALICE, "m.tag", "{\"type\":\"m.tag\",\"content\":1}", &mut globals).unwrap();
    globals.globals.insert(b"c", &[1, 2, 3]);
    match data.update(None, ALICE, "m.tag", "{\"type\":\"m.tag\",\"content\":2}", &mut globals) {
        Err(Error::BadDatabase(message)) => assert_eq!(message, "Count has invalid bytes."),
        _ => panic!("an unreadable counter was counted on"),
    }
    assert_eq!(
        data.get(None, ALICE, "m.tag"),
        Some(b"{\"content\":1,\"type\":\"m.tag\"}".to_vec())
    );
    assert_eq!(globals.globals.get(b"c"), Some(vec![1, 2, 3]));
}

#[test]
fn account_data_is_judged_by_what_is_known_of_it() {
    assert!(check_account_data(Some(true), Some(true), true).is_ok());
    assert!(check_account_data(Some(true), Some(false), true).is_err());
    assert!(check_account_data(Some(false), Some(true), true).is_err());
    assert!(check_account_data(None, Some(true), true).is_err());
    assert!(check_account_data(Some(true), None, true).is_err());
    assert!(check_account_data(Some(true), Some(true), false).is_err());
}

#[test]
fn changes_since_lists_what_came_later() {
    let mut globals = new_globals();
    let mut data = new_account_data();
    data.update(None, ALICE, "m.a", "{\"type\":\"m.a\",\"content\":1}", &mut globals).unwrap();
    data.update(None, ALICE, "m.b", "{\"type\":\"m.b\",\"content\":2}", &mut globals).unwrap();
    data.update(None, BOB, "m.a", "{\"type\":\"m.a\",\"content\":3}", &mut globals).unwrap();
    data.update(None, ALICE, "m.a", "{\"type\":\"m.a\",\"content\":4}", &mut globals).unwrap();
    assert_eq!(
        data.changes_since(None, ALICE, 0).unwrap(),
        vec![
            ("m.b".to_owned(), b"{\"content\":2,\"type\":\"m.b\"}".to_vec()),
            ("m.a".to_owned(), b"{\"content\":4,\"type\":\"m.a\"}".to_vec()),
        ]
    );
    assert_eq!(
        data.changes_since(None, ALICE, 2).unwrap(),
        vec![("m.a".to_owned(), b"{\"content\":4,\"type\":\"m.a\"}".to_vec())]
    );
    assert_eq!(data.changes_since(None, ALICE, 4).unwrap(), Vec::new());
    assert_eq!(data.changes_since(Some(ROOM), ALICE, 0).unwrap(), Vec::new());
}

#[test]
fn changes_since_reports_broken_rows() {
    let mut data = new_account_data();
    let mut key = b"\xff@alice:example.org\xff".to_vec();
    key.extend_from_slice(&1_u64.to_be_bytes());
    let mut broken_type = key.clone();
    broken_type.extend_from_slice(b"\xffm.\xfe");
    data.roomuserdataid_accountdata.insert(&broken_type, b"{}");
    match data.changes_since(None, ALICE, 0) {
        Err(Error::BadDatabase(message)) => {
            assert_eq!(message, "RoomUserData ID in db is invalid.")
        }
        _ => panic!("a broken type was read"),
    }
    data.roomuserdataid_accountdata.remove(&broken_type);
    key.extend_from_slice(b"\xffm.tag");
    data.roomuserdataid_accountdata.insert(&key, b"{ broken");
    match data.changes_since(None, ALICE, 0) {
        Err(Error::BadDatabase(message)) => {
            assert_eq!(message, "Database contains invalid account data.")
        }
        _ => panic!("a broken event was read"),
    }
}

#[test]
fn accounts_have_a_hashed_password() {
    let mut users = Users::new();
    assert!(!users.exists_user(ALICE));
    users.create(ALICE, Some("s3cret")).unwrap();
    assert!(users.exists_user(ALICE));
    assert!(!users.is_deactivated(ALICE).unwrap());
    let hash = users.password_hash(ALICE).unwrap().unwrap();
    assert!(hash.starts_with("$argon2id$"));
    assert!(argon2::verify_encoded(&hash, b"s3cret").unwrap());
    assert_eq!(users.password_hash(BOB).unwrap(), None);
}

#[test]
fn an_account_without_password_is_deactivated() {
    let mut users = Users::new();
    users.create(BOB, None).unwrap();
    assert!(users.exists_user(BOB));
    assert!(users.is_deactivated(BOB).unwrap());
    assert_eq!(users.userid_password.get(BOB.as_bytes()), Some(Vec::new()));
    match users.is_deactivated(ALICE) {
        Err(Error::BadRequest(ErrorKind::InvalidParam, message)) => {
            assert_eq!(message, "User does not exist.")
        }
        _ => panic!("an unknown user was judged"),
    }
}

#[test]
fn a_broken_password_hash_is_reported() {
    let mut users = Users::new();
    users.userid_password.insert(ALICE.as_bytes(), &[0xfe, 0xfe]);
    match users.password_hash(ALICE) {
        Err(Error::BadDatabase(message)) => {
            assert_eq!(message, "Password hash in db is not valid string.")
        }
        _ => panic!("a broken hash was read"),
    }
}

#[test]
fn tokens_lead_to_their_device() {
    let mut users = Users::new();
    users.create(ALICE, Some("pw")).unwrap();
    users.create_device(ALICE, "PHONE", "token-one", b"Phone");
    users.create_device(ALICE, "LAPTOP", "token-two", b"Laptop");
    assert_eq!(
        users.find_from_token("token-one").unwrap(),
        Some((ALICE.to_owned(), "PHONE".to_owned()))
    );
    assert_eq!(
        users.find_from_token("token-two").unwrap(),
        Some((ALICE.to_owned(), "LAPTOP".to_owned()))
    );
    assert_eq!(users.find_from_token("token-three").unwrap(), None);
    assert_eq!(
        users.all_device_ids(ALICE).unwrap(),
        vec!["LAPTOP".to_owned(), "PHONE".to_owned()]
    );
    assert_eq!(users.other_device_ids(ALICE, "PHONE"), vec!["LAPTOP".to_owned()]);
    assert_eq!(
        users.userid_devicelistversion.get(ALICE.as_bytes()),
        Some(2_u64.to_be_bytes().to_vec())
    );
    assert_eq!(
        users.userdeviceid_metadata.get(b"@alice:example.org\xffPHONE"),
        Some(b"Phone".to_vec())
    );
}

#[test]
fn a_new_token_replaces_the_old_one() {
    let mut users = Users::new();
    users.create(ALICE, Some("pw")).unwrap();
    users.create_device(ALICE, "PHONE", "old", b"");
    users.set_token(ALICE, "PHONE", "new");
    assert_eq!(users.find_from_token("old").unwrap(), None);
    assert_eq!(
        users.find_from_token("new").unwrap(),
        Some((ALICE.to_owned(), "PHONE".to_owned()))
    );
    for (token, device) in users.token_userdeviceid.iter() {
        assert_eq!(users.userdeviceid_token.get(&device), Some(token));
    }
}

#[test]
fn removing_a_device_removes_what_belongs_to_it() {
    let mut users = Users::new();
    users.create(ALICE, Some("pw")).unwrap();
    users.create_device(ALICE, "PHONE", "one", b"");
    users.create_device(ALICE, "LAPTOP", "two", b"");
    users.todeviceid_events.insert(b"@alice:example.org\xffPHONE\xff\x00\x01", b"{}");
    users.todeviceid_events.insert(b"@alice:example.org\xffPHONE\xff\x00\x02", b"{}");
    users.todeviceid_events.insert(b"@alice:example.org\xffLAPTOP\xff\x00\x03", b"{}");
    users.remove_device(ALICE, "PHONE");
    assert_eq!(users.find_from_token("one").unwrap(), None);
    assert_eq!(users.all_device_ids(ALICE).unwrap(), vec!["LAPTOP".to_owned()]);
    assert_eq!(users.todeviceid_events.len(), 1);
    assert_eq!(
        users.find_from_token("two").unwrap(),
        Some((ALICE.to_owned(), "LAPTOP".to_owned()))
    );
    users.remove_device(ALICE, "NEVER");
    assert_eq!(users.all_device_ids(ALICE).unwrap(), vec!["LAPTOP".to_owned()]);
}

#[test]
fn a_deactivated_account_has_no_devices() {
    let mut users = Users::new();
    users.create(ALICE, Some("pw")).unwrap();
    users.create_device(ALICE, "PHONE", "one", b"");
    users.create_device(ALICE, "LAPTOP", "two", b"");
    users.deactivate_account(ALICE).unwrap();
    assert!(users.is_deactivated(ALICE).unwrap());
    assert!(users.exists_user(ALICE));
    assert_eq!(users.all_device_ids(ALICE).unwrap(), Vec::<String>::new());
    assert_eq!(users.find_from_token("one").unwrap(), None);
    assert_eq!(users.find_from_token("two").unwrap(), None);
}

#[test]
fn a_broken_token_row_is_reported() {
    let mut users = Users::new();
    users.token_userdeviceid.insert(b"t1", b"no device");
    users.token_userdeviceid.insert(b"t2", b"\xfe\xffdevice");
    users.token_userdeviceid.insert(b"t3", b"user\xff\xfe");
    for (token, expected) in [
        ("t1", "Device ID in token_userdeviceid is invalid."),
        ("t2", "User ID in token_userdeviceid is invalid unicode."),
        ("t3", "Device ID in token_userdeviceid is invalid."),
    ] {
        match users.find_from_token(token) {
            Err(Error::BadDatabase(message)) => assert_eq!(message, expected),
            _ => panic!("a broken row was read"),
        }
    }
}

fn populated(membership: &Membership, key: &[u8]) -> usize {
    [
        &membership.userroomid_joined,
        &membership.userroomid_invitestate,
        &membership.userroomid_leftstate,
    ]
    .iter()
    .filter(|tree| tree.contains_key(key))
    .count()
}

#[test]
fn a_user_is_in_one_membership_index_at_most() {
    let mut globals = new_globals();
    let mut membership = Membership::new();
    let key = b"@alice:example.org\xff!r:example.org";
    assert_eq!(populated(&membership, key), 0);
    let steps = [
        MembershipState::Invite,
        MembershipState::Join,
        MembershipState::Leave,
        MembershipState::Join,
        MembershipState::Ban,
        MembershipState::Invite,
        MembershipState::Leave,
    ];
    for state in steps {
        membership.update_membership(ROOM, ALICE, state, b"[]", &mut globals).unwrap();
        assert_eq!(populated(&membership, key), 1);
        let expected = match state {
            MembershipState::Join => &membership.userroomid_joined,
            MembershipState::Invite => &membership.userroomid_invitestate,
            _ => &membership.userroomid_leftstate,
        };
        assert!(expected.contains_key(key));
    }
    assert!(membership.roomuseroncejoinedids.contains_key(key));
    assert_eq!(globals.current_count().unwrap(), 5);
}

#[test]
fn membership_is_indexed_by_user_and_by_room() {
    let mut globals = new_globals();
    let mut membership = Membership::new();
    membership.update_membership(ROOM, ALICE, MembershipState::Join, b"", &mut globals).unwrap();
    membership.update_membership(ROOM, BOB, MembershipState::Join, b"", &mut globals).unwrap();
    membership
        .update_membership("!s:example.org", ALICE, MembershipState::Join, b"", &mut globals)
        .unwrap();
    membership
        .update_membership("!t:example.org", ALICE, MembershipState::Invite, b"[1]", &mut globals)
        .unwrap();
    assert_eq!(
        membership.rooms_joined(ALICE),
        Some(vec![ROOM.to_owned(), "!s:example.org".to_owned()])
    );
    assert_eq!(membership.rooms_invited(ALICE), Some(vec!["!t:example.org".to_owned()]));
    assert_eq!(membership.room_members(ROOM), Some(vec![ALICE.to_owned(), BOB.to_owned()]));
    assert_eq!(
        membership.userroomid_invitestate.get(b"@alice:example.org\xff!t:example.org"),
        Some(b"[1]".to_vec())
    );
    assert_eq!(
        membership.roomuserid_invitecount.get(b"!t:example.org\xff@alice:example.org"),
        Some(1_u64.to_be_bytes().to_vec())
    );
    membership.update_membership(ROOM, BOB, MembershipState::Leave, b"", &mut globals).unwrap();
    assert_eq!(membership.room_members(ROOM), Some(vec![ALICE.to_owned()]));
    assert_eq!(
        membership.userroomid_leftstate.get(b"@bob:example.org\xff!r:example.org"),
        Some(b"[]".to_vec())
    );
    assert_eq!(
        membership.roomuserid_leftcount.get(b"!r:example.org\xff@bob:example.org"),
        Some(2_u64.to_be_bytes().to_vec())
    );
}

#[test]
fn new_tables_hold_nothing() {
    let mut users = Users::new();
    for tree in [
        &mut users.userid_password,
        &mut users.userdeviceid_token,
        &mut users.userdeviceid_metadata,
        &mut users.userid_devicelistversion,
        &mut users.token_userdeviceid,
        &mut users.todeviceid_events,
    ] {
        assert_eq!(tree.len(), 0);
        assert!(tree.take_woken().is_empty());
    }
    let mut membership = Membership::new();
    for tree in [
        &mut membership.userroomid_joined,
        &mut membership.roomuserid_joined,
        &mut membership.roomuseroncejoinedids,
        &mut membership.userroomid_invitestate,
        &mut membership.roomuserid_invitecount,
        &mut membership.userroomid_leftstate,
        &mut membership.roomuserid_leftcount,
    ] {
        assert_eq!(tree.len(), 0);
        assert!(tree.take_woken().is_empty());
    }
    let rooms = Rooms::new();
    assert_eq!(rooms.membership.userroomid_joined.len(), 0);
    assert_eq!(rooms.servers.roomserverids.len() + rooms.servers.serverroomids.len(), 0);
    assert!(rooms.timeline.pduid_pdu.iter().is_empty());
    assert!(rooms.timeline.roomid_pduleaves.iter().is_empty());
    assert!(rooms.shortids.roomid_shortroomid.iter().is_empty());
    assert!(rooms.state.shortstatehash_statediff.iter().is_empty());
    assert!(rooms.state.roomid_shortstatehash.iter().is_empty());
    assert!(rooms.edus.roomid_lasttypingupdate.iter().is_empty());
    assert!(rooms.notifications.userroomid_notificationcount.iter().is_empty());
}
