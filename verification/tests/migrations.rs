use conduit::config::Config;
use conduit::database::{open_tree, Database};
use conduit::error::Error;
use conduit::membership::MembershipState;
use conduit::state_diff::load_shortstatehash_info;
use conduit::state_set::entry;
use lru_cache::LruCache;

type Rows = Vec<(Vec<u8>, Vec<u8>)>;

fn rows(list: &[(&[u8], &[u8])]) -> Rows {
    list.iter().map(|(k, v)| (k.to_vec(), v.to_vec())).collect()
}

fn load(stored: Vec<(String, Rows)>) -> (Database, Rows, Result<(), Error>) {
    let config = Config::new("example.org".to_owned(), "/tmp".to_owned());
    Database::load_or_create(config, &stored)
}

fn at_version(version: u64, mut stored: Vec<(String, Rows)>) -> Vec<(String, Rows)> {
    stored.push(("global".to_owned(), rows(&[(b"version", &version.to_be_bytes())])));
    stored
}

fn stateid(hash: u64, key: u64) -> Vec<u8> {
    let mut id = hash.to_be_bytes().to_vec();
    id.extend_from_slice(&key.to_be_bytes());
    id
}

#[test]
fn trees_are_opened_by_name() {
    let stored = vec![
        ("first".to_owned(), rows(&[(b"k", b"1")])),
        ("second".to_owned(), rows(&[(b"k", b"2"), (b"a", b"3")])),
        ("first".to_owned(), rows(&[(b"k", b"4")])),
    ];
    assert_eq!(open_tree(&stored, "first").iter(), rows(&[(b"k", b"1")]));
    assert_eq!(open_tree(&stored, "second").iter(), rows(&[(b"a", b"3"), (b"k", b"2")]));
    assert_eq!(open_tree(&stored, "third").iter(), Rows::new());
}

#[test]
fn a_new_database_is_at_the_latest_version() {
    let (db, files, outcome) = load(Vec::new());
    outcome.unwrap();
    assert!(files.is_empty());
    assert_eq!(db.globals.database_version().unwrap(), 7);
    assert!(db.globals.keypair().is_some());
}

#[test]
fn servers_of_rooms_are_indexed_by_server() {
    let stored = vec![(
        "roomserverids".to_owned(),
        rows(&[
            (b"!a:x.org\xffx.org", b""),
            (b"!a:x.org\xffy.org", b""),
            (b"!b:y.org\xffy.org\xffextra", b""),
            (b"broken", b""),
        ]),
    )];
    let (db, _, outcome) = load(stored);
    outcome.unwrap();
    assert_eq!(
        db.rooms.servers.serverroomids.iter(),
        rows(&[
            (b"x.org\xff!a:x.org", b""),
            (b"y.org\xff!a:x.org", b""),
            (b"y.org\xff!b:y.org", b""),
        ])
    );
    assert_eq!(db.rooms.servers.roomserverids.len(), 4);
}

#[test]
fn hashed_empty_passwords_become_empty() {
    let hash_of_empty =
        argon2::hash_encoded(b"", b"somesalt", &argon2::Config::default()).unwrap();
    let hash_of_secret =
        argon2::hash_encoded(b"secret", b"somesalt", &argon2::Config::default()).unwrap();
    let stored = at_version(
        1,
        vec![(
            "userid_password".to_owned(),
            rows(&[
                (b"@a:example.org", hash_of_empty.as_bytes()),
                (b"@b:example.org", hash_of_secret.as_bytes()),
                (b"@c:example.org", b""),
                (b"@d:example.org", b"\xfe not a hash"),
            ]),
        )],
    );
    let (db, _, outcome) = load(stored);
    outcome.unwrap();
    assert_eq!(
        db.users.userid_password.iter(),
        rows(&[
            (b"@a:example.org", b""),
            (b"@b:example.org", hash_of_secret.as_bytes()),
            (b"@c:example.org", b""),
            (b"@d:example.org", b"\xfe not a hash"),
        ])
    );
}

#[test]
fn media_is_moved_out_of_the_table() {
    let stored = at_version(
        2,
        vec![(
            "mediaid_file".to_owned(),
            rows(&[(b"key-one", b"PNG.."), (b"key-two", b""), (b"key-three", b"x")]),
        )],
    );
    let (mut db, files, outcome) = load(stored);
    outcome.unwrap();
    assert_eq!(files, rows(&[(b"key-one", b"PNG.."), (b"key-three", b"x")]));
    assert_eq!(files[0].1.len(), 5);
    assert_eq!(db.globals.get_media_file(&files[0].0), "6b65792d6f6e65");
    assert_eq!(
        db.media.mediaid_file.iter(),
        rows(&[(b"key-one", b""), (b"key-three", b""), (b"key-two", b"")])
    );
    db.globals.bump_database_version(2);
    let (again, outcome) = db.run_migrations();
    outcome.unwrap();
    assert!(again.is_empty());
    assert_eq!(db.media.mediaid_file.get(b"key-one"), Some(Vec::new()));
}

#[test]
fn remote_members_get_an_account() {
    let stored = at_version(
        3,
        vec![
            (
                "userid_password".to_owned(),
                rows(&[(b"@alice:example.org", b"hash"), (b"@gone:example.org", b"")]),
            ),
            (
                "userroomid_joined".to_owned(),
                rows(&[
                    (b"@alice:example.org\xff!r:example.org", b""),
                    (b"@gone:example.org\xff!s:example.org", b""),
                ]),
            ),
            (
                "roomuserid_joined".to_owned(),
                rows(&[
                    (b"!r:example.org\xff@alice:example.org", b""),
                    (b"!r:example.org\xff@bob:remote.org", b""),
                    (b"!r:example.org\xff@carol:example.org", b""),
                    (b"!s:example.org\xff@dave:remote.org", b""),
                ]),
            ),
        ],
    );
    let (db, _, outcome) = load(stored);
    outcome.unwrap();
    assert_eq!(
        db.users.userid_password.iter(),
        rows(&[
            (b"@alice:example.org", b"hash"),
            (b"@bob:remote.org", b""),
            (b"@gone:example.org", b""),
        ])
    );
    assert!(db.users.is_deactivated("@bob:remote.org").unwrap());
}

#[test]
fn account_data_is_indexed_by_type() {
    let mut first = b"!r:example.org\xff@alice:example.org\xff".to_vec();
    first.extend_from_slice(&255_u64.to_be_bytes());
    first.extend_from_slice(b"\xffm.tag");
    let mut second = b"\xff@alice:example.org\xff".to_vec();
    second.extend_from_slice(&7_u64.to_be_bytes());
    second.extend_from_slice(b"\xffm.direct");
    let stored = at_version(
        4,
        vec![(
            "roomuserdataid_accountdata".to_owned(),
            rows(&[(&first, b"{}"), (&second, b"{}")]),
        )],
    );
    let (db, _, outcome) = load(stored);
    outcome.unwrap();
    assert_eq!(
        db.account_data.roomusertype_roomuserdataid.iter(),
        rows(&[
            (b"!r:example.org\xff@alice:example.org\xffm.tag", &first),
            (b"\xff@alice:example.org\xffm.direct", &second),
        ])
    );
}

#[test]
fn account_data_without_user_stops_the_migration() {
    let stored = at_version(
        4,
        vec![("roomuserdataid_accountdata".to_owned(), rows(&[(b"no separator", b"{}")]))],
    );
    let (db, _, outcome) = load(stored);
    match outcome {
        Err(Error::BadDatabase(message)) => {
            assert_eq!(message, "RoomUserData ID in db is invalid.")
        }
        _ => panic!("a broken key was indexed"),
    }
    assert_eq!(db.globals.database_version().unwrap(), 4);
    assert_eq!(db.account_data.roomusertype_roomuserdataid.len(), 0);
}

fn legacy_store() -> Vec<(String, Rows)> {
    let room_a = b"{\"room_id\":\"!a:example.org\",\"type\":\"m.room.member\"}";
    let room_b = b"{\"room_id\":\"!b:example.org\",\"type\":\"m.room.member\"}";
    let mut legacy: Rows = Vec::new();
    let mut events: Rows = Vec::new();
    let mut pduids: Rows = Vec::new();
    let mut pdus: Rows = Vec::new();
    let mut outliers: Rows = Vec::new();
    for hash in 1..=12_u64 {
        let in_a = hash % 3 != 0;
        let event = 100 + hash;
        for key in 1..=hash.min(6) {
            legacy.push((stateid(hash, key), (if key == 1 { event } else { key }).to_be_bytes().to_vec()));
        }
        let event_id = format!("$event{}", hash).into_bytes();
        events.push((event.to_be_bytes().to_vec(), event_id.clone()));
        if in_a {
            let pduid = format!("!a:example.org\u{0}{}", hash).into_bytes();
            pduids.push((event_id, pduid.clone()));
            pdus.push((pduid, room_a.to_vec()));
        } else {
            outliers.push((event_id, room_b.to_vec()));
        }
    }
    vec![
        ("stateid_shorteventid".to_owned(), legacy),
        ("shorteventid_eventid".to_owned(), events),
        ("eventid_pduid".to_owned(), pduids),
        ("pduid_pdu".to_owned(), pdus),
        ("eventid_outlierpdu".to_owned(), outliers),
    ]
}

#[test]
fn the_state_store_is_rebuilt_as_diff_layers() {
    let (mut db, _, outcome) = load(at_version(5, legacy_store()));
    db.globals.bump_database_version(7);
    match outcome {
        Ok(()) => {}
        Err(Error::BadDatabase(message)) => assert_eq!(message, "Invalid pduid in db."),
        Err(_) => panic!("the migration failed"),
    }
    assert_eq!(db.rooms.state.shortstatehash_statediff.len(), 12);
    for hash in 1..=12_u64 {
        let mut lru = LruCache::new(10);
        let chain =
            load_shortstatehash_info(hash, &db.rooms.state.shortstatehash_statediff, &mut lru)
                .unwrap();
        assert!(chain.len() <= 4);
        let expected: Vec<u128> = (1..=hash.min(6))
            .map(|key| entry(key, if key == 1 { 100 + hash } else { key }))
            .collect();
        assert_eq!(chain.last().unwrap().full_state.as_slice(), &expected[..]);
        if chain.len() > 1 {
            let parent = chain[chain.len() - 2].shortstatehash;
            assert_eq!(parent % 3 == 0, hash % 3 == 0);
        }
    }
}

#[test]
fn broken_legacy_state_stops_the_migration() {
    let stored = at_version(
        5,
        vec![("stateid_shorteventid".to_owned(), rows(&[(b"short", b"\0\0\0\0\0\0\0\x01")]))],
    );
    let (db, _, outcome) = load(stored);
    match outcome {
        Err(Error::BadDatabase(message)) => assert_eq!(message, "Invalid stateid in db."),
        _ => panic!("a broken row was migrated"),
    }
    assert_eq!(db.globals.database_version().unwrap(), 5);
}

#[test]
fn legacy_state_of_an_unknown_event_stops_the_migration() {
    let stored = at_version(
        5,
        vec![("stateid_shorteventid".to_owned(), vec![(stateid(1, 1), 9_u64.to_be_bytes().to_vec())])],
    );
    let (_, _, outcome) = load(stored);
    match outcome {
        Err(Error::BadDatabase(message)) => {
            assert_eq!(message, "Short event id does not exist.")
        }
        _ => panic!("a state without room was migrated"),
    }
}

#[test]
fn rooms_get_short_ids_and_keys_are_rewritten() {
    let mut count_one = b"!a:example.org\xff".to_vec();
    count_one.extend_from_slice(&1_u64.to_be_bytes());
    let mut count_two = b"!b:example.org\xff".to_vec();
    count_two.extend_from_slice(&2_u64.to_be_bytes());
    let mut token = b"!a:example.org\xffhello\xff!a:example.org\xff".to_vec();
    token.extend_from_slice(&1_u64.to_be_bytes());
    let stored = vec![
        (
            "global".to_owned(),
            rows(&[(b"version", &6_u64.to_be_bytes()), (b"c", &2_u64.to_be_bytes())]),
        ),
        (
            "roomid_shortstatehash".to_owned(),
            rows(&[(b"!a:example.org", b"x"), (b"!b:example.org", b"y")]),
        ),
        ("pduid_pdu".to_owned(), rows(&[(&count_one, b"first"), (&count_two, b"second")])),
        ("tokenids".to_owned(), rows(&[(&token, b"")])),
    ];
    let (db, _, outcome) = load(stored);
    outcome.unwrap();
    assert_eq!(db.globals.current_count().unwrap(), 4);
    assert_eq!(
        db.rooms.shortids.roomid_shortroomid.iter(),
        rows(&[
            (b"!a:example.org", &3_u64.to_be_bytes()),
            (b"!b:example.org", &4_u64.to_be_bytes()),
        ])
    );
    assert_eq!(
        db.rooms.shortids.shortroomid_roomid.iter(),
        rows(&[
            (&3_u64.to_be_bytes(), b"!a:example.org"),
            (&4_u64.to_be_bytes(), b"!b:example.org"),
        ])
    );
    let mut new_one = 3_u64.to_be_bytes().to_vec();
    new_one.extend_from_slice(&1_u64.to_be_bytes());
    let mut new_two = 4_u64.to_be_bytes().to_vec();
    new_two.extend_from_slice(&2_u64.to_be_bytes());
    assert_eq!(
        db.rooms.timeline.pduid_pdu.iter(),
        rows(&[(&new_one, b"first"), (&new_two, b"second")])
    );
    let mut new_token = 3_u64.to_be_bytes().to_vec();
    new_token.extend_from_slice(b"hello\xff");
    new_token.extend_from_slice(&1_u64.to_be_bytes());
    assert_eq!(db.rooms.timeline.tokenids.iter(), rows(&[(&new_token, b"")]));
    assert_eq!(db.globals.database_version().unwrap(), 7);
}

#[test]
fn an_event_in_a_room_without_state_stops_the_migration() {
    let mut pduid = b"!unknown:example.org\xff".to_vec();
    pduid.extend_from_slice(&1_u64.to_be_bytes());
    let stored = at_version(6, vec![("pduid_pdu".to_owned(), rows(&[(&pduid, b"event")]))]);
    let (db, _, outcome) = load(stored);
    match outcome {
        Err(Error::BadDatabase(message)) => assert_eq!(message, "Invalid pduid in db."),
        _ => panic!("an event without room was moved"),
    }
    assert_eq!(db.globals.database_version().unwrap(), 6);
    assert_eq!(db.rooms.timeline.pduid_pdu.iter(), rows(&[(&pduid, b"event")]));
}

#[test]
fn migrating_twice_changes_nothing() {
    let stored = vec![
        ("roomserverids".to_owned(), rows(&[(b"!a:x.org\xffx.org", b"")])),
        ("mediaid_file".to_owned(), rows(&[(b"key", b"file")])),
        ("userid_password".to_owned(), rows(&[(b"@alice:example.org", b"hash")])),
        ("roomid_shortstatehash".to_owned(), rows(&[(b"!a:x.org", b"x")])),
    ];
    let (mut db, files, outcome) = load(stored);
    outcome.unwrap();
    assert_eq!(files.len(), 1);
    let snapshot = |db: &Database| {
        vec![
            db.globals.globals.iter(),
            db.rooms.servers.serverroomids.iter(),
            db.media.mediaid_file.iter(),
            db.users.userid_password.iter(),
            db.rooms.shortids.roomid_shortroomid.iter(),
            db.rooms.shortids.shortroomid_roomid.iter(),
            db.rooms.state.shortstatehash_statediff.iter(),
        ]
    };
    let once = snapshot(&db);
    let (files, outcome) = db.run_migrations();
    outcome.unwrap();
    assert!(files.is_empty());
    assert_eq!(snapshot(&db), once);
    for target in 1..=7 {
        assert!(db.migrate_step(target).unwrap().is_empty());
    }
    assert_eq!(snapshot(&db), once);
}

#[test]
fn an_unreadable_version_stops_the_migration() {
    let stored = vec![("global".to_owned(), rows(&[(b"version", b"7")]))];
    let (_, _, outcome) = load(stored);
    match outcome {
        Err(Error::BadDatabase(message)) => {
            assert_eq!(message, "Database version id is invalid.")
        }
        _ => panic!("an unreadable version was migrated"),
    }
}

#[test]
fn a_sync_is_woken_by_a_join() {
    let (mut db, _, outcome) = load(Vec::new());
    outcome.unwrap();
    let alice = "@alice:example.org";
    db.rooms
        .membership
        .update_membership("!r:example.org", alice, MembershipState::Join, b"", &mut db.globals)
        .unwrap();
    db.rooms.shortids.roomid_shortroomid.insert(b"!r:example.org", &7_u64.to_be_bytes());
    db.watch(alice, "PHONE", 42);
    db.watch("@bob:example.org", "PHONE", 43);
    assert_eq!(db.rooms.membership.userroomid_joined.take_woken(), Vec::<u64>::new());
    db.rooms
        .membership
        .update_membership("!s:example.org", alice, MembershipState::Join, b"", &mut db.globals)
        .unwrap();
    assert_eq!(db.rooms.membership.userroomid_joined.take_woken(), vec![42]);
    // An event of another room wakes nobody; an event of the room does.
    let elsewhere = [8_u64.to_be_bytes(), 1_u64.to_be_bytes()].concat();
    db.rooms.timeline.pduid_pdu.insert(&elsewhere, b"{}");
    assert_eq!(db.rooms.timeline.pduid_pdu.take_woken(), Vec::<u64>::new());
    let pduid = [7_u64.to_be_bytes(), 2_u64.to_be_bytes()].concat();
    db.rooms.timeline.pduid_pdu.insert(&pduid, b"{}");
    assert_eq!(db.rooms.timeline.pduid_pdu.take_woken(), vec![42]);
    db.users.todeviceid_events.insert(b"@bob:example.org\xffPHONE\xff1", b"{}");
    assert_eq!(db.users.todeviceid_events.take_woken(), vec![43]);
    db.users.todeviceid_events.insert(b"@alice:example.org\xffLAPTOP\xff1", b"{}");
    assert_eq!(db.users.todeviceid_events.take_woken(), Vec::<u64>::new());
    db.account_data.roomusertype_roomuserdataid.insert(b"\xff@alice:example.org\xffm.tag", b"");
    assert_eq!(db.account_data.roomusertype_roomuserdataid.take_woken(), vec![42]);
    let mut woken = db.globals.rotate.fire();
    woken.sort();
    assert_eq!(woken, vec![42, 43]);
}
