use conduit::config::Config;
use conduit::error::Error;
use conduit::events::{
    append_pdu, intern, intern_both, membership_named, store_event, tokenize, PduBuilder,
};
use conduit::globals::Globals;
use conduit::membership::MembershipState;
use conduit::rooms::Rooms;
use conduit::state_set::entry;
use conduit::tree::Tree;
use lru_cache::LruCache;

fn new_globals() -> Globals {
    let config = Config::new("example.org".to_owned(), "/tmp".to_owned());
    let (globals, outcome) = Globals::load(Tree::new(), Tree::new(), config);
    outcome.unwrap();
    globals
}

fn builder(event_type: &str, state_key: Option<&str>, content: &str) -> PduBuilder {
    PduBuilder {
        room_id: "!r:example.org".to_owned(),
        sender: "@alice:example.org".to_owned(),
        event_type: event_type.to_owned(),
        content: content.to_owned(),
        unsigned: None,
        state_key: state_key.map(|s| s.to_owned()),
        redacts: None,
    }
}

fn short(tree: &Tree, key: &[u8]) -> u64 {
    u64::from_be_bytes(tree.get(key).unwrap().try_into().unwrap())
}

#[test]
fn state_round_trip() {
    let mut globals = new_globals();
    let mut rooms = Rooms::new();
    let mut lru = LruCache::new(100);
    let events = [
        ("$e1", "m.room.member", "@alice:example.org", "{\"membership\":\"join\"}"),
        ("$e2", "m.room.name", "", "{\"name\":\"Room A\"}"),
        ("$e3", "m.room.member", "@bob:example.org", "{\"membership\":\"join\"}"),
        ("$e4", "m.room.topic", "", "{\"topic\":\"hi\"}"),
    ];
    for (event_id, event_type, state_key, content) in events {
        let pdu = builder(event_type, Some(state_key), content);
        append_pdu(&mut rooms, &pdu, event_id, content.as_bytes(), b"[]", None, &mut globals, &mut lru)
            .unwrap();
    }
    let state = rooms.state.room_state_full("!r:example.org", &mut LruCache::new(10)).unwrap();
    let mut expected: Vec<u128> = events
        .iter()
        .map(|(event_id, event_type, state_key, _)| {
            let mut statekey = event_type.as_bytes().to_vec();
            statekey.push(0xff);
            statekey.extend_from_slice(state_key.as_bytes());
            entry(
                short(&rooms.state.statekey_shortstatekey, &statekey),
                short(&rooms.timeline.eventid_shorteventid, event_id.as_bytes()),
            )
        })
        .collect();
    expected.sort();
    assert_eq!(state.as_slice(), &expected[..]);
    assert_eq!(state.len(), 4);
    let hash_of_last = short(
        &rooms.state.shorteventid_shortstatehash,
        &rooms.timeline.eventid_shorteventid.get(b"$e4").unwrap(),
    );
    assert_eq!(rooms.state.current_shortstatehash("!r:example.org").unwrap(), Some(hash_of_last));
    assert_eq!(rooms.state.state_full(hash_of_last, &mut lru).unwrap().as_slice(), &expected[..]);
    assert_eq!(
        rooms.membership.room_members("!r:example.org"),
        Some(vec!["@alice:example.org".to_owned(), "@bob:example.org".to_owned()])
    );
}

#[test]
fn a_later_state_event_takes_the_place_of_an_earlier_one() {
    let mut globals = new_globals();
    let mut rooms = Rooms::new();
    let mut lru = LruCache::new(100);
    for (event_id, name) in [("$first", "Old"), ("$second", "New")] {
        let content = format!("{{\"name\":\"{}\"}}", name);
        let pdu = builder("m.room.name", Some(""), &content);
        append_pdu(&mut rooms, &pdu, event_id, content.as_bytes(), b"", None, &mut globals, &mut lru)
            .unwrap();
    }
    let state = rooms.state.room_state_full("!r:example.org", &mut lru).unwrap();
    let key = short(&rooms.state.statekey_shortstatekey, b"m.room.name\xff");
    let second = short(&rooms.timeline.eventid_shorteventid, b"$second");
    assert_eq!(state.as_slice(), &[entry(key, second)]);
    let first = short(&rooms.timeline.eventid_shorteventid, b"$first");
    let hash_of_first = short(&rooms.state.shorteventid_shortstatehash, &first.to_be_bytes());
    assert_eq!(
        rooms.state.state_full(hash_of_first, &mut lru).unwrap().as_slice(),
        &[entry(key, first)]
    );
}

#[test]
fn equal_states_share_their_hash() {
    let mut globals = new_globals();
    let mut rooms = Rooms::new();
    let mut lru = LruCache::new(100);
    let pdu = builder("m.room.name", Some(""), "{}");
    append_pdu(&mut rooms, &pdu, "$e", b"{}", b"", None, &mut globals, &mut lru).unwrap();
    let before = rooms.state.current_shortstatehash("!r:example.org").unwrap();
    let count = globals.current_count().unwrap();
    append_pdu(&mut rooms, &pdu, "$e", b"{}", b"", None, &mut globals, &mut lru).unwrap();
    assert_eq!(rooms.state.current_shortstatehash("!r:example.org").unwrap(), before);
    assert_eq!(globals.current_count().unwrap(), count + 1);
    assert_eq!(rooms.state.shortstatehash_statediff.len(), 1);
}

#[test]
fn an_event_is_stored_under_room_and_count() {
    let mut globals = new_globals();
    let mut rooms = Rooms::new();
    let mut lru = LruCache::new(100);
    let pdu = builder("m.room.message", None, "{\"body\":\"Hello, World!\"}");
    let pduid = append_pdu(
        &mut rooms,
        &pdu,
        "$msg",
        b"{\"canonical\":true}",
        b"",
        Some("Hello, World!"),
        &mut globals,
        &mut lru,
    )
    .unwrap();
    let mut expected = 2_u64.to_be_bytes().to_vec();
    expected.extend_from_slice(&1_u64.to_be_bytes());
    assert_eq!(pduid, expected);
    assert_eq!(rooms.timeline.pduid_pdu.get(&pduid), Some(b"{\"canonical\":true}".to_vec()));
    assert_eq!(rooms.timeline.eventid_pduid.get(b"$msg"), Some(pduid.clone()));
    assert_eq!(rooms.shortids.roomid_shortroomid.get(b"!r:example.org"), Some(2_u64.to_be_bytes().to_vec()));
    assert_eq!(rooms.shortids.shortroomid_roomid.get(&2_u64.to_be_bytes()), Some(b"!r:example.org".to_vec()));
    assert_eq!(rooms.timeline.eventid_shorteventid.get(b"$msg"), Some(3_u64.to_be_bytes().to_vec()));
    assert_eq!(rooms.timeline.shorteventid_eventid.get(&3_u64.to_be_bytes()), Some(b"$msg".to_vec()));
    let mut hello = 2_u64.to_be_bytes().to_vec();
    hello.extend_from_slice(b"hello\xff");
    hello.extend_from_slice(&1_u64.to_be_bytes());
    let mut world = 2_u64.to_be_bytes().to_vec();
    world.extend_from_slice(b"world\xff");
    world.extend_from_slice(&1_u64.to_be_bytes());
    assert_eq!(rooms.timeline.tokenids.iter(), vec![(hello, Vec::new()), (world, Vec::new())]);
    assert_eq!(rooms.state.roomid_shortstatehash.len(), 0);
    assert_eq!(rooms.membership.userroomid_joined.len(), 0);
}

#[test]
fn the_last_event_is_the_only_leaf() {
    let mut globals = new_globals();
    let mut rooms = Rooms::new();
    let mut lru = LruCache::new(100);
    let pdu = builder("m.room.message", None, "{}");
    let mut last = 0;
    for event_id in ["$one", "$two", "$three"] {
        let pduid =
            append_pdu(&mut rooms, &pdu, event_id, b"{}", b"", None, &mut globals, &mut lru)
                .unwrap();
        let count = u64::from_be_bytes(pduid[8..].try_into().unwrap());
        assert!(count > last);
        last = count;
    }
    assert_eq!(
        rooms.timeline.roomid_pduleaves.iter(),
        vec![(b"!r:example.org\xff$three".to_vec(), Vec::new())]
    );
}

#[test]
fn member_events_are_fanned_out() {
    let mut globals = new_globals();
    let mut rooms = Rooms::new();
    let mut lru = LruCache::new(100);
    let bob = "@bob:example.org";
    let key = b"@bob:example.org\xff!r:example.org";
    for (event_id, membership) in [("$1", "invite"), ("$2", "join"), ("$3", "leave"), ("$4", "knock")] {
        let content = format!("{{\"membership\":\"{}\"}}", membership);
        let pdu = builder("m.room.member", Some(bob), &content);
        append_pdu(&mut rooms, &pdu, event_id, b"{}", b"[\"stripped\"]", None, &mut globals, &mut lru)
            .unwrap();
        let joined = rooms.membership.userroomid_joined.contains_key(key);
        let invited = rooms.membership.userroomid_invitestate.get(key);
        let left = rooms.membership.userroomid_leftstate.contains_key(key);
        match membership {
            "invite" => {
                assert_eq!((joined, left), (false, false));
                assert_eq!(invited, Some(b"[\"stripped\"]".to_vec()));
            }
            "join" => assert_eq!((joined, invited, left), (true, None, false)),
            _ => assert_eq!((joined, invited, left), (false, None, true)),
        }
    }
}

#[test]
fn memberships_are_named_by_four_words() {
    assert_eq!(membership_named(Some("join".to_owned())), Some(MembershipState::Join));
    assert_eq!(membership_named(Some("invite".to_owned())), Some(MembershipState::Invite));
    assert_eq!(membership_named(Some("leave".to_owned())), Some(MembershipState::Leave));
    assert_eq!(membership_named(Some("ban".to_owned())), Some(MembershipState::Ban));
    assert_eq!(membership_named(Some("knock".to_owned())), None);
    assert_eq!(membership_named(None), None);
}

#[test]
fn texts_are_split_into_words() {
    assert_eq!(
        tokenize("Hello, World! héllo x".as_bytes()),
        vec![b"hello".to_vec(), b"world".to_vec(), "héllo".as_bytes().to_vec(), b"x".to_vec()]
    );
    assert_eq!(tokenize(b""), Vec::<Vec<u8>>::new());
    assert_eq!(tokenize(b" ,;- "), Vec::<Vec<u8>>::new());
    assert_eq!(tokenize(b"ABC123"), vec![b"abc123".to_vec()]);
    let fifty = "a".repeat(50);
    let long = "b".repeat(51);
    let text = format!("{} {} end", fifty, long);
    assert_eq!(tokenize(text.as_bytes()), vec![fifty.into_bytes(), b"end".to_vec()]);
}

#[test]
fn short_ids_are_given_once() {
    let mut globals = new_globals();
    let mut tree = Tree::new();
    assert_eq!(intern(&mut tree, b"first", &mut globals).unwrap(), (1, true));
    assert_eq!(intern(&mut tree, b"second", &mut globals).unwrap(), (2, true));
    assert_eq!(intern(&mut tree, b"first", &mut globals).unwrap(), (1, false));
    assert_eq!(globals.current_count().unwrap(), 2);
    tree.insert(b"broken", b"123");
    match intern(&mut tree, b"broken", &mut globals) {
        Err(Error::BadDatabase(message)) => assert_eq!(message, "Invalid short id in db."),
        _ => panic!("a broken short id was read"),
    }
}

#[test]
fn short_ids_are_found_in_both_directions() {
    let mut globals = new_globals();
    let mut forward = Tree::new();
    let mut backward = Tree::new();
    assert_eq!(intern_both(&mut forward, &mut backward, b"!a:x", &mut globals).unwrap(), 1);
    assert_eq!(intern_both(&mut forward, &mut backward, b"!b:x", &mut globals).unwrap(), 2);
    assert_eq!(intern_both(&mut forward, &mut backward, b"!a:x", &mut globals).unwrap(), 1);
    assert_eq!(backward.get(&2u64.to_be_bytes()), Some(b"!b:x".to_vec()));
    assert_eq!(backward.len(), 2);
    assert_eq!(globals.current_count().unwrap(), 2);
}

#[test]
fn a_stored_event_leaves_state_and_membership_alone() {
    let mut globals = new_globals();
    let mut rooms = Rooms::new();
    let pdu = builder("m.room.member", Some("@alice:example.org"), "{\"membership\":\"join\"}");
    let (pduid, shorteventid) =
        store_event(&mut rooms, &pdu, "$e1", b"{}", Some("Hello world"), &mut globals).unwrap();
    // The event has the count 1, its room the short id 2, the event the short id 3.
    assert_eq!(pduid, [2u64.to_be_bytes(), 1u64.to_be_bytes()].concat());
    assert_eq!(shorteventid, 3);
    assert_eq!(globals.current_count().unwrap(), 3);
    assert_eq!(rooms.timeline.pduid_pdu.get(&pduid), Some(b"{}".to_vec()));
    assert_eq!(rooms.timeline.eventid_pduid.get(b"$e1"), Some(pduid.clone()));
    assert_eq!(rooms.timeline.shorteventid_eventid.get(&3u64.to_be_bytes()), Some(b"$e1".to_vec()));
    assert_eq!(rooms.timeline.tokenids.len(), 2);
    assert_eq!(rooms.timeline.roomid_pduleaves.len(), 1);
    assert_eq!(rooms.state.roomid_shortstatehash.len(), 0);
    assert_eq!(rooms.membership.userroomid_joined.len(), 0);
}
