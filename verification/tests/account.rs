use conduit::account::{
    change_password_route, deactivate_route, get_register_available_route, register_route,
    rooms_to_leave_of, whoami_route, LeaveEvent, RegisterRequest, DEVICE_ID_LENGTH, TOKEN_LENGTH,
};
use conduit::config::Config;
use conduit::database::Database;
use conduit::error::{Error, ErrorKind};
use conduit::membership::MembershipState;
use conduit::push::get_pushrules_all_route;
use conduit::ruma_wrapper::{authenticate, bearer_token};
use conduit::uiaa::{AuthData, UiaaInfo};

const PUSH_RULES: &str = "{\"type\":\"m.push_rules\",\"content\":{\"global\":{}}}";

fn new_database() -> Database {
    let config = Config::new("example.org".to_owned(), "/tmp".to_owned());
    let (db, files, outcome) = Database::load_or_create(config, &Vec::new());
    outcome.unwrap();
    assert!(files.is_empty());
    db
}

fn dummy_auth(session: Option<String>) -> AuthData {
    AuthData { kind: "m.login.dummy".to_owned(), session, user: None, password: None }
}

fn password_auth(session: Option<String>, user: &str, password: &str) -> AuthData {
    AuthData {
        kind: "m.login.password".to_owned(),
        session,
        user: Some(user.to_owned()),
        password: Some(password.to_owned()),
    }
}

fn request(username: &str, password: &str) -> RegisterRequest {
    RegisterRequest {
        username: Some(username.to_owned()),
        password: Some(password.to_owned()),
        device_id: None,
        initial_device_display_name: None,
        inhibit_login: false,
        is_guest: false,
        auth: Some(dummy_auth(None)),
        push_rules: PUSH_RULES.to_owned(),
    }
}

fn challenge(r: Result<(), Error>) -> UiaaInfo {
    match r {
        Err(Error::Uiaa(info)) => info,
        _ => panic!("no auth challenge"),
    }
}

#[test]
fn register_then_login() {
    let mut db = new_database();
    let response = register_route(&mut db, &request("alice", "s3cret")).unwrap();
    assert_eq!(response.user_id, "@alice:example.org");
    let device_id = response.device_id.unwrap();
    assert_eq!(device_id.len(), DEVICE_ID_LENGTH);
    assert_eq!(device_id.len(), 10);
    assert!(device_id.chars().all(|c| c.is_ascii_alphanumeric()));
    let token = response.access_token.unwrap();
    assert_eq!(token.len(), TOKEN_LENGTH);
    assert!(token.len() >= 32);
    assert!(db.users.exists_user("@alice:example.org"));
    assert_eq!(
        db.users.find_from_token(&token).unwrap(),
        Some(("@alice:example.org".to_owned(), device_id))
    );
    match register_route(&mut db, &request("alice", "s3cret")) {
        Err(Error::BadRequest(ErrorKind::UserInUse, message)) => {
            assert_eq!(message, "Desired user ID is already taken.")
        }
        _ => panic!("a user was registered twice"),
    }
}

#[test]
fn username_availability() {
    let mut db = new_database();
    assert!(matches!(get_register_available_route(&db, "bob"), Ok(true)));
    register_route(&mut db, &request("bob", "pw")).unwrap();
    match get_register_available_route(&db, "bob") {
        Err(Error::BadRequest(ErrorKind::UserInUse, message)) => {
            assert_eq!(message, "Desired user ID is already taken.")
        }
        _ => panic!("a taken name is available"),
    }
}

#[test]
fn invalid_usernames_are_rejected() {
    let mut db = new_database();
    for name in ["Alice", "@alice:elsewhere.org", "@alice"] {
        match get_register_available_route(&db, name) {
            Err(Error::BadRequest(ErrorKind::InvalidUsername, message)) => {
                assert_eq!(message, "Username is invalid.")
            }
            _ => panic!("an invalid name is available"),
        }
    }
    for name in ["@alice:elsewhere.org", "@alice"] {
        assert!(matches!(
            register_route(&mut db, &request(name, "pw")),
            Err(Error::BadRequest(ErrorKind::InvalidUsername, _))
        ));
    }
}

#[test]
fn usernames_are_registered_in_lower_case() {
    let mut db = new_database();
    let response = register_route(&mut db, &request("Carol", "pw")).unwrap();
    assert_eq!(response.user_id, "@carol:example.org");
}

#[test]
fn registration_can_be_disabled() {
    let mut db = new_database();
    db.globals.config.allow_registration = false;
    match register_route(&mut db, &request("alice", "pw")) {
        Err(Error::BadRequest(ErrorKind::Forbidden, message)) => {
            assert_eq!(message, "Registration has been disabled.")
        }
        _ => panic!("a user was registered"),
    }
    assert!(!db.users.exists_user("@alice:example.org"));
}

#[test]
fn registration_wants_a_username() {
    let mut db = new_database();
    let mut body = request("alice", "pw");
    body.username = None;
    match register_route(&mut db, &body) {
        Err(Error::BadRequest(ErrorKind::MissingParam, message)) => {
            assert_eq!(message, "Missing username field.")
        }
        _ => panic!("a user without name was registered"),
    }
}

#[test]
fn registration_without_auth_is_challenged() {
    let mut db = new_database();
    let mut body = request("alice", "pw");
    body.auth = None;
    let info = match register_route(&mut db, &body) {
        Err(Error::Uiaa(info)) => info,
        _ => panic!("no auth challenge"),
    };
    assert_eq!(info.flows, vec![vec!["m.login.dummy".to_owned()]]);
    assert!(info.completed.is_empty());
    let session = info.session.clone().unwrap();
    assert_eq!(session.len(), 256);
    assert!(!db.users.exists_user("@alice:example.org"));
    let stored = db.uiaa.get_uiaa_session("@alice:example.org", "", &session).unwrap();
    assert_eq!(stored.flows, info.flows);
    body.auth = Some(dummy_auth(Some(session.clone())));
    let response = register_route(&mut db, &body).unwrap();
    assert_eq!(response.user_id, "@alice:example.org");
    assert!(db.uiaa.get_uiaa_session("@alice:example.org", "", &session).is_err());
}

#[test]
fn registration_with_the_wrong_stage_is_challenged() {
    let mut db = new_database();
    let mut body = request("alice", "pw");
    body.auth = Some(password_auth(None, "alice", "pw"));
    let info = match register_route(&mut db, &body) {
        Err(Error::Uiaa(info)) => info,
        _ => panic!("no auth challenge"),
    };
    assert_eq!(
        info.auth_error,
        Some((ErrorKind::Unrecognized, "Authentication stage not recognized."))
    );
    assert!(!db.users.exists_user("@alice:example.org"));
}

#[test]
fn registration_can_inhibit_login() {
    let mut db = new_database();
    let mut body = request("alice", "pw");
    body.inhibit_login = true;
    let response = register_route(&mut db, &body).unwrap();
    assert_eq!(response.access_token, None);
    assert_eq!(response.device_id, None);
    assert!(db.users.exists_user("@alice:example.org"));
    assert_eq!(db.users.all_device_ids("@alice:example.org").unwrap(), Vec::<String>::new());
}

#[test]
fn registration_keeps_the_chosen_device() {
    let mut db = new_database();
    let mut body = request("alice", "pw");
    body.device_id = Some("MYPHONE".to_owned());
    body.initial_device_display_name = Some("My phone".to_owned());
    let response = register_route(&mut db, &body).unwrap();
    assert_eq!(response.device_id, Some("MYPHONE".to_owned()));
    assert_eq!(
        db.users.userdeviceid_metadata.get(b"@alice:example.org\xffMYPHONE"),
        Some(b"My phone".to_vec())
    );
}

#[test]
fn guests_get_a_random_name_and_no_password() {
    let mut db = new_database();
    let mut body = request("ignored", "ignored");
    body.is_guest = true;
    body.device_id = Some("IGNORED".to_owned());
    let response = register_route(&mut db, &body).unwrap();
    assert_eq!(response.user_id.len(), "@:example.org".len() + 10);
    assert!(response.user_id.ends_with(":example.org"));
    assert_eq!(response.device_id.unwrap().len(), 10);
    assert!(db.users.is_deactivated(&response.user_id).unwrap());
}

#[test]
fn a_new_account_has_push_rules() {
    let mut db = new_database();
    register_route(&mut db, &request("alice", "pw")).unwrap();
    assert_eq!(
        get_pushrules_all_route(&db, "@alice:example.org").unwrap(),
        b"{\"content\":{\"global\":{}},\"type\":\"m.push_rules\"}".to_vec()
    );
    match get_pushrules_all_route(&db, "@bob:example.org") {
        Err(Error::BadRequest(ErrorKind::NotFound, message)) => {
            assert_eq!(message, "PushRules event not found.")
        }
        _ => panic!("push rules of nobody were found"),
    }
}

#[test]
fn password_change() {
    let mut db = new_database();
    let mut body = request("alice", "s3cret");
    body.device_id = Some("CURRENT".to_owned());
    let token = register_route(&mut db, &body).unwrap().access_token.unwrap();
    db.users.create_device("@alice:example.org", "OTHER", "other-token", b"");
    db.users.create_device("@alice:example.org", "THIRD", "third-token", b"");

    let info = challenge(change_password_route(
        &mut db,
        "@alice:example.org",
        "CURRENT",
        "n3w",
        &None,
    ));
    assert_eq!(info.flows, vec![vec!["m.login.password".to_owned()]]);
    let session = info.session.unwrap();
    assert_eq!(session.len(), 256);
    assert_eq!(db.users.all_device_ids("@alice:example.org").unwrap().len(), 3);

    let wrong = challenge(change_password_route(
        &mut db,
        "@alice:example.org",
        "CURRENT",
        "n3w",
        &Some(password_auth(Some(session.clone()), "alice", "wrong")),
    ));
    assert_eq!(wrong.auth_error, Some((ErrorKind::Forbidden, "Invalid username or password.")));
    assert_eq!(db.users.all_device_ids("@alice:example.org").unwrap().len(), 3);

    change_password_route(
        &mut db,
        "@alice:example.org",
        "CURRENT",
        "n3w",
        &Some(password_auth(Some(session), "alice", "s3cret")),
    )
    .unwrap();
    assert_eq!(
        db.users.all_device_ids("@alice:example.org").unwrap(),
        vec!["CURRENT".to_owned()]
    );
    assert_eq!(db.users.find_from_token("other-token").unwrap(), None);
    assert_eq!(db.users.find_from_token("third-token").unwrap(), None);
    assert_eq!(
        db.users.find_from_token(&token).unwrap(),
        Some(("@alice:example.org".to_owned(), "CURRENT".to_owned()))
    );
    let hash = db.users.password_hash("@alice:example.org").unwrap().unwrap();
    assert!(argon2::verify_encoded(&hash, b"n3w").unwrap());
    assert!(!argon2::verify_encoded(&hash, b"s3cret").unwrap());
}

#[test]
fn an_unknown_auth_session_is_refused() {
    let mut db = new_database();
    register_route(&mut db, &request("alice", "pw")).unwrap();
    match change_password_route(
        &mut db,
        "@alice:example.org",
        "DEVICE",
        "new",
        &Some(password_auth(Some("unknown".to_owned()), "alice", "pw")),
    ) {
        Err(Error::BadRequest(ErrorKind::Forbidden, message)) => {
            assert_eq!(message, "UIAA session does not exist.")
        }
        _ => panic!("an unknown session was used"),
    }
}

#[test]
fn the_password_stage_wants_user_and_password() {
    let mut db = new_database();
    register_route(&mut db, &request("alice", "pw")).unwrap();
    let mut auth = password_auth(None, "alice", "pw");
    auth.user = None;
    match change_password_route(&mut db, "@alice:example.org", "D", "new", &Some(auth)) {
        Err(Error::BadRequest(ErrorKind::MissingParam, message)) => {
            assert_eq!(message, "Identifier needs user field.")
        }
        _ => panic!("an attempt without user was judged"),
    }
    let mut auth = password_auth(None, "alice", "pw");
    auth.password = None;
    match change_password_route(&mut db, "@alice:example.org", "D", "new", &Some(auth)) {
        Err(Error::BadRequest(ErrorKind::MissingParam, message)) => {
            assert_eq!(message, "Password is missing.")
        }
        _ => panic!("an attempt without password was judged"),
    }
    let auth = password_auth(None, "@alice", "pw");
    match change_password_route(&mut db, "@alice:example.org", "D", "new", &Some(auth)) {
        Err(Error::BadRequest(ErrorKind::InvalidParam, message)) => {
            assert_eq!(message, "User ID is invalid.")
        }
        _ => panic!("an attempt with a broken name was judged"),
    }
}

#[test]
fn deactivation_leaves_every_room() {
    let mut db = new_database();
    let mut body = request("alice", "s3cret");
    body.device_id = Some("PHONE".to_owned());
    let token = register_route(&mut db, &body).unwrap().access_token.unwrap();
    let alice = "@alice:example.org";
    for (room, state) in [
        ("!a:example.org", MembershipState::Join),
        ("!b:example.org", MembershipState::Invite),
        ("!c:example.org", MembershipState::Leave),
        ("!d:example.org", MembershipState::Join),
    ] {
        db.rooms.membership.update_membership(room, alice, state, b"[]", &mut db.globals).unwrap();
    }
    let rooms = rooms_to_leave_of(&db, alice).unwrap();
    assert_eq!(
        rooms,
        vec!["!a:example.org".to_owned(), "!d:example.org".to_owned(), "!b:example.org".to_owned()]
    );
    // A leave event for two of the three rooms only: the third is left all the same.
    let leaves: Vec<LeaveEvent> = rooms[..2]
        .iter()
        .enumerate()
        .map(|(i, room)| LeaveEvent {
            room_id: room.clone(),
            event_id: format!("$leave{}", i),
            pdu_json: b"{}".to_vec(),
        })
        .collect();
    let info = challenge(deactivate_route(&mut db, alice, "PHONE", &None, &leaves));
    assert_eq!(info.flows, vec![vec!["m.login.password".to_owned()]]);
    assert!(info.completed.is_empty());
    assert_eq!(db.rooms.membership.rooms_joined(alice).unwrap().len(), 2);
    assert!(!db.users.is_deactivated(alice).unwrap());
    deactivate_route(
        &mut db,
        alice,
        "PHONE",
        &Some(password_auth(info.session, "alice", "s3cret")),
        &leaves,
    )
    .unwrap();
    assert!(db.rooms.membership.rooms_joined(alice).unwrap().is_empty());
    assert!(db.rooms.membership.rooms_invited(alice).unwrap().is_empty());
    for room in ["!a:example.org", "!b:example.org", "!c:example.org", "!d:example.org"] {
        let place = [alice.as_bytes(), b"\xff", room.as_bytes()].concat();
        assert!(db.rooms.membership.userroomid_leftstate.get(&place).is_some());
        assert!(db.rooms.membership.userroomid_joined.get(&place).is_none());
        assert!(db.rooms.membership.userroomid_invitestate.get(&place).is_none());
    }
    // The leave events stand in their rooms.
    assert!(db.rooms.timeline.eventid_pduid.get(b"$leave0").is_some());
    assert!(db.rooms.timeline.eventid_pduid.get(b"$leave1").is_some());
    assert_eq!(db.rooms.timeline.pduid_pdu.len(), 2);
    assert!(db.users.is_deactivated(alice).unwrap());
    assert_eq!(db.users.find_from_token(&token).unwrap(), None);
    assert!(db.users.all_device_ids(alice).unwrap().is_empty());
}

#[test]
fn deactivation_stops_at_an_unreadable_counter() {
    let mut db = new_database();
    register_route(&mut db, &request("frank", "pw")).unwrap();
    let frank = "@frank:example.org";
    db.rooms
        .membership
        .update_membership("!a:example.org", frank, MembershipState::Join, b"", &mut db.globals)
        .unwrap();
    db.globals.globals.insert(b"c", b"broken");
    let auth = Some(password_auth(None, "frank", "pw"));
    match deactivate_route(&mut db, frank, "D", &auth, &Vec::new()) {
        Err(Error::BadDatabase(message)) => assert_eq!(message, "Count has invalid bytes."),
        _ => panic!("an unreadable counter was counted on"),
    }
    assert_eq!(db.rooms.membership.rooms_joined(frank).unwrap().len(), 1);
    assert!(!db.users.is_deactivated(frank).unwrap());
}

#[test]
fn whoami_names_the_sender() {
    assert_eq!(whoami_route("@alice:example.org"), "@alice:example.org");
}

#[test]
fn tokens_are_taken_from_header_or_query() {
    assert_eq!(bearer_token(Some("Bearer abc"), Some("query")), Some("abc".to_owned()));
    assert_eq!(bearer_token(Some("Bearer "), None), Some(String::new()));
    assert_eq!(bearer_token(Some("Bear"), Some("query")), None);
    assert_eq!(bearer_token(Some("Bearerü token"), None), None);
    assert_eq!(bearer_token(None, Some("query")), Some("query".to_owned()));
    assert_eq!(bearer_token(None, None), None);
}

#[test]
fn requests_act_for_the_owner_of_their_token() {
    let mut db = new_database();
    let response = register_route(&mut db, &request("alice", "pw")).unwrap();
    let token = response.access_token.unwrap();
    let header = format!("Bearer {}", token);
    assert_eq!(
        authenticate(&db, Some(&header), None).unwrap(),
        Some(("@alice:example.org".to_owned(), response.device_id.unwrap()))
    );
    assert_eq!(authenticate(&db, Some("Bearer unknown"), None).unwrap(), None);
    assert_eq!(authenticate(&db, None, None).unwrap(), None);
}

#[test]
fn registration_with_broken_push_rules_is_rejected() {
    let mut db = new_database();
    let mut body = request("carol", "pw");
    body.push_rules = "{\"content\":{}}".to_owned();
    match register_route(&mut db, &body) {
        Err(Error::BadRequest(ErrorKind::InvalidParam, message)) => {
            assert_eq!(message, "Account data doesn't have all required fields.")
        }
        _ => panic!("push rules without a type were stored"),
    }
}

#[test]
fn a_completed_auth_session_is_closed() {
    let mut db = new_database();
    register_route(&mut db, &request("dave", "pw")).unwrap();
    let info = challenge(change_password_route(&mut db, "@dave:example.org", "D", "new", &None));
    let session = info.session.unwrap();
    let auth = Some(password_auth(Some(session), "dave", "pw"));
    change_password_route(&mut db, "@dave:example.org", "D", "new", &auth).unwrap();
    match change_password_route(&mut db, "@dave:example.org", "D", "newer", &auth) {
        Err(Error::BadRequest(ErrorKind::Forbidden, message)) => {
            assert_eq!(message, "UIAA session does not exist.")
        }
        _ => panic!("a closed session was used again"),
    }
    let hash = db.users.password_hash("@dave:example.org").unwrap().unwrap();
    assert!(argon2::verify_encoded(&hash, b"new").unwrap());
}

#[test]
fn deactivation_wants_the_password() {
    let mut db = new_database();
    register_route(&mut db, &request("erin", "pw")).unwrap();
    let wrong = Some(password_auth(None, "erin", "guess"));
    match deactivate_route(&mut db, "@erin:example.org", "D", &wrong, &Vec::new()) {
        Err(Error::Uiaa(info)) => {
            assert_eq!(
                info.auth_error,
                Some((ErrorKind::Forbidden, "Invalid username or password."))
            );
            assert!(info.completed.is_empty());
        }
        _ => panic!("a wrong password was let through"),
    }
    let right = Some(password_auth(None, "erin", "pw"));
    assert!(!db.users.is_deactivated("@erin:example.org").unwrap());
    deactivate_route(&mut db, "@erin:example.org", "D", &right, &Vec::new()).unwrap();
    assert!(db.users.is_deactivated("@erin:example.org").unwrap());
}

#[test]
fn registration_hands_out_a_login() {
    let mut db = new_database();
    let response = register_route(&mut db, &request("gina", "pw")).unwrap();
    assert!(response.access_token.is_some());
    assert!(response.device_id.is_some());
    let mut body = request("guest", "pw");
    body.is_guest = true;
    body.inhibit_login = true;
    let response = register_route(&mut db, &body).unwrap();
    assert!(response.access_token.is_some());
}

#[test]
fn registration_stops_at_an_unreadable_counter() {
    let mut db = new_database();
    db.globals.globals.insert(b"c", b"broken");
    match register_route(&mut db, &request("hank", "pw")) {
        Err(Error::BadDatabase(message)) => assert_eq!(message, "Count has invalid bytes."),
        _ => panic!("an unreadable counter was counted on"),
    }
    assert!(!db.users.exists_user("@hank:example.org"));
}
