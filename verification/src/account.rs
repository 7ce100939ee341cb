//! Accounts as the client API sees them: registering, changing the
//! password, deactivating.
//!
//! Each function here decides what a request comes to and changes the
//! tables accordingly; reading the request and writing the response is left
//! to whoever calls it.

use crate::database::Database;
use crate::error::{Error, ErrorKind};
use crate::events::{append_pdu, done, PduBuilder};
use crate::membership::MembershipState;
use crate::state_diff::new_state_cache;
use crate::globals::{count_of, counter_readable, is_count_fault};
use crate::ids::{local_user, local_user_id, lowercased, parsed_user_id, to_lowercase};
use crate::uiaa::{
    attempt_completes, attempt_refused, attempt_stored, AuthData, UiaaInfo, UiaaInfoView, SESSION_ID_LENGTH,
};
use crate::tree::{listing, remove_all, with_prefix};
use crate::users::{
    device_key, device_keys, holds_hash_of, last_fields, other_ids, tokens_dropped, user_prefix,
};
use crate::utils::{is_random_string, random_string, str_eq};
use vstd::prelude::*;
use vstd::utf8::*;

verus! {

/// The length of the name that a guest is given.
pub const GUEST_NAME_LENGTH: usize = 10;

/// The length of a device id that the server makes up.
pub const DEVICE_ID_LENGTH: usize = 10;

/// The length of an access token.
pub const TOKEN_LENGTH: usize = 256;

/// What a client asks for when it registers.
pub struct RegisterRequest {
    /// The wanted user name; a guest has none.
    pub username: Option<String>,
    pub password: Option<String>,
    /// The id of the device to log in, if the client has chosen one.
    pub device_id: Option<String>,
    pub initial_device_display_name: Option<String>,
    /// Whether to register without logging in.
    pub inhibit_login: bool,
    /// Whether a guest registers.
    pub is_guest: bool,
    /// The client's attempt at the auth stage, if it makes one.
    pub auth: Option<AuthData>,
    /// The push rules that a new account starts with, as a JSON event.
    pub push_rules: String,
}

/// What a client is told when it has registered.
pub struct RegisterResponse {
    pub access_token: Option<String>,
    pub user_id: String,
    pub device_id: Option<String>,
}

/// The flows a session of one stage offers.
pub open spec fn single_stage(stage: Seq<char>) -> Seq<Seq<Seq<char>>> {
    seq![seq![stage]]
}

/// The auth session that a request starts from: one flow of one stage,
/// nothing completed.
pub fn single_stage_info(stage: &str) -> (r: UiaaInfo)
    ensures
        r@.flows == single_stage(stage@),
        r@.completed.len() == 0,
        r@.session is None,
        r@.params == "{}"@,
        r@.auth_error is None,
{
    let mut stages: Vec<String> = Vec::new();
    stages.push(stage.to_owned());
    let mut flows: Vec<Vec<String>> = Vec::new();
    flows.push(stages);
    let r = UiaaInfo {
        flows,
        completed: Vec::new(),
        session: None,
        params: "{}".to_owned(),
        auth_error: None,
    };
    proof {
        assert(crate::config::strings_view(r.flows@[0]@) =~= seq![stage@]);
        assert(r@.flows =~= single_stage(stage@));
        assert(r@.completed =~= Seq::empty());
    }
    r
}

/// Whether the name is free, as the availability check puts it.
pub open spec fn availability(db: Database, username: Seq<char>) -> Result<bool, Error> {
    match local_user(
        parsed_user_id(username, db.globals.config.server_name@),
        db.globals.config.server_name@,
    ) {
        None => Err(Error::BadRequest(ErrorKind::InvalidUsername, "Username is invalid.")),
        Some(id) => if db.users.userid_password@.contains_key(encode_utf8(id)) {
            Err(Error::BadRequest(ErrorKind::UserInUse, "Desired user ID is already taken."))
        } else {
            Ok(true)
        },
    }
}

/// # `GET /_matrix/client/r0/register/available`
///
/// Checks if a username is valid and available on this server.
///
/// - Returns true if no user on this server claimed this username
/// - This will not reserve the username, so the username might become
///   invalid when trying to register
pub fn get_register_available_route(db: &Database, username: &str) -> (r: Result<bool, Error>)
    requires
        db.wf(),
    ensures
        r == availability(*db, username@),
{
    // Validate user id
    let user_id = match local_user_id(username, db.globals.server_name()) {
        Ok(user_id) => user_id,
        Err(e) => {
            return Err(e);
        },
    };
    // Check if username is creative enough
    if db.users.exists_user(user_id.as_str()) {
        return Err(
            Error::BadRequest(ErrorKind::UserInUse, "Desired user ID is already taken."),
        );
    }
    // If no if check is true we have an username that's available to be used.
    Ok(true)
}

/// The auth session that a request of one stage starts from, as plain
/// values.
pub open spec fn single_stage_start(stage: Seq<char>) -> UiaaInfoView {
    UiaaInfoView {
        flows: single_stage(stage),
        completed: Seq::empty(),
        session: None,
        params: "{}"@,
        auth_error: None,
    }
}

/// Whether a request passes user-interactive auth with a single stage: it
/// makes an attempt, and the attempt completes its session.
pub open spec fn passes_auth(
    db: Database,
    user_id: Seq<char>,
    device_id: Seq<char>,
    auth: Option<AuthData>,
    stage: Seq<char>,
) -> bool {
    match auth {
        None => false,
        Some(attempt) => attempt_completes(
            db.uiaa.view(),
            user_id,
            device_id,
            attempt,
            single_stage_start(stage),
            db.globals.config.server_name@,
            db.users.userid_password@,
        ),
    }
}

/// What a request without an attempt is answered: the auth challenge with
/// the one flow of the one stage, nothing completed, under a session id of
/// fresh random characters, and the session is stored.
pub open spec fn challenged(
    after: Database,
    before: Database,
    user_id: Seq<char>,
    device_id: Seq<char>,
    stage: Seq<char>,
    e: Error,
) -> bool {
    match e {
        Error::Uiaa(info) => info@.flows == single_stage(stage) && info@.completed.len() == 0
            && info@.params == "{}"@ && info@.auth_error is None && info@.session is Some
            && is_random_string(
            info@.session->Some_0,
            SESSION_ID_LENGTH as nat,
        ) && after.uiaa.view() == before.uiaa.view().insert(
            (user_id, device_id, info@.session->Some_0),
            info@,
        ),
        _ => false,
    }
}

/// Runs one request through user-interactive auth with a single stage. The
/// request goes on where its attempt completes the session. A request
/// without an attempt starts a session under a fresh random id, and a
/// request whose attempt does not complete its session is told what the
/// session has come to: both are answered with the auth challenge.
pub fn authorize(
    db: &mut Database,
    user_id: &str,
    device_id: &str,
    auth: &Option<AuthData>,
    stage: &str,
) -> (r: Result<(), Error>)
    requires
        old(db).wf(),
    ensures
        final(db).wf(),
        final(db).globals == old(db).globals,
        final(db).users == old(db).users,
        final(db).user_keys == old(db).user_keys,
        final(db).rooms == old(db).rooms,
        final(db).account_data == old(db).account_data,
        final(db).media == old(db).media,
        auth is None ==> (r matches Err(Error::Uiaa(info)) && info@.flows == single_stage(stage@)
            && info@.completed.len() == 0 && info@.session is Some && is_random_string(
            info@.session->Some_0,
            SESSION_ID_LENGTH as nat,
        ) && final(db).uiaa.view() == old(db).uiaa.view().insert(
            (user_id@, device_id@, info@.session->Some_0),
            info@,
        )),
        auth is None ==> match r {
            Err(e) => challenged(*final(db), *old(db), user_id@, device_id@, stage@, e),
            Ok(_) => false,
        },
        r is Ok <==> passes_auth(*old(db), user_id@, device_id@, *auth, stage@),
        match (r, auth) {
            (Err(e), Some(attempt)) => attempt_refused(
                old(db).uiaa.view(),
                user_id@,
                device_id@,
                *attempt,
                single_stage_start(stage@),
                old(db).globals.config.server_name@,
                old(db).users.userid_password@,
                e,
            ),
            _ => true,
        },
        auth matches Some(attempt) ==> attempt_stored(
            final(db).uiaa.view(),
            old(db).uiaa.view(),
            user_id@,
            device_id@,
            *attempt,
            single_stage_start(stage@),
            old(db).globals.config.server_name@,
            old(db).users.userid_password@,
            r,
        ),
{
    let mut uiaainfo = single_stage_info(stage);
    assert(uiaainfo@ =~= single_stage_start(stage@)) by {
        assert(uiaainfo@.completed =~= Seq::empty());
    }
    match auth {
        Some(auth) => {
            match db.uiaa.try_auth(user_id, device_id, auth, &uiaainfo, &db.users, &db.globals) {
                Ok((worked, uiaainfo)) => {
                    if !worked {
                        return Err(Error::Uiaa(uiaainfo));
                    }
                    // Success!
                    proof {
                        let session = uiaainfo@.session->Some_0;
                        let gone = old(db).uiaa.view().remove((user_id@, device_id@, session));
                        assert(db.uiaa.view() == gone);
                    }
                    Ok(())
                },
                Err(e) => Err(e),
            }
        },
        None => {
            uiaainfo.session = Some(random_string(SESSION_ID_LENGTH));
            db.uiaa.create(user_id, device_id, &uiaainfo);
            Err(Error::Uiaa(uiaainfo))
        },
    }
}

/// Whether the password, if there is one, is short enough to be hashed.
pub open spec fn hashable(password: Option<Seq<char>>) -> bool {
    match password {
        Some(p) => encode_utf8(p).len() <= u32::MAX,
        None => true,
    }
}

/// What a request that did not pass user-interactive auth is answered: the
/// auth challenge, or the error that stopped its attempt.
pub open spec fn auth_refused(
    db: Database,
    user_id: Seq<char>,
    device_id: Seq<char>,
    auth: Option<AuthData>,
    stage: Seq<char>,
    r: Result<(), Error>,
) -> bool {
    match r {
        Ok(_) => false,
        Err(e) => match auth {
            None => e is Uiaa,
            Some(attempt) => attempt_refused(
                db.uiaa.view(),
                user_id,
                device_id,
                attempt,
                single_stage_start(stage),
                db.globals.config.server_name@,
                db.users.userid_password@,
                e,
            ),
        },
    }
}

/// The name that a request registers: for a user the wanted name in lower
/// case, which must be given.
pub open spec fn wanted_user(body: RegisterRequest, server_name: Seq<char>) -> Result<
    Seq<char>,
    Error,
> {
    match body.username {
        None => Err(Error::BadRequest(ErrorKind::MissingParam, "Missing username field.")),
        Some(name) => match local_user(
            parsed_user_id(lowercased(name@), server_name),
            server_name,
        ) {
            None => Err(Error::BadRequest(ErrorKind::InvalidUsername, "Username is invalid.")),
            Some(id) => Ok(id),
        },
    }
}

/// # `POST /_matrix/client/r0/register`
///
/// Register an account on this homeserver.
///
/// - Returns the device id and access_token unless `inhibit_login` is true
/// - When registering a guest account, all parameters except
///   initial_device_display_name will be ignored
/// - Creates a new account and a device for it
/// - The account will be populated with default account data
///
/// A counter that cannot be read is reported before anything is changed.
pub fn register_route(db: &mut Database, body: &RegisterRequest) -> (r: Result<
    RegisterResponse,
    Error,
>)
    requires
        old(db).wf(),
        count_of(old(db).globals.globals@) < u64::MAX,
    ensures
        final(db).wf(),
        counter_readable(old(db).globals.globals@) ==> (final(db).rooms == old(db).rooms),
        counter_readable(old(db).globals.globals@) ==> (final(db).media == old(db).media),
        counter_readable(old(db).globals.globals@) ==> (final(db).user_keys == old(db).user_keys),
        counter_readable(old(db).globals.globals@) ==> (old(db).users.tokens_consistent() ==> final(db).users.tokens_consistent()),
        counter_readable(old(db).globals.globals@) ==> (!old(db).globals.config.allow_registration ==> *final(db) == *old(db) && r == Err::<
            RegisterResponse,
            Error,
        >(Error::BadRequest(ErrorKind::Forbidden, "Registration has been disabled."))),
        counter_readable(old(db).globals.globals@) ==> (old(db).globals.config.allow_registration && !body.is_guest ==> match wanted_user(
            *body,
            old(db).globals.config.server_name@,
        ) {
            Err(e) => *final(db) == *old(db) && r == Err::<RegisterResponse, Error>(e),
            Ok(id) => if old(db).users.userid_password@.contains_key(encode_utf8(id)) {
                *final(db) == *old(db) && r == Err::<RegisterResponse, Error>(
                    Error::BadRequest(
                        ErrorKind::UserInUse,
                        "Desired user ID is already taken.",
                    ),
                )
            } else {
                r matches Ok(response) ==> response.user_id@ == id
            },
        }),
        counter_readable(old(db).globals.globals@) ==> (r matches Err(Error::Uiaa(_)) ==> final(db).users == old(db).users
            && final(db).account_data == old(db).account_data
            && final(db).globals == old(db).globals),
        counter_readable(old(db).globals.globals@) ==> (({
            let wanted = wanted_user(*body, old(db).globals.config.server_name@);
            let passed = passes_auth(*old(db), wanted->Ok_0, ""@, body.auth, "m.login.dummy"@);
            let hashed = hashable(crate::uiaa::text_of(body.password));
            let stored = crate::account_data::storable(body.push_rules@);
            old(db).globals.config.allow_registration && !body.is_guest && wanted is Ok
                && !old(db).users.userid_password@.contains_key(encode_utf8(wanted->Ok_0)) ==> {
                &&& (passed && hashed && stored ==> r is Ok)
                &&& (r is Ok ==> passed && stored)
                &&& (!passed ==> auth_refused(
                    *old(db),
                    wanted->Ok_0,
                    ""@,
                    body.auth,
                    "m.login.dummy"@,
                    done(r),
                ))
                &&& (passed && hashed && !stored ==> r == Err::<RegisterResponse, Error>(
                    Error::BadRequest(
                        ErrorKind::InvalidParam,
                        "Account data doesn't have all required fields.",
                    ),
                ))
            }
        })),
        counter_readable(old(db).globals.globals@) ==> (r matches Ok(response) ==> {
            &&& !old(db).users.userid_password@.contains_key(encode_utf8(response.user_id@))
            &&& final(db).users.userid_password@.contains_key(encode_utf8(response.user_id@))
            &&& match body.password {
                Some(password) if !body.is_guest => holds_hash_of(
                    final(db).users.userid_password@[encode_utf8(response.user_id@)],
                    password@,
                ),
                _ => final(db).users.userid_password@[encode_utf8(response.user_id@)]
                    == Seq::<u8>::empty(),
            }
            &&& final(db).account_data.roomuserdataid_accountdata@ == crate::account_data::updated(
                old(db).account_data.roomuserdataid_accountdata@,
                None,
                response.user_id@,
                "m.push_rules"@,
                count_of(old(db).globals.globals@) + 1,
                body.push_rules@,
            )
            &&& count_of(final(db).globals.globals@) == count_of(old(db).globals.globals@) + 1
            &&& response.access_token is Some == response.device_id is Some
            &&& !body.is_guest
                && body.inhibit_login ==> response.access_token is None
                && final(db).users.token_userdeviceid == old(db).users.token_userdeviceid
            &&& response.access_token matches Some(token) ==> {
                &&& is_random_string(token@, TOKEN_LENGTH as nat)
                &&& (!body.is_guest && body.device_id is Some ==> response.device_id
                    == body.device_id)
                &&& (body.is_guest || body.device_id is None ==> is_random_string(
                    response.device_id->Some_0@,
                    DEVICE_ID_LENGTH as nat,
                ))
                &&& final(db).users.token_userdeviceid@.contains_key(encode_utf8(token@))
                &&& final(db).users.token_userdeviceid@[encode_utf8(token@)] == device_key(
                    response.user_id@,
                    response.device_id->Some_0@,
                )
            }
        }),
        counter_readable(old(db).globals.globals@) ==> ({
            let wanted = wanted_user(*body, old(db).globals.config.server_name@);
            old(db).globals.config.allow_registration && !body.is_guest && wanted is Ok
                && !old(db).users.userid_password@.contains_key(encode_utf8(wanted->Ok_0))
                && body.auth is None ==> match r {
                Err(e) => challenged(*final(db), *old(db), wanted->Ok_0, ""@, "m.login.dummy"@, e)
                    && final(db).users == old(db).users,
                Ok(_) => false,
            }
        }),
        counter_readable(old(db).globals.globals@) ==> (match r {
            Ok(response) => body.is_guest || !body.inhibit_login ==> response.access_token is Some
                && response.device_id is Some,
            Err(_) => true,
        }),
        !counter_readable(old(db).globals.globals@) ==> (is_count_fault(r) && *final(db) == *old(db)),
{
    if !db.globals.counter_is_readable() {
        return Err(Error::bad_database("Count has invalid bytes."));
    }
    if !db.globals.allow_registration() {
        return Err(Error::BadRequest(ErrorKind::Forbidden, "Registration has been disabled."));
    }
    let is_guest = body.is_guest;
    // Validate user id
    let name = if is_guest {
        random_string(GUEST_NAME_LENGTH)
    } else {
        match &body.username {
            Some(name) => name.clone(),
            None => {
                return Err(
                    Error::BadRequest(ErrorKind::MissingParam, "Missing username field."),
                );
            },
        }
    };
    let user_id = match local_user_id(to_lowercase(name.as_str()).as_str(), db.globals.server_name()) {
        Ok(user_id) => user_id,
        Err(e) => {
            return Err(e);
        },
    };
    // Check if username is creative enough
    if db.users.exists_user(user_id.as_str()) {
        return Err(
            Error::BadRequest(ErrorKind::UserInUse, "Desired user ID is already taken."),
        );
    }
    // UIAA
    match authorize(db, user_id.as_str(), "", &body.auth, "m.login.dummy") {
        Ok(()) => {},
        Err(e) => {
            return Err(e);
        },
    }
    // Create user
    let created = match &body.password {
        Some(password) => if is_guest {
            db.users.create(user_id.as_str(), None)
        } else {
            db.users.create(user_id.as_str(), Some(password.as_str()))
        },
        None => db.users.create(user_id.as_str(), None),
    };
    match created {
        Ok(()) => {},
        Err(e) => {
            return Err(e);
        },
    }
    // Initial data
    match db.account_data.update(
        None,
        user_id.as_str(),
        "m.push_rules",
        body.push_rules.as_str(),
        &mut db.globals,
    ) {
        Ok(()) => {},
        Err(e) => {
            return Err(e);
        },
    }
    if !is_guest && body.inhibit_login {
        return Ok(RegisterResponse { access_token: None, user_id, device_id: None });
    }
    // Generate new device id if the user didn't specify one
    let device_id = if is_guest {
        random_string(DEVICE_ID_LENGTH)
    } else {
        match &body.device_id {
            Some(device_id) => device_id.clone(),
            None => random_string(DEVICE_ID_LENGTH),
        }
    };
    // Generate new token for the device
    let token = random_string(TOKEN_LENGTH);
    // Add device
    let display_name: Vec<u8> = match &body.initial_device_display_name {
        Some(name) => crate::utils::to_vec(name.as_str().as_bytes()),
        None => Vec::new(),
    };
    db.users.create_device(
        user_id.as_str(),
        device_id.as_str(),
        token.as_str(),
        display_name.as_slice(),
    );
    Ok(RegisterResponse { access_token: Some(token), user_id, device_id: Some(device_id) })
}

/// # `GET _matrix/client/r0/account/whoami`
///
/// Get user_id of this account.
pub fn whoami_route(sender_id: &str) -> (r: String)
    ensures
        r@ == sender_id@,
{
    sender_id.to_owned()
}


/// # `POST /_matrix/client/r0/account/password`
///
/// Changes the password of this account.
///
/// - Requires the password stage of user-interactive auth
/// - Invalidates all other access tokens
/// - Deletes all other devices and most of their data (to-device events,
///   last seen, etc.)
pub fn change_password_route(
    db: &mut Database,
    sender_id: &str,
    device_id: &str,
    new_password: &str,
    auth: &Option<AuthData>,
) -> (r: Result<(), Error>)
    requires
        old(db).wf(),
    ensures
        final(db).wf(),
        final(db).globals == old(db).globals,
        final(db).user_keys == old(db).user_keys,
        final(db).rooms == old(db).rooms,
        final(db).account_data == old(db).account_data,
        final(db).media == old(db).media,
        old(db).users.tokens_consistent() ==> final(db).users.tokens_consistent(),
        auth is None ==> final(db).users == old(db).users && r matches Err(Error::Uiaa(_)),
        auth is None ==> match r {
            Err(e) => challenged(*final(db), *old(db), sender_id@, device_id@, "m.login.password"@, e),
            Ok(_) => false,
        },
        r matches Err(Error::Uiaa(_)) ==> final(db).users == old(db).users,
        ({
            let passed = passes_auth(*old(db), sender_id@, device_id@, *auth, "m.login.password"@);
            &&& (passed && hashable(Some(new_password@)) ==> r is Ok)
            &&& (r is Ok ==> passed)
            &&& (!passed ==> final(db).users == old(db).users && auth_refused(
                *old(db),
                sender_id@,
                device_id@,
                *auth,
                "m.login.password"@,
                r,
            ))
        }),
        r is Ok ==> {
            let others = other_ids(
                listing(
                    old(db).users.userdeviceid_metadata@,
                    with_prefix(user_prefix(sender_id@)),
                ),
                device_id@,
            );
            &&& final(db).users.userid_password@.contains_key(encode_utf8(sender_id@))
            &&& holds_hash_of(
                final(db).users.userid_password@[encode_utf8(sender_id@)],
                new_password@,
            )
            &&& (final(db).users.token_userdeviceid@, final(db).users.userdeviceid_token@)
                == tokens_dropped(
                old(db).users.token_userdeviceid@,
                old(db).users.userdeviceid_token@,
                sender_id@,
                others,
            )
            &&& final(db).users.userdeviceid_metadata@ == remove_all(
                old(db).users.userdeviceid_metadata@,
                device_keys(sender_id@, others),
            )
        },
{
    match authorize(db, sender_id, device_id, auth, "m.login.password") {
        Ok(()) => {},
        Err(e) => {
            return Err(e);
        },
    }
    match db.users.set_password(sender_id, Some(new_password)) {
        Ok(()) => {},
        Err(e) => {
            return Err(e);
        },
    }
    // Logout all devices except the current one
    let others = db.users.other_device_ids(sender_id, device_id);
    db.users.remove_devices(sender_id, &others);
    Ok(())
}

/// The rooms that an account must leave before it is deactivated: those
/// it is joined to, then those it is invited to.
pub open spec fn rooms_to_leave(db: Database, user_id: Seq<char>) -> Result<Seq<Seq<char>>, Error> {
    match last_fields(
        listing(db.rooms.membership.userroomid_joined@, with_prefix(user_prefix(user_id))),
    ) {
        None => Err(Error::BadDatabase("Room ID in userroomid_joined is invalid.")),
        Some(joined) => match last_fields(
            listing(db.rooms.membership.userroomid_invitestate@, with_prefix(user_prefix(user_id))),
        ) {
            None => Err(Error::BadDatabase("Room ID in userroomid_invitestate is invalid.")),
            Some(invited) => Ok(joined + invited),
        },
    }
}

/// The rooms that the account must leave: those it is joined to, then
/// those it is invited to.
pub fn rooms_to_leave_of(db: &Database, user_id: &str) -> (r: Result<Vec<String>, Error>)
    requires
        db.wf(),
    ensures
        match r {
            Ok(rooms) => rooms_to_leave(*db, user_id@) == Ok::<Seq<Seq<char>>, Error>(
                crate::config::strings_view(rooms@),
            ),
            Err(e) => rooms_to_leave(*db, user_id@) == Err::<Seq<Seq<char>>, Error>(e),
        },
{
    let mut rooms = match db.rooms.membership.rooms_joined(user_id) {
        Some(rooms) => rooms,
        None => {
            return Err(Error::bad_database("Room ID in userroomid_joined is invalid."));
        },
    };
    let mut invited = match db.rooms.membership.rooms_invited(user_id) {
        Some(rooms) => rooms,
        None => {
            return Err(Error::bad_database("Room ID in userroomid_invitestate is invalid."));
        },
    };
    let ghost joined_view = crate::config::strings_view(rooms@);
    let ghost invited_view = crate::config::strings_view(invited@);
    rooms.append(&mut invited);
    assert(crate::config::strings_view(rooms@) =~= joined_view + invited_view);
    Ok(rooms)
}

/// A leave event as it was made and signed for a room: the room, the id of
/// the event, and its canonical bytes.
pub struct LeaveEvent {
    pub room_id: String,
    pub event_id: String,
    pub pdu_json: Vec<u8>,
}

/// The user has left the room: the pair is in the index of the rooms left,
/// and in neither the index of the rooms joined nor that of the
/// invitations.
pub open spec fn has_left(membership: crate::membership::Membership, user_id: Seq<char>, room_id: Seq<char>) -> bool {
    let place = crate::membership::pair_key(user_id, room_id);
    &&& membership.userroomid_leftstate@.contains_key(place)
    &&& !membership.userroomid_joined@.contains_key(place)
    &&& !membership.userroomid_invitestate@.contains_key(place)
}

/// The user has left every one of the rooms.
pub open spec fn has_left_all(
    membership: crate::membership::Membership,
    user_id: Seq<char>,
    rooms: Seq<Seq<char>>,
) -> bool {
    forall|i: int| 0 <= i < rooms.len() ==> has_left(membership, user_id, #[trigger] rooms[i])
}

/// What the deactivation needs of the counter, after auth has passed: it
/// can be read, and it has six counts for every leave event and one for
/// every room.
pub open spec fn deactivation_fault(db: Database, leaves: nat, rooms: nat) -> Option<Error> {
    if !counter_readable(db.globals.globals@) {
        Some(crate::globals::count_fault())
    } else if count_of(db.globals.globals@) + 6 * leaves + rooms > u64::MAX {
        Some(Error::BadDatabase("Counter is exhausted."))
    } else {
        None
    }
}

/// Whether the devices of the user can be read, which removing them asks.
pub open spec fn devices_readable(users: crate::users::Users, user_id: Seq<char>) -> Result<(), Error> {
    match last_fields(listing(users.userdeviceid_metadata@, with_prefix(user_prefix(user_id)))) {
        Some(_) => Ok(()),
        None => Err(Error::BadDatabase("Device ID in userdeviceid_metadata is invalid.")),
    }
}

/// # `POST /_matrix/client/r0/account/deactivate`
///
/// Deactivate this user's account, which requires the password stage of
/// user-interactive auth. The leave events, made and signed for the rooms
/// that the account is joined or invited to, are appended to their rooms.
/// Then the account has left every one of those rooms, also a room for
/// which no leave event was handed in, and its devices and the ability to
/// log in again are removed.
///
/// A request that does not pass auth, rooms that cannot be read and a
/// counter that cannot be read or has too few counts left change nothing
/// of the rooms and the users.
pub fn deactivate_route(
    db: &mut Database,
    sender_id: &str,
    device_id: &str,
    auth: &Option<AuthData>,
    leaves: &Vec<LeaveEvent>,
) -> (r: Result<(), Error>)
    requires
        old(db).wf(),
    ensures
        final(db).wf(),
        final(db).globals.config == old(db).globals.config,
        final(db).globals.servertimeout_signingkey == old(db).globals.servertimeout_signingkey,
        final(db).globals.rotate == old(db).globals.rotate,
        final(db).globals.has_keypair() == old(db).globals.has_keypair(),
        final(db).user_keys == old(db).user_keys,
        final(db).account_data == old(db).account_data,
        final(db).media == old(db).media,
        old(db).rooms.membership.exclusive() ==> final(db).rooms.membership.exclusive(),
        old(db).users.tokens_consistent() ==> final(db).users.tokens_consistent(),
        r is Ok ==> passes_auth(*old(db), sender_id@, device_id@, *auth, "m.login.password"@),
        !passes_auth(*old(db), sender_id@, device_id@, *auth, "m.login.password"@) ==> auth_refused(
            *old(db),
            sender_id@,
            device_id@,
            *auth,
            "m.login.password"@,
            r,
        ) && final(db).rooms == old(db).rooms && final(db).users == old(db).users
            && final(db).globals == old(db).globals,
        auth is None ==> match r {
            Err(e) => challenged(*final(db), *old(db), sender_id@, device_id@, "m.login.password"@, e),
            Ok(_) => false,
        },
        passes_auth(*old(db), sender_id@, device_id@, *auth, "m.login.password"@)
            ==> match rooms_to_leave(*old(db), sender_id@) {
            Err(e) => r == Err::<(), Error>(e) && final(db).rooms == old(db).rooms && final(db).users == old(db).users && final(db).globals == old(db).globals,
            Ok(rooms) => match deactivation_fault(*old(db), leaves@.len(), rooms.len()) {
                Some(e) => r == Err::<(), Error>(e) && final(db).rooms == old(db).rooms && final(db).users == old(db).users && final(db).globals == old(db).globals,
                None => (r is Ok ==> has_left_all(final(db).rooms.membership, sender_id@, rooms)
                    && final(db).users.deactivated(old(db).users, sender_id@)) && (r is Err
                    ==> final(db).users == old(db).users) && (leaves@.len() == 0 ==> r
                    == devices_readable(old(db).users, sender_id@)),
            },
        },
{
    match authorize(db, sender_id, device_id, auth, "m.login.password") {
        Ok(()) => {},
        Err(e) => {
            return Err(e);
        },
    }
    // Leave all joined rooms and reject all invitations
    let rooms = match rooms_to_leave_of(db, sender_id) {
        Ok(rooms) => rooms,
        Err(e) => {
            return Err(e);
        },
    };
    let count = match db.globals.current_count() {
        Ok(count) => count,
        Err(e) => {
            return Err(e);
        },
    };
    let needed: u128 = 6 * (leaves.len() as u128) + (rooms.len() as u128);
    if count as u128 + needed > u64::MAX as u128 {
        return Err(Error::bad_database("Counter is exhausted."));
    }
    let ghost start = count_of(db.globals.globals@);
    let ghost names = crate::config::strings_view(rooms@);
    let mut i: usize = 0;
    while i < leaves.len()
        invariant
            i <= leaves@.len(),
            passes_auth(*old(db), sender_id@, device_id@, *auth, "m.login.password"@),
            rooms_to_leave(*old(db), sender_id@) == Ok::<Seq<Seq<char>>, Error>(names),
            names.len() == rooms@.len(),
            deactivation_fault(*old(db), leaves@.len(), names.len()) is None,
            db.wf(),
            db.users == old(db).users,
            db.user_keys == old(db).user_keys,
            db.account_data == old(db).account_data,
            db.media == old(db).media,
            db.globals.config == old(db).globals.config,
            db.globals.servertimeout_signingkey == old(db).globals.servertimeout_signingkey,
            db.globals.rotate == old(db).globals.rotate,
            db.globals.has_keypair() == old(db).globals.has_keypair(),
            old(db).rooms.membership.exclusive() ==> db.rooms.membership.exclusive(),
            counter_readable(db.globals.globals@),
            count_of(db.globals.globals@) <= start + 6 * i,
            start + 6 * leaves@.len() + rooms@.len() <= u64::MAX,
        decreases leaves@.len() - i,
    {
        let leave = &leaves[i];
        let pdu = PduBuilder {
            room_id: leave.room_id.clone(),
            sender: sender_id.to_owned(),
            event_type: "m.room.member".to_owned(),
            content: "{\"membership\":\"leave\"}".to_owned(),
            unsigned: None,
            state_key: Some(sender_id.to_owned()),
            redacts: None,
        };
        let mut lru = new_state_cache(16);
        let no_invite: Vec<u8> = Vec::new();
        match append_pdu(
            &mut db.rooms,
            &pdu,
            leave.event_id.as_str(),
            leave.pdu_json.as_slice(),
            no_invite.as_slice(),
            None,
            &mut db.globals,
            &mut lru,
        ) {
            Ok(_) => {},
            Err(e) => {
                return Err(e);
            },
        }
        i = i + 1;
    }
    let ghost appended_count = count_of(db.globals.globals@);
    let mut j: usize = 0;
    while j < rooms.len()
        invariant
            j <= rooms@.len(),
            names == crate::config::strings_view(rooms@),
            passes_auth(*old(db), sender_id@, device_id@, *auth, "m.login.password"@),
            rooms_to_leave(*old(db), sender_id@) == Ok::<Seq<Seq<char>>, Error>(names),
            names.len() == rooms@.len(),
            deactivation_fault(*old(db), leaves@.len(), names.len()) is None,
            db.wf(),
            db.users == old(db).users,
            db.user_keys == old(db).user_keys,
            db.account_data == old(db).account_data,
            db.media == old(db).media,
            db.globals.config == old(db).globals.config,
            db.globals.servertimeout_signingkey == old(db).globals.servertimeout_signingkey,
            db.globals.rotate == old(db).globals.rotate,
            db.globals.has_keypair() == old(db).globals.has_keypair(),
            old(db).rooms.membership.exclusive() ==> db.rooms.membership.exclusive(),
            counter_readable(db.globals.globals@),
            count_of(db.globals.globals@) <= appended_count + j,
            appended_count + rooms@.len() <= u64::MAX,
            forall|k: int|
                0 <= k < j ==> has_left(db.rooms.membership, sender_id@, #[trigger] names[k]),
        decreases rooms@.len() - j,
    {
        let ghost before = db.rooms.membership;
        let nothing: Vec<u8> = Vec::new();
        match db.rooms.membership.update_membership(
            rooms[j].as_str(),
            sender_id,
            MembershipState::Leave,
            nothing.as_slice(),
            &mut db.globals,
        ) {
            Ok(()) => {},
            Err(e) => {
                return Err(e);
            },
        }
        proof {
            assert(names[j as int] == rooms@[j as int]@);
            assert forall|k: int| 0 <= k < j + 1 implies has_left(
                db.rooms.membership,
                sender_id@,
                #[trigger] names[k],
            ) by {
                if k < j {
                    assert(has_left(before, sender_id@, names[k]));
                }
            }
        }
        j = j + 1;
    }
    match db.users.deactivate_account(sender_id) {
        Ok(()) => Ok(()),
        Err(e) => Err(e),
    }
}

} // verus!
