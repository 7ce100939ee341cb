//! User-interactive authentication: sessions in which a client proves,
//! stage by stage, that it may do something sensitive.

use crate::error::{Error, ErrorKind};
use crate::globals::Globals;
use crate::ids::{parse_user_id, parsed_user_id};
use crate::users::Users;
use crate::utils::{
    argon2_verified, is_random_string, random_string, str_eq, verify_encoded,
};
use vstd::prelude::*;
use vstd::utf8::*;

verus! {

/// The length of a freshly drawn session id.
pub const SESSION_ID_LENGTH: usize = 256;

/// What an auth session has come to.
#[derive(Debug)]
pub struct UiaaInfo {
    /// The flows, each a list of stages, of which one must be completed.
    pub flows: Vec<Vec<String>>,
    /// The stages completed so far.
    pub completed: Vec<String>,
    /// The session's id, once it has one.
    pub session: Option<String>,
    /// The parameters of the stages, as JSON text.
    pub params: String,
    /// Why the last attempt failed, if it did.
    pub auth_error: Option<(ErrorKind, &'static str)>,
}

/// A [`UiaaInfo`] as plain values.
pub ghost struct UiaaInfoView {
    pub flows: Seq<Seq<Seq<char>>>,
    pub completed: Seq<Seq<char>>,
    pub session: Option<Seq<char>>,
    pub params: Seq<char>,
    pub auth_error: Option<(ErrorKind, &'static str)>,
}

/// The characters of each stage of each flow.
pub open spec fn flows_view(flows: Seq<Vec<String>>) -> Seq<Seq<Seq<char>>> {
    Seq::new(flows.len(), |i: int| crate::config::strings_view(flows[i]@))
}

impl View for UiaaInfo {
    type V = UiaaInfoView;

    open spec fn view(&self) -> UiaaInfoView {
        UiaaInfoView {
            flows: flows_view(self.flows@),
            completed: crate::config::strings_view(self.completed@),
            session: match self.session {
                Some(s) => Some(s@),
                None => None,
            },
            params: self.params@,
            auth_error: self.auth_error,
        }
    }
}

/// A copy of a list of strings.
pub fn clone_strings(list: &Vec<String>) -> (r: Vec<String>)
    ensures
        crate::config::strings_view(r@) == crate::config::strings_view(list@),
{
    let mut out: Vec<String> = Vec::new();
    let mut i: usize = 0;
    while i < list.len()
        invariant
            i <= list@.len(),
            out@.len() == i,
            forall|k: int| 0 <= k < i ==> (#[trigger] out@[k])@ == list@[k]@,
        decreases list@.len() - i,
    {
        out.push(list[i].clone());
        i = i + 1;
    }
    assert(crate::config::strings_view(out@) =~= crate::config::strings_view(list@));
    out
}

impl Clone for UiaaInfo {
    fn clone(&self) -> (r: UiaaInfo)
        ensures
            r@ == self@,
    {
        let mut flows: Vec<Vec<String>> = Vec::new();
        let mut i: usize = 0;
        while i < self.flows.len()
            invariant
                i <= self.flows@.len(),
                flows@.len() == i,
                forall|k: int|
                    0 <= k < i ==> crate::config::strings_view((#[trigger] flows@[k])@)
                        == crate::config::strings_view(self.flows@[k]@),
            decreases self.flows@.len() - i,
        {
            flows.push(clone_strings(&self.flows[i]));
            i = i + 1;
        }
        assert(flows_view(flows@) =~= flows_view(self.flows@));
        let r = UiaaInfo {
            flows,
            completed: clone_strings(&self.completed),
            session: match &self.session {
                Some(s) => Some(s.clone()),
                None => None,
            },
            params: self.params.clone(),
            auth_error: self.auth_error,
        };
        r
    }
}

/// What a client sends to complete one stage.
#[derive(Debug)]
pub struct AuthData {
    /// The stage the client claims to complete, such as `m.login.password`.
    pub kind: String,
    /// The session the attempt belongs to, if the client names one.
    pub session: Option<String>,
    /// The user the password belongs to, as full id or as localpart.
    pub user: Option<String>,
    /// The password, for the password stage.
    pub password: Option<String>,
}

/// Some list of `flows` has every one of its stages in `completed`.
pub open spec fn some_flow_completed(flows: Seq<Seq<Seq<char>>>, completed: Seq<Seq<char>>) -> bool {
    exists|i: int| 0 <= i < flows.len() && flow_completed(#[trigger] flows[i], completed)
}

/// Every stage of the flow is in `completed`.
pub open spec fn flow_completed(flow: Seq<Seq<char>>, completed: Seq<Seq<char>>) -> bool {
    forall|j: int| 0 <= j < flow.len() ==> completed.contains(#[trigger] flow[j])
}

/// The stage is one of the stages of the flows.
pub open spec fn stage_offered(flows: Seq<Seq<Seq<char>>>, stage: Seq<char>) -> bool {
    exists|i: int| 0 <= i < flows.len() && (#[trigger] flows[i]).contains(stage)
}

/// Whether `list` holds the string `s`.
pub fn contains_string(list: &Vec<String>, s: &str) -> (r: bool)
    ensures
        r == crate::config::strings_view(list@).contains(s@),
{
    let ghost view = crate::config::strings_view(list@);
    let mut i: usize = 0;
    while i < list.len()
        invariant
            i <= list@.len(),
            view == crate::config::strings_view(list@),
            forall|k: int| 0 <= k < i ==> view[k] != s@,
        decreases list@.len() - i,
    {
        if str_eq(list[i].as_str(), s) {
            assert(view[i as int] == s@);
            return true;
        }
        i = i + 1;
    }
    false
}

/// Whether every stage of `flow` is in `completed`.
fn is_flow_completed(flow: &Vec<String>, completed: &Vec<String>) -> (r: bool)
    ensures
        r == flow_completed(
            crate::config::strings_view(flow@),
            crate::config::strings_view(completed@),
        ),
{
    let ghost stages = crate::config::strings_view(flow@);
    let ghost done = crate::config::strings_view(completed@);
    let mut j: usize = 0;
    while j < flow.len()
        invariant
            j <= flow@.len(),
            stages == crate::config::strings_view(flow@),
            done == crate::config::strings_view(completed@),
            forall|k: int| 0 <= k < j ==> done.contains(#[trigger] stages[k]),
        decreases flow@.len() - j,
    {
        if !contains_string(completed, flow[j].as_str()) {
            assert(stages[j as int] == flow@[j as int]@);
            return false;
        }
        assert(stages[j as int] == flow@[j as int]@);
        j = j + 1;
    }
    true
}

impl UiaaInfo {
    /// Whether some flow has all its stages completed.
    pub fn is_completed(&self) -> (r: bool)
        ensures
            r == some_flow_completed(self@.flows, self@.completed),
    {
        let mut i: usize = 0;
        while i < self.flows.len()
            invariant
                i <= self.flows@.len(),
                forall|k: int|
                    0 <= k < i ==> !flow_completed(
                        (#[trigger] flows_view(self.flows@)[k]),
                        crate::config::strings_view(self.completed@),
                    ),
            decreases self.flows@.len() - i,
        {
            if is_flow_completed(&self.flows[i], &self.completed) {
                assert(flows_view(self.flows@)[i as int] == crate::config::strings_view(
                    self.flows@[i as int]@,
                ));
                return true;
            }
            assert(flows_view(self.flows@)[i as int] == crate::config::strings_view(
                self.flows@[i as int]@,
            ));
            i = i + 1;
        }
        false
    }

    /// Whether `stage` is a stage of some flow.
    pub fn offers(&self, stage: &str) -> (r: bool)
        ensures
            r == stage_offered(self@.flows, stage@),
    {
        let mut i: usize = 0;
        while i < self.flows.len()
            invariant
                i <= self.flows@.len(),
                forall|k: int|
                    0 <= k < i ==> !(#[trigger] flows_view(self.flows@)[k]).contains(stage@),
            decreases self.flows@.len() - i,
        {
            assert(flows_view(self.flows@)[i as int] == crate::config::strings_view(
                self.flows@[i as int]@,
            ));
            if contains_string(&self.flows[i], stage) {
                return true;
            }
            i = i + 1;
        }
        false
    }
}

/// One stored session.
struct Session {
    user_id: String,
    device_id: String,
    info: UiaaInfo,
}

/// The auth sessions that are under way, by user, device and session id.
pub struct Uiaa {
    sessions: Vec<Session>,
}

/// The name of a session: the user, the device and the session id.
pub type SessionKey = (Seq<char>, Seq<char>, Seq<char>);

impl Uiaa {
    /// The sessions under way: what each has come to.
    pub closed spec fn view(&self) -> Map<SessionKey, UiaaInfoView> {
        Map::new(
            |key: SessionKey| exists|i: int| self.holds(i, key),
            |key: SessionKey| self.sessions@[choose|i: int| self.holds(i, key)].info@,
        )
    }

    closed spec fn holds(&self, i: int, key: SessionKey) -> bool {
        &&& 0 <= i < self.sessions@.len()
        &&& self.sessions@[i].user_id@ == key.0
        &&& self.sessions@[i].device_id@ == key.1
        &&& self.sessions@[i].info.session matches Some(s)
        &&& s@ == key.2
    }

    /// No two stored sessions have the same name, and each has an id.
    pub closed spec fn wf(&self) -> bool {
        &&& forall|i: int| 0 <= i < self.sessions@.len() ==> (
        #[trigger] self.sessions@[i]).info.session is Some
        &&& forall|i: int, j: int, key: SessionKey|
            self.holds(i, key) && self.holds(j, key) ==> i == j
    }

    /// No session is under way.
    pub fn new() -> (r: Uiaa)
        ensures
            r.wf(),
            r.view() == Map::<SessionKey, UiaaInfoView>::empty(),
    {
        let r = Uiaa { sessions: Vec::new() };
        assert(r.view() =~= Map::<SessionKey, UiaaInfoView>::empty());
        r
    }

    fn position(&self, user_id: &str, device_id: &str, session: &str) -> (r: Option<usize>)
        requires
            self.wf(),
        ensures
            match r {
                Some(i) => self.holds(i as int, (user_id@, device_id@, session@)),
                None => forall|i: int| !self.holds(i, (user_id@, device_id@, session@)),
            },
    {
        let mut i: usize = 0;
        while i < self.sessions.len()
            invariant
                i <= self.sessions@.len(),
                forall|k: int| 0 <= k < i ==> !self.holds(k, (user_id@, device_id@, session@)),
            decreases self.sessions@.len() - i,
        {
            let found = match &self.sessions[i].info.session {
                Some(s) => str_eq(s.as_str(), session) && str_eq(
                    self.sessions[i].user_id.as_str(),
                    user_id,
                ) && str_eq(self.sessions[i].device_id.as_str(), device_id),
                None => false,
            };
            if found {
                return Some(i);
            }
            i = i + 1;
        }
        None
    }

    /// What the session has come to.
    pub fn get_uiaa_session(&self, user_id: &str, device_id: &str, session: &str) -> (r: Result<
        UiaaInfo,
        Error,
    >)
        requires
            self.wf(),
        ensures
            match r {
                Ok(info) => self.view().contains_key((user_id@, device_id@, session@))
                    && self.view()[(user_id@, device_id@, session@)] == info@,
                Err(e) => !self.view().contains_key((user_id@, device_id@, session@)) && e
                    == Error::BadRequest(ErrorKind::Forbidden, "UIAA session does not exist."),
            },
    {
        match self.position(user_id, device_id, session) {
            Some(i) => {
                proof {
                    let key = (user_id@, device_id@, session@);
                    let j = choose|j: int| self.holds(j, key);
                    assert(self.holds(i as int, key) && self.holds(j, key));
                }
                Ok(self.sessions[i].info.clone())
            },
            None => Err(Error::BadRequest(ErrorKind::Forbidden, "UIAA session does not exist.")),
        }
    }

    /// Stores what a session has come to, or ends the session.
    pub fn update_uiaa_session(
        &mut self,
        user_id: &str,
        device_id: &str,
        session: &str,
        uiaainfo: Option<&UiaaInfo>,
    )
        requires
            old(self).wf(),
            uiaainfo matches Some(info) ==> info@.session == Some(session@),
        ensures
            final(self).wf(),
            final(self).view() == match uiaainfo {
                Some(info) => old(self).view().insert((user_id@, device_id@, session@), info@),
                None => old(self).view().remove((user_id@, device_id@, session@)),
            },
    {
        let ghost key = (user_id@, device_id@, session@);
        let ghost before = *self;
        match self.position(user_id, device_id, session) {
            Some(i) => {
                self.sessions.remove(i);
                proof {
                    assert forall|j: int, k: SessionKey| self.holds(j, k) implies before.holds(
                        if j < i {
                            j
                        } else {
                            j + 1
                        },
                        k,
                    ) by {}
                    assert forall|j: int, k: SessionKey|
                        before.holds(j, k) && j != i implies self.holds(
                        if j < i {
                            j
                        } else {
                            j - 1
                        },
                        k,
                    ) by {}
                    assert forall|k: SessionKey|
                        self.view().contains_key(k) == before.view().remove(key).contains_key(
                            k,
                        ) by {
                        if self.view().contains_key(k) {
                            let j = choose|j: int| self.holds(j, k);
                            let oj = if j < i {
                                j
                            } else {
                                j + 1
                            };
                            assert(before.holds(oj, k));
                            if k == key {
                                assert(before.holds(i as int, key));
                            }
                        }
                        if before.view().contains_key(k) && k != key {
                            let j = choose|j: int| before.holds(j, k);
                            assert(j != i);
                            assert(self.holds(
                                if j < i {
                                    j
                                } else {
                                    j - 1
                                },
                                k,
                            ));
                        }
                    }
                    assert forall|k: SessionKey| self.view().contains_key(k) implies self.view()[k]
                        == before.view()[k] by {
                        let j = choose|j: int| self.holds(j, k);
                        let oj = if j < i {
                            j
                        } else {
                            j + 1
                        };
                        assert(before.holds(oj, k));
                        let c = choose|c: int| before.holds(c, k);
                        assert(before.holds(c, k) && before.holds(oj, k));
                    }
                    assert(self.view() =~= before.view().remove(key));
                    assert(self.wf()) by {
                        assert forall|a: int, b: int, k: SessionKey|
                            self.holds(a, k) && self.holds(b, k) implies a == b by {
                            let oa = if a < i {
                                a
                            } else {
                                a + 1
                            };
                            let ob = if b < i {
                                b
                            } else {
                                b + 1
                            };
                            assert(before.holds(oa, k) && before.holds(ob, k));
                        }
                    }
                }
            },
            None => {
                assert(self.view() =~= before.view().remove(key));
            },
        }
        match uiaainfo {
            Some(info) => {
                let ghost mid = *self;
                let ghost n = self.sessions@.len() as int;
                self.sessions.push(
                    Session {
                        user_id: user_id.to_owned(),
                        device_id: device_id.to_owned(),
                        info: info.clone(),
                    },
                );
                proof {
                    assert(!mid.view().contains_key(key));
                    assert(self.holds(n, key));
                    assert forall|j: int, k: SessionKey| mid.holds(j, k) implies self.holds(
                        j,
                        k,
                    ) by {}
                    assert forall|j: int, k: SessionKey| self.holds(j, k) && j != n implies mid.holds(
                        j,
                        k,
                    ) by {}
                    assert(self.wf()) by {
                        assert forall|a: int, b: int, k: SessionKey|
                            self.holds(a, k) && self.holds(b, k) implies a == b by {
                            if a != n && b != n {
                                assert(mid.holds(a, k) && mid.holds(b, k));
                            } else if a != n {
                                assert(mid.holds(a, k));
                                assert(mid.view().contains_key(key));
                            } else if b != n {
                                assert(mid.holds(b, k));
                                assert(mid.view().contains_key(key));
                            }
                        }
                    }
                    assert forall|k: SessionKey|
                        self.view().contains_key(k) == mid.view().insert(key, info@).contains_key(
                            k,
                        ) by {
                        if self.view().contains_key(k) {
                            let j = choose|j: int| self.holds(j, k);
                            if j != n {
                                assert(mid.holds(j, k));
                            }
                        }
                        if mid.view().contains_key(k) {
                            let j = choose|j: int| mid.holds(j, k);
                            assert(self.holds(j, k));
                        }
                    }
                    assert forall|k: SessionKey| self.view().contains_key(k) implies self.view()[k]
                        == mid.view().insert(key, info@)[k] by {
                        let j = choose|j: int| self.holds(j, k);
                        if k == key {
                            assert(self.holds(n, key) && self.holds(j, key));
                        } else {
                            assert(mid.holds(j, k));
                            let c = choose|c: int| mid.holds(c, k);
                            assert(mid.holds(c, k) && mid.holds(j, k));
                        }
                    }
                    assert(self.view() =~= mid.view().insert(key, info@));
                    assert(mid.view().insert(key, info@) =~= before.view().insert(key, info@));
                }
            },
            None => {},
        }
    }

    /// Creates a new Uiaa session. Make sure the session token is unique.
    pub fn create(&mut self, user_id: &str, device_id: &str, uiaainfo: &UiaaInfo)
        requires
            old(self).wf(),
            uiaainfo.session is Some,
        ensures
            final(self).wf(),
            final(self).view() == old(self).view().insert(
                (user_id@, device_id@, uiaainfo@.session->Some_0),
                uiaainfo@,
            ),
    {
        let session = match &uiaainfo.session {
            Some(s) => s.clone(),
            None => String::new(),
        };
        self.update_uiaa_session(user_id, device_id, session.as_str(), Some(uiaainfo));
    }
}


/// Why a stage was not accepted, if it was not.
pub type Rejection = Option<(ErrorKind, &'static str)>;

/// Whether the account's stored password lets the password through: a
/// stored hash must verify it; an account without a stored hash has
/// nothing to verify.
pub open spec fn password_passes(stored: Option<Seq<u8>>, password: Seq<char>) -> Result<
    bool,
    Error,
> {
    match stored {
        None => Ok(true),
        Some(hash) => if !valid_utf8(hash) {
            Err(Error::BadDatabase("Password hash in db is not valid string."))
        } else {
            Ok(argon2_verified(decode_utf8(hash), encode_utf8(password)) == Some(true))
        },
    }
}

/// What is made of one attempt at a stage: an error for a request that
/// cannot be judged, else whether the stage is accepted. A stage that the flows
/// do not offer, or that is neither the password nor the dummy stage, is
/// not recognized; the dummy stage is always accepted; the password stage
/// is accepted where the password passes.
pub open spec fn stage_rejection(
    flows: Seq<Seq<Seq<char>>>,
    kind: Seq<char>,
    user: Option<Seq<char>>,
    password: Option<Seq<char>>,
    server_name: Seq<char>,
    passwords: Map<Seq<u8>, Seq<u8>>,
) -> Result<Rejection, Error> {
    if !stage_offered(flows, kind) {
        Ok(Some((ErrorKind::Unrecognized, "Authentication stage not recognized.")))
    } else if kind == "m.login.password"@ {
        match user {
            None => Err(Error::BadRequest(ErrorKind::MissingParam, "Identifier needs user field.")),
            Some(name) => match parsed_user_id(name, server_name) {
                None => Err(Error::BadRequest(ErrorKind::InvalidParam, "User ID is invalid.")),
                Some(parsed) => match password {
                    None => Err(
                        Error::BadRequest(ErrorKind::MissingParam, "Password is missing."),
                    ),
                    Some(p) => {
                        let key = encode_utf8(parsed.0);
                        let stored = if passwords.contains_key(key) {
                            Some(passwords[key])
                        } else {
                            None
                        };
                        match password_passes(stored, p) {
                            Err(e) => Err(e),
                            Ok(true) => Ok(None),
                            Ok(false) => Ok(
                                Some((ErrorKind::Forbidden, "Invalid username or password.")),
                            ),
                        }
                    },
                },
            },
        }
    } else if kind == "m.login.dummy"@ {
        Ok(None)
    } else {
        Ok(Some((ErrorKind::Unrecognized, "Authentication stage not recognized.")))
    }
}

/// Judges one attempt at a stage.
pub fn check_stage(info: &UiaaInfo, auth: &AuthData, users: &Users, globals: &Globals) -> (r: Result<
    Rejection,
    Error,
>)
    requires
        users.wf(),
    ensures
        r == stage_rejection(
            info@.flows,
            auth.kind@,
            match auth.user {
                Some(s) => Some(s@),
                None => None,
            },
            match auth.password {
                Some(s) => Some(s@),
                None => None,
            },
            globals.config.server_name@,
            users.userid_password@,
        ),
{
    if !info.offers(auth.kind.as_str()) {
        return Ok(Some((ErrorKind::Unrecognized, "Authentication stage not recognized.")));
    }
    if str_eq(auth.kind.as_str(), "m.login.password") {
        let name = match &auth.user {
            Some(name) => name,
            None => {
                return Err(
                    Error::BadRequest(ErrorKind::MissingParam, "Identifier needs user field."),
                );
            },
        };
        let parsed = match parse_user_id(name.as_str(), globals.server_name()) {
            Some(parsed) => parsed,
            None => {
                return Err(Error::BadRequest(ErrorKind::InvalidParam, "User ID is invalid."));
            },
        };
        let password = match &auth.password {
            Some(password) => password,
            None => {
                return Err(Error::BadRequest(ErrorKind::MissingParam, "Password is missing."));
            },
        };
        // Check if password is correct
        match users.password_hash(parsed.id.as_str()) {
            Err(e) => Err(e),
            Ok(None) => Ok(None),
            Ok(Some(hash)) => {
                proof {
                    let stored = users.userid_password@[encode_utf8(parsed.id@)];
                    decode_utf8_encode_utf8(stored);
                }
                let hash_matches = match verify_encoded(hash.as_str(), password.as_str().as_bytes()) {
                    Some(matches) => matches,
                    None => false,
                };
                if hash_matches {
                    Ok(None)
                } else {
                    Ok(Some((ErrorKind::Forbidden, "Invalid username or password.")))
                }
            },
        }
    } else if str_eq(auth.kind.as_str(), "m.login.dummy") {
        Ok(None)
    } else {
        Ok(Some((ErrorKind::Unrecognized, "Authentication stage not recognized.")))
    }
}

/// What an auth session has come to after one attempt: an accepted stage
/// is added to the completed ones, and a rejected one leaves its reason.
pub open spec fn advanced(info: UiaaInfoView, kind: Seq<char>, rejection: Rejection) -> UiaaInfoView {
    match rejection {
        None => UiaaInfoView {
            flows: info.flows,
            completed: info.completed.push(kind),
            session: info.session,
            params: info.params,
            auth_error: info.auth_error,
        },
        Some(reason) => UiaaInfoView {
            flows: info.flows,
            completed: info.completed,
            session: info.session,
            params: info.params,
            auth_error: Some(reason),
        },
    }
}

/// The characters of a string that may be missing.
pub open spec fn text_of(s: Option<String>) -> Option<Seq<char>> {
    match s {
        Some(s) => Some(s@),
        None => None,
    }
}

/// The session that an attempt goes on from: the stored one that it names,
/// or a new one that starts from `uiaainfo`. None where it names a session
/// that is not stored.
pub open spec fn attempt_start(
    sessions: Map<SessionKey, UiaaInfoView>,
    user_id: Seq<char>,
    device_id: Seq<char>,
    auth: AuthData,
    uiaainfo: UiaaInfoView,
) -> Option<UiaaInfoView> {
    match auth.session {
        Some(session) => if sessions.contains_key((user_id, device_id, session@)) {
            Some(sessions[(user_id, device_id, session@)])
        } else {
            None
        },
        None => Some(uiaainfo),
    }
}

/// Whether the stage that an attempt claims is rejected in a session, and
/// why.
pub open spec fn attempt_rejection(
    start: UiaaInfoView,
    auth: AuthData,
    server_name: Seq<char>,
    passwords: Map<Seq<u8>, Seq<u8>>,
) -> Result<Rejection, Error> {
    stage_rejection(
        start.flows,
        auth.kind@,
        text_of(auth.user),
        text_of(auth.password),
        server_name,
        passwords,
    )
}

/// Whether an attempt completes its session: the session is there, the
/// stage is accepted, and with it some flow has all its stages completed.
pub open spec fn attempt_completes(
    sessions: Map<SessionKey, UiaaInfoView>,
    user_id: Seq<char>,
    device_id: Seq<char>,
    auth: AuthData,
    uiaainfo: UiaaInfoView,
    server_name: Seq<char>,
    passwords: Map<Seq<u8>, Seq<u8>>,
) -> bool {
    match attempt_start(sessions, user_id, device_id, auth, uiaainfo) {
        None => false,
        Some(start) => attempt_rejection(start, auth, server_name, passwords) == Ok::<
            Rejection,
            Error,
        >(None) && some_flow_completed(start.flows, start.completed.push(auth.kind@)),
    }
}

/// What a request is answered when its attempt does not complete its
/// session: the error that stopped the attempt, or the auth challenge with
/// what the session has come to.
pub open spec fn attempt_refused(
    sessions: Map<SessionKey, UiaaInfoView>,
    user_id: Seq<char>,
    device_id: Seq<char>,
    auth: AuthData,
    uiaainfo: UiaaInfoView,
    server_name: Seq<char>,
    passwords: Map<Seq<u8>, Seq<u8>>,
    e: Error,
) -> bool {
    match attempt_start(sessions, user_id, device_id, auth, uiaainfo) {
        None => e == Error::BadRequest(ErrorKind::Forbidden, "UIAA session does not exist."),
        Some(start) => match attempt_rejection(start, auth, server_name, passwords) {
            Err(fault) => e == fault,
            Ok(rejection) => match e {
                Error::Uiaa(info) => info@.session is Some && (start.session is Some
                    ==> info@.session == start.session) && (start.session is None
                    ==> is_random_string(info@.session->Some_0, SESSION_ID_LENGTH as nat))
                    && info@ == advanced(
                    UiaaInfoView {
                        flows: start.flows,
                        completed: start.completed,
                        session: info@.session,
                        params: start.params,
                        auth_error: start.auth_error,
                    },
                    auth.kind@,
                    rejection,
                ),
                _ => false,
            },
        },
    }
}

/// The session `after` is `before` without a session of the user's device:
/// the one that the attempt went on from, where it was a stored one.
pub open spec fn session_closed(
    after: Map<SessionKey, UiaaInfoView>,
    before: Map<SessionKey, UiaaInfoView>,
    user_id: Seq<char>,
    device_id: Seq<char>,
    start: UiaaInfoView,
) -> bool {
    exists|session: Seq<char>|
        #![trigger before.remove((user_id, device_id, session))]
        after == before.remove((user_id, device_id, session)) && (start.session is Some
            ==> start.session == Some(session))
}

/// What an attempt leaves of the sessions that are stored: an attempt that
/// is stopped or rejected leaves them as they were, an accepted stage that
/// completes no flow is stored with its session, and a completed session is
/// removed.
pub open spec fn attempt_stored(
    after: Map<SessionKey, UiaaInfoView>,
    before: Map<SessionKey, UiaaInfoView>,
    user_id: Seq<char>,
    device_id: Seq<char>,
    auth: AuthData,
    uiaainfo: UiaaInfoView,
    server_name: Seq<char>,
    passwords: Map<Seq<u8>, Seq<u8>>,
    r: Result<(), Error>,
) -> bool {
    match attempt_start(before, user_id, device_id, auth, uiaainfo) {
        None => after == before,
        Some(start) => match attempt_rejection(start, auth, server_name, passwords) {
            Ok(None) => match r {
                Ok(_) => session_closed(after, before, user_id, device_id, start),
                Err(Error::Uiaa(info)) => info@.session is Some && after == before.insert(
                    (user_id, device_id, info@.session->Some_0),
                    info@,
                ),
                Err(_) => false,
            },
            _ => after == before,
        },
    }
}

impl Uiaa {
    /// Takes one attempt at a stage of an auth session and says whether the
    /// session is completed: whether, with the stage accepted, some flow has
    /// all its stages completed.
    ///
    /// The session is the stored one that the attempt names, or else a new
    /// one that starts from `uiaainfo` under a fresh random id. An accepted
    /// stage that does not complete a flow is stored with the session; a
    /// completed session is removed; a rejected stage changes nothing that
    /// is stored and comes back with its reason.
    pub fn try_auth(
        &mut self,
        user_id: &str,
        device_id: &str,
        auth: &AuthData,
        uiaainfo: &UiaaInfo,
        users: &Users,
        globals: &Globals,
    ) -> (r: Result<(bool, UiaaInfo), Error>)
        requires
            old(self).wf(),
            users.wf(),
        ensures
            final(self).wf(),
            ({
                let named = match auth.session {
                    Some(s) => Some(s@),
                    None => None,
                };
                let missing = named is Some && !old(self).view().contains_key(
                    (user_id@, device_id@, named->Some_0),
                );
                let start = if named is Some {
                    old(self).view()[(user_id@, device_id@, named->Some_0)]
                } else {
                    uiaainfo@
                };
                let rejection = stage_rejection(
                    start.flows,
                    auth.kind@,
                    match auth.user {
                        Some(s) => Some(s@),
                        None => None,
                    },
                    match auth.password {
                        Some(s) => Some(s@),
                        None => None,
                    },
                    globals.config.server_name@,
                    users.userid_password@,
                );
                if missing {
                    r matches Err(e) && e == Error::BadRequest(
                        ErrorKind::Forbidden,
                        "UIAA session does not exist.",
                    ) && final(self).view() == old(self).view()
                } else {
                    match rejection {
                        Err(fault) => r matches Err(e)
                            && e == fault
                            && final(self).view() == old(self).view(),
                        Ok(v) => r matches Ok(out) && out.1@.session is Some && (start.session is Some
                            ==> out.1@.session == start.session) && (start.session is None
                            ==> is_random_string(
                            out.1@.session->Some_0,
                            SESSION_ID_LENGTH as nat,
                        )) && out.1@ == advanced(
                            UiaaInfoView {
                                flows: start.flows,
                                completed: start.completed,
                                session: out.1@.session,
                                params: start.params,
                                auth_error: start.auth_error,
                            },
                            auth.kind@,
                            v,
                        ) && out.0 == (v is None && some_flow_completed(
                            out.1@.flows,
                            out.1@.completed,
                        )) && final(self).view() == (if v is Some {
                            old(self).view()
                        } else if out.0 {
                            old(self).view().remove(
                                (user_id@, device_id@, out.1@.session->Some_0),
                            )
                        } else {
                            old(self).view().insert(
                                (user_id@, device_id@, out.1@.session->Some_0),
                                out.1@,
                            )
                        }),
                    }
                }
            }),
    {
        let mut info = match &auth.session {
            Some(session) => match self.get_uiaa_session(user_id, device_id, session.as_str()) {
                Ok(info) => info,
                Err(e) => {
                    return Err(e);
                },
            },
            None => uiaainfo.clone(),
        };
        let ghost start = info@;
        if info.session.is_none() {
            info.session = Some(random_string(SESSION_ID_LENGTH));
        }
        let session = match &info.session {
            Some(s) => s.clone(),
            None => String::new(),
        };
        // Find out what the user completed
        let rejection = match check_stage(&info, auth, users, globals) {
            Ok(rejection) => rejection,
            Err(e) => {
                return Err(e);
            },
        };
        match rejection {
            Some(reason) => {
                info.auth_error = Some(reason);
                return Ok((false, info));
            },
            None => {},
        }
        let ghost before = crate::config::strings_view(info.completed@);
        info.completed.push(auth.kind.clone());
        assert(crate::config::strings_view(info.completed@) =~= before.push(auth.kind@));
        // Check if a flow now succeeds
        if !info.is_completed() {
            self.update_uiaa_session(user_id, device_id, session.as_str(), Some(&info));
            return Ok((false, info));
        }
        // UIAA was successful! Remove this session and return true
        self.update_uiaa_session(user_id, device_id, session.as_str(), None);
        Ok((true, info))
    }
}

} // verus!
